use wenku8::chapters::{parse_catalog, CatalogCell, CatalogLink, CatalogChapter};
use wenku8::consts::{BASE_URL, IMG_URL, KNOWN_TAGS};
use wenku8::details::{
    description_from_span, detail_description, detail_tags, first_cell_index, parse_details,
    DetailsPage,
    ImageAttrs, SpanContent,
};
use wenku8::filters::{
    choose_tags, collect_tag_links, collect_tags, is_tag_filter, known_tags,
    parse_search_filters, tag_filter, tag_filter_options, FilterInput, TagLink,
};
use wenku8::home::{
    clean_home_manga_title, clean_home_title, dedupe_home_components, home_listing_for_title,
    home_section_links, home_section_title, is_promote_home_title, is_recent_update_home_title,
    parse_home, parse_home_book_component, parse_home_card, parse_home_link,
    parse_home_promote_component, CardData, CardImage, HomePage, HomeSection, LinkData, LinkInfo,
    SectionData, SectionLayout,
};
use wenku8::listing::{
    has_next_page, parse_manga_card, parse_manga_list, parse_single_result, ListCard, ListPage,
    SinglePage,
};
use wenku8::model::{ContentRating, Manga, MangaStatus, Viewer, SourceError};
use wenku8::number::Number;

fn s(x: &str) -> String {
    x.to_string()
}

fn so(x: &str) -> Option<String> {
    Some(x.to_string())
}

fn book(key: &str, title: &str) -> Manga {
    Manga {
        key: s(key),
        title: s(title),
        cover: None,
        url: None,
        authors: None,
        artists: None,
        description: None,
        tags: None,
        status: MangaStatus::Unknown,
        content_rating: ContentRating::Unknown,
        viewer: Viewer::Unknown,
    }
}

fn link(href: &str, text: &str) -> CatalogLink {
    CatalogLink { text: so(text), href: so(href) }
}

fn volume(text: &str) -> CatalogCell {
    CatalogCell { class: so("vcss"), text: so(text), links: None }
}

fn chapters(links: Vec<CatalogLink>) -> CatalogCell {
    CatalogCell { class: so("ccss"), text: None, links: Some(links) }
}

fn whole(n: &Option<Number>) -> Option<u64> {
    match n {
        Some(Number::Whole(v)) => Some(*v),
        _ => None,
    }
}

fn decimal(n: &Option<Number>) -> Option<String> {
    match n {
        Some(Number::Decimal(t)) => Some(t.clone()),
        _ => None,
    }
}

// ---------------------------------------------------------------------------
// The catalog
// ---------------------------------------------------------------------------

#[test]
fn catalog_lists_chapters_newest_first_with_volume_numbers() {
    let base = format!("{BASE_URL}/novel/2/2580/index.htm");
    let cells = vec![
        volume("第一卷 出发"),
        chapters(vec![link("100.htm", "第一章 起点"), link("101.htm", "【插图】")]),
        CatalogCell { class: so("other"), text: None, links: Some(vec![link("999.htm", "x")]) },
        volume("短篇"),
        chapters(vec![link("200.htm", "  "), link("", "空"), link("201.htm", "后记")]),
    ];
    let list: Vec<CatalogChapter> = parse_catalog(Some(cells), &base).unwrap();
    assert_eq!(list.len(), 3);
    assert_eq!(list[0].key, "201");
    assert_eq!(list[0].title, so("后记"));
    assert_eq!(list[0].chapter_number, 1);
    assert_eq!(whole(&list[0].volume), Some(2));
    assert_eq!(list[0].url, format!("{BASE_URL}/novel/2/2580/201.htm"));
    assert_eq!(list[0].language, "zh");
    assert_eq!(list[1].key, "101");
    assert_eq!(list[1].title, None);
    assert_eq!(list[1].chapter_number, 2);
    assert_eq!(whole(&list[1].volume), Some(1));
    assert_eq!(list[2].key, "100");
    assert_eq!(list[2].title, so("起点"));
    assert_eq!(list[2].chapter_number, 1);
}

#[test]
fn chapters_before_any_volume_have_none() {
    let cells = vec![chapters(vec![link("/novel/0/5/7.htm", "序章 开端")])];
    let list = parse_catalog(Some(cells), "https://h/novel/0/5/index.htm").unwrap();
    assert_eq!(list.len(), 1);
    assert!(list[0].volume.is_none());
    assert_eq!(list[0].url, format!("{BASE_URL}/novel/0/5/7.htm"));
    assert_eq!(list[0].title, so("序章 开端"));
}

#[test]
fn volume_numbers_count_only_above_zero() {
    let cells = vec![
        volume("第0卷"),
        chapters(vec![link("1.htm", "甲")]),
        volume("第零卷"),
        chapters(vec![link("2.htm", "乙")]),
        volume("第0.5卷"),
        chapters(vec![link("3.htm", "丙")]),
    ];
    let list = parse_catalog(Some(cells), "x").unwrap();
    assert_eq!(list.len(), 3);
    assert_eq!(decimal(&list[0].volume), Some(s("0.5")));
    assert!(list[1].volume.is_none());
    assert!(list[2].volume.is_none());
}

#[test]
fn catalog_errors() {
    assert_eq!(parse_catalog(None, "x").err(), Some(SourceError::CatalogMissing));
    assert_eq!(
        parse_catalog(Some(vec![volume("第一卷")]), "x").err(),
        Some(SourceError::CatalogEmpty)
    );
}

// ---------------------------------------------------------------------------
// The details page
// ---------------------------------------------------------------------------

fn span(text: &str) -> SpanContent {
    SpanContent { html: None, untrimmed: so(text), text: so(text.trim()) }
}

#[test]
fn description_prefers_the_sixth_span() {
    let mut spans: Vec<SpanContent> = (0..5).map(|i| span(&format!("点击数：{i}"))).collect();
    spans.push(span("第六段简介"));
    spans.push(span("最后的简介"));
    assert_eq!(detail_description(&spans), so("第六段简介"));
    spans[5] = span("文章状态：连载");
    assert_eq!(detail_description(&spans), so("最后的简介"));
    assert_eq!(detail_description(&vec![span("点击数：1")]), None);
}

#[test]
fn description_from_markup_with_breaks() {
    let sp = SpanContent {
        html: so("第一行<br />第二行&amp;"),
        untrimmed: so("ignored"),
        text: so("ignored"),
    };
    assert_eq!(description_from_span(&sp), so("第一行\n第二行&"));
    let plain = SpanContent { html: so("<b>x</b>"), untrimmed: None, text: so("粗体") };
    assert_eq!(description_from_span(&plain), so("粗体"));
}

#[test]
fn tags_come_from_the_tag_line() {
    let spans = vec![span("小说作者：某人"), span("作品Tags：校园 恋爱  治愈")];
    assert_eq!(detail_tags(&spans), Some(vec![s("校园"), s("恋爱"), s("治愈")]));
    assert_eq!(detail_tags(&vec![span("无")]), None);
}

#[test]
fn details_fill_the_book() {
    let page = DetailsPage {
        has_content: true,
        title: so("某本书"),
        cover: Some(ImageAttrs { src: so("/image/2/2580/2580s.jpg"), abs_src: None }),
        cells: Some(vec![
            s("文库分类：电击文库"),
            s("小说作者：作者甲"),
            s("文章状态：已完成"),
            s("小說作者：作者乙"),
        ]),
        detail_cells: vec![None, Some(Some(vec![span("作品Tags：奇幻"), span("简介正文")])), Some(None)],
    };
    let mut manga = book("2580", "旧标题");
    assert_eq!(parse_details(&page, &mut manga), Ok(()));
    assert_eq!(manga.title, "某本书");
    assert_eq!(manga.cover, Some(format!("{IMG_URL}/image/2/2580/2580s.jpg")));
    assert_eq!(manga.url, Some(format!("{BASE_URL}/book/2580.htm")));
    assert_eq!(manga.authors, Some(vec![s("作者甲")]));
    assert_eq!(manga.artists, Some(vec![s("作者甲")]));
    assert_eq!(manga.status, MangaStatus::Completed);
    assert_eq!(manga.tags, Some(vec![s("奇幻")]));
    assert_eq!(manga.description, so("简介正文"));
    assert_eq!(manga.content_rating, ContentRating::Safe);
    assert_eq!(manga.viewer, Viewer::Vertical);
}

#[test]
fn the_first_detail_cell_found_is_read() {
    let page = DetailsPage {
        has_content: true,
        title: None,
        cover: None,
        cells: None,
        detail_cells: vec![None, Some(None), Some(Some(vec![span("作品Tags：奇幻")]))],
    };
    let mut manga = book("3", "t");
    manga.tags = Some(vec![s("旧")]);
    manga.description = so("旧简介");
    assert_eq!(parse_details(&page, &mut manga), Ok(()));
    assert_eq!(manga.tags, None);
    assert_eq!(manga.description, None);
    assert_eq!(first_cell_index(&page.detail_cells), Some(1));
    assert_eq!(first_cell_index(&vec![None, None]), None);
}

#[test]
fn details_without_content_are_an_error() {
    let page = DetailsPage {
        has_content: false,
        title: so("x"),
        cover: None,
        cells: None,
        detail_cells: vec![],
    };
    let mut manga = book("1", "keep");
    assert_eq!(parse_details(&page, &mut manga), Err(SourceError::DetailsMissing));
    assert_eq!(manga.title, "keep");
    assert_eq!(manga.url, None);
}

// ---------------------------------------------------------------------------
// Lists of books
// ---------------------------------------------------------------------------

fn info(href: &str, title: Option<&str>, text: Option<&str>) -> LinkInfo {
    LinkInfo { href: so(href), title: title.map(s), text: text.map(s) }
}

fn list_card(href: &str, title: &str, info_text: Option<&str>) -> ListCard {
    ListCard {
        book_link: Some(info(href, Some(title), None)),
        bold_link_text: None,
        img: None,
        info: info_text.map(s),
    }
}

#[test]
fn list_cards_give_books() {
    let card = list_card("/book/12.htm", "书名", Some("作者：乙/状态 连载中"));
    let m = parse_manga_card(&card).unwrap();
    assert_eq!(m.key, "12");
    assert_eq!(m.title, "书名");
    assert_eq!(m.url, Some(format!("{BASE_URL}/book/12.htm")));
    assert_eq!(m.authors, Some(vec![s("乙")]));
    assert_eq!(m.status, MangaStatus::Ongoing);
    assert!(parse_manga_card(&list_card("/book/12.htm", "  ", None)).is_none());
    assert!(parse_manga_card(&list_card("/about.htm", "x", None)).is_none());
    let bold = ListCard {
        book_link: Some(info("/book/5.htm", None, Some("链接文字"))),
        bold_link_text: so("粗体标题"),
        img: None,
        info: None,
    };
    assert_eq!(parse_manga_card(&bold).unwrap().title, "粗体标题");
}

fn empty_details() -> DetailsPage {
    DetailsPage { has_content: false, title: None, cover: None, cells: None, detail_cells: vec![] }
}

#[test]
fn list_page_keeps_each_book_once_and_reads_the_pager() {
    let page = ListPage {
        width_cards: Some(vec![
            list_card("/book/1.htm", "一", None),
            list_card("/book/2.htm", "二", None),
            list_card("/book/1.htm", "重复", None),
        ]),
        table_cards: Some(vec![list_card("/book/9.htm", "九", None)]),
        single: SinglePage { hrefs: vec![], title: None, cover: None },
        details: empty_details(),
        has_next_link: false,
        last_text: so(" 3 "),
    };
    let r = parse_manga_list(&page, 2);
    let keys: Vec<&str> = r.entries.iter().map(|m| m.key.as_str()).collect();
    assert_eq!(keys, vec!["1", "2"]);
    assert_eq!(r.entries[0].title, "一");
    assert!(r.has_next_page);
    assert!(!parse_manga_list(&page, 3).has_next_page);
}

#[test]
fn list_page_falls_back_to_the_single_book() {
    let page = ListPage {
        width_cards: None,
        table_cards: Some(vec![]),
        single: SinglePage {
            hrefs: vec![None, so("articleinfo.php?bid=321")],
            title: None,
            cover: None,
        },
        details: DetailsPage {
            has_content: true,
            title: so("详情标题"),
            cover: None,
            cells: None,
            detail_cells: vec![],
        },
        has_next_link: false,
        last_text: None,
    };
    let r = parse_manga_list(&page, 1);
    assert_eq!(r.entries.len(), 1);
    assert_eq!(r.entries[0].key, "321");
    assert_eq!(r.entries[0].title, "详情标题");
    assert!(!r.has_next_page);
    let single = parse_single_result(&page.single).unwrap();
    assert_eq!(single.title, "");
    assert!(parse_single_result(&SinglePage { hrefs: vec![None], title: None, cover: None })
        .is_none());
}

#[test]
fn next_page_rules() {
    assert!(has_next_page(true, None, 9));
    assert!(has_next_page(false, Some("10"), 9));
    assert!(!has_next_page(false, Some("9"), 9));
    assert!(!has_next_page(false, Some("末页"), 1));
    assert!(!has_next_page(false, None, 1));
}

// ---------------------------------------------------------------------------
// The home page
// ---------------------------------------------------------------------------

fn card(key: &str, title: &str) -> CardData {
    let href = format!("/book/{key}.htm");
    CardData {
        book_link: Some(info(&href, None, None)),
        links: vec![info(&href, Some(title), None)],
        img: None,
        text: None,
    }
}

fn section(title: &str, cards: Vec<CardData>) -> SectionData {
    SectionData {
        title_candidates: vec![None, so(title)],
        card_groups: vec![None, Some(cards)],
        book_links: None,
    }
}

#[test]
fn home_titles() {
    assert_eq!(clean_home_title("  热门 轻小说 (更多) "), so("热门 轻小说"));
    assert_eq!(clean_home_title("今日更新（全部）"), so("今日更新"));
    assert_eq!(clean_home_title("用户名："), None);
    assert_eq!(clean_home_title("(x)"), None);
    assert_eq!(clean_home_manga_title(" 某 书 "), so("某 书"));
    assert_eq!(clean_home_manga_title("更多"), None);
    assert_eq!(clean_home_manga_title("轻小说文库首页"), None);
    assert!(is_recent_update_home_title("最近更新列表"));
    assert!(is_promote_home_title("文库轻小说推广区"));
    assert!(!is_promote_home_title("推广"));
    assert_eq!(
        home_section_title(&vec![None, so("  "), so("新书 推荐")]),
        so("新书 推荐")
    );
}

#[test]
fn home_listings_by_heading() {
    let l = home_listing_for_title("本周新书").unwrap();
    assert_eq!((l.id.as_str(), l.name.as_str()), ("new", "新书一览"));
    assert_eq!(home_listing_for_title("今日更新").unwrap().id, "updated");
    assert_eq!(home_listing_for_title("新番动画").unwrap().id, "anime");
    assert_eq!(home_listing_for_title("完结全本").unwrap().id, "completed");
    assert_eq!(home_listing_for_title("风云榜").unwrap().id, "popular");
    assert!(home_listing_for_title("其他").is_none());
}

#[test]
fn home_cards_and_links() {
    let m = parse_home_card(&card("88", "书八十八")).unwrap();
    assert_eq!((m.content_rating, m.viewer), (ContentRating::Safe, Viewer::Vertical));
    assert_eq!(m.key, "88");
    assert_eq!(m.title, "书八十八");
    assert_eq!(m.cover, Some(format!("{IMG_URL}/image/0/88/88s.jpg")));
    let with_img = CardData {
        book_link: Some(info("/book/7.htm", None, None)),
        links: vec![info("/book/8.htm", Some("别的书"), None)],
        img: Some(CardImage {
            src: so("//img.example/7.jpg"),
            abs_src: None,
            alt: so("查看"),
            title: None,
        }),
        text: so("  卡片 文字 "),
    };
    let m = parse_home_card(&with_img).unwrap();
    assert_eq!(m.title, "卡片 文字");
    assert_eq!(m.cover, so("https://img.example/7.jpg"));

    let l = LinkData { link: info("/book/3.htm", Some("TOP榜"), Some("三")), img: None, parent: None };
    let m = parse_home_link(&l).unwrap();
    assert_eq!((m.key.as_str(), m.title.as_str()), ("3", "三"));
    let none = LinkData { link: info("/book/3.htm", None, Some("更多")), img: None, parent: None };
    assert!(parse_home_link(&none).is_none());
}

#[test]
fn home_sections_hold_at_most_thirty_books() {
    let cards: Vec<CardData> = (1..=40).map(|i| card(&i.to_string(), &format!("书{i}"))).collect();
    let sec = section("热门轻小说", cards);
    let entries = home_section_links(&sec);
    assert_eq!(entries.len(), 30);
    assert_eq!(entries[29].key, "30");
    let comp = parse_home_book_component(&sec).unwrap();
    assert_eq!(comp.title, so("热门轻小说"));
    assert_eq!(comp.subtitle, None);
    assert_eq!(comp.layout, SectionLayout::Scroller);
    assert_eq!(comp.listing.unwrap().id, "popular");
}

#[test]
fn home_sections_skip_notices_and_recent_updates() {
    assert!(parse_home_book_component(&section("网站公告", vec![card("1", "a")])).is_none());
    assert!(parse_home_book_component(&section("最近更新", vec![card("1", "a")])).is_none());
    assert!(parse_home_book_component(&section("热门", vec![])).is_none());
}

#[test]
fn home_page_sections_and_promotion() {
    let page = HomePage {
        center_blocks: Some(vec![
            section("热门轻小说", vec![card("1", "一")]),
            section("热门轻小说", vec![card("2", "二")]),
            section("动画化作品", vec![card("3", "三")]),
        ]),
        promote_groups: vec![
            None,
            Some(vec![
                section("其他", vec![card("9", "九")]),
                section("文库轻小说推广区", vec![card("4", "四")]),
            ]),
        ],
        content_tables: Some(vec![section("完结", vec![card("5", "五")])]),
        fallback_blocks: None,
    };
    let comps = parse_home(&page).unwrap();
    let titles: Vec<Option<String>> = comps.iter().map(|c| c.title.clone()).collect();
    assert_eq!(titles, vec![so("热门轻小说"), so("动画化作品"), so("文库轻小说推广区")]);
    assert_eq!(comps[0].entries[0].key, "1");
    assert!(comps[2].listing.is_none());
    let promo = parse_home_promote_component(&page.promote_groups).unwrap();
    assert_eq!(promo.entries[0].key, "4");
}

#[test]
fn home_page_falls_back_and_can_be_empty() {
    let page = HomePage {
        center_blocks: None,
        promote_groups: vec![],
        content_tables: Some(vec![section("完结", vec![card("5", "五")])]),
        fallback_blocks: Some(vec![section("新书", vec![card("6", "六")])]),
    };
    let comps = parse_home(&page).unwrap();
    assert_eq!(comps.len(), 1);
    assert_eq!(comps[0].title, so("完结"));
    let empty = HomePage {
        center_blocks: None,
        promote_groups: vec![],
        content_tables: None,
        fallback_blocks: Some(vec![]),
    };
    assert_eq!(parse_home(&empty).err(), Some(SourceError::HomeEmpty));
}

#[test]
fn dedupe_keeps_the_first_of_each_heading() {
    let mk = |t: Option<&str>, k: &str| HomeSection {
        title: t.map(s),
        subtitle: None,
        layout: SectionLayout::Scroller,
        entries: vec![book(k, k)],
        listing: None,
    };
    let mut comps = vec![mk(Some("A"), "1"), mk(Some("B"), "2"), mk(Some("A"), "3"), mk(None, "4")];
    dedupe_home_components(&mut comps);
    let keys: Vec<&str> = comps.iter().map(|c| c.entries[0].key.as_str()).collect();
    assert_eq!(keys, vec!["1", "2", "4"]);
}

// ---------------------------------------------------------------------------
// Filters and tags
// ---------------------------------------------------------------------------

#[test]
fn search_filters() {
    assert!(is_tag_filter("genre"));
    assert!(is_tag_filter("Tags"));
    assert!(!is_tag_filter("tag "));
    let (author, tag, kind) = parse_search_filters(vec![
        FilterInput::Text { id: s("author"), value: s("张三") },
        FilterInput::Select { id: s("search_type"), value: s(" author ") },
        FilterInput::Select { id: s("genre"), value: s("校园") },
    ]);
    assert_eq!(author, so("张三"));
    assert_eq!(tag, so("校园"));
    assert_eq!(kind, "author");
    let (author, tag, kind) = parse_search_filters(vec![
        FilterInput::Text { id: s("author"), value: s("  ") },
        FilterInput::Select { id: s("tag"), value: s("恋爱") },
        FilterInput::MultiSelect { id: s("tags"), included: vec![s(""), s(" "), s("治愈")] },
        FilterInput::Other,
    ]);
    assert_eq!(author, None);
    assert_eq!(tag, so("治愈"));
    assert_eq!(kind, "articlename");
    let (_, tag, _) = parse_search_filters(vec![
        FilterInput::Select { id: s("genre"), value: s("恋爱") },
        FilterInput::MultiSelect { id: s("genre"), included: vec![s(" ")] },
    ]);
    assert_eq!(tag, None);
}

#[test]
fn tag_links_are_collected_once() {
    let links = Some(vec![
        TagLink { href: so("tags.php?t=%D0%A3"), text: so(" 校园 ") },
        TagLink { href: so("tags.php?t=x"), text: so("校园") },
        TagLink { href: so("/about.htm"), text: so("关于") },
        TagLink { href: so("tags.php"), text: so("热门Tags") },
        TagLink { href: so("list?t=1"), text: so("编辑&amp;推荐") },
        TagLink { href: so("tags.php?t=2"), text: so("恋 &nbsp;爱") },
    ]);
    let mut tags = Vec::new();
    collect_tag_links(&links, &mut tags);
    assert_eq!(tags, vec![s("校园"), s("恋 爱")]);
    collect_tag_links(&None, &mut tags);
    assert_eq!(tags.len(), 2);
}

#[test]
fn tag_page_errors_and_fallback() {
    assert_eq!(collect_tags(&vec![None, Some(vec![])]), Err(SourceError::TagsEmpty));
    let got = collect_tags(&vec![Some(vec![TagLink { href: so("t=1"), text: so("A") }])]);
    assert_eq!(got, Ok(vec![s("A")]));
    let known = known_tags();
    assert_eq!(known.len(), KNOWN_TAGS.len());
    assert_eq!(known[0], KNOWN_TAGS[0]);
    assert_eq!(choose_tags(Ok(vec![s("X")])), vec![s("X")]);
    assert_eq!(choose_tags(Ok(vec![])), known);
    assert_eq!(choose_tags(Err(SourceError::TagsUnreadable)), known);
    let (options, ids) = tag_filter_options(&vec![s("A"), s("B")]);
    assert_eq!(options, vec![s("全部"), s("A"), s("B")]);
    assert_eq!(ids, vec![s(""), s("A"), s("B")]);
    let f = tag_filter(&vec![s("A")]);
    assert_eq!((f.id.as_str(), f.title.as_str(), f.default.as_str()), ("genre", "标签", ""));
    assert!(f.is_genre && f.uses_tag_style);
    assert_eq!(f.options, vec![s("全部"), s("A")]);
    assert_eq!(f.ids, vec![s(""), s("A")]);
}
