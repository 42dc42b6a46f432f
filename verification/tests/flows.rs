use wenku8::consts::{BASE_URL, IMG_URL, MEWX_APP_VERSION, SEARCH_PAGE_SIZE, USER_AGENT};
use wenku8::encode::{base64_encode, encode_component};
use wenku8::filters::FilterInput;
use wenku8::mewx::{
    book_meta_request, book_metadata_from, check_relay_response, mewx_form_body,
    mewx_search_page, needs_book_metadata, parse_mewx_items, parse_mewx_manga, search_request, xml_attr,
    xml_attr_after, xml_data_attr, xml_data_element, xml_data_text, xml_text_value,
};
use wenku8::model::{ContentRating, Manga, MangaStatus, Viewer, SourceError};
use wenku8::net::{
    check_page, check_webview_html, cookie_header, has_auth_cookie, looks_like_cloudflare,
    looks_like_login_form, looks_like_login_notice, looks_like_login_page, read_page,
    request_headers, PageCheck,
};
use wenku8::source::{
    build_chapter_pages, handle_web_login, plan_search, ChapterContent, PageItem, SearchPlan,
};

fn s(x: &str) -> String {
    x.to_string()
}

fn so(x: &str) -> Option<String> {
    Some(x.to_string())
}

fn pairs(items: &[(&str, &str)]) -> Vec<(String, String)> {
    items.iter().map(|(k, v)| (s(k), s(v))).collect()
}

fn book(key: &str) -> Manga {
    Manga {
        key: s(key),
        title: s(key),
        cover: None,
        url: None,
        authors: None,
        artists: None,
        description: None,
        tags: None,
        status: MangaStatus::Unknown,
        content_rating: ContentRating::Unknown,
        viewer: Viewer::Unknown,
    }
}

// ---------------------------------------------------------------------------
// Requests and answers
// ---------------------------------------------------------------------------

#[test]
fn cookie_header_joins_pairs() {
    assert_eq!(cookie_header(&pairs(&[("a", "1"), ("b", "2")])), "a=1; b=2");
    assert_eq!(cookie_header(&vec![]), "");
}

#[test]
fn login_cookies() {
    assert!(has_auth_cookie(&pairs(&[("PHPSESSID", " x ")])));
    assert!(!has_auth_cookie(&pairs(&[("PHPSESSID", "  ")])));
    assert!(has_auth_cookie(&pairs(&[("jieqiVisitInfo", "jieqiUserLogin%3D1%2CjieqiUserId%3D5")])));
    assert!(!has_auth_cookie(&pairs(&[("jieqiVisitInfo", "jieqiUserLogin%3D1")])));
    assert!(has_auth_cookie(&pairs(&[("other", ""), ("jieqiUserInfo", "id=1")])));
    assert!(!has_auth_cookie(&vec![]));
}

#[test]
fn headers_of_a_request() {
    let h = request_headers("");
    assert_eq!(h, vec![(s("User-Agent"), s(USER_AGENT)), (s("Referer"), s(BASE_URL))]);
    let h = request_headers("a=1");
    assert_eq!(h.len(), 3);
    assert_eq!(h[2], (s("Cookie"), s("a=1")));
}

#[test]
fn page_answers_are_classified() {
    assert!(looks_like_cloudflare("<title>Just a moment...</title>"));
    assert!(looks_like_login_form("<input name=\"jieqi_username\">"));
    assert!(looks_like_login_form("<form action=\"login.php\"><input name=\"password\">"));
    assert!(!looks_like_login_form("<a href=\"login.php\">登录</a>"));
    assert!(looks_like_login_notice("对不起，请先登录"));
    assert!(looks_like_login_page("您尚未登录"));
    assert_eq!(check_page(403, None, "ok"), PageCheck::Challenge);
    assert_eq!(check_page(200, Some("challenge"), "ok"), PageCheck::Challenge);
    assert_eq!(check_page(200, Some("no"), "ok"), PageCheck::Page);
    assert_eq!(check_page(200, None, "请先登录 cf-mitigated"), PageCheck::Challenge);
    assert_eq!(check_page(200, None, "请先登陆"), PageCheck::Login);
    assert_eq!(check_page(200, None, "<html>书</html>"), PageCheck::Page);
}

#[test]
fn page_bytes_are_decoded_from_gbk() {
    let (html, check) = read_page(200, None, &[b'<', b'p', b'>', 0xD6, 0xD0]);
    assert_eq!(html, "<p>中");
    assert_eq!(check, PageCheck::Page);
    let (_, check) = read_page(403, None, b"x");
    assert_eq!(check, PageCheck::Challenge);
}

#[test]
fn web_view_pages() {
    assert_eq!(check_webview_html("Just a moment"), Err(SourceError::CloudflareChallenge));
    assert_eq!(check_webview_html("jieqi_password"), Err(SourceError::LoginRequired));
    assert_eq!(check_webview_html("<html></html>"), Ok(()));
}

#[test]
fn web_login() {
    assert_eq!(handle_web_login("login", &pairs(&[("PHPSESSID", "abc")])), Ok(true));
    assert_eq!(handle_web_login("login", &vec![]), Ok(false));
    assert_eq!(
        handle_web_login("other", &vec![]),
        Err(SourceError::InvalidLoginKey(s("other")))
    );
}

// ---------------------------------------------------------------------------
// The relay
// ---------------------------------------------------------------------------

#[test]
fn relay_answers() {
    assert_eq!(check_relay_response(200, s("<x/>")), Ok(s("<x/>")));
    assert_eq!(check_relay_response(299, s("")), Ok(s("")));
    assert_eq!(check_relay_response(500, s("x")), Err(SourceError::RelayHttp(500)));
    assert_eq!(check_relay_response(199, s("x")), Err(SourceError::RelayHttp(199)));
    assert_eq!(
        check_relay_response(200, s("java.net.SocketTimeoutException")),
        Err(SourceError::RelayNetwork)
    );
}

#[test]
fn relay_requests() {
    assert_eq!(
        search_request("author", "中"),
        "action=search&searchtype=author&searchkey=%25D6%25D0"
    );
    assert_eq!(
        search_request("articlename", "ab c"),
        "action=search&searchtype=articlename&searchkey=ab%2520c"
    );
    assert_eq!(book_meta_request("123"), "action=book&do=meta&aid=123&t=0");
}

#[test]
fn relay_form_body() {
    let request = "action=book&do=meta&aid=1&t=0";
    let expected = format!(
        "request={}&timetoken=1700000000000&appver={}",
        encode_component(base64_encode(request.as_bytes()).as_bytes()),
        encode_component(MEWX_APP_VERSION.as_bytes())
    );
    assert_eq!(mewx_form_body(request, 1_700_000_000), expected);
    assert!(mewx_form_body("a", -2).contains("&timetoken=-2000&"));
    assert_eq!(
        mewx_form_body("ab", 0),
        format!("request=YWI%3D&timetoken=0&appver={}", encode_component(MEWX_APP_VERSION.as_bytes()))
    );
}

#[test]
fn xml_scanning() {
    assert_eq!(xml_attr("<item aid='12' x=\"y\">", "aid"), so("12"));
    assert_eq!(xml_attr("<item x=\"a&amp;b\">", "x"), so("a&b"));
    assert_eq!(xml_attr("<item>", "aid"), None);
    assert_eq!(xml_attr_after("k='v' q", "k='", '\''), so("v"));
    let xml = "<r><data name='Author' value='某人'/><data name=\"Title\"><![CDATA[ 标题 ]]></data></r>";
    assert_eq!(xml_data_element(xml, "Author"), so("<data name='Author' value='某人'/>"));
    assert_eq!(xml_data_attr(xml, "Author", "value"), so("某人"));
    assert_eq!(xml_data_text(xml, "Title"), so("标题"));
    assert_eq!(xml_data_text(xml, "Author"), None);
    assert_eq!(xml_data_element(xml, "Missing"), None);
    assert_eq!(xml_text_value("  a &lt; b  "), "a < b");
    assert_eq!(xml_text_value("<![CDATA[x &lt; y]]>"), "x &lt; y");
}

#[test]
fn relay_records_become_books() {
    let xml = "<item aid='2580'><data name='Title'><![CDATA[某书]]></data>\
<data name='Author' value='作者'/><data name='BookStatus' value='已完成'/>\
<data name='Tags' value='校园 恋爱'/><data name='IntroPreview'>简介&amp;更多</data></item>";
    let m = parse_mewx_manga(xml, None).unwrap();
    assert_eq!(m.key, "2580");
    assert_eq!(m.title, "某书");
    assert_eq!(m.cover, Some(format!("{IMG_URL}/image/2/2580/2580s.jpg")));
    assert_eq!(m.url, Some(format!("{BASE_URL}/book/2580.htm")));
    assert_eq!(m.authors, Some(vec![s("作者")]));
    assert_eq!(m.artists, Some(vec![s("作者")]));
    assert_eq!(m.status, MangaStatus::Completed);
    assert_eq!(m.tags, Some(vec![s("校园"), s("恋爱")]));
    assert_eq!(m.description, so("简介&更多"));
    assert_eq!((m.content_rating, m.viewer), (ContentRating::Safe, Viewer::Vertical));
    let bare = parse_mewx_manga("<item/>", Some("77")).unwrap();
    assert_eq!(bare.title, "77");
    assert!(needs_book_metadata(&bare));
    assert!(!needs_book_metadata(&m));
    assert_eq!(bare.status, MangaStatus::Unknown);
    assert!(parse_mewx_manga("<item aid='x1'/>", None).is_none());
    assert!(parse_mewx_manga("<item/>", None).is_none());
}

#[test]
fn relay_search_answer_items() {
    let xml = "<result><item aid='1'/><item aid='2'><data name='Title'>二</data></item>\
<item aid='z'/><item aid='3'>unterminated";
    let books = parse_mewx_items(xml);
    let keys: Vec<&str> = books.iter().map(|m| m.key.as_str()).collect();
    assert_eq!(keys, vec!["1", "2"]);
    assert_eq!(books[1].title, "二");
    assert!(parse_mewx_items("no items").is_empty());
}

#[test]
fn relay_metadata() {
    let m = book_metadata_from("<metadata><data name='Title'>书</data></metadata>", "9").unwrap();
    assert_eq!((m.key.as_str(), m.title.as_str()), ("9", "书"));
    assert_eq!(
        book_metadata_from("<x/>", "abc").err(),
        Some(SourceError::RelayNoBook(s("abc")))
    );
}

#[test]
fn search_pages_of_twenty() {
    assert_eq!(SEARCH_PAGE_SIZE, 20);
    let mut entries: Vec<Manga> = (0..45).map(|i| book(&i.to_string())).collect();
    entries.push(book("3"));
    let p1 = mewx_search_page(entries.clone(), 0);
    assert_eq!(p1.entries.len(), 20);
    assert_eq!(p1.entries[0].key, "0");
    assert!(p1.has_next_page);
    let p3 = mewx_search_page(entries.clone(), 3);
    assert_eq!(p3.entries.len(), 5);
    assert_eq!(p3.entries[4].key, "44");
    assert!(!p3.has_next_page);
    let p4 = mewx_search_page(entries, 4);
    assert!(p4.entries.is_empty());
    assert!(!p4.has_next_page);
}

#[test]
fn search_pages_put_together_give_each_book_once() {
    let mut entries: Vec<Manga> = (0..41).map(|i| book(&i.to_string())).collect();
    entries.insert(5, book("7"));
    let mut all: Vec<String> = Vec::new();
    let mut page = 1;
    loop {
        let r = mewx_search_page(entries.clone(), page);
        if r.has_next_page {
            assert_eq!(r.entries.len(), SEARCH_PAGE_SIZE);
        }
        all.extend(r.entries.into_iter().map(|m| m.key));
        if !r.has_next_page {
            break;
        }
        page += 1;
    }
    assert_eq!(page, 3);
    let mut expected: Vec<String> = Vec::new();
    for m in &entries {
        if !expected.contains(&m.key) {
            expected.push(m.key.clone());
        }
    }
    assert_eq!(expected.len(), 41);
    assert_eq!(all, expected);
}

#[test]
fn search_keys_are_digits() {
    let xml = "<item aid='12'/><item aid='1a'/><item aid='0099'/>";
    let books = parse_mewx_items(xml);
    assert!(books.iter().all(|m| !m.key.is_empty() && m.key.chars().all(|c| c.is_ascii_digit())));
    assert_eq!(books.len(), 2);
    assert!(book_metadata_from("<x/>", "12x").is_err());
    let r = mewx_search_page(books, 1);
    assert!(r.entries.iter().all(|m| m.key.chars().all(|c| c.is_ascii_digit())));
}

// ---------------------------------------------------------------------------
// Searching and reading
// ---------------------------------------------------------------------------

#[test]
fn search_plans() {
    match plan_search(Some(" 2580 "), vec![]) {
        SearchPlan::Book(k) => assert_eq!(k, "2580"),
        _ => panic!("expected a book"),
    }
    match plan_search(Some("x"), vec![FilterInput::Text { id: s("author"), value: s("甲") }]) {
        SearchPlan::Search { search_type, query } => {
            assert_eq!((search_type.as_str(), query.as_str()), ("author", "甲"));
        }
        _ => panic!("expected an author search"),
    }
    match plan_search(None, vec![FilterInput::Select { id: s("genre"), value: s("校园") }]) {
        SearchPlan::Tag(t) => assert_eq!(t, "校园"),
        _ => panic!("expected a tag"),
    }
    assert!(matches!(plan_search(Some("  "), vec![]), SearchPlan::ListAll));
    assert!(matches!(plan_search(None, vec![]), SearchPlan::ListAll));
    match plan_search(Some("魔法"), vec![]) {
        SearchPlan::Search { search_type, query } => {
            assert_eq!((search_type.as_str(), query.as_str()), ("articlename", "魔法"));
        }
        _ => panic!("expected a title search"),
    }
    let by_author = vec![FilterInput::Select { id: s("search_type"), value: s("author") }];
    match plan_search(Some("乙"), by_author) {
        SearchPlan::Search { search_type, .. } => assert_eq!(search_type, "author"),
        _ => panic!("expected an author search"),
    }
}

fn texts(pages: &[PageItem]) -> Vec<String> {
    pages
        .iter()
        .map(|p| match p {
            PageItem::Text(t) => format!("T:{t}"),
            PageItem::Image(u) => format!("I:{u}"),
        })
        .collect()
}

#[test]
fn chapter_pages_have_text_then_images() {
    let content = ChapterContent {
        text: so("  第一段 \r\n\r\n第二段"),
        images: vec![(so("/pics/1.jpg"), None), (so(" "), None), (None, so("x"))],
    };
    let pages = build_chapter_pages(Some(content), so("第一章"), so("旧"), "https://h/a/b.htm")
        .unwrap();
    assert_eq!(
        texts(&pages),
        vec![
            s("T:# 第一章\n\n第一段\n\n第二段"),
            format!("I:{}/pics/1.jpg", wenku8::consts::PIC_URL),
        ]
    );
}

#[test]
fn chapter_title_is_not_repeated() {
    let content = ChapterContent { text: so("序 开始"), images: vec![] };
    let pages = build_chapter_pages(Some(content), None, so("序"), "x").unwrap();
    assert_eq!(texts(&pages), vec![s("T:序 开始")]);
    let content = ChapterContent { text: so("正文"), images: vec![] };
    let pages = build_chapter_pages(Some(content), None, None, "x").unwrap();
    assert_eq!(texts(&pages), vec![s("T:正文")]);
}

#[test]
fn chapter_page_errors() {
    assert_eq!(
        build_chapter_pages(None, None, None, "x").err(),
        Some(SourceError::ChapterContentMissing)
    );
    let empty = ChapterContent { text: so(" \n "), images: vec![(None, None)] };
    assert_eq!(
        build_chapter_pages(Some(empty), None, None, "x").err(),
        Some(SourceError::ChapterEmpty)
    );
}
