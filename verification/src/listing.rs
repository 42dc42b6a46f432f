//! Lists of books: the site's listings, tag pages and search result pages.
use vstd::prelude::*;
use crate::consts::BASE_URL;
use crate::details::{
    DetailsPage, ImageAttrs, book_address, book_url, details_of, image_address, parse_details,
};
use crate::home::LinkInfo;
use crate::model::{
    ContentRating, Viewer,
    Manga, MangaPageResult, MangaStatus, MangaView, SourceError, manga_views, opt_str,
};
use crate::number::{parse_i32, parse_i32_exec, push_signed_decimal, signed_decimal};
use crate::text::{chars_eq, from_chars, push_all, string_views, to_chars, trim, trimmed};
use crate::util::{
    distinct_keys, extract_manga_key, lemma_push_unique_distinct, manga_key_of, normalized_img,
    parse_status, push_unique, push_unique_spec, status_of, str_views, value_after,
    value_after_labels,
};

verus! {

// ---------------------------------------------------------------------------
// Listing addresses
// ---------------------------------------------------------------------------

/// The address of a page of a listing.
pub open spec fn listing_address(id: Seq<char>, page: i32) -> Option<Seq<char>> {
    let p = signed_decimal(page as int);
    if id == "all"@ {
        Some(BASE_URL@ + "/modules/article/articlelist.php?page="@ + p)
    } else if id == "completed"@ {
        Some(BASE_URL@ + "/modules/article/articlelist.php?fullflag=1&page="@ + p)
    } else if id == "popular"@ {
        Some(BASE_URL@ + "/modules/article/toplist.php?sort=allvisit&page="@ + p)
    } else if id == "updated"@ {
        Some(BASE_URL@ + "/modules/article/toplist.php?sort=lastupdate&page="@ + p)
    } else if id == "new"@ {
        Some(BASE_URL@ + "/modules/article/toplist.php?sort=postdate&page="@ + p)
    } else if id == "anime"@ {
        Some(BASE_URL@ + "/modules/article/toplist.php?sort=anime&page="@ + p)
    } else {
        None
    }
}

fn eq_lit(v: &[char], p: &str) -> (b: bool)
    ensures
        b == (v@ == p@),
{
    let pv = to_chars(p);
    chars_eq(v, pv.as_slice())
}

fn address_with_page(path: &str, page: i32) -> (out: String)
    ensures
        out@ == BASE_URL@ + path@ + signed_decimal(page as int),
{
    let mut o = to_chars(BASE_URL);
    push_all(&mut o, to_chars(path).as_slice());
    push_signed_decimal(&mut o, page as i64);
    from_chars(o.as_slice())
}

/// The address of a page of a listing; an error for an unknown listing.
pub fn list_page_url(id: &str, page: i32) -> (r: Result<String, SourceError>)
    ensures
        match listing_address(id@, page) {
            Some(u) => r matches Ok(s) && s@ == u,
            None => r matches Err(e) && e matches SourceError::UnknownListing(x) && x@ == id@,
        },
{
    let v = to_chars(id);
    let v = v.as_slice();
    if eq_lit(v, "all") {
        Ok(address_with_page("/modules/article/articlelist.php?page=", page))
    } else if eq_lit(v, "completed") {
        Ok(address_with_page("/modules/article/articlelist.php?fullflag=1&page=", page))
    } else if eq_lit(v, "popular") {
        Ok(address_with_page("/modules/article/toplist.php?sort=allvisit&page=", page))
    } else if eq_lit(v, "updated") {
        Ok(address_with_page("/modules/article/toplist.php?sort=lastupdate&page=", page))
    } else if eq_lit(v, "new") {
        Ok(address_with_page("/modules/article/toplist.php?sort=postdate&page=", page))
    } else if eq_lit(v, "anime") {
        Ok(address_with_page("/modules/article/toplist.php?sort=anime&page=", page))
    } else {
        Err(SourceError::UnknownListing(from_chars(v)))
    }
}

// ---------------------------------------------------------------------------
// Result pages
// ---------------------------------------------------------------------------

/// A book card of a list page: its first book link, the text of its bold
/// link, its first image, and the text of its paragraphs.
pub struct ListCard {
    pub book_link: Option<LinkInfo>,
    pub bold_link_text: Option<String>,
    pub img: Option<ImageAttrs>,
    pub info: Option<String>,
}

pub open spec fn author_labels() -> Seq<Seq<char>> {
    seq!["小说作者："@, "作者："@]
}

/// The book of a list card: the key of its book link, the link's `title`
/// (else the bold link's text, else the link's text), which must not be
/// blank, its image, and the author and state of its paragraphs.
pub open spec fn list_card(card: ListCard) -> Option<MangaView> {
    match card.book_link {
        Some(link) => match link.href {
            Some(h) => match manga_key_of(h@) {
                Some(key) => {
                    let title = match link.title {
                        Some(t) => t@,
                        None => match card.bold_link_text {
                            Some(t) => t@,
                            None => match link.text {
                                Some(t) => t@,
                                None => Seq::empty(),
                            },
                        },
                    };
                    if trim(title).len() == 0 {
                        None
                    } else {
                        let base = MangaView {
                            key,
                            title,
                            cover: image_address(card.img, BASE_URL@),
                            url: Some(book_address(key)),
                            authors: None,
                            artists: None,
                            description: None,
                            tags: None,
                            status: MangaStatus::Unknown,
                            content_rating: ContentRating::Safe,
                            viewer: Viewer::Vertical,
                        };
                        match card.info {
                            Some(info) => Some(
                                MangaView {
                                    authors: match value_after(info@, author_labels()) {
                                        Some(a) => Some(seq![a]),
                                        None => None,
                                    },
                                    status: status_of(info@),
                                    ..base
                                },
                            ),
                            None => Some(base),
                        }
                    }
                },
                None => None,
            },
            None => None,
        },
        None => None,
    }
}

/// A list card gives a book when its book link leads to a book key and its
/// title (the link's `title`, else the bold link's text, else the link's
/// text) is not blank. The book has that key and title, the book page as
/// its address, the card image's address as its cover when the image's
/// `src` is not blank (no cover otherwise), and the author and state that
/// the card's paragraphs give.
pub proof fn lemma_list_card_fields(card: ListCard)
    ensures
        list_card(card) is Some <==> (card.book_link matches Some(link) && link.href matches Some(h)
            && manga_key_of(h@) is Some && trim(
            match link.title {
                Some(t) => t@,
                None => match card.bold_link_text {
                    Some(t) => t@,
                    None => match link.text {
                        Some(t) => t@,
                        None => Seq::empty(),
                    },
                },
            },
        ).len() > 0),
        list_card(card) matches Some(m) ==> {
            &&& m.key == manga_key_of(card.book_link->0.href->0@)->0
            &&& m.url == Some(crate::details::book_address(m.key))
            &&& trim(m.title).len() > 0
            &&& m.cover == match card.img {
                Some(i) => match i.src {
                    Some(src) => if trim(src@).len() > 0 {
                        Some(crate::util::normalize_image(src@, opt_str(i.abs_src), BASE_URL@))
                    } else {
                        None
                    },
                    None => None,
                },
                None => None,
            }
            &&& m.authors == match card.info {
                Some(info) => match value_after(info@, author_labels()) {
                    Some(a) => Some(seq![a]),
                    None => None,
                },
                None => None,
            }
            &&& m.status == match card.info {
                Some(info) => status_of(info@),
                None => MangaStatus::Unknown,
            }
        },
{
}

fn opt_ref(o: &Option<String>) -> (r: Option<&str>)
    ensures
        match r {
            Some(s) => o is Some && s@ == o->0@,
            None => o is None,
        },
{
    match o {
        Some(s) => Some(s.as_str()),
        None => None,
    }
}

fn image_exec(img: &Option<ImageAttrs>) -> (r: Option<String>)
    ensures
        opt_str(r) == image_address(*img, BASE_URL@),
{
    match img {
        Some(i) => normalized_img(opt_ref(&i.src), opt_ref(&i.abs_src), BASE_URL),
        None => None,
    }
}

fn copy_string(s: &String) -> (r: String)
    ensures
        r@ == s@,
{
    s.clone()
}

/// Reads the book of a list card.
pub fn parse_manga_card(card: &ListCard) -> (r: Option<Manga>)
    ensures
        match r {
            Some(m) => list_card(*card) == Some(m@),
            None => list_card(*card) is None,
        },
{
    let link = match &card.book_link {
        Some(l) => l,
        None => return None,
    };
    let href = match &link.href {
        Some(h) => h,
        None => return None,
    };
    let key = match extract_manga_key(href.as_str()) {
        Some(k) => k,
        None => return None,
    };
    let title: String = match &link.title {
        Some(t) => copy_string(t),
        None => match &card.bold_link_text {
            Some(t) => copy_string(t),
            None => match &link.text {
                Some(t) => copy_string(t),
                None => String::new(),
            },
        },
    };
    let tv = to_chars(title.as_str());
    if trimmed(tv.as_slice()).len() == 0 {
        return None;
    }
    let cover = image_exec(&card.img);
    let url = book_url(key.as_str());
    let mut manga = Manga {
        key,
        title,
        cover,
        url: Some(url),
        authors: None,
        artists: None,
        description: None,
        tags: None,
        status: MangaStatus::Unknown,
        content_rating: ContentRating::Safe,
        viewer: Viewer::Vertical,
    };
    if let Some(info) = &card.info {
        let labels: [&str; 2] = ["小说作者：", "作者："];
        assert(str_views(labels@) =~= author_labels());
        manga.authors = match value_after_labels(info.as_str(), labels.as_slice()) {
            Some(a) => {
                let v = vec![a];
                assert(string_views(v@) =~= seq![v@[0]@]);
                Some(v)
            },
            None => None,
        };
        manga.status = parse_status(info.as_str());
    }
    Some(manga)
}

/// What a page with a single book gives: the `href` of its first book link
/// for each candidate selector, its bold title and its first image.
pub struct SinglePage {
    pub hrefs: Vec<Option<String>>,
    pub title: Option<String>,
    pub cover: Option<ImageAttrs>,
}

/// The first candidate link that is present.
pub open spec fn first_href(hrefs: Seq<Option<String>>) -> Option<Seq<char>>
    decreases hrefs.len(),
{
    if hrefs.len() == 0 {
        None
    } else {
        match hrefs[0] {
            Some(h) => Some(h@),
            None => first_href(hrefs.drop_first()),
        }
    }
}

/// The book of a page that shows a single book.
pub open spec fn single_result(page: SinglePage) -> Option<MangaView> {
    match first_href(page.hrefs@) {
        Some(h) => match manga_key_of(h) {
            Some(key) => Some(
                MangaView {
                    key,
                    title: match page.title {
                        Some(t) => t@,
                        None => Seq::empty(),
                    },
                    cover: image_address(page.cover, BASE_URL@),
                    url: Some(book_address(key)),
                    authors: None,
                    artists: None,
                    description: None,
                    tags: None,
                    status: MangaStatus::Unknown,
                    content_rating: ContentRating::Safe,
                    viewer: Viewer::Vertical,
                },
            ),
            None => None,
        },
        None => None,
    }
}

/// A page that shows a single book gives it when the first candidate link
/// leads to a book key: the book has that key, the bold title (empty when
/// there is none), the page image's address as cover when its `src` is not
/// blank, the book page as address, a Safe rating and the vertical viewer.
pub proof fn lemma_single_result_fields(page: SinglePage)
    ensures
        single_result(page) is Some <==> (first_href(page.hrefs@) matches Some(h) && manga_key_of(h)
            is Some),
        single_result(page) matches Some(m) ==> {
            &&& Some(m.key) == manga_key_of(first_href(page.hrefs@)->0)
            &&& m.title == match page.title {
                Some(t) => t@,
                None => Seq::empty(),
            }
            &&& m.cover == match page.cover {
                Some(i) => match i.src {
                    Some(src) => if trim(src@).len() > 0 {
                        Some(crate::util::normalize_image(src@, opt_str(i.abs_src), BASE_URL@))
                    } else {
                        None
                    },
                    None => None,
                },
                None => None,
            }
            &&& m.url == Some(crate::details::book_address(m.key))
            &&& m.content_rating == ContentRating::Safe
            &&& m.viewer == Viewer::Vertical
        },
{
}

/// A later page exists when the page has a "next" link, or when its last
/// page number is beyond this page; with neither it does not. A last page
/// number equal to this page means there is no later page.
pub proof fn lemma_next_page_rules(has_next_link: bool, last_text: Option<Seq<char>>, page: i32)
    ensures
        has_next_link ==> next_page(has_next_link, last_text, page),
        !has_next_link && last_text is None ==> !next_page(has_next_link, last_text, page),
        forall|t: Seq<char>|
            !has_next_link && last_text == Some(t) && #[trigger] parse_i32(trim(t)) is Some ==> (
            next_page(has_next_link, last_text, page) <==> parse_i32(trim(t))->0 > page),
        !has_next_link && (last_text matches Some(t) && parse_i32(trim(t)) is None) ==> !next_page(
            has_next_link,
            last_text,
            page,
        ),
        !next_page(false, Some(crate::number::signed_decimal(page as int)), page),
{
    crate::number::lemma_parse_format_i32(page);
    let d = crate::number::signed_decimal(page as int);
    let n: nat = if page < 0 {
        (-(page as int)) as nat
    } else {
        page as nat
    };
    crate::number::lemma_decimal_digits(n);
    let e = crate::number::decimal(n);
    assert(crate::text::is_digit(e[0]) && crate::text::is_digit(e[e.len() - 1]));
    if page < 0 {
        assert(d == seq!['-'] + e);
        assert(d[0] == '-');
        assert(d.last() == e.last());
    }
    crate::text::lemma_trim_unchanged(d);
}

fn first_href_exec(hrefs: &Vec<Option<String>>) -> (r: Option<String>)
    ensures
        opt_str(r) == first_href(hrefs@),
{
    let mut i: usize = 0;
    assert(hrefs@.skip(0) =~= hrefs@);
    while i < hrefs.len()
        invariant
            i <= hrefs@.len(),
            first_href(hrefs@) == first_href(hrefs@.skip(i as int)),
        decreases hrefs.len() - i,
    {
        let ghost s = hrefs@.skip(i as int);
        assert(s.drop_first() =~= hrefs@.skip(i + 1));
        assert(s[0] == hrefs@[i as int]);
        if let Some(h) = &hrefs[i] {
            return Some(copy_string(h));
        }
        i += 1;
    }
    None
}

/// Reads the book of a page that shows a single book.
pub fn parse_single_result(page: &SinglePage) -> (r: Option<Manga>)
    ensures
        match r {
            Some(m) => single_result(*page) == Some(m@),
            None => single_result(*page) is None,
        },
{
    let href = match first_href_exec(&page.hrefs) {
        Some(h) => h,
        None => return None,
    };
    let key = match extract_manga_key(href.as_str()) {
        Some(k) => k,
        None => return None,
    };
    let title: String = match &page.title {
        Some(t) => copy_string(t),
        None => String::new(),
    };
    let cover = image_exec(&page.cover);
    let url = book_url(key.as_str());
    Some(
        Manga {
            key,
            title,
            cover,
            url: Some(url),
            authors: None,
            artists: None,
            description: None,
            tags: None,
            status: MangaStatus::Unknown,
            content_rating: ContentRating::Safe,
            viewer: Viewer::Vertical,
        },
    )
}

/// A later page exists: a "next" link, or a last page number beyond this
/// one.
pub open spec fn next_page(has_next_link: bool, last_text: Option<Seq<char>>, page: i32) -> bool {
    has_next_link || match last_text {
        Some(t) => match parse_i32(trim(t)) {
            Some(last) => last > page,
            None => false,
        },
        None => false,
    }
}

/// Whether a later page exists.
pub fn has_next_page(has_next_link: bool, last_text: Option<&str>, page: i32) -> (b: bool)
    ensures
        b == next_page(
            has_next_link,
            match last_text {
                Some(t) => Some(t@),
                None => None,
            },
            page,
        ),
{
    if has_next_link {
        return true;
    }
    match last_text {
        Some(t) => {
            let v = to_chars(t);
            let tt = trimmed(v.as_slice());
            match parse_i32_exec(tt.as_slice()) {
                Some(last) => last > page,
                None => false,
            }
        },
        None => false,
    }
}

/// The books of the cards, each added once.
pub open spec fn list_cards_fold(cards: Seq<ListCard>) -> Seq<MangaView>
    decreases cards.len(),
{
    if cards.len() == 0 {
        seq![]
    } else {
        match list_card(cards.last()) {
            Some(m) => push_unique_spec(list_cards_fold(cards.drop_last()), m),
            None => list_cards_fold(cards.drop_last()),
        }
    }
}

/// The books of list cards never share a key.
pub proof fn lemma_list_cards_distinct(cards: Seq<ListCard>)
    ensures
        distinct_keys(list_cards_fold(cards)),
    decreases cards.len(),
{
    if cards.len() > 0 {
        lemma_list_cards_distinct(cards.drop_last());
        if let Some(m) = list_card(cards.last()) {
            lemma_push_unique_distinct(list_cards_fold(cards.drop_last()), m);
        }
    }
}

fn list_cards_entries(cards: &Vec<ListCard>) -> (out: Vec<Manga>)
    ensures
        manga_views(out@) == list_cards_fold(cards@),
{
    let mut out: Vec<Manga> = Vec::new();
    let mut j: usize = 0;
    assert(cards@.take(0) =~= Seq::<ListCard>::empty());
    assert(manga_views(out@) =~= Seq::<MangaView>::empty());
    while j < cards.len()
        invariant
            j <= cards@.len(),
            manga_views(out@) == list_cards_fold(cards@.take(j as int)),
        decreases cards.len() - j,
    {
        assert(cards@.take(j + 1).drop_last() =~= cards@.take(j as int));
        assert(cards@.take(j + 1).last() == cards@[j as int]);
        if let Some(m) = parse_manga_card(&cards[j]) {
            push_unique(&mut out, m);
        }
        j += 1;
    }
    assert(cards@.take(cards@.len() as int) =~= cards@);
    out
}

/// What a list page gives: its cards under the two layouts the site uses,
/// what it shows when it is a single book's page, its details, and its
/// pager.
pub struct ListPage {
    pub width_cards: Option<Vec<ListCard>>,
    pub table_cards: Option<Vec<ListCard>>,
    pub single: SinglePage,
    pub details: DetailsPage,
    pub has_next_link: bool,
    pub last_text: Option<String>,
}

pub struct PageResultView {
    pub entries: Seq<MangaView>,
    pub has_next_page: bool,
}

pub open spec fn page_result_view(r: MangaPageResult) -> PageResultView {
    PageResultView { entries: manga_views(r.entries@), has_next_page: r.has_next_page }
}

/// The books of a list page: the cards of the first layout that has any;
/// failing both, the single book the page shows, with its details filled in
/// when it has no title.
pub open spec fn manga_list(page: ListPage, page_no: i32) -> PageResultView {
    let e1 = match page.width_cards {
        Some(cs) => list_cards_fold(cs@),
        None => seq![],
    };
    let e2 = if e1.len() == 0 {
        match page.table_cards {
            Some(cs) => list_cards_fold(cs@),
            None => e1,
        }
    } else {
        e1
    };
    let e3 = if e2.len() == 0 {
        match single_result(page.single) {
            Some(m) => seq![
                if m.title.len() == 0 && page.details.has_content {
                    details_of(m, page.details)
                } else {
                    m
                },
            ],
            None => e2,
        }
    } else {
        e2
    };
    PageResultView {
        entries: e3,
        has_next_page: next_page(page.has_next_link, opt_str(page.last_text), page_no),
    }
}

/// Reads the books of a list page.
pub fn parse_manga_list(page: &ListPage, page_no: i32) -> (r: MangaPageResult)
    ensures
        page_result_view(r) == manga_list(*page, page_no),
{
    let mut entries: Vec<Manga> = match &page.width_cards {
        Some(cs) => list_cards_entries(cs),
        None => Vec::new(),
    };
    assert(entries@.len() == 0 ==> manga_views(entries@) =~= Seq::<MangaView>::empty());
    if entries.len() == 0 {
        if let Some(cs) = &page.table_cards {
            entries = list_cards_entries(cs);
        }
    }
    if entries.len() == 0 {
        if let Some(mut manga) = parse_single_result(&page.single) {
            if manga.title.as_str().is_empty() {
                let _ = parse_details(&page.details, &mut manga);
            }
            let v = vec![manga];
            assert(manga_views(v@) =~= seq![v@[0]@]);
            entries = v;
        }
    }
    let last: Option<&str> = match &page.last_text {
        Some(t) => Some(t.as_str()),
        None => None,
    };
    let has_next = has_next_page(page.has_next_link, last, page_no);
    MangaPageResult { entries, has_next_page: has_next }
}

/// No two books of a list page share a key.
pub proof fn lemma_manga_list_distinct(page: ListPage, page_no: i32)
    ensures
        distinct_keys(manga_list(page, page_no).entries),
{
    match page.width_cards {
        Some(cs) => lemma_list_cards_distinct(cs@),
        None => {},
    }
    match page.table_cards {
        Some(cs) => lemma_list_cards_distinct(cs@),
        None => {},
    }
}

} // verus!
