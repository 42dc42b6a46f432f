use wenku8::chapters::{catalog_url, chapter_url};
use wenku8::consts::{BASE_URL, IMG_URL, PIC_URL, REQUEST_BASE_URL};
use wenku8::details::book_url;
use wenku8::filters::tag_page_url;
use wenku8::listing::list_page_url;
use wenku8::model::SourceError;
use wenku8::net::{append_charset, home_url, network_url, request_url, tags_url};
use wenku8::source::{chapter_page_url, handle_deep_link, DeepLink};
use wenku8::util::{
    extract_chapter_key, extract_chapter_keys, extract_manga_key, mewx_cover_url,
    normalize_image_url, normalized_img, resolve_url,
};

fn s(x: &str) -> String {
    x.to_string()
}

#[test]
fn book_url_reads_back_as_its_key() {
    let url = book_url("2580");
    assert_eq!(url, format!("{BASE_URL}/book/2580.htm"));
    assert_eq!(extract_manga_key(&url), Some(s("2580")));
}

#[test]
fn catalog_url_groups_books_by_thousand() {
    assert_eq!(
        catalog_url("2580"),
        Ok(format!("{BASE_URL}/novel/2/2580/index.htm"))
    );
    assert_eq!(catalog_url("7"), Ok(format!("{BASE_URL}/novel/0/7/index.htm")));
    assert_eq!(
        extract_manga_key(&catalog_url("3057").unwrap()),
        Some(s("3057"))
    );
}

#[test]
fn catalog_url_rejects_a_key_that_is_not_a_number() {
    assert_eq!(catalog_url("abc"), Err(SourceError::InvalidBookId(s("abc"))));
    assert_eq!(
        catalog_url("99999999999"),
        Err(SourceError::InvalidBookId(s("99999999999")))
    );
}

#[test]
fn chapter_url_reads_back_as_both_keys() {
    let url = chapter_url("2580", "98765");
    assert_eq!(url, format!("{BASE_URL}/novel/2/2580/98765.htm"));
    assert_eq!(extract_chapter_keys(&url), Some((s("2580"), s("98765"))));
    assert_eq!(extract_chapter_key(&url), "98765");
    assert_eq!(extract_manga_key(&url), Some(s("2580")));
}

#[test]
fn chapter_url_uses_group_zero_for_a_key_that_is_not_a_number() {
    assert_eq!(chapter_url("abc", "1"), format!("{BASE_URL}/novel/0/abc/1.htm"));
}

#[test]
fn chapter_page_url_prefers_the_chapter_address() {
    assert_eq!(chapter_page_url(Some("https://x/y.htm"), "1", "2"), "https://x/y.htm");
    assert_eq!(
        chapter_page_url(None, "1001", "2"),
        format!("{BASE_URL}/novel/1/1001/2.htm")
    );
}

#[test]
fn manga_key_from_search_texts_and_links() {
    assert_eq!(extract_manga_key("  123 "), Some(s("123")));
    assert_eq!(extract_manga_key("https://www.wenku8.net/book/2580.htm"), Some(s("2580")));
    assert_eq!(
        extract_manga_key("https://www.wenku8.net/modules/article/articleinfo.php?bid=77&x=1"),
        Some(s("77"))
    );
    assert_eq!(extract_manga_key("reader.php?aid=12"), Some(s("12")));
    assert_eq!(extract_manga_key("/novel/2/2580/index.htm"), Some(s("2580")));
    assert_eq!(extract_manga_key("魔法禁书目录"), None);
    assert_eq!(extract_manga_key(""), None);
    assert_eq!(extract_manga_key("/book/12a.htm"), None);
}

#[test]
fn chapter_keys_need_both_parts() {
    assert_eq!(extract_chapter_keys("https://www.wenku8.net/book/1.htm"), None);
    assert_eq!(extract_chapter_keys("/novel/2/2580/"), None);
    assert_eq!(
        extract_chapter_keys("/novel/2/abc/x1.htm"),
        Some((s("abc"), s("x1")))
    );
}

#[test]
fn chapter_key_from_catalog_links() {
    assert_eq!(extract_chapter_key("98765.htm"), "98765");
    assert_eq!(extract_chapter_key("reader.php?aid=1&cid=42&x=1"), "42");
    assert_eq!(extract_chapter_key("/novel/2/2580/"), "");
}

#[test]
fn deep_links_lead_to_books_then_chapters() {
    match handle_deep_link("https://www.wenku8.net/book/2580.htm") {
        Some(DeepLink::Manga { key }) => assert_eq!(key, "2580"),
        _ => panic!("expected a book"),
    }
    match handle_deep_link(&chapter_url("2580", "98765")) {
        Some(DeepLink::Manga { key }) => assert_eq!(key, "2580"),
        _ => panic!("expected a book"),
    }
    match handle_deep_link("https://www.wenku8.net/novel/2/abc/77.htm") {
        Some(DeepLink::Chapter { manga_key, key }) => {
            assert_eq!(manga_key, "abc");
            assert_eq!(key, "77");
        }
        _ => panic!("expected a chapter"),
    }
    assert!(handle_deep_link("https://example.com/").is_none());
}

#[test]
fn cover_url_of_the_mewx_image_host() {
    assert_eq!(mewx_cover_url("1234"), format!("{IMG_URL}/image/1/1234/1234s.jpg"));
    assert_eq!(mewx_cover_url("x"), format!("{IMG_URL}/image/0/x/xs.jpg"));
}

#[test]
fn resolve_url_cases() {
    let base = format!("{BASE_URL}/novel/2/2580/index.htm");
    assert_eq!(resolve_url("http://a/b", &base), "http://a/b");
    assert_eq!(resolve_url("/a.htm", &base), format!("{BASE_URL}/a.htm"));
    assert_eq!(resolve_url("b.htm", &base), format!("{BASE_URL}/novel/2/2580/b.htm"));
    assert_eq!(resolve_url("b.htm", "nobase"), format!("{BASE_URL}/b.htm"));
}

#[test]
fn image_urls_are_made_absolute_and_secure() {
    let base = format!("{BASE_URL}/novel/1/2/3.htm");
    assert_eq!(normalize_image_url("//img.x/a.jpg", None, &base), "https://img.x/a.jpg");
    assert_eq!(
        normalize_image_url("/image/1/a.jpg", None, &base),
        format!("{IMG_URL}/image/1/a.jpg")
    );
    assert_eq!(normalize_image_url("/pics/a.jpg", None, &base), format!("{PIC_URL}/pics/a.jpg"));
    assert_eq!(
        normalize_image_url("a.jpg", Some("http://abs/a.jpg"), &base),
        "https://abs/a.jpg"
    );
    assert_eq!(
        normalize_image_url(" a.jpg ", None, &base),
        format!("{BASE_URL}/novel/1/2/a.jpg")
    );
    assert_eq!(
        normalize_image_url("http://pic.777743.xyz/3/1.jpg", None, &base),
        format!("{PIC_URL}/3/1.jpg")
    );
    assert_eq!(normalized_img(Some("  "), None, &base), None);
    assert_eq!(normalized_img(None, None, &base), None);
    assert_eq!(
        normalized_img(Some("https://a/b.png"), None, &base),
        Some(s("https://a/b.png"))
    );
}

#[test]
fn charset_is_added_once() {
    assert_eq!(append_charset("https://a/x"), "https://a/x?charset=gbk");
    assert_eq!(append_charset("https://a/x?p=1"), "https://a/x?p=1&charset=gbk");
    assert_eq!(append_charset("https://a/x?charset=utf8"), "https://a/x?charset=utf8");
    let once = append_charset("https://a/y?q=2");
    assert_eq!(append_charset(&once), once);
}

#[test]
fn requests_go_to_the_request_host() {
    let url = format!("{BASE_URL}/index.php");
    assert_eq!(network_url(&url), format!("{REQUEST_BASE_URL}/index.php"));
    assert_eq!(network_url("https://other/x"), "https://other/x");
    assert_eq!(request_url(&url), format!("{REQUEST_BASE_URL}/index.php?charset=gbk"));
    assert_eq!(home_url(), url);
    assert_eq!(tags_url(), format!("{BASE_URL}/modules/article/tags.php"));
}

#[test]
fn listing_addresses() {
    assert_eq!(
        list_page_url("all", 3),
        Ok(format!("{BASE_URL}/modules/article/articlelist.php?page=3"))
    );
    assert_eq!(
        list_page_url("completed", 1),
        Ok(format!("{BASE_URL}/modules/article/articlelist.php?fullflag=1&page=1"))
    );
    assert_eq!(
        list_page_url("popular", 2),
        Ok(format!("{BASE_URL}/modules/article/toplist.php?sort=allvisit&page=2"))
    );
    assert_eq!(
        list_page_url("updated", 1),
        Ok(format!("{BASE_URL}/modules/article/toplist.php?sort=lastupdate&page=1"))
    );
    assert_eq!(
        list_page_url("new", -1),
        Ok(format!("{BASE_URL}/modules/article/toplist.php?sort=postdate&page=-1"))
    );
    assert_eq!(
        list_page_url("anime", 1),
        Ok(format!("{BASE_URL}/modules/article/toplist.php?sort=anime&page=1"))
    );
}

#[test]
fn unknown_listing_is_an_error() {
    assert_eq!(list_page_url("hot", 1), Err(SourceError::UnknownListing(s("hot"))));
}

#[test]
fn tag_page_address_encodes_the_tag_in_gbk() {
    assert_eq!(
        tag_page_url(" 校园 ", 2),
        format!("{BASE_URL}/modules/article/tags.php?t=%D0%A3%D4%B0&page=2")
    );
    assert_eq!(
        tag_page_url("  ", 4),
        format!("{BASE_URL}/modules/article/articlelist.php?page=4")
    );
}
