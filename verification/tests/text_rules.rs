use wenku8::chapters::{
    clean_catalog_chapter_title, clean_chapter_text, is_chapter_label, parse_chinese_number,
    parse_number_between, parse_number_text, parse_numeric, split_numbered_title,
    trim_title_separator, volume_number_from_cell,
};
use wenku8::details::{is_br_tag, text_from_html};
use wenku8::encode::{base64_encode, encode_component, encode_gbk_component};
use wenku8::net::{read_page, PageCheck};
use wenku8::model::{ContentRating, Manga, MangaStatus, Viewer};
use wenku8::number::{parse_i32_exec, push_signed_decimal, Number};
use wenku8::util::{
    clean_description, decode_basic_entities, is_detail_metadata, normalize_space_str,
    parse_status, push_unique, push_unique_string, split_tags, value_after_labels,
};

fn s(x: &str) -> String {
    x.to_string()
}

fn chars(x: &str) -> Vec<char> {
    x.chars().collect()
}

fn book(key: &str, title: &str) -> Manga {
    Manga {
        key: s(key),
        title: s(title),
        cover: None,
        url: None,
        authors: None,
        artists: None,
        description: None,
        tags: None,
        status: MangaStatus::Unknown,
        content_rating: ContentRating::Unknown,
        viewer: Viewer::Unknown,
    }
}

fn decimal(n: &Option<Number>) -> Option<String> {
    match n {
        Some(Number::Decimal(t)) => Some(t.clone()),
        _ => None,
    }
}

fn whole(n: &Option<Number>) -> Option<u64> {
    match n {
        Some(Number::Whole(v)) => Some(*v),
        _ => None,
    }
}

#[test]
fn parse_i32_matches_std_parsing() {
    for t in ["0", "42", "-7", "+5", "2147483647", "-2147483648"] {
        assert_eq!(parse_i32_exec(&chars(t)), t.parse::<i32>().ok());
    }
    for t in ["", "-", "+", "12a", "2147483648", " 1", "1.5"] {
        assert_eq!(parse_i32_exec(&chars(t)), None);
    }
}

#[test]
fn formatted_numbers_parse_back() {
    for n in [0i64, 9, 10, 1000, -1, -2147483648, 2147483647] {
        let mut out = Vec::new();
        push_signed_decimal(&mut out, n);
        let text: String = out.iter().collect();
        assert_eq!(text, n.to_string());
        assert_eq!(parse_i32_exec(&out), Some(n as i32));
    }
}

#[test]
fn numeric_heading_numbers() {
    assert_eq!(parse_numeric("12"), Some(s("12")));
    assert_eq!(parse_numeric(" １２ "), Some(s("12")));
    assert_eq!(parse_numeric("3.5"), Some(s("3.5")));
    assert_eq!(parse_numeric("1 2"), Some(s("12")));
    assert_eq!(parse_numeric(""), None);
    assert_eq!(parse_numeric("."), None);
    assert_eq!(parse_numeric("1.2.3"), None);
    assert_eq!(parse_numeric("十二"), None);
}

#[test]
fn chinese_numbers() {
    assert_eq!(parse_chinese_number("十二"), Some(12));
    assert_eq!(parse_chinese_number("二十"), Some(20));
    assert_eq!(parse_chinese_number("一百零五"), Some(105));
    assert_eq!(parse_chinese_number("两千三百四十五"), Some(2345));
    assert_eq!(parse_chinese_number("〇"), Some(0));
    assert_eq!(parse_chinese_number("三 十"), Some(30));
    assert_eq!(parse_chinese_number(""), None);
    assert_eq!(parse_chinese_number("十a"), None);
}

#[test]
fn heading_numbers_prefer_digits() {
    assert_eq!(decimal(&parse_number_text("7")), Some(s("7")));
    assert_eq!(whole(&parse_number_text("七")), Some(7));
    assert!(parse_number_text("上").is_none());
}

#[test]
fn numbered_titles_split_at_the_suffix() {
    let (n, rest) = split_numbered_title("第十二章 重逢", &['章', '节']).unwrap();
    assert_eq!(whole(&Some(n)), Some(12));
    assert_eq!(rest, " 重逢");
    let (n, rest) = split_numbered_title("第3节：开始", &['章', '节']).unwrap();
    assert_eq!(decimal(&Some(n)), Some(s("3")));
    assert_eq!(rest, "：开始");
    assert!(split_numbered_title("序章", &['章']).is_none());
    assert!(split_numbered_title("第X章", &['章']).is_none());
    assert!(split_numbered_title("第一", &['章']).is_none());
}

#[test]
fn volume_numbers_from_headings() {
    assert_eq!(decimal(&parse_number_between("文库 第2卷 上", '第', &['卷'])), Some(s("2")));
    assert_eq!(whole(&parse_number_between("第三卷", '第', &['卷'])), Some(3));
    assert!(parse_number_between("短篇", '第', &['卷']).is_none());
    match volume_number_from_cell(Some("第四卷 完"), 9) {
        Number::Whole(v) => assert_eq!(v, 4),
        _ => panic!("expected a whole number"),
    }
    match volume_number_from_cell(Some("短篇集"), 9) {
        Number::Whole(v) => assert_eq!(v, 9),
        _ => panic!("expected the fallback"),
    }
    match volume_number_from_cell(None, 2) {
        Number::Whole(v) => assert_eq!(v, 2),
        _ => panic!("expected the fallback"),
    }
}

#[test]
fn chapter_labels() {
    assert!(is_chapter_label("第一章"));
    assert!(is_chapter_label(" 序章 "));
    assert!(is_chapter_label("插圖"));
    assert!(!is_chapter_label("作者的话"));
}

#[test]
fn catalog_titles_lose_their_heading() {
    assert_eq!(clean_catalog_chapter_title("【第一章】 出发"), Some(s("出发")));
    assert_eq!(clean_catalog_chapter_title("【序章】：黎明"), Some(s("黎明")));
    assert_eq!(clean_catalog_chapter_title("第二章 — 归来 "), Some(s("归来")));
    assert_eq!(clean_catalog_chapter_title("  插图  "), Some(s("插图")));
    assert_eq!(clean_catalog_chapter_title("【作者】的话"), Some(s("【作者】的话")));
    assert_eq!(clean_catalog_chapter_title("第三章"), None);
    assert_eq!(clean_catalog_chapter_title("   "), None);
    assert_eq!(trim_title_separator("  ：－ 标题 "), "标题");
}

#[test]
fn chapter_text_is_made_of_trimmed_paragraphs() {
    let raw = s("  第一段\r\n\r\n\u{a0}\u{a0}第二段 \r第三段\n\n");
    let once = clean_chapter_text(raw);
    assert_eq!(once, "第一段\n\n第二段\n\n第三段");
    assert_eq!(clean_chapter_text(once.clone()), once);
    assert_eq!(clean_chapter_text(s(" \n \r\n")), "");
}

#[test]
fn entities_are_decoded_in_order() {
    assert_eq!(decode_basic_entities("a&amp;b&lt;c&gt;&nbsp;"), "a&b<c> ");
    assert_eq!(decode_basic_entities("&quot;x&quot; &apos;y&#39;"), "\"x\" 'y'");
    assert_eq!(decode_basic_entities("&amp;lt;"), "<");
}

#[test]
fn descriptions_keep_one_blank_line() {
    assert_eq!(
        clean_description(s("  line1\r\n\r\n\r\nline2 ")),
        Some(s("line1\n\nline2"))
    );
    assert_eq!(clean_description(s("a\nb")), Some(s("a\nb")));
    assert_eq!(clean_description(s("   \n ")), None);
    assert_eq!(clean_description(s("作品Tags：校园 恋爱")), None);
    assert!(is_detail_metadata("  文章状态：连载中"));
    assert!(!is_detail_metadata("故事发生在"));
}

#[test]
fn statuses() {
    assert_eq!(parse_status("已完成"), MangaStatus::Completed);
    assert_eq!(parse_status(" 1 "), MangaStatus::Completed);
    assert_eq!(parse_status("文章状态：已完結"), MangaStatus::Completed);
    assert_eq!(parse_status("连载中"), MangaStatus::Ongoing);
    assert_eq!(parse_status("0"), MangaStatus::Ongoing);
    assert_eq!(parse_status("10"), MangaStatus::Unknown);
}

#[test]
fn values_after_labels() {
    let text = "小说作者：张三/文库分类：电击文库";
    assert_eq!(value_after_labels(text, &["小说作者："]), Some(s("张三")));
    assert_eq!(value_after_labels(text, &["作者：", "文库分类："]), Some(s("张三")));
    assert_eq!(value_after_labels("作者： /x", &["作者：", "x"]), None);
    assert_eq!(value_after_labels("作者： /x 作者", &["作者：", "x "]), Some(s("作者")));
    assert_eq!(value_after_labels("无", &["作者："]), None);
}

#[test]
fn tags_and_spaces() {
    assert_eq!(split_tags(" 校园  恋爱\t治愈 "), vec![s("校园"), s("恋爱"), s("治愈")]);
    assert!(split_tags("   ").is_empty());
    assert_eq!(normalize_space_str("  a \t b\n c "), "a b c");
    assert_eq!(normalize_space_str(&normalize_space_str("  x  y ")), "x y");
}

#[test]
fn unique_lists_keep_the_first() {
    let mut entries = Vec::new();
    push_unique(&mut entries, book("1", "A"));
    push_unique(&mut entries, book("2", "B"));
    push_unique(&mut entries, book("1", "C"));
    assert_eq!(entries.len(), 2);
    assert_eq!(entries[0].title, "A");
    assert_eq!(entries[1].key, "2");

    let mut tags = Vec::new();
    push_unique_string(&mut tags, s("x"));
    push_unique_string(&mut tags, s("x"));
    push_unique_string(&mut tags, s("y"));
    assert_eq!(tags, vec![s("x"), s("y")]);
}

#[test]
fn percent_encoding() {
    assert_eq!(encode_component(b"a b~-_.Z9"), "a%20b~-_.Z9");
    assert_eq!(encode_component("中".as_bytes()), "%E4%B8%AD");
    assert_eq!(encode_component(b"/&="), "%2F%26%3D");
    assert_eq!(encode_component(b""), "");
}

#[test]
fn gbk_component_uses_gbk_bytes() {
    assert_eq!(encode_gbk_component("中"), "%D6%D0");
    assert_eq!(encode_gbk_component("中文 a"), "%D6%D0%CE%C4%20a");
    assert_eq!(encode_gbk_component("abc"), "abc");
}

#[test]
fn gbk_bytes_both_ways() {
    assert_eq!(encode_gbk_component("中"), "%D6%D0");
    assert_eq!(encode_gbk_component("ok"), "ok");
    let (text, check) = read_page(200, None, &[0xD6, 0xD0, b'!']);
    assert_eq!((text.as_str(), check), ("中!", PageCheck::Page));
    let (text, _) = read_page(200, None, b"plain");
    assert_eq!(text, "plain");
}

#[test]
fn base64_of_standard_vectors() {
    assert_eq!(base64_encode(b""), "");
    assert_eq!(base64_encode(b"f"), "Zg==");
    assert_eq!(base64_encode(b"fo"), "Zm8=");
    assert_eq!(base64_encode(b"foo"), "Zm9v");
    assert_eq!(base64_encode(b"foob"), "Zm9vYg==");
    assert_eq!(base64_encode(b"foobar"), "Zm9vYmFy");
    assert_eq!(base64_encode(&[0xFF, 0xEE]), "/+4=");
    for n in 0..10usize {
        let data = vec![7u8; n];
        assert_eq!(base64_encode(&data).len(), (n + 2) / 3 * 4);
    }
}

#[test]
fn br_tags_and_markup() {
    assert!(is_br_tag("<br>"));
    assert!(is_br_tag("<BR/>"));
    assert!(is_br_tag("<br />"));
    assert!(!is_br_tag("<b>"));
    assert!(!is_br_tag("<br"));
    assert_eq!(text_from_html("一<br>二<br/><br/>三&amp;<b>四</b>"), "一\n二\n三&四");
    assert_eq!(text_from_html("<p>a</p>"), "a");
}
