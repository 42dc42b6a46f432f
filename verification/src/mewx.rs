//! Searching through the relay of the MewX Wenku8 client, which answers in
//! a small XML dialect.
use vstd::prelude::*;
use vstd::utf8::encode_utf8;
use crate::consts::{MEWX_APP_VERSION, SEARCH_PAGE_SIZE};
use crate::details::{book_address, book_url};
use crate::encode::{
    ascii_bytes, ascii_bytes_exec, base64, base64_encode, encode_component,
    encode_gbk_component, gbk_encoding, lemma_percent_encode_chars,
    is_component_char, percent_encode, };
use crate::listing::PageResultView;
use crate::model::{
    ContentRating, Viewer,
    Manga, MangaPageResult, MangaStatus, MangaView, SourceError, manga_views, opt_str,
};
use crate::number::{push_signed_decimal, signed_decimal};
use crate::text::{
    after, after_exec, all_digits, all_digits_exec, before, before_exec, char_is_ws, contains,
    contains_exec, ends_with, ends_with_exec, find, find_exec, find_from, find_from_exec, from_chars,
    is_ws, lemma_find_from_some, matches_at, matches_at_exec, prefix, push_all, slice_chars,
    starts_with, starts_with_exec, string_views, suffix, to_chars, trim, trim_end, trimmed, words,
};
use crate::util::{
    clean_description, clean_description_spec, cover_url, decode_entities, decode_entities_exec,
    distinct_keys, has_key, lemma_distinct_keys_subrange, lemma_push_unique_distinct, mewx_cover_url,
    parse_status, push_unique, push_unique_spec, split_tags, status_of,
};

verus! {

// ---------------------------------------------------------------------------
// XML scanning
// ---------------------------------------------------------------------------

/// The value after `marker` up to the next `quote`, entities decoded.
pub open spec fn attr_after(xml: Seq<char>, marker: Seq<char>, quote: char) -> Option<Seq<char>> {
    match after(xml, marker) {
        Some(rest) => Some(decode_entities(before(rest, seq![quote]))),
        None => None,
    }
}

/// The value of the first `name='…'` attribute, else of the first
/// `name="…"` one.
pub open spec fn xml_attr_of(xml: Seq<char>, name: Seq<char>) -> Option<Seq<char>> {
    match attr_after(xml, name + "='"@, '\'') {
        Some(v) => Some(v),
        None => attr_after(xml, name + "=\""@, '"'),
    }
}

/// An attribute written at the start of a tag, `name='value'`, reads back
/// as its value with entities decoded, whatever follows it, when the value
/// holds no quote.
pub proof fn lemma_xml_attr_roundtrip(name: Seq<char>, value: Seq<char>, rest: Seq<char>)
    requires
        forall|i: int| 0 <= i < value.len() ==> value[i] != '\'',
    ensures
        xml_attr_of(name + "='"@ + value + "'"@ + rest, name) == Some(decode_entities(value)),
{
    reveal_strlit("='");
    reveal_strlit("'");
    let marker = name + "='"@;
    let s = marker + value + "'"@ + rest;
    assert(s.subrange(0, marker.len() as int) =~= marker);
    assert(matches_at(s, marker, 0));
    assert(find(s, marker) == Some(0int));
    let tail = value + seq!['\''] + rest;
    assert(s.skip(marker.len() as int) =~= tail);
    assert(tail.subrange(value.len() as int, value.len() + 1int) =~= seq!['\'']);
    assert forall|i: int| 0 <= i < value.len() implies tail[i] != seq!['\''][0] by {
        assert(tail[i] == value[i]);
    }
    crate::text::lemma_find_at_char(tail, seq!['\''], value.len() as int, 0);
    assert(tail.take(value.len() as int) =~= value);
}

/// Reads the value after a marker up to a quote.
pub fn xml_attr_after(xml: &str, marker: &str, quote: char) -> (r: Option<String>)
    ensures
        opt_str(r) == attr_after(xml@, marker@, quote),
{
    let v = to_chars(xml);
    let m = to_chars(marker);
    match attr_after_chars(v.as_slice(), m.as_slice(), quote) {
        Some(x) => Some(from_chars(x.as_slice())),
        None => None,
    }
}

fn attr_after_chars(xml: &[char], marker: &[char], quote: char) -> (r: Option<Vec<char>>)
    ensures
        match r {
            Some(x) => attr_after(xml@, marker@, quote) == Some(x@),
            None => attr_after(xml@, marker@, quote) is None,
        },
{
    match after_exec(xml, marker) {
        Some(rest) => {
            let q = vec![quote];
            assert(q@ =~= seq![quote]);
            let value = before_exec(rest.as_slice(), q.as_slice());
            Some(decode_entities_exec(value.as_slice()))
        },
        None => None,
    }
}

fn xml_attr_chars(xml: &[char], name: &[char]) -> (r: Option<Vec<char>>)
    ensures
        match r {
            Some(x) => xml_attr_of(xml@, name@) == Some(x@),
            None => xml_attr_of(xml@, name@) is None,
        },
{
    let mut single = crate::text::concat(name, to_chars("='").as_slice());
    if let Some(v) = attr_after_chars(xml, single.as_slice(), '\'') {
        return Some(v);
    }
    let double = crate::text::concat(name, to_chars("=\"").as_slice());
    attr_after_chars(xml, double.as_slice(), '"')
}

/// Reads an attribute of an XML tag.
pub fn xml_attr(xml: &str, name: &str) -> (r: Option<String>)
    ensures
        opt_str(r) == xml_attr_of(xml@, name@),
{
    let v = to_chars(xml);
    let n = to_chars(name);
    match xml_attr_chars(v.as_slice(), n.as_slice()) {
        Some(x) => Some(from_chars(x.as_slice())),
        None => None,
    }
}

/// The first `<data>` element whose `name` attribute is `name`, at or after
/// `cursor`: its opening tag when that closes itself, else up to and with
/// its `</data>`.
pub open spec fn data_element_from(xml: Seq<char>, name: Seq<char>, cursor: int) -> Option<
    Seq<char>,
>
    decreases xml.len() - cursor,
{
    if cursor < 0 || cursor > xml.len() {
        None
    } else {
        match find_from(xml, "<data"@, cursor) {
            Some(start) => match find_from(xml, ">"@, start) {
                Some(open_end) => if cursor <= start && start <= open_end && open_end < xml.len() {
                    let open_tag = xml.subrange(start, open_end + 1);
                    if xml_attr_of(open_tag, "name"@) == Some(name) {
                        if ends_with(trim_end(open_tag), "/>"@) {
                            Some(open_tag)
                        } else {
                            match find_from(xml, "</data>"@, open_end + 1) {
                                Some(c) => if c + 7 <= xml.len() {
                                    Some(xml.subrange(start, c + 7))
                                } else {
                                    None
                                },
                                None => None,
                            }
                        }
                    } else {
                        data_element_from(xml, name, open_end + 1)
                    }
                } else {
                    None
                },
                None => None,
            },
            None => None,
        }
    }
}

pub open spec fn data_element(xml: Seq<char>, name: Seq<char>) -> Option<Seq<char>> {
    data_element_from(xml, name, 0)
}

/// `str::trim_end`.
fn trimmed_end(v: &[char]) -> (r: Vec<char>)
    ensures
        r@ == trim_end(v@),
{
    let mut b: usize = v.len();
    while b > 0 && char_is_ws(v[b - 1])
        invariant
            b <= v@.len(),
            forall|i: int| b <= i < v@.len() ==> is_ws(#[trigger] v@[i]),
        decreases b,
    {
        b -= 1;
    }
    proof {
        crate::text::lemma_trim_end_take(v@, b as int);
    }
    prefix(v, b)
}

fn lit(s: &str) -> (v: Vec<char>)
    ensures
        v@ == s@,
{
    to_chars(s)
}

fn data_element_chars(xml: &[char], name: &[char]) -> (r: Option<Vec<char>>)
    ensures
        match r {
            Some(x) => data_element(xml@, name@) == Some(x@),
            None => data_element(xml@, name@) is None,
        },
{
    proof {
        reveal_strlit("<data");
        reveal_strlit(">");
        reveal_strlit("</data>");
    }
    let n = xml.len();
    let open = lit("<data");
    let gt = lit(">");
    let close = lit("</data>");
    let name_attr = lit("name");
    let self_close = lit("/>");
    let mut cursor: usize = 0;
    while cursor <= n
        invariant
            n == xml@.len(),
            open@ == "<data"@,
            gt@ == ">"@,
            close@ == "</data>"@,
            name_attr@ == "name"@,
            self_close@ == "/>"@,
            data_element(xml@, name@) == data_element_from(xml@, name@, cursor as int),
        decreases n + 1 - cursor,
    {
        proof {
            reveal_strlit("<data");
            reveal_strlit(">");
            reveal_strlit("</data>");
        }
        let start = match find_from_exec(xml, open.as_slice(), cursor) {
            Some(s) => s,
            None => return None,
        };
        proof {
            lemma_find_from_some(xml@, open@, cursor as int);
        }
        let open_end = match find_from_exec(xml, gt.as_slice(), start) {
            Some(e) => e,
            None => return None,
        };
        proof {
            lemma_find_from_some(xml@, gt@, start as int);
        }
        let open_tag = slice_chars(xml, start, open_end + 1);
        let matched = match xml_attr_chars(open_tag.as_slice(), name_attr.as_slice()) {
            Some(v) => crate::text::chars_eq(v.as_slice(), name),
            None => false,
        };
        if matched {
            let te = trimmed_end(open_tag.as_slice());
            if ends_with_exec(te.as_slice(), self_close.as_slice()) {
                return Some(open_tag);
            }
            match find_from_exec(xml, close.as_slice(), open_end + 1) {
                Some(c) => {
                    proof {
                        lemma_find_from_some(xml@, close@, open_end + 1);
                    }
                    return Some(slice_chars(xml, start, c + 7));
                },
                None => return None,
            }
        }
        cursor = open_end + 1;
    }
    proof {
        assert(data_element_from(xml@, name@, cursor as int) is None);
    }
    None
}

/// Finds a `<data>` element by its `name`.
pub fn xml_data_element(xml: &str, name: &str) -> (r: Option<String>)
    ensures
        opt_str(r) == data_element(xml@, name@),
{
    let v = to_chars(xml);
    let n = to_chars(name);
    match data_element_chars(v.as_slice(), n.as_slice()) {
        Some(x) => Some(from_chars(x.as_slice())),
        None => None,
    }
}

/// The last position at or before `i` where `p` occurs.
pub open spec fn last_match_from(s: Seq<char>, p: Seq<char>, i: int) -> Option<int>
    decreases i + 1,
{
    if i < 0 {
        None
    } else if matches_at(s, p, i) {
        Some(i)
    } else {
        last_match_from(s, p, i - 1)
    }
}

/// `str::rfind`.
pub open spec fn rfind(s: Seq<char>, p: Seq<char>) -> Option<int> {
    last_match_from(s, p, s.len() - p.len())
}

fn rfind_exec(v: &[char], p: &[char]) -> (r: Option<usize>)
    ensures
        match r {
            Some(i) => rfind(v@, p@) == Some(i as int) && i + p@.len() <= v@.len(),
            None => rfind(v@, p@) is None,
        },
{
    let n = v.len();
    if p.len() > n {
        return None;
    }
    let mut i: usize = n - p.len();
    loop
        invariant
            i <= n - p@.len(),
            n == v@.len(),
            p@.len() <= n,
            rfind(v@, p@) == last_match_from(v@, p@, i as int),
        decreases i,
    {
        if matches_at_exec(v, p, i) {
            return Some(i);
        }
        if i == 0 {
            return None;
        }
        i -= 1;
    }
}

/// The text of a data element's content: a CDATA section's content trimmed,
/// or the trimmed content with entities decoded.
pub open spec fn text_value(raw: Seq<char>) -> Seq<char> {
    let t = trim(raw);
    if starts_with(t, "<![CDATA["@) && ends_with(t.skip(9), "]]>"@) {
        trim(t.skip(9).take(t.len() - 12))
    } else {
        trim(decode_entities(t))
    }
}

fn text_value_chars(raw: &[char]) -> (r: Vec<char>)
    ensures
        r@ == text_value(raw@),
{
    proof {
        reveal_strlit("<![CDATA[");
        reveal_strlit("]]>");
    }
    let t = trimmed(raw);
    let cdata = lit("<![CDATA[");
    let end = lit("]]>");
    if starts_with_exec(t.as_slice(), cdata.as_slice()) {
        let inner = suffix(t.as_slice(), 9);
        if ends_with_exec(inner.as_slice(), end.as_slice()) {
            let body = prefix(inner.as_slice(), inner.len() - 3);
            assert(body@ =~= t@.skip(9).take(t@.len() - 12));
            return trimmed(body.as_slice());
        }
    }
    let decoded = decode_entities_exec(t.as_slice());
    trimmed(decoded.as_slice())
}

/// Reads the text of a data element's content.
pub fn xml_text_value(raw: &str) -> (r: String)
    ensures
        r@ == text_value(raw@),
{
    let v = to_chars(raw);
    let r = text_value_chars(v.as_slice());
    from_chars(r.as_slice())
}

/// The text content of the named data element.
pub open spec fn data_text(xml: Seq<char>, name: Seq<char>) -> Option<Seq<char>> {
    match data_element(xml, name) {
        Some(el) => match find(el, ">"@) {
            Some(open_end) => match rfind(el, "</data>"@) {
                Some(close_start) => if 0 <= open_end && open_end + 1 <= close_start {
                    Some(text_value(el.subrange(open_end + 1, close_start)))
                } else {
                    None
                },
                None => None,
            },
            None => None,
        },
        None => None,
    }
}

fn data_text_chars(xml: &[char], name: &[char]) -> (r: Option<Vec<char>>)
    ensures
        match r {
            Some(x) => data_text(xml@, name@) == Some(x@),
            None => data_text(xml@, name@) is None,
        },
{
    proof {
        reveal_strlit(">");
    }
    let el = match data_element_chars(xml, name) {
        Some(e) => e,
        None => return None,
    };
    let gt = lit(">");
    let close = lit("</data>");
    let open_end = match find_exec(el.as_slice(), gt.as_slice()) {
        Some(o) => o,
        None => return None,
    };
    proof {
        lemma_find_from_some(el@, gt@, 0);
    }
    let el_len = el.len();
    let close_start = match rfind_exec(el.as_slice(), close.as_slice()) {
        Some(c) => c,
        None => return None,
    };
    if open_end + 1 > close_start {
        return None;
    }
    let content = slice_chars(el.as_slice(), open_end + 1, close_start);
    Some(text_value_chars(content.as_slice()))
}

/// Reads the text content of the named data element.
pub fn xml_data_text(xml: &str, name: &str) -> (r: Option<String>)
    ensures
        opt_str(r) == data_text(xml@, name@),
{
    let v = to_chars(xml);
    let n = to_chars(name);
    match data_text_chars(v.as_slice(), n.as_slice()) {
        Some(x) => Some(from_chars(x.as_slice())),
        None => None,
    }
}

/// An attribute of the opening tag of the named data element.
pub open spec fn data_attr(xml: Seq<char>, name: Seq<char>, attr: Seq<char>) -> Option<Seq<char>> {
    match data_element(xml, name) {
        Some(el) => match find(el, ">"@) {
            Some(open_end) => if 0 <= open_end < el.len() {
                xml_attr_of(el.take(open_end + 1), attr)
            } else {
                None
            },
            None => None,
        },
        None => None,
    }
}

fn data_attr_chars(xml: &[char], name: &[char], attr: &[char]) -> (r: Option<Vec<char>>)
    ensures
        match r {
            Some(x) => data_attr(xml@, name@, attr@) == Some(x@),
            None => data_attr(xml@, name@, attr@) is None,
        },
{
    proof {
        reveal_strlit(">");
    }
    let el = match data_element_chars(xml, name) {
        Some(e) => e,
        None => return None,
    };
    let gt = lit(">");
    let open_end = match find_exec(el.as_slice(), gt.as_slice()) {
        Some(o) => o,
        None => return None,
    };
    proof {
        lemma_find_from_some(el@, gt@, 0);
    }
    let el_len = el.len();
    let tag = prefix(el.as_slice(), open_end + 1);
    xml_attr_chars(tag.as_slice(), attr)
}

/// Reads an attribute of the named data element.
pub fn xml_data_attr(xml: &str, name: &str, attr: &str) -> (r: Option<String>)
    ensures
        opt_str(r) == data_attr(xml@, name@, attr@),
{
    let v = to_chars(xml);
    let n = to_chars(name);
    let a = to_chars(attr);
    match data_attr_chars(v.as_slice(), n.as_slice(), a.as_slice()) {
        Some(x) => Some(from_chars(x.as_slice())),
        None => None,
    }
}

// ---------------------------------------------------------------------------
// Books
// ---------------------------------------------------------------------------

/// The book that a relay record describes: its `aid` (else the given key),
/// which must be a number, its title (else the key), author, state, tags and
/// description.
pub open spec fn mewx_manga(xml: Seq<char>, fallback_key: Option<Seq<char>>) -> Option<MangaView> {
    let key = match xml_attr_of(xml, "aid"@) {
        Some(k) => Some(k),
        None => fallback_key,
    };
    match key {
        Some(k) => if !all_digits(k) {
            None
        } else {
            let authors = match data_attr(xml, "Author"@, "value"@) {
                Some(a) => Some(seq![a]),
                None => None,
            };
            Some(
                MangaView {
                    key: k,
                    title: match data_text(xml, "Title"@) {
                        Some(t) => t,
                        None => k,
                    },
                    cover: Some(cover_url(k)),
                    url: Some(book_address(k)),
                    authors,
                    artists: authors,
                    description: match data_text(xml, "IntroPreview"@) {
                        Some(d) => clean_description_spec(d),
                        None => None,
                    },
                    tags: match data_attr(xml, "Tags"@, "value"@) {
                        Some(t) => Some(words(t)),
                        None => None,
                    },
                    status: match data_attr(xml, "BookStatus"@, "value"@) {
                        Some(v) => status_of(v),
                        None => MangaStatus::Unknown,
                    },
                    content_rating: ContentRating::Safe,
                    viewer: Viewer::Vertical,
                },
            )
        },
        None => None,
    }
}

fn one_string(s: &Vec<char>) -> (r: Vec<String>)
    ensures
        string_views(r@) == seq![s@],
{
    let v = vec![from_chars(s.as_slice())];
    assert(string_views(v@) =~= seq![s@]);
    v
}

fn parse_mewx_manga_chars(xml: &[char], fallback_key: Option<&[char]>) -> (r: Option<Manga>)
    ensures
        match r {
            Some(m) => mewx_manga(
                xml@,
                match fallback_key {
                    Some(k) => Some(k@),
                    None => None,
                },
            ) == Some(m@),
            None => mewx_manga(
                xml@,
                match fallback_key {
                    Some(k) => Some(k@),
                    None => None,
                },
            ) is None,
        },
{
    let key: Vec<char> = match xml_attr_chars(xml, lit("aid").as_slice()) {
        Some(k) => k,
        None => match fallback_key {
            Some(k) => slice_chars(k, 0, k.len()),
            None => return None,
        },
    };
    proof {
        if let Some(k) = fallback_key {
            assert(k@.subrange(0, k@.len() as int) =~= k@);
        }
    }
    if !all_digits_exec(key.as_slice()) {
        return None;
    }
    let key_str = from_chars(key.as_slice());
    let title = match data_text_chars(xml, lit("Title").as_slice()) {
        Some(t) => from_chars(t.as_slice()),
        None => from_chars(key.as_slice()),
    };
    let cover = mewx_cover_url(key_str.as_str());
    let url = book_url(key_str.as_str());
    let author = data_attr_chars(xml, lit("Author").as_slice(), lit("value").as_slice());
    let authors: Option<Vec<String>> = match &author {
        Some(a) => Some(one_string(a)),
        None => None,
    };
    let artists: Option<Vec<String>> = match &author {
        Some(a) => Some(one_string(a)),
        None => None,
    };
    let status = match data_attr_chars(xml, lit("BookStatus").as_slice(), lit("value").as_slice()) {
        Some(v) => parse_status(from_chars(v.as_slice()).as_str()),
        None => MangaStatus::Unknown,
    };
    let tags = match data_attr_chars(xml, lit("Tags").as_slice(), lit("value").as_slice()) {
        Some(t) => Some(split_tags(from_chars(t.as_slice()).as_str())),
        None => None,
    };
    let description = match data_text_chars(xml, lit("IntroPreview").as_slice()) {
        Some(d) => clean_description(from_chars(d.as_slice())),
        None => None,
    };
    Some(
        Manga {
            key: key_str,
            title,
            cover: Some(cover),
            url: Some(url),
            authors,
            artists,
            description,
            tags,
            status,
            content_rating: ContentRating::Safe,
            viewer: Viewer::Vertical,
        },
    )
}

/// Reads the book that a relay record describes.
pub fn parse_mewx_manga(xml: &str, fallback_key: Option<&str>) -> (r: Option<Manga>)
    ensures
        match r {
            Some(m) => mewx_manga(
                xml@,
                match fallback_key {
                    Some(k) => Some(k@),
                    None => None,
                },
            ) == Some(m@),
            None => mewx_manga(
                xml@,
                match fallback_key {
                    Some(k) => Some(k@),
                    None => None,
                },
            ) is None,
        },
{
    let v = to_chars(xml);
    match fallback_key {
        Some(k) => {
            let kv = to_chars(k);
            parse_mewx_manga_chars(v.as_slice(), Some(kv.as_slice()))
        },
        None => parse_mewx_manga_chars(v.as_slice(), None),
    }
}

// ---------------------------------------------------------------------------
// Search results
// ---------------------------------------------------------------------------

/// The `<item>` records of a relay answer, at or after `cursor`: a
/// self-closing opening tag, or up to and with the `</item>`; reading stops
/// at an opening tag without `>` or an item without its end.
pub open spec fn items_from(xml: Seq<char>, cursor: int) -> Seq<Seq<char>>
    decreases xml.len() - cursor,
{
    if cursor < 0 || cursor > xml.len() {
        seq![]
    } else {
        match find_from(xml, "<item"@, cursor) {
            Some(start) => match find_from(xml, ">"@, start) {
                Some(open_end) => if cursor <= start && start <= open_end && open_end < xml.len() {
                    let open_tag = xml.subrange(start, open_end + 1);
                    if ends_with(trim_end(open_tag), "/>"@) {
                        seq![open_tag] + items_from(xml, open_end + 1)
                    } else {
                        match find_from(xml, "</item>"@, open_end + 1) {
                            Some(c) => if open_end < c && c + 7 <= xml.len() {
                                seq![xml.subrange(start, c + 7)] + items_from(xml, c + 7)
                            } else {
                                seq![]
                            },
                            None => seq![],
                        }
                    }
                } else {
                    seq![]
                },
                None => seq![],
            },
            None => seq![],
        }
    }
}

/// The books of the records, in order.
pub open spec fn records_books(items: Seq<Seq<char>>) -> Seq<MangaView>
    decreases items.len(),
{
    if items.len() == 0 {
        seq![]
    } else {
        match mewx_manga(items[0], None) {
            Some(m) => seq![m] + records_books(items.drop_first()),
            None => records_books(items.drop_first()),
        }
    }
}

/// Reads the books of a relay search answer, in order, as the records give
/// them (some may carry only their key as title).
pub fn parse_mewx_items(xml: &str) -> (out: Vec<Manga>)
    ensures
        manga_views(out@) == records_books(items_from(xml@, 0)),
{
    proof {
        reveal_strlit("<item");
        reveal_strlit(">");
        reveal_strlit("</item>");
    }
    let v = to_chars(xml);
    let xs = v.as_slice();
    let n = xs.len();
    let open = lit("<item");
    let gt = lit(">");
    let close = lit("</item>");
    let self_close = lit("/>");
    let mut out: Vec<Manga> = Vec::new();
    let mut cursor: usize = 0;
    let ghost total = records_books(items_from(xml@, 0));
    assert(manga_views(out@) =~= Seq::<MangaView>::empty());
    loop
        invariant_except_break
            n == v@.len(),
            v@ == xml@,
            xs@ == v@,
            cursor <= n,
            open@ == "<item"@,
            gt@ == ">"@,
            close@ == "</item>"@,
            self_close@ == "/>"@,
            manga_views(out@) + records_books(items_from(v@, cursor as int)) == total,
        ensures
            manga_views(out@) == total,
        decreases n + 1 - cursor,
    {
        proof {
            reveal_strlit("<item");
            reveal_strlit(">");
            reveal_strlit("</item>");
        }
        let ghost before_out = manga_views(out@);
        let start = match find_from_exec(xs, open.as_slice(), cursor) {
            Some(s) => s,
            None => {
                assert(items_from(v@, cursor as int) =~= Seq::<Seq<char>>::empty());
                assert(records_books(Seq::<Seq<char>>::empty()) =~= Seq::<MangaView>::empty());
                assert(manga_views(out@) + Seq::<MangaView>::empty() =~= manga_views(out@));
                break;
            },
        };
        proof {
            lemma_find_from_some(v@, open@, cursor as int);
        }
        let open_end = match find_from_exec(xs, gt.as_slice(), start) {
            Some(e) => e,
            None => {
                assert(items_from(v@, cursor as int) =~= Seq::<Seq<char>>::empty());
                assert(records_books(Seq::<Seq<char>>::empty()) =~= Seq::<MangaView>::empty());
                assert(manga_views(out@) + Seq::<MangaView>::empty() =~= manga_views(out@));
                break;
            },
        };
        proof {
            lemma_find_from_some(v@, gt@, start as int);
        }
        let open_tag = slice_chars(xs, start, open_end + 1);
        let te = trimmed_end(open_tag.as_slice());
        let item: Vec<char>;
        let next: usize;
        if ends_with_exec(te.as_slice(), self_close.as_slice()) {
            item = open_tag;
            next = open_end + 1;
        } else {
            match find_from_exec(xs, close.as_slice(), open_end + 1) {
                Some(c) => {
                    proof {
                        lemma_find_from_some(v@, close@, open_end + 1);
                    }
                    item = slice_chars(xs, start, c + 7);
                    next = c + 7;
                },
                None => {
                    assert(items_from(v@, cursor as int) =~= Seq::<Seq<char>>::empty());
                    assert(records_books(Seq::<Seq<char>>::empty()) =~= Seq::<MangaView>::empty());
                    assert(manga_views(out@) + Seq::<MangaView>::empty() =~= manga_views(out@));
                    break;
                },
            }
        }
        let ghost rest = items_from(v@, next as int);
        assert(items_from(v@, cursor as int) == seq![item@] + rest);
        assert((seq![item@] + rest).drop_first() =~= rest);
        if let Some(m) = parse_mewx_manga_chars(item.as_slice(), None) {
            let ghost mv = m@;
            out.push(m);
            assert(manga_views(out@) =~= before_out.push(mv));
            assert(before_out.push(mv) + records_books(rest) =~= before_out + (seq![mv]
                + records_books(rest)));
        }
        cursor = next;
    }
    out
}

/// The books added once each, by key.
pub open spec fn unique_books(v: Seq<MangaView>) -> Seq<MangaView>
    decreases v.len(),
{
    if v.len() == 0 {
        seq![]
    } else {
        push_unique_spec(unique_books(v.drop_last()), v.last())
    }
}

/// A page of search results: the distinct books, twenty to a page, pages
/// counted from 1 (a lower page number counts as 1); an empty last page when
/// the page lies beyond the results.
pub open spec fn search_result_page(entries: Seq<MangaView>, page: i32) -> PageResultView {
    let e = unique_books(entries);
    let p = if page < 1 {
        1
    } else {
        page as int
    };
    let raw_start = (p - 1) * SEARCH_PAGE_SIZE as int;
    let start = if raw_start > usize::MAX {
        usize::MAX as int
    } else {
        raw_start
    };
    let total = e.len() as int;
    if start >= total {
        PageResultView { entries: seq![], has_next_page: false }
    } else {
        let end = if start + SEARCH_PAGE_SIZE > total {
            total
        } else {
            start + SEARCH_PAGE_SIZE
        };
        PageResultView { entries: e.subrange(start, end), has_next_page: end < total }
    }
}

/// A book that a search answer names only by its key, whose metadata is
/// asked for before it is listed.
pub fn needs_book_metadata(book: &Manga) -> (b: bool)
    ensures
        b == (book.title@ == book.key@),
{
    let t = to_chars(book.title.as_str());
    let k = to_chars(book.key.as_str());
    crate::text::chars_eq(t.as_slice(), k.as_slice())
}

/// A relay record gives a book exactly when its `aid` (else the given key)
/// is present and made of ASCII digits. The book has that key; the record's
/// title, else the key, as title; the image host's cover; the book page as
/// address; the same author and artist; a Safe rating and the vertical
/// viewer.
pub proof fn lemma_mewx_manga_fields(xml: Seq<char>, fallback_key: Option<Seq<char>>)
    ensures
        mewx_manga(xml, fallback_key) is Some <==> (match xml_attr_of(xml, "aid"@) {
            Some(k) => all_digits(k),
            None => fallback_key matches Some(k) && all_digits(k),
        }),
        mewx_manga(xml, fallback_key) matches Some(m) ==> {
            &&& m.key == match xml_attr_of(xml, "aid"@) {
                Some(k) => k,
                None => fallback_key->0,
            }
            &&& all_digits(m.key)
            &&& m.title == match data_text(xml, "Title"@) {
                Some(t) => t,
                None => m.key,
            }
            &&& m.cover == Some(cover_url(m.key))
            &&& m.url == Some(book_address(m.key))
            &&& m.artists == m.authors
            &&& m.content_rating == ContentRating::Safe
            &&& m.viewer == Viewer::Vertical
        },
{
}

/// The distinct books never share a key.
pub proof fn lemma_unique_books_distinct(v: Seq<MangaView>)
    ensures
        distinct_keys(unique_books(v)),
    decreases v.len(),
{
    if v.len() > 0 {
        lemma_unique_books_distinct(v.drop_last());
        lemma_push_unique_distinct(unique_books(v.drop_last()), v.last());
    }
}

/// De-duplicating keeps the first book of each key and drops no key: every
/// key of the books is listed, and every listed book is the first of the
/// books with its key.
pub proof fn lemma_unique_books_first(v: Seq<MangaView>)
    ensures
        forall|i: int| 0 <= i < v.len() ==> has_key(unique_books(v), #[trigger] v[i].key),
        forall|j: int|
            0 <= j < unique_books(v).len() ==> exists|i: int|
                0 <= i < v.len() && #[trigger] unique_books(v)[j] == v[i] && forall|k: int|
                    0 <= k < i ==> (#[trigger] v[k]).key != v[i].key,
    decreases v.len(),
{
    if v.len() > 0 {
        let p = v.drop_last();
        lemma_unique_books_first(p);
        let u = unique_books(p);
        let m = v.last();
        let r = unique_books(v);
        assert(r == push_unique_spec(u, m));
        assert forall|i: int| 0 <= i < v.len() implies has_key(r, #[trigger] v[i].key) by {
            if i < p.len() {
                assert(p[i] == v[i]);
                assert(has_key(u, p[i].key));
                let w = choose|w: int| 0 <= w < u.len() && (#[trigger] u[w]).key == p[i].key;
                assert(r[w] == u[w]);
            } else {
                if has_key(u, m.key) {
                } else {
                    assert(r[u.len() as int] == m);
                }
            }
        }
        assert forall|j: int| 0 <= j < r.len() implies exists|i: int|
            0 <= i < v.len() && #[trigger] r[j] == v[i] && forall|k: int|
                0 <= k < i ==> (#[trigger] v[k]).key != v[i].key by {
            if j < u.len() {
                assert(r[j] == u[j]);
                let i = choose|i: int|
                    0 <= i < p.len() && #[trigger] u[j] == p[i] && forall|k: int|
                        0 <= k < i ==> (#[trigger] p[k]).key != p[i].key;
                assert(v[i] == p[i]);
                assert forall|k: int| 0 <= k < i implies (#[trigger] v[k]).key != v[i].key by {
                    assert(v[k] == p[k]);
                }
            } else {
                assert(!has_key(u, m.key));
                assert(r[j] == m);
                let i = v.len() - 1;
                assert(v[i] == m);
                assert forall|k: int| 0 <= k < i implies (#[trigger] v[k]).key != v[i].key by {
                    assert(v[k] == p[k]);
                    if p[k].key == m.key {
                        let w = choose|w: int| 0 <= w < u.len() && (#[trigger] u[w]).key == p[k].key;
                        assert(has_key(u, m.key));
                    }
                }
            }
        }
    }
}

/// A page of search results holds at most twenty books, none twice.
pub proof fn lemma_search_page_bounds(entries: Seq<MangaView>, page: i32)
    ensures
        distinct_keys(search_result_page(entries, page).entries),
        search_result_page(entries, page).entries.len() <= SEARCH_PAGE_SIZE,
{
    lemma_unique_books_distinct(entries);
    let e = unique_books(entries);
    let r = search_result_page(entries, page);
    if r.entries.len() > 0 {
        let p = if page < 1 {
            1
        } else {
            page as int
        };
        let raw_start = (p - 1) * SEARCH_PAGE_SIZE as int;
        let start = if raw_start > usize::MAX {
            usize::MAX as int
        } else {
            raw_start
        };
        let total = e.len() as int;
        let end = if start + SEARCH_PAGE_SIZE > total {
            total
        } else {
            start + SEARCH_PAGE_SIZE
        };
        assert(0 <= start) by (nonlinear_arith)
            requires
                p >= 1,
                raw_start == (p - 1) * 20,
                start == (if raw_start > usize::MAX {
                    usize::MAX as int
                } else {
                    raw_start
                }),
        ;
        lemma_distinct_keys_subrange(e, start, end);
    }
}

/// A page of search results that has a next page is full, and a page
/// number below 1 reads as the first page.
pub proof fn lemma_search_page_full(entries: Seq<MangaView>, page: i32)
    ensures
        search_result_page(entries, page).has_next_page ==> search_result_page(
            entries,
            page,
        ).entries.len() == SEARCH_PAGE_SIZE,
        page < 1 ==> search_result_page(entries, page) == search_result_page(entries, 1),
{
}

/// The pages 1 to `k` of search results, put together.
pub open spec fn search_pages_upto(entries: Seq<MangaView>, k: nat) -> Seq<MangaView>
    decreases k,
{
    if k == 0 {
        seq![]
    } else {
        search_pages_upto(entries, (k - 1) as nat) + search_result_page(entries, k as i32).entries
    }
}

/// The pages of search results, put together from the first, give the
/// distinct books in order: the first `k` pages give the first `20·k` of
/// them, and all of them once a page has no next page.
pub proof fn lemma_search_pages_concat(entries: Seq<MangaView>, k: nat)
    requires
        k <= i32::MAX,
        k * SEARCH_PAGE_SIZE <= usize::MAX,
    ensures
        search_pages_upto(entries, k) == unique_books(entries).take(
            if k * SEARCH_PAGE_SIZE < unique_books(entries).len() {
                k * SEARCH_PAGE_SIZE
            } else {
                unique_books(entries).len() as int
            },
        ),
        k >= 1 && !search_result_page(entries, k as i32).has_next_page ==> search_pages_upto(
            entries,
            k,
        ) == unique_books(entries),
    decreases k,
{
    let e = unique_books(entries);
    let total = e.len() as int;
    if k == 0 {
        assert(e.take(0) =~= Seq::<MangaView>::empty());
    } else {
        lemma_search_pages_concat(entries, (k - 1) as nat);
        let start = (k - 1) * SEARCH_PAGE_SIZE;
        let page = k as i32;
        assert(page as int == k);
        let prev_len = if start < total {
            start
        } else {
            total
        };
        let end = if start + SEARCH_PAGE_SIZE > total {
            total
        } else {
            start + SEARCH_PAGE_SIZE
        };
        let r = search_result_page(entries, page);
        if start >= total {
            assert(r.entries =~= Seq::<MangaView>::empty());
            assert(search_pages_upto(entries, k) =~= e.take(prev_len));
        } else {
            assert(r.entries == e.subrange(start, end));
            assert(e.take(start) + e.subrange(start, end) =~= e.take(end));
        }
        if !r.has_next_page {
            assert(e.take(total) =~= e);
        }
    }
}

/// Every book has a key of ASCII digits.
pub open spec fn digit_keys(v: Seq<MangaView>) -> bool {
    forall|i: int| 0 <= i < v.len() ==> all_digits(#[trigger] v[i].key)
}

/// The books of relay records have keys of ASCII digits.
pub proof fn lemma_records_digit_keys(items: Seq<Seq<char>>)
    ensures
        digit_keys(records_books(items)),
    decreases items.len(),
{
    if items.len() > 0 {
        lemma_records_digit_keys(items.drop_first());
        let rest = records_books(items.drop_first());
        if let Some(m) = mewx_manga(items[0], None) {
            let all = seq![m] + rest;
            assert forall|i: int| 0 <= i < all.len() implies all_digits(#[trigger] all[i].key) by {
                if i > 0 {
                    assert(all[i] == rest[i - 1]);
                }
            }
        }
    }
}

proof fn lemma_unique_books_digit_keys(v: Seq<MangaView>)
    requires
        digit_keys(v),
    ensures
        digit_keys(unique_books(v)),
    decreases v.len(),
{
    if v.len() > 0 {
        let p = v.drop_last();
        assert forall|i: int| 0 <= i < p.len() implies all_digits(#[trigger] p[i].key) by {
            assert(p[i] == v[i]);
        }
        lemma_unique_books_digit_keys(p);
        let u = unique_books(p);
        assert(all_digits(v[v.len() - 1].key));
        let r = push_unique_spec(u, v.last());
        assert forall|i: int| 0 <= i < r.len() implies all_digits(#[trigger] r[i].key) by {
            if i < u.len() {
                assert(r[i] == u[i]);
            }
        }
    }
}

/// Every key that a search shows is ASCII digits: those of the relay's
/// records, those of the relay's metadata, and so those of every page made
/// from them.
pub proof fn lemma_search_digit_keys(xml: Seq<char>, key: Seq<char>, entries: Seq<MangaView>, page: i32)
    ensures
        digit_keys(records_books(items_from(xml, 0))),
        mewx_manga(xml, Some(key)) matches Some(m) ==> all_digits(m.key),
        digit_keys(entries) ==> digit_keys(search_result_page(entries, page).entries),
{
    lemma_records_digit_keys(items_from(xml, 0));
    if digit_keys(entries) {
        lemma_unique_books_digit_keys(entries);
        let e = unique_books(entries);
        let r = search_result_page(entries, page);
        assert forall|i: int| 0 <= i < r.entries.len() implies all_digits(#[trigger] r.entries[i].key) by {
            let p = if page < 1 {
                1
            } else {
                page as int
            };
            let raw_start = (p - 1) * SEARCH_PAGE_SIZE as int;
            let start = if raw_start > usize::MAX {
                usize::MAX as int
            } else {
                raw_start
            };
            assert(0 <= start) by (nonlinear_arith)
                requires
                    p >= 1,
                    raw_start == (p - 1) * 20,
                    start == (if raw_start > usize::MAX {
                        usize::MAX as int
                    } else {
                        raw_start
                    }),
            ;
            assert(r.entries[i] == e[start + i]);
        }
    }
}

/// Makes a page of search results from the books of a relay answer.
pub fn mewx_search_page(entries: Vec<Manga>, page: i32) -> (r: MangaPageResult)
    ensures
        crate::listing::page_result_view(r) == search_result_page(manga_views(entries@), page),
{
    let ghost all = manga_views(entries@);
    let mut unique: Vec<Manga> = Vec::new();
    let mut source = entries;
    let ghost mut k: int = 0;
    assert(all.take(0) =~= Seq::<MangaView>::empty());
    assert(manga_views(unique@) =~= Seq::<MangaView>::empty());
    assert(manga_views(source@) =~= all.skip(0));
    while source.len() > 0
        invariant
            0 <= k <= all.len(),
            manga_views(source@) == all.skip(k),
            manga_views(unique@) == unique_books(all.take(k)),
        decreases source.len(),
    {
        let ghost before_src = source@;
        assert(all.skip(k).len() == before_src.len());
        let m = source.remove(0);
        assert(source@ =~= before_src.drop_first());
        assert(manga_views(source@) =~= manga_views(before_src).drop_first());
        assert(all.skip(k).drop_first() =~= all.skip(k + 1));
        assert(m == before_src[0]);
        assert(all.skip(k)[0] == all[k]);
        assert(all.take(k + 1).drop_last() =~= all.take(k));
        assert(all.take(k + 1).last() == all[k]);
        push_unique(&mut unique, m);
        proof {
            k = k + 1;
        }
    }
    proof {
        assert(all.take(k) =~= all);
    }
    let p: i32 = if page < 1 {
        1
    } else {
        page
    };
    let steps = (p - 1) as usize;
    let start: usize = if steps > usize::MAX / SEARCH_PAGE_SIZE {
        usize::MAX
    } else {
        steps * SEARCH_PAGE_SIZE
    };
    let total = unique.len();
    if start >= total {
        return MangaPageResult { entries: Vec::new(), has_next_page: false };
    }
    let end: usize = if total - start < SEARCH_PAGE_SIZE {
        total
    } else {
        start + SEARCH_PAGE_SIZE
    };
    let ghost e = manga_views(unique@);
    unique.truncate(end);
    let mut page_entries = unique.split_off(start);
    assert(manga_views(page_entries@) =~= e.subrange(start as int, end as int));
    MangaPageResult { entries: page_entries, has_next_page: end < total }
}

// ---------------------------------------------------------------------------
// Relay requests
// ---------------------------------------------------------------------------

/// The relay's search request for a query: the query's GBK bytes
/// percent-encoded, and that text percent-encoded again.
pub open spec fn search_request_text(search_type: Seq<char>, query: Seq<char>) -> Seq<char> {
    "action=search&searchtype="@ + search_type + "&searchkey="@ + percent_encode(
        ascii_bytes(percent_encode(gbk_encoding(query))),
    )
}

/// Builds the relay's search request.
pub fn search_request(search_type: &str, query: &str) -> (out: String)
    requires
        query@.len() <= usize::MAX / 16,
    ensures
        out@ == search_request_text(search_type@, query@),
{
    let gbk = encode_gbk_component(query);
    let gv = to_chars(gbk.as_str());
    proof {
        lemma_percent_encode_chars(gbk_encoding(query@));
        assert forall|i: int| 0 <= i < gv@.len() implies 0 <= (#[trigger] gv@[i] as int) < 128 by {
            assert(is_component_char(gv@[i]));
        }
    }
    let bytes = ascii_bytes_exec(gv.as_slice());
    let relay_query = encode_component(bytes.as_slice());
    let mut o = lit("action=search&searchtype=");
    push_all(&mut o, to_chars(search_type).as_slice());
    push_all(&mut o, lit("&searchkey=").as_slice());
    push_all(&mut o, to_chars(relay_query.as_str()).as_slice());
    from_chars(o.as_slice())
}

/// The relay's request for a book's metadata.
pub open spec fn book_meta_request_text(key: Seq<char>) -> Seq<char> {
    "action=book&do=meta&aid="@ + key + "&t=0"@
}

/// Builds the relay's request for a book's metadata.
pub fn book_meta_request(key: &str) -> (out: String)
    ensures
        out@ == book_meta_request_text(key@),
{
    let mut o = lit("action=book&do=meta&aid=");
    push_all(&mut o, to_chars(key).as_slice());
    push_all(&mut o, lit("&t=0").as_slice());
    from_chars(o.as_slice())
}

/// The form body of a relay request: the request Base64-encoded and
/// percent-encoded, the time token in milliseconds, and the client version.
pub open spec fn form_body_text(request: Seq<char>, time_millis: int) -> Seq<char> {
    "request="@ + percent_encode(ascii_bytes(base64(encode_utf8(request)))) + "&timetoken="@
        + signed_decimal(time_millis) + "&appver="@ + percent_encode(
        encode_utf8(MEWX_APP_VERSION@),
    )
}

/// Builds the form body of a relay request at a time given in seconds.
pub fn mewx_form_body(request: &str, now_seconds: i64) -> (out: String)
    requires
        i64::MIN <= now_seconds * 1000 <= i64::MAX,
    ensures
        out@ == form_body_text(request@, now_seconds * 1000),
{
    let encoded_request = base64_encode(request.as_bytes());
    let ev = to_chars(encoded_request.as_str());
    proof {
        let b = encode_utf8(request@);
        assert forall|i: int| 0 <= i < ev@.len() implies 0 <= (#[trigger] ev@[i] as int) < 128 by {
            lemma_base64_ascii(b, i);
        }
    }
    let bytes = ascii_bytes_exec(ev.as_slice());
    let req = encode_component(bytes.as_slice());
    let ver = encode_component(MEWX_APP_VERSION.as_bytes());
    let timetoken: i64 = now_seconds * 1000;
    let mut o = lit("request=");
    push_all(&mut o, to_chars(req.as_str()).as_slice());
    push_all(&mut o, lit("&timetoken=").as_slice());
    push_signed_decimal(&mut o, timetoken);
    push_all(&mut o, lit("&appver=").as_slice());
    push_all(&mut o, to_chars(ver.as_str()).as_slice());
    from_chars(o.as_slice())
}

/// Base64 text is ASCII.
pub proof fn lemma_base64_ascii(bs: Seq<u8>, i: int)
    requires
        0 <= i < base64(bs).len(),
    ensures
        0 <= (base64(bs)[i] as int) < 128,
    decreases bs.len(),
{
    let g = if bs.len() <= 3 {
        bs
    } else {
        bs.take(3)
    };
    if bs.len() > 3 && i >= 4 {
        lemma_base64_ascii(bs.skip(3), i - 4);
    } else {
        let grp = crate::encode::b64_group(g);
        assert(base64(bs)[i] == grp[i]);
        let b0 = g[0] as int;
        assert(0 <= b0 / 4 < 64);
        assert(0 <= (b0 % 4) * 16 + (if g.len() > 1 { g[1] as int } else { 0 }) / 16 < 64);
        assert(0 <= ((if g.len() > 1 { g[1] as int } else { 0 }) % 16) * 4 + (if g.len() > 2 { g[2] as int } else { 0 }) / 64 < 64);
        assert(0 <= (if g.len() > 2 { g[2] as int } else { 0 }) % 64 < 64);
    }
}

/// The relay's answer, unless its status is not 2xx or it reports a
/// network failure of its own.
pub open spec fn relay_answer(status: i32, text: Seq<char>) -> Result<Seq<char>, SourceError> {
    if !(200 <= status && status < 300) {
        Err(SourceError::RelayHttp(status))
    } else if contains(text, "java.net."@) {
        Err(SourceError::RelayNetwork)
    } else {
        Ok(text)
    }
}

/// The relay's answer is used as it stands when its status is 2xx and it
/// reports no network failure of its own; a status outside 200–299 is an
/// HTTP error carrying that status, and a 2xx answer naming a `java.net.`
/// failure is a network error.
pub proof fn lemma_relay_answer_rules(status: i32, text: Seq<char>)
    ensures
        200 <= status < 300 && !contains(text, "java.net."@) ==> relay_answer(status, text) == Ok::<
            Seq<char>,
            SourceError,
        >(text),
        !(200 <= status < 300) ==> relay_answer(status, text) == Err::<Seq<char>, SourceError>(
            SourceError::RelayHttp(status),
        ),
        200 <= status < 300 && contains(text, "java.net."@) ==> relay_answer(status, text) == Err::<
            Seq<char>,
            SourceError,
        >(SourceError::RelayNetwork),
{
}

/// Checks the relay's answer.
pub fn check_relay_response(status: i32, text: String) -> (r: Result<String, SourceError>)
    ensures
        match relay_answer(status, text@) {
            Ok(t) => r matches Ok(s) && s@ == t,
            Err(e) => r == Err::<String, SourceError>(e),
        },
{
    if !(200 <= status && status < 300) {
        return Err(SourceError::RelayHttp(status));
    }
    let v = to_chars(text.as_str());
    if contains_exec(v.as_slice(), lit("java.net.").as_slice()) {
        return Err(SourceError::RelayNetwork);
    }
    Ok(text)
}

/// The metadata of a book from the relay's answer; an error when it
/// describes no book.
pub fn book_metadata_from(xml: &str, key: &str) -> (r: Result<Manga, SourceError>)
    ensures
        match mewx_manga(xml@, Some(key@)) {
            Some(m) => r matches Ok(x) && x@ == m,
            None => r matches Err(e) && e matches SourceError::RelayNoBook(k) && k@ == key@,
        },
{
    match parse_mewx_manga(xml, Some(key)) {
        Some(m) => Ok(m),
        None => Err(SourceError::RelayNoBook(from_chars(to_chars(key).as_slice()))),
    }
}

} // verus!
