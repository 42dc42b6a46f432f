//! Text clean-up, URL handling and book-key extraction shared by the pages.
use vstd::prelude::*;
use crate::consts::{BASE_URL, IMG_URL, LEGACY_PIC_URL, PIC_URL};
use crate::model::{Manga, MangaStatus, MangaView, manga_views};
use crate::number::{parse_i32, parse_i32_exec, push_signed_decimal, signed_decimal};
use crate::text::{
    after, all_digits, all_digits_exec, before, before_exec, chars_eq, contains, contains_exec,
    ends_with, ends_with_exec, from_chars, lines, lines_exec, normalize_space,
    normalize_space_exec, prefix, push_all, replace, replace_exec, second_piece,
    second_piece_exec, starts_with, starts_with_exec, string_views, suffix, to_chars, to_strings,
    trim, trimmed, views, words, words_exec, after_exec, lemma_words_are_words, lemma_words_of_join,
};

verus! {

// ---------------------------------------------------------------------------
// Entities
// ---------------------------------------------------------------------------

/// Replaces a literal pattern.
pub fn replace_lit(v: &[char], p: &str, r: &str) -> (out: Vec<char>)
    requires
        p@.len() > 0,
    ensures
        out@ == replace(v@, p@, r@),
{
    let pv = to_chars(p);
    let rv = to_chars(r);
    replace_exec(v, pv.as_slice(), rv.as_slice())
}

/// The common HTML entities replaced, in this order: `&nbsp;`, `&amp;`,
/// `&lt;`, `&gt;`, `&quot;`, `&apos;`, `&#39;`.
pub open spec fn decode_entities(s: Seq<char>) -> Seq<char> {
    replace(
        replace(
            replace(
                replace(
                    replace(replace(replace(s, "&nbsp;"@, " "@), "&amp;"@, "&"@), "&lt;"@, "<"@),
                    "&gt;"@,
                    ">"@,
                ),
                "&quot;"@,
                "\""@,
            ),
            "&apos;"@,
            "'"@,
        ),
        "&#39;"@,
        "'"@,
    )
}

/// A text without `&` holds no entity, and decoding leaves it as it is.
pub proof fn lemma_decode_entities_plain(s: Seq<char>)
    requires
        forall|i: int| 0 <= i < s.len() ==> s[i] != '&',
    ensures
        decode_entities(s) == s,
{
    reveal_strlit("&nbsp;");
    reveal_strlit("&amp;");
    reveal_strlit("&lt;");
    reveal_strlit("&gt;");
    reveal_strlit("&quot;");
    reveal_strlit("&apos;");
    reveal_strlit("&#39;");
    crate::text::lemma_replace_absent(s, "&nbsp;"@, " "@);
    crate::text::lemma_replace_absent(s, "&amp;"@, "&"@);
    crate::text::lemma_replace_absent(s, "&lt;"@, "<"@);
    crate::text::lemma_replace_absent(s, "&gt;"@, ">"@);
    crate::text::lemma_replace_absent(s, "&quot;"@, "\""@);
    crate::text::lemma_replace_absent(s, "&apos;"@, "'"@);
    crate::text::lemma_replace_absent(s, "&#39;"@, "'"@);
}

pub fn decode_entities_exec(v: &[char]) -> (out: Vec<char>)
    ensures
        out@ == decode_entities(v@),
{
    proof {
        reveal_strlit("&nbsp;");
        reveal_strlit("&amp;");
        reveal_strlit("&lt;");
        reveal_strlit("&gt;");
        reveal_strlit("&quot;");
        reveal_strlit("&apos;");
        reveal_strlit("&#39;");
    }
    let a = replace_lit(v, "&nbsp;", " ");
    let b = replace_lit(a.as_slice(), "&amp;", "&");
    let c = replace_lit(b.as_slice(), "&lt;", "<");
    let d = replace_lit(c.as_slice(), "&gt;", ">");
    let e = replace_lit(d.as_slice(), "&quot;", "\"");
    let f = replace_lit(e.as_slice(), "&apos;", "'");
    replace_lit(f.as_slice(), "&#39;", "'")
}

/// Replaces the common HTML entities of a text.
pub fn decode_basic_entities(text: &str) -> (out: String)
    ensures
        out@ == decode_entities(text@),
{
    let v = to_chars(text);
    let r = decode_entities_exec(v.as_slice());
    from_chars(r.as_slice())
}

// ---------------------------------------------------------------------------
// Descriptions and metadata
// ---------------------------------------------------------------------------

/// The labels of the metadata lines of a book page.
pub const DETAIL_LABELS: [&'static str; 33] = [
    "作品Tags",
    "点击数",
    "點擊數",
    "总点击",
    "總點擊",
    "月点击",
    "月點擊",
    "周点击",
    "周點擊",
    "日点击",
    "日點擊",
    "推荐数",
    "推薦數",
    "总推荐",
    "總推薦",
    "月推荐",
    "月推薦",
    "周推荐",
    "周推薦",
    "日推荐",
    "日推薦",
    "文章状态",
    "文章狀態",
    "最后更新",
    "最後更新",
    "全文长度",
    "全文長度",
    "小说作者",
    "小說作者",
    "文库分类",
    "文庫分類",
    "动画化",
    "動畫化",
];

/// A metadata line: the trimmed text starts with one of `DETAIL_LABELS`.
pub open spec fn is_metadata(s: Seq<char>) -> bool {
    exists|i: int| 0 <= i < 33 && starts_with(trim(s), (#[trigger] DETAIL_LABELS[i])@)
}

/// Whether a text is a metadata line of a book page rather than a
/// description.
pub fn is_detail_metadata(text: &str) -> (b: bool)
    ensures
        b == is_metadata(text@),
{
    let v = to_chars(text);
    let t = trimmed(v.as_slice());
    let mut i: usize = 0;
    while i < 33
        invariant
            i <= 33,
            t@ == trim(text@),
            forall|k: int| 0 <= k < i ==> !starts_with(t@, (#[trigger] DETAIL_LABELS[k])@),
        decreases 33 - i,
    {
        let label = to_chars(DETAIL_LABELS[i]);
        if starts_with_exec(t.as_slice(), label.as_slice()) {
            return true;
        }
        i += 1;
    }
    false
}

/// The text of a description, line by line: a line feed between lines, and
/// for each run of blank lines one more line feed, as long as the text is
/// not empty and does not already end in two line feeds.
pub open spec fn description_fold(ls: Seq<Seq<char>>) -> Seq<char>
    decreases ls.len(),
{
    if ls.len() == 0 {
        seq![]
    } else {
        let r = description_fold(ls.drop_last());
        let line = trim(ls.last());
        if line.len() == 0 {
            if r.len() > 0 && !ends_with(r, "\n\n"@) {
                r.push('\n')
            } else {
                r
            }
        } else {
            let r2 = if r.len() > 0 && !ends_with(r, "\n"@) {
                r.push('\n')
            } else {
                r
            };
            r2 + line
        }
    }
}

/// Line ends made uniform: CRLF and CR become LF.
pub open spec fn unify_line_ends(s: Seq<char>) -> Seq<char> {
    replace(replace(s, "\r\n"@, "\n"@), "\r"@, "\n"@)
}

/// A book description cleaned up, or `None` when nothing is left or it is
/// a metadata line.
pub open spec fn clean_description_spec(raw: Seq<char>) -> Option<Seq<char>> {
    let result = trim(description_fold(lines(unify_line_ends(raw))));
    if result.len() == 0 || is_metadata(result) {
        None
    } else {
        Some(result)
    }
}

/// Making line ends uniform leaves no carriage return, and leaves a text
/// without carriage returns as it is.
pub proof fn lemma_unify_line_ends(s: Seq<char>)
    ensures
        forall|i: int| 0 <= i < unify_line_ends(s).len() ==> #[trigger] unify_line_ends(s)[i] != '\r',
        (forall|i: int| 0 <= i < s.len() ==> s[i] != '\r') ==> unify_line_ends(s) == s,
{
    reveal_strlit("\r\n");
    reveal_strlit("\n");
    reveal_strlit("\r");
    assert("\r"@ =~= seq!['\r']);
    assert("\n"@ =~= seq!['\n']);
    let u1 = replace(s, "\r\n"@, "\n"@);
    crate::text::lemma_replace_char_absent(u1, '\r', '\n', '\r');
    if forall|i: int| 0 <= i < s.len() ==> s[i] != '\r' {
        crate::text::lemma_replace_absent(s, "\r\n"@, "\n"@);
        crate::text::lemma_replace_absent(s, "\r"@, "\n"@);
    }
}

/// A cleaned description is not empty, has no surrounding whitespace, and
/// is not a metadata line.
pub proof fn lemma_clean_description_shape(raw: Seq<char>)
    ensures
        clean_description_spec(raw) matches Some(d) ==> d.len() > 0 && trim(d) == d && !is_metadata(d),
{
    crate::text::lemma_trim_shape(description_fold(lines(unify_line_ends(raw))));
}

pub fn unify_line_ends_exec(v: &[char]) -> (out: Vec<char>)
    ensures
        out@ == unify_line_ends(v@),
{
    proof {
        reveal_strlit("\r\n");
        reveal_strlit("\r");
    }
    let a = replace_lit(v, "\r\n", "\n");
    replace_lit(a.as_slice(), "\r", "\n")
}

/// Cleans up a book description.
pub fn clean_description(raw: String) -> (out: Option<String>)
    ensures
        out matches Some(s) ==> clean_description_spec(raw@) == Some(s@),
        out is None ==> clean_description_spec(raw@) is None,
{
    let v = to_chars(raw.as_str());
    let u = unify_line_ends_exec(v.as_slice());
    let ls = lines_exec(u.as_slice());
    let two = to_chars("\n\n");
    let one = to_chars("\n");
    let mut result: Vec<char> = Vec::new();
    let mut i: usize = 0;
    assert(views(ls@).take(0) =~= Seq::<Seq<char>>::empty());
    while i < ls.len()
        invariant
            i <= ls@.len(),
            two@ == "\n\n"@,
            one@ == "\n"@,
            result@ == description_fold(views(ls@).take(i as int)),
        decreases ls.len() - i,
    {
        let ghost pre = views(ls@).take(i as int);
        assert(views(ls@).take(i + 1).drop_last() =~= pre);
        assert(views(ls@).take(i + 1).last() == ls@[i as int]@);
        let line = trimmed(ls[i].as_slice());
        if line.len() == 0 {
            if result.len() > 0 && !ends_with_exec(result.as_slice(), two.as_slice()) {
                result.push('\n');
            }
        } else {
            if result.len() > 0 && !ends_with_exec(result.as_slice(), one.as_slice()) {
                result.push('\n');
            }
            push_all(&mut result, line.as_slice());
        }
        i += 1;
    }
    assert(views(ls@).take(ls@.len() as int) =~= views(ls@));
    let cleaned = trimmed(result.as_slice());
    if cleaned.len() == 0 {
        return None;
    }
    let s = from_chars(cleaned.as_slice());
    if is_detail_metadata(s.as_str()) {
        None
    } else {
        Some(s)
    }
}

// ---------------------------------------------------------------------------
// Status, labelled values and tags
// ---------------------------------------------------------------------------

/// The publication state that a status text names.
pub open spec fn status_of(s: Seq<char>) -> MangaStatus {
    let t = trim(s);
    if t == "1"@ || contains(t, "已完成"@) || contains(t, "已完结"@) || contains(t, "已完結"@) {
        MangaStatus::Completed
    } else if t == "0"@ || contains(t, "连载"@) || contains(t, "連載"@) {
        MangaStatus::Ongoing
    } else {
        MangaStatus::Unknown
    }
}

fn contains_lit(v: &[char], p: &str) -> (b: bool)
    ensures
        b == contains(v@, p@),
{
    let pv = to_chars(p);
    contains_exec(v, pv.as_slice())
}

fn eq_lit(v: &[char], p: &str) -> (b: bool)
    ensures
        b == (v@ == p@),
{
    let pv = to_chars(p);
    chars_eq(v, pv.as_slice())
}

/// The words of a status text decide its state: a trimmed text that is `1`
/// or mentions a completion (已完成, 已完结, 已完結) is Completed; failing
/// that, one that is `0` or mentions serialization (连载, 連載) is Ongoing;
/// any other is Unknown.
pub proof fn lemma_status_words(text: Seq<char>)
    ensures
        trim(text) == "1"@ ==> status_of(text) == MangaStatus::Completed,
        contains(trim(text), "已完成"@) ==> status_of(text) == MangaStatus::Completed,
        contains(trim(text), "已完结"@) ==> status_of(text) == MangaStatus::Completed,
        contains(trim(text), "已完結"@) ==> status_of(text) == MangaStatus::Completed,
        !(trim(text) == "1"@ || contains(trim(text), "已完成"@) || contains(trim(text), "已完结"@)
            || contains(trim(text), "已完結"@)) ==> (status_of(text) == MangaStatus::Ongoing <==> (
        trim(text) == "0"@ || contains(trim(text), "连载"@) || contains(trim(text), "連載"@))),
        status_of(text) == MangaStatus::Unknown <==> !(trim(text) == "1"@ || trim(text) == "0"@
            || contains(trim(text), "已完成"@) || contains(trim(text), "已完结"@) || contains(
            trim(text),
            "已完結"@,
        ) || contains(trim(text), "连载"@) || contains(trim(text), "連載"@)),
{
}

/// Reads a publication state from a status text.
pub fn parse_status(text: &str) -> (st: MangaStatus)
    ensures
        st == status_of(text@),
{
    let v = to_chars(text);
    let t = trimmed(v.as_slice());
    let t = t.as_slice();
    if eq_lit(t, "1") || contains_lit(t, "已完成") || contains_lit(t, "已完结") || contains_lit(
        t,
        "已完結",
    ) {
        MangaStatus::Completed
    } else if eq_lit(t, "0") || contains_lit(t, "连载") || contains_lit(t, "連載") {
        MangaStatus::Ongoing
    } else {
        MangaStatus::Unknown
    }
}

/// The value after the first of the labels that is followed by one: the
/// text after the label's first occurrence, up to the first `/`, trimmed,
/// and not empty.
pub open spec fn value_after(text: Seq<char>, labels: Seq<Seq<char>>) -> Option<Seq<char>>
    decreases labels.len(),
{
    if labels.len() == 0 {
        None
    } else {
        match after(text, labels[0]) {
            Some(rest) => {
                let v = trim(before(rest, "/"@));
                if v.len() > 0 {
                    Some(v)
                } else {
                    value_after(text, labels.drop_first())
                }
            },
            None => value_after(text, labels.drop_first()),
        }
    }
}

/// The text before the first `/` holds no `/`.
pub proof fn lemma_before_slash(s: Seq<char>)
    ensures
        forall|i: int| 0 <= i < before(s, "/"@).len() ==> #[trigger] before(s, "/"@)[i] != '/',
{
    reveal_strlit("/");
    let p = "/"@;
    let b = before(s, p);
    match crate::text::find(s, p) {
        Some(k) => {
            crate::text::lemma_find_from_some(s, p, 0);
            assert(crate::text::find(s, p) == crate::text::find_from(s, p, 0));
            assert(crate::text::matches_at(s, p, k));
            assert(b == s.take(k));
            assert forall|i: int| 0 <= i < b.len() implies #[trigger] b[i] != '/' by {
                assert(b[i] == s[i]);
                if s[i] == '/' {
                    assert(s.subrange(i, i + 1) =~= p);
                    assert(crate::text::matches_at(s, p, i));
                    assert(!crate::text::matches_at(s, p, i));
                }
            }
        },
        None => {
            assert forall|i: int| 0 <= i < b.len() implies #[trigger] b[i] != '/' by {
                if s[i] == '/' {
                    assert(s.subrange(i, i + 1) =~= p);
                    crate::text::lemma_find_from_none(s, p, 0, i);
                }
            }
        },
    }
}

/// A value read after a label is not empty, has no surrounding whitespace
/// and holds no `/`; it is the value after the first label that occurs in
/// the text with one, and there is none when no label occurs.
pub proof fn lemma_value_after_shape(text: Seq<char>, labels: Seq<Seq<char>>)
    ensures
        value_after(text, labels) matches Some(v) ==> v.len() > 0 && trim(v) == v && forall|i: int|
            0 <= i < v.len() ==> #[trigger] v[i] != '/',
        (forall|k: int| 0 <= k < labels.len() ==> !contains(text, #[trigger] labels[k]))
            ==> value_after(text, labels) is None,
        labels.len() > 0 && (after(text, labels[0]) matches Some(rest) && trim(before(rest, "/"@)).len()
            > 0) ==> value_after(text, labels) == Some(trim(before(after(text, labels[0])->0, "/"@))),
    decreases labels.len(),
{
    if labels.len() > 0 {
        let rest_labels = labels.drop_first();
        assert forall|k: int| 0 <= k < rest_labels.len() implies rest_labels[k] == labels[k + 1] by {}
        lemma_value_after_shape(text, rest_labels);
        if (forall|k: int| 0 <= k < labels.len() ==> !contains(text, #[trigger] labels[k])) {
            assert(!contains(text, labels[0]));
            assert forall|k: int| 0 <= k < rest_labels.len() implies !contains(
                text,
                #[trigger] rest_labels[k],
            ) by {
                assert(rest_labels[k] == labels[k + 1]);
            }
        }
        if let Some(rest) = after(text, labels[0]) {
            let b = before(rest, "/"@);
            lemma_before_slash(rest);
            let a = crate::text::lemma_trim_shape(b);
            let v = trim(b);
            assert forall|i: int| 0 <= i < v.len() implies #[trigger] v[i] != '/' by {
                assert(v[i] == b[a + i]);
            }
        }
    }
}

pub open spec fn str_views(v: Seq<&str>) -> Seq<Seq<char>> {
    v.map_values(|s: &str| s@)
}

/// The value that follows one of the labels in a text.
pub fn value_after_labels(text: &str, labels: &[&str]) -> (out: Option<String>)
    ensures
        out matches Some(s) ==> value_after(text@, str_views(labels@)) == Some(s@),
        out is None ==> value_after(text@, str_views(labels@)) is None,
{
    let v = to_chars(text);
    let slash = to_chars("/");
    let n = labels.len();
    let mut i: usize = 0;
    assert(str_views(labels@).skip(0) =~= str_views(labels@));
    while i < n
        invariant
            n == labels@.len(),
            i <= n,
            v@ == text@,
            slash@ == "/"@,
            value_after(text@, str_views(labels@)) == value_after(
                text@,
                str_views(labels@).skip(i as int),
            ),
        decreases n - i,
    {
        let ghost ls = str_views(labels@).skip(i as int);
        assert(ls.drop_first() =~= str_views(labels@).skip(i + 1));
        assert(ls[0] == labels@[i as int]@);
        let label = to_chars(labels[i]);
        if let Some(rest) = after_exec(v.as_slice(), label.as_slice()) {
            let value = before_exec(rest.as_slice(), slash.as_slice());
            let value = trimmed(value.as_slice());
            if value.len() > 0 {
                return Some(from_chars(value.as_slice()));
            }
        }
        i += 1;
    }
    None
}

/// Splits a tag line into tags: its words. A word holds no whitespace, so
/// trimming it changes nothing and none is empty.
pub fn split_tags(text: &str) -> (tags: Vec<String>)
    ensures
        string_views(tags@) == words(text@),
{
    let v = to_chars(text);
    let ws = words_exec(v.as_slice());
    to_strings(&ws)
}

/// The words of a text separated by single spaces.
pub fn normalize_space_str(text: &str) -> (out: String)
    ensures
        out@ == normalize_space(text@),
{
    let v = to_chars(text);
    let r = normalize_space_exec(v.as_slice());
    from_chars(r.as_slice())
}

/// Normalizing the spaces of a text twice gives what normalizing once gave.
pub proof fn lemma_normalize_space_idempotent(s: Seq<char>)
    ensures
        normalize_space(normalize_space(s)) == normalize_space(s),
{
    lemma_words_are_words(s);
    lemma_words_of_join(words(s));
}

// ---------------------------------------------------------------------------
// Unique lists
// ---------------------------------------------------------------------------

/// No two books share a key.
pub open spec fn distinct_keys(v: Seq<MangaView>) -> bool {
    forall|i: int, j: int| 0 <= i < j < v.len() ==> #[trigger] v[i].key != #[trigger] v[j].key
}

/// Some book has the key.
pub open spec fn has_key(v: Seq<MangaView>, key: Seq<char>) -> bool {
    exists|i: int| 0 <= i < v.len() && (#[trigger] v[i]).key == key
}

/// The list with the book added at the end, unless a book with its key is
/// already there.
pub open spec fn push_unique_spec(v: Seq<MangaView>, m: MangaView) -> Seq<MangaView> {
    if has_key(v, m.key) {
        v
    } else {
        v.push(m)
    }
}

/// Adds a book unless one with the same key is already listed.
pub fn push_unique(entries: &mut Vec<Manga>, manga: Manga)
    ensures
        manga_views(final(entries)@) == push_unique_spec(manga_views(old(entries)@), manga@),
{
    let n = entries.len();
    let mut i: usize = 0;
    while i < n
        invariant
            n == entries@.len(),
            i <= n,
            forall|k: int| 0 <= k < i ==> (#[trigger] entries@[k]).key@ != manga.key@,
        decreases n - i,
    {
        if entries[i].key == manga.key {
            assert(manga_views(entries@)[i as int].key == manga@.key);
            return;
        }
        i += 1;
    }
    assert(!has_key(manga_views(entries@), manga@.key)) by {
        if has_key(manga_views(entries@), manga@.key) {
            let k = choose|k: int|
                0 <= k < manga_views(entries@).len() && (#[trigger] manga_views(entries@)[k]).key
                    == manga@.key;
            assert(entries@[k].key@ != manga.key@);
        }
    }
    let ghost before = entries@;
    entries.push(manga);
    assert(manga_views(entries@) =~= manga_views(before).push(manga@));
}

/// Adding a book keeps the keys distinct, and afterwards its key is listed.
pub proof fn lemma_push_unique_distinct(v: Seq<MangaView>, m: MangaView)
    requires
        distinct_keys(v),
    ensures
        distinct_keys(push_unique_spec(v, m)),
        has_key(push_unique_spec(v, m), m.key),
        push_unique_spec(v, m).len() <= v.len() + 1,
        forall|i: int| 0 <= i < v.len() ==> #[trigger] push_unique_spec(v, m)[i] == v[i],
{
    let r = push_unique_spec(v, m);
    if !has_key(v, m.key) {
        assert(r[v.len() as int] == m);
        assert forall|i: int, j: int| 0 <= i < j < r.len() implies #[trigger] r[i].key
            != #[trigger] r[j].key by {
            if j == v.len() {
                assert(r[i] == v[i]);
                if r[i].key == m.key {
                    assert(has_key(v, m.key));
                }
            }
        }
    }
}

/// The strings with the value added at the end, unless it is already there.
pub open spec fn push_unique_string_spec(v: Seq<Seq<char>>, s: Seq<char>) -> Seq<Seq<char>> {
    if v.contains(s) {
        v
    } else {
        v.push(s)
    }
}

/// Adding a string keeps a list free of repeats, and afterwards the string
/// is listed.
pub proof fn lemma_push_unique_string_distinct(v: Seq<Seq<char>>, x: Seq<char>)
    requires
        v.no_duplicates(),
    ensures
        push_unique_string_spec(v, x).no_duplicates(),
        push_unique_string_spec(v, x).contains(x),
{
    let r = push_unique_string_spec(v, x);
    if !v.contains(x) {
        assert(r[v.len() as int] == x);
        assert forall|i: int, j: int| 0 <= i < r.len() && 0 <= j < r.len() && i != j implies r[i]
            != r[j] by {
            if i == v.len() {
                assert(r[j] == v[j]);
                if r[i] == r[j] {
                    assert(v.contains(x));
                }
            } else if j == v.len() {
                assert(r[i] == v[i]);
                if r[i] == r[j] {
                    assert(v.contains(x));
                }
            } else {
                assert(r[i] == v[i] && r[j] == v[j]);
            }
        }
    }
}

/// A prefix of a list without repeated keys has none either.
pub proof fn lemma_distinct_keys_take(v: Seq<MangaView>, n: int)
    requires
        distinct_keys(v),
        0 <= n <= v.len(),
    ensures
        distinct_keys(v.take(n)),
{
    assert forall|i: int, j: int| 0 <= i < j < v.take(n).len() implies #[trigger] v.take(n)[i].key
        != #[trigger] v.take(n)[j].key by {
        assert(v.take(n)[i] == v[i] && v.take(n)[j] == v[j]);
    }
}

/// A stretch of a list without repeated keys has none either.
pub proof fn lemma_distinct_keys_subrange(v: Seq<MangaView>, a: int, b: int)
    requires
        distinct_keys(v),
        0 <= a <= b <= v.len(),
    ensures
        distinct_keys(v.subrange(a, b)),
{
    assert forall|i: int, j: int|
        0 <= i < j < v.subrange(a, b).len() implies #[trigger] v.subrange(a, b)[i].key
        != #[trigger] v.subrange(a, b)[j].key by {
        assert(v.subrange(a, b)[i] == v[a + i] && v.subrange(a, b)[j] == v[a + j]);
    }
}

/// Adds a string unless it is already listed.
pub fn push_unique_string(entries: &mut Vec<String>, value: String)
    ensures
        string_views(final(entries)@) == push_unique_string_spec(string_views(old(entries)@), value@),
{
    let n = entries.len();
    let mut i: usize = 0;
    while i < n
        invariant
            n == entries@.len(),
            i <= n,
            forall|k: int| 0 <= k < i ==> (#[trigger] entries@[k])@ != value@,
        decreases n - i,
    {
        if entries[i] == value {
            assert(string_views(entries@)[i as int] == value@);
            return;
        }
        i += 1;
    }
    assert(!string_views(entries@).contains(value@)) by {
        if string_views(entries@).contains(value@) {
            let k = choose|k: int|
                0 <= k < string_views(entries@).len() && string_views(entries@)[k] == value@;
            assert(entries@[k]@ != value@);
        }
    }
    let ghost before = entries@;
    entries.push(value);
    assert(string_views(entries@) =~= string_views(before).push(value@));
}

// ---------------------------------------------------------------------------
// URLs
// ---------------------------------------------------------------------------

/// The position of the last `/`.
pub open spec fn last_slash(s: Seq<char>) -> Option<int>
    decreases s.len(),
{
    if s.len() == 0 {
        None
    } else if s.last() == '/' {
        Some(s.len() - 1)
    } else {
        last_slash(s.drop_last())
    }
}

/// A link made absolute: absolute links stay, site-rooted ones get the
/// site's address, and others are resolved against the directory of
/// `base` (the text before its last `/`, or the site's address).
pub open spec fn resolve(href: Seq<char>, base: Seq<char>) -> Seq<char> {
    if starts_with(href, "http"@) {
        href
    } else if starts_with(href, "/"@) {
        BASE_URL@ + href
    } else {
        let dir = match last_slash(base) {
            Some(i) => base.take(i),
            None => BASE_URL@,
        };
        dir + "/"@ + href
    }
}

pub proof fn lemma_last_slash_bounds(s: Seq<char>)
    ensures
        last_slash(s) matches Some(i) ==> 0 <= i < s.len() && s[i] == '/',
    decreases s.len(),
{
    if s.len() > 0 && s.last() != '/' {
        lemma_last_slash_bounds(s.drop_last());
    }
}

fn last_slash_exec(v: &[char]) -> (r: Option<usize>)
    ensures
        r matches Some(i) ==> last_slash(v@) == Some(i as int) && i < v@.len(),
        r is None ==> last_slash(v@) is None,
{
    let mut j: usize = v.len();
    assert(v@.take(j as int) =~= v@);
    while j > 0
        invariant
            j <= v@.len(),
            last_slash(v@) == last_slash(v@.take(j as int)),
        decreases j,
    {
        let ghost t = v@.take(j as int);
        assert(t.drop_last() =~= v@.take(j - 1));
        if v[j - 1] == '/' {
            proof {
                lemma_last_slash_bounds(v@);
            }
            return Some(j - 1);
        }
        j -= 1;
    }
    None
}

/// Makes a link absolute.
pub fn resolve_url(href: &str, base_url: &str) -> (out: String)
    ensures
        out@ == resolve(href@, base_url@),
{
    let h = to_chars(href);
    let http = to_chars("http");
    let slash = to_chars("/");
    if starts_with_exec(h.as_slice(), http.as_slice()) {
        return from_chars(h.as_slice());
    }
    let mut out: Vec<char>;
    if starts_with_exec(h.as_slice(), slash.as_slice()) {
        out = to_chars(BASE_URL);
    } else {
        let b = to_chars(base_url);
        out = match last_slash_exec(b.as_slice()) {
            Some(i) => prefix(b.as_slice(), i),
            None => to_chars(BASE_URL),
        };
        push_all(&mut out, slash.as_slice());
    }
    push_all(&mut out, h.as_slice());
    from_chars(out.as_slice())
}

/// An image address made absolute and moved to the current hosts.
pub open spec fn normalize_image(raw: Seq<char>, abs: Option<Seq<char>>, base: Seq<char>) -> Seq<
    char,
> {
    let src0 = trim(raw);
    let src1 = if starts_with(src0, "//"@) {
        "https:"@ + src0
    } else if starts_with(src0, "/image/"@) {
        IMG_URL@ + src0
    } else if starts_with(src0, "/"@) {
        PIC_URL@ + src0
    } else if !starts_with(src0, "http"@) {
        match abs {
            Some(a) => a,
            None => resolve(src0, base),
        }
    } else {
        src0
    };
    let src2 = if starts_with(src1, "http://"@) {
        "https://"@ + src1.skip(7)
    } else {
        src1
    };
    replace(src2, LEGACY_PIC_URL@, PIC_URL@)
}

/// Makes an image address absolute, over HTTPS, on the current hosts.
pub fn normalize_image_url(raw: &str, abs: Option<&str>, base_url: &str) -> (out: String)
    ensures
        out@ == normalize_image(
            raw@,
            match abs {
                Some(a) => Some(a@),
                None => None,
            },
            base_url@,
        ),
{
    proof {
        reveal_strlit("http://");
        reveal_strlit("https://pic.777743.xyz");
    }
    let r = to_chars(raw);
    let src0 = trimmed(r.as_slice());
    let src0 = src0.as_slice();
    let src1: Vec<char> = if starts_with_exec(src0, to_chars("//").as_slice()) {
        let mut o = to_chars("https:");
        push_all(&mut o, src0);
        o
    } else if starts_with_exec(src0, to_chars("/image/").as_slice()) {
        let mut o = to_chars(IMG_URL);
        push_all(&mut o, src0);
        o
    } else if starts_with_exec(src0, to_chars("/").as_slice()) {
        let mut o = to_chars(PIC_URL);
        push_all(&mut o, src0);
        o
    } else if !starts_with_exec(src0, to_chars("http").as_slice()) {
        match abs {
            Some(a) => to_chars(a),
            None => {
                let s = from_chars(src0);
                let resolved = resolve_url(s.as_str(), base_url);
                to_chars(resolved.as_str())
            },
        }
    } else {
        slice_to_vec_chars(src0)
    };
    let src2: Vec<char> = if starts_with_exec(src1.as_slice(), to_chars("http://").as_slice()) {
        let mut o = to_chars("https://");
        let rest = suffix(src1.as_slice(), 7);
        push_all(&mut o, rest.as_slice());
        o
    } else {
        src1
    };
    let legacy = to_chars(LEGACY_PIC_URL);
    let pic = to_chars(PIC_URL);
    let out = replace_exec(src2.as_slice(), legacy.as_slice(), pic.as_slice());
    from_chars(out.as_slice())
}

fn slice_to_vec_chars(v: &[char]) -> (r: Vec<char>)
    ensures
        r@ == v@,
{
    let r = crate::text::slice_chars(v, 0, v.len());
    assert(v@.subrange(0, v@.len() as int) =~= v@);
    r
}

/// The address of an image from its `src` and `abs:src` attributes, or
/// `None` when `src` is missing or blank.
pub fn normalized_img(src: Option<&str>, abs_src: Option<&str>, base_url: &str) -> (out: Option<
    String,
>)
    ensures
        match src {
            Some(s) => if trim(s@).len() == 0 {
                out is None
            } else {
                out matches Some(o) && o@ == normalize_image(
                    s@,
                    match abs_src {
                        Some(a) => Some(a@),
                        None => None,
                    },
                    base_url@,
                )
            },
            None => out is None,
        },
{
    match src {
        Some(s) => {
            let v = to_chars(s);
            let t = trimmed(v.as_slice());
            if t.len() == 0 {
                None
            } else {
                Some(normalize_image_url(s, abs_src, base_url))
            }
        },
        None => None,
    }
}

// ---------------------------------------------------------------------------
// Keys
// ---------------------------------------------------------------------------

/// The key of a book in a search text or a link: the text itself when it is
/// a number, else the number after `/book/`, `bid=`, `aid=`, or in a
/// `/novel/<group>/<key>` path.
pub open spec fn manga_key_of(input: Seq<char>) -> Option<Seq<char>> {
    let v = trim(input);
    if all_digits(v) && v.len() > 0 {
        Some(v)
    } else if second_piece(v, "/book/"@) is Some && all_digits(
        before(second_piece(v, "/book/"@)->0, ".htm"@),
    ) {
        Some(before(second_piece(v, "/book/"@)->0, ".htm"@))
    } else if second_piece(v, "bid="@) is Some && all_digits(
        before(second_piece(v, "bid="@)->0, "&"@),
    ) {
        Some(before(second_piece(v, "bid="@)->0, "&"@))
    } else if second_piece(v, "aid="@) is Some && all_digits(
        before(second_piece(v, "aid="@)->0, "&"@),
    ) {
        Some(before(second_piece(v, "aid="@)->0, "&"@))
    } else if second_piece(v, "/novel/"@) is Some && second_piece(
        second_piece(v, "/novel/"@)->0,
        "/"@,
    ) is Some && all_digits(second_piece(second_piece(v, "/novel/"@)->0, "/"@)->0) {
        Some(second_piece(second_piece(v, "/novel/"@)->0, "/"@)->0)
    } else {
        None
    }
}

/// The key of the piece after `marker` and before `stop`, when it is a number.
fn key_between(v: &[char], marker: &str, stop: &str) -> (r: Option<Vec<char>>)
    ensures
        r matches Some(k) ==> second_piece(v@, marker@) is Some && all_digits(
            before(second_piece(v@, marker@)->0, stop@),
        ) && k@ == before(second_piece(v@, marker@)->0, stop@),
        r is None ==> !(second_piece(v@, marker@) is Some && all_digits(
            before(second_piece(v@, marker@)->0, stop@),
        )),
{
    let m = to_chars(marker);
    let s = to_chars(stop);
    match second_piece_exec(v, m.as_slice()) {
        Some(rest) => {
            let key = before_exec(rest.as_slice(), s.as_slice());
            if all_digits_exec(key.as_slice()) {
                Some(key)
            } else {
                None
            }
        },
        None => None,
    }
}

/// Finds a book key in a search text or link.
pub fn extract_manga_key(input: &str) -> (out: Option<String>)
    ensures
        out matches Some(k) ==> manga_key_of(input@) == Some(k@),
        out is None ==> manga_key_of(input@) is None,
{
    let raw = to_chars(input);
    let v = trimmed(raw.as_slice());
    let v = v.as_slice();
    if all_digits_exec(v) && v.len() > 0 {
        return Some(from_chars(v));
    }
    if let Some(k) = key_between(v, "/book/", ".htm") {
        return Some(from_chars(k.as_slice()));
    }
    if let Some(k) = key_between(v, "bid=", "&") {
        return Some(from_chars(k.as_slice()));
    }
    if let Some(k) = key_between(v, "aid=", "&") {
        return Some(from_chars(k.as_slice()));
    }
    let novel = to_chars("/novel/");
    let slash = to_chars("/");
    if let Some(rest) = second_piece_exec(v, novel.as_slice()) {
        if let Some(key) = second_piece_exec(rest.as_slice(), slash.as_slice()) {
            if all_digits_exec(key.as_slice()) {
                return Some(from_chars(key.as_slice()));
            }
        }
    }
    None
}

/// The book key and chapter key of a chapter link
/// `.../novel/<group>/<book>/<chapter>.htm`, when both are present.
pub open spec fn chapter_keys_of(input: Seq<char>) -> Option<(Seq<char>, Seq<char>)> {
    match second_piece(input, "/novel/"@) {
        Some(rest) => match after(rest, "/"@) {
            Some(r1) => match after(r1, "/"@) {
                Some(r2) => {
                    let manga_key = before(r1, "/"@);
                    let chapter = before(before(r2, "/"@), ".htm"@);
                    if manga_key.len() == 0 || chapter.len() == 0 {
                        None
                    } else {
                        Some((manga_key, chapter))
                    }
                },
                None => None,
            },
            None => None,
        },
        None => None,
    }
}

/// Finds the book and chapter keys in a chapter link.
pub fn extract_chapter_keys(input: &str) -> (out: Option<(String, String)>)
    ensures
        out matches Some((m, c)) ==> chapter_keys_of(input@) == Some((m@, c@)),
        out is None ==> chapter_keys_of(input@) is None,
{
    let v = to_chars(input);
    let novel = to_chars("/novel/");
    let slash = to_chars("/");
    let htm = to_chars(".htm");
    let rest = match second_piece_exec(v.as_slice(), novel.as_slice()) {
        Some(r) => r,
        None => return None,
    };
    let r1 = match after_exec(rest.as_slice(), slash.as_slice()) {
        Some(r) => r,
        None => return None,
    };
    let r2 = match after_exec(r1.as_slice(), slash.as_slice()) {
        Some(r) => r,
        None => return None,
    };
    let manga_key = before_exec(r1.as_slice(), slash.as_slice());
    let third = before_exec(r2.as_slice(), slash.as_slice());
    let chapter = before_exec(third.as_slice(), htm.as_slice());
    if manga_key.len() == 0 || chapter.len() == 0 {
        None
    } else {
        Some((from_chars(manga_key.as_slice()), from_chars(chapter.as_slice())))
    }
}

/// The chapter key of a catalog link: the `cid=` value, or the last path
/// piece without its `.htm` ending.
pub open spec fn chapter_key_of(href: Seq<char>) -> Seq<char> {
    match second_piece(href, "cid="@) {
        Some(rest) => before(rest, "&"@),
        None => before(
            match last_slash(href) {
                Some(i) => href.skip(i + 1),
                None => href,
            },
            ".htm"@,
        ),
    }
}

/// Finds the chapter key in a catalog link.
pub fn extract_chapter_key(href: &str) -> (out: String)
    ensures
        out@ == chapter_key_of(href@),
{
    let v = to_chars(href);
    let cid = to_chars("cid=");
    let amp = to_chars("&");
    let htm = to_chars(".htm");
    if let Some(rest) = second_piece_exec(v.as_slice(), cid.as_slice()) {
        let key = before_exec(rest.as_slice(), amp.as_slice());
        return from_chars(key.as_slice());
    }
    let last: Vec<char> = match last_slash_exec(v.as_slice()) {
        Some(i) => {
            assert(i < v.len());
            suffix(v.as_slice(), i + 1)
        },
        None => slice_to_vec_chars(v.as_slice()),
    };
    let key = before_exec(last.as_slice(), htm.as_slice());
    from_chars(key.as_slice())
}

/// Integer division rounding toward zero, as Rust's `/` on integers does.
pub open spec fn div_toward_zero(a: int, b: int) -> int {
    if a >= 0 {
        a / b
    } else {
        -((-a) / b)
    }
}

/// The directory group of a book: its number divided by 1000, or 0 when the
/// key is not a number.
pub open spec fn book_group(key: Seq<char>) -> int {
    match parse_i32(key) {
        Some(id) => div_toward_zero(id as int, 1000),
        None => 0,
    }
}

pub fn book_group_exec(v: &[char]) -> (g: i64)
    ensures
        g as int == book_group(v@),
{
    match parse_i32_exec(v) {
        Some(id) => {
            let x = id as i64;
            if x >= 0 {
                x / 1000
            } else {
                -((-x) / 1000)
            }
        },
        None => 0,
    }
}

/// The cover address of a book on the image host.
pub open spec fn cover_url(key: Seq<char>) -> Seq<char> {
    IMG_URL@ + "/image/"@ + signed_decimal(book_group(key)) + "/"@ + key + "/"@ + key + "s.jpg"@
}

/// The cover address that the image host gives a book.
pub fn mewx_cover_url(key: &str) -> (out: String)
    ensures
        out@ == cover_url(key@),
{
    let k = to_chars(key);
    let group = book_group_exec(k.as_slice());
    let mut o = to_chars(IMG_URL);
    push_all(&mut o, to_chars("/image/").as_slice());
    push_signed_decimal(&mut o, group);
    push_all(&mut o, to_chars("/").as_slice());
    push_all(&mut o, k.as_slice());
    push_all(&mut o, to_chars("/").as_slice());
    push_all(&mut o, k.as_slice());
    push_all(&mut o, to_chars("s.jpg").as_slice());
    from_chars(o.as_slice())
}

} // verus!
