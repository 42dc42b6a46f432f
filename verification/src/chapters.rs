//! The chapter catalog of a book and the text of a chapter.
use vstd::prelude::*;
use crate::consts::BASE_URL;
use crate::model::{SourceError, opt_str};
use crate::number::{
    Number, NumberView, is_positive, number_positive, chinese_number, chinese_number_exec, number_text_exec, number_text_fits,
    numeric_text, numeric_text_exec, option_number_view, parse_i32, parse_i32_exec,
    push_signed_decimal, signed_decimal,
};
use crate::text::{
    after, contains, is_ws, contains_exec, from_chars, join, join_exec, lines, lines_exec,
    prefix, push_all, suffix, to_chars, trim, trimmed, views,
};
use crate::util::{
    book_group, book_group_exec, chapter_key_of, extract_chapter_key, normalize_image,
    normalized_img, resolve, resolve_url, unify_line_ends, unify_line_ends_exec, replace_lit,
};
use crate::text::{lines_state, replace};

verus! {

// ---------------------------------------------------------------------------
// Numbers in headings
// ---------------------------------------------------------------------------

/// The first position at or after `i` holding one of the characters.
pub open spec fn first_in_from(s: Seq<char>, set: Seq<char>, i: int) -> Option<int>
    decreases s.len() - i,
{
    if i < 0 || i >= s.len() {
        None
    } else if set.contains(s[i]) {
        Some(i)
    } else {
        first_in_from(s, set, i + 1)
    }
}

/// The first position holding one of the characters.
pub open spec fn first_in(s: Seq<char>, set: Seq<char>) -> Option<int> {
    first_in_from(s, set, 0)
}

pub proof fn lemma_first_in_from_bounds(s: Seq<char>, set: Seq<char>, i: int)
    ensures
        first_in_from(s, set, i) matches Some(k) ==> i <= k < s.len() && set.contains(s[k]),
    decreases s.len() - i,
{
    if 0 <= i < s.len() && !set.contains(s[i]) {
        lemma_first_in_from_bounds(s, set, i + 1);
    }
}

/// No character of the set stands before the first one found, and none at
/// all when none is found.
pub proof fn lemma_first_in_from_before(s: Seq<char>, set: Seq<char>, i: int)
    requires
        0 <= i,
    ensures
        first_in_from(s, set, i) matches Some(k) ==> forall|j: int| i <= j < k ==> !set.contains(
            #[trigger] s[j],
        ),
        first_in_from(s, set, i) is None ==> forall|j: int| i <= j < s.len() ==> !set.contains(
            #[trigger] s[j],
        ),
    decreases s.len() - i,
{
    if i < s.len() && !set.contains(s[i]) {
        lemma_first_in_from_before(s, set, i + 1);
    }
}

fn char_in(c: char, set: &[char]) -> (b: bool)
    ensures
        b == set@.contains(c),
{
    let mut k: usize = 0;
    while k < set.len()
        invariant
            k <= set@.len(),
            forall|m: int| 0 <= m < k ==> set@[m] != c,
        decreases set.len() - k,
    {
        if set[k] == c {
            return true;
        }
        k += 1;
    }
    false
}

fn first_in_exec(v: &[char], set: &[char]) -> (r: Option<usize>)
    ensures
        r matches Some(i) ==> first_in(v@, set@) == Some(i as int) && i < v@.len(),
        r is None ==> first_in(v@, set@) is None,
{
    let n = v.len();
    let mut i: usize = 0;
    while i < n
        invariant
            n == v@.len(),
            i <= n,
            first_in(v@, set@) == first_in_from(v@, set@, i as int),
        decreases n - i,
    {
        if char_in(v[i], set) {
            return Some(i);
        }
        i += 1;
    }
    None
}

/// The number in a heading, when digits or Chinese numerals give one.
pub fn parse_number_text(text: &str) -> (r: Option<Number>)
    ensures
        option_number_view(r) == number_text_fits(text@),
{
    let v = to_chars(text);
    number_text_exec(v.as_slice())
}

/// The ASCII decimal literal of a number written with ASCII or full-width
/// digits.
pub fn parse_numeric(text: &str) -> (r: Option<String>)
    ensures
        opt_str(r) == numeric_text(text@),
{
    let v = to_chars(text);
    match numeric_text_exec(v.as_slice()) {
        Some(t) => Some(from_chars(t.as_slice())),
        None => None,
    }
}

/// The value of a number in Chinese numerals, when it fits in `u64`.
pub fn parse_chinese_number(text: &str) -> (r: Option<u64>)
    ensures
        r matches Some(x) ==> chinese_number(text@) == Some(x as int),
        r is None ==> chinese_number(text@) is None || chinese_number(text@)->0 > u64::MAX,
{
    let v = to_chars(text);
    chinese_number_exec(v.as_slice())
}

/// `第<number><suffix><rest>`: the number and the rest.
pub open spec fn numbered_title(title: Seq<char>, suffixes: Seq<char>) -> Option<
    (NumberView, Seq<char>),
> {
    if title.len() > 0 && title[0] == '第' {
        let a = title.drop_first();
        match first_in(a, suffixes) {
            Some(i) => match number_text_fits(a.take(i)) {
                Some(n) => Some((n, a.skip(i + 1))),
                None => None,
            },
            None => None,
        }
    } else {
        None
    }
}

fn split_numbered_chars(title: &[char], suffixes: &[char]) -> (r: Option<(Number, Vec<char>)>)
    ensures
        r matches Some((n, rest)) ==> numbered_title(title@, suffixes@) == Some((n@, rest@)),
        r is None ==> numbered_title(title@, suffixes@) is None,
{
    if title.len() == 0 || title[0] != '第' {
        return None;
    }
    let a = suffix(title, 1);
    assert(a@ =~= title@.drop_first());
    match first_in_exec(a.as_slice(), suffixes) {
        Some(i) => {
            let number_text = prefix(a.as_slice(), i);
            match number_text_exec(number_text.as_slice()) {
                Some(n) => Some((n, suffix(a.as_slice(), i + 1))),
                None => None,
            }
        },
        None => None,
    }
}

/// Splits `第<number><suffix><rest>` into the number and the rest.
pub fn split_numbered_title(title: &str, suffixes: &[char]) -> (r: Option<(Number, String)>)
    ensures
        r matches Some((n, rest)) ==> numbered_title(title@, suffixes@) == Some((n@, rest@)),
        r is None ==> numbered_title(title@, suffixes@) is None,
{
    let v = to_chars(title);
    match split_numbered_chars(v.as_slice(), suffixes) {
        Some((n, rest)) => Some((n, from_chars(rest.as_slice()))),
        None => None,
    }
}

/// The number between the first `prefix` and the next suffix character.
pub open spec fn number_between(text: Seq<char>, prefix: char, suffixes: Seq<char>) -> Option<
    NumberView,
> {
    match first_in(text, seq![prefix]) {
        Some(start) => {
            let a = text.skip(start + 1);
            match first_in(a, suffixes) {
                Some(i) => number_text_fits(a.take(i)),
                None => None,
            }
        },
        None => None,
    }
}

/// Reads the number between `prefix` and one of the suffixes.
pub fn parse_number_between(text: &str, prefix_char: char, suffixes: &[char]) -> (r: Option<
    Number,
>)
    ensures
        option_number_view(r) == number_between(text@, prefix_char, suffixes@),
{
    let v = to_chars(text);
    let p = vec![prefix_char];
    assert(p@ =~= seq![prefix_char]);
    match first_in_exec(v.as_slice(), p.as_slice()) {
        Some(start) => {
            let a = suffix(v.as_slice(), start + 1);
            match first_in_exec(a.as_slice(), suffixes) {
                Some(i) => {
                    let t = prefix(a.as_slice(), i);
                    number_text_exec(t.as_slice())
                },
                None => None,
            }
        },
        None => None,
    }
}

/// The volume number of a volume heading cell (`第<number>卷`), or the
/// running count of volume headings when the cell gives none.
pub open spec fn volume_number(text: Option<Seq<char>>, fallback: nat) -> NumberView {
    match text {
        Some(t) => match number_between(t, '第', seq!['卷']) {
            Some(n) => n,
            None => NumberView::Whole(fallback),
        },
        None => NumberView::Whole(fallback),
    }
}

proof fn lemma_first_in_from_at(s: Seq<char>, set: Seq<char>, i: int, m: int)
    requires
        0 <= i <= m < s.len(),
        set.contains(s[m]),
        forall|j: int| i <= j < m ==> !set.contains(#[trigger] s[j]),
    ensures
        first_in_from(s, set, i) == Some(m),
    decreases m - i,
{
    if i < m {
        assert(!set.contains(s[i]));
        lemma_first_in_from_at(s, set, i + 1, m);
    }
}

/// A volume heading `…第<digits>卷…` gives the volume that number, written
/// as those digits; a heading cell without text gives the running count of
/// headings.
pub proof fn lemma_volume_heading(pre: Seq<char>, n: Seq<char>, post: Seq<char>, count: nat)
    requires
        n.len() > 0,
        crate::text::all_digits(n),
        forall|i: int| 0 <= i < pre.len() ==> pre[i] != '第',
    ensures
        volume_number(Some(pre + seq!['第'] + n + seq!['卷'] + post), count) == NumberView::Decimal(n),
        volume_number(None, count) == NumberView::Whole(count),
{
    let text = pre + seq!['第'] + n + seq!['卷'] + post;
    let k = pre.len() as int;
    assert(text[k] == '第');
    assert(seq!['第'].contains(text[k])) by {
        assert(seq!['第'][0] == text[k]);
    }
    assert forall|j: int| 0 <= j < k implies !seq!['第'].contains(#[trigger] text[j]) by {
        assert(text[j] == pre[j]);
        if seq!['第'].contains(text[j]) {
            let w = choose|w: int| 0 <= w < 1 && seq!['第'][w] == text[j];
            assert(seq!['第'][w] == '第');
        }
    }
    lemma_first_in_from_at(text, seq!['第'], 0, k);
    let a = text.skip(k + 1);
    assert(a =~= n + seq!['卷'] + post);
    let m = n.len() as int;
    assert(a[m] == '卷');
    assert(seq!['卷'].contains(a[m])) by {
        assert(seq!['卷'][0] == a[m]);
    }
    assert forall|j: int| 0 <= j < m implies !seq!['卷'].contains(#[trigger] a[j]) by {
        assert(a[j] == n[j]);
        assert(crate::text::is_digit(n[j]));
        if seq!['卷'].contains(a[j]) {
            let w = choose|w: int| 0 <= w < 1 && seq!['卷'][w] == a[j];
            assert(seq!['卷'][w] == '卷');
        }
    }
    lemma_first_in_from_at(a, seq!['卷'], 0, m);
    assert(a.take(m) =~= n);
    crate::number::lemma_digits_number(n);
}

/// The volume number of a volume heading cell.
pub fn volume_number_from_cell(text: Option<&str>, fallback: u64) -> (n: Number)
    ensures
        n@ == volume_number(
            match text {
                Some(t) => Some(t@),
                None => None,
            },
            fallback as nat,
        ),
{
    match text {
        Some(t) => {
            let suffixes = vec!['卷'];
            assert(suffixes@ =~= seq!['卷']);
            match parse_number_between(t, '第', suffixes.as_slice()) {
                Some(n) => n,
                None => Number::Whole(fallback),
            }
        },
        None => Number::Whole(fallback),
    }
}

// ---------------------------------------------------------------------------
// Chapter titles
// ---------------------------------------------------------------------------

/// The characters that end the number of a chapter heading.
pub open spec fn chapter_suffixes() -> Seq<char> {
    seq!['章', '节', '節', '话', '話']
}

fn chapter_suffixes_exec() -> (v: Vec<char>)
    ensures
        v@ == chapter_suffixes(),
{
    let v = vec!['章', '节', '節', '话', '話'];
    assert(v@ =~= chapter_suffixes());
    v
}

/// The named labels of special chapters.
pub const SPECIAL_LABELS: [&'static str; 11] = [
    "序章",
    "终章",
    "終章",
    "最终话",
    "最終話",
    "尾声",
    "尾聲",
    "后记",
    "後記",
    "插图",
    "插圖",
];

/// A chapter label: a numbered heading, or one of the special labels.
pub open spec fn chapter_label(label: Seq<char>) -> bool {
    ||| numbered_title(trim(label), chapter_suffixes()) is Some
    ||| exists|i: int| 0 <= i < 11 && trim(label) == (#[trigger] SPECIAL_LABELS[i])@
}

/// The special chapters are named by their labels, with or without
/// surrounding whitespace: 序章, 终章/終章, 最终话/最終話, 尾声/尾聲, 后记/後記,
/// 插图/插圖.
pub proof fn lemma_special_labels(pad: Seq<char>, pad2: Seq<char>)
    requires
        forall|i: int| 0 <= i < pad.len() ==> is_ws(#[trigger] pad[i]),
        forall|i: int| 0 <= i < pad2.len() ==> is_ws(#[trigger] pad2[i]),
    ensures
        chapter_label(pad + "序章"@ + pad2),
        chapter_label(pad + "终章"@ + pad2),
        chapter_label(pad + "終章"@ + pad2),
        chapter_label(pad + "最终话"@ + pad2),
        chapter_label(pad + "最終話"@ + pad2),
        chapter_label(pad + "尾声"@ + pad2),
        chapter_label(pad + "尾聲"@ + pad2),
        chapter_label(pad + "后记"@ + pad2),
        chapter_label(pad + "後記"@ + pad2),
        chapter_label(pad + "插图"@ + pad2),
        chapter_label(pad + "插圖"@ + pad2),
{
    reveal_strlit("序章");
    reveal_strlit("终章");
    reveal_strlit("終章");
    reveal_strlit("最终话");
    reveal_strlit("最終話");
    reveal_strlit("尾声");
    reveal_strlit("尾聲");
    reveal_strlit("后记");
    reveal_strlit("後記");
    reveal_strlit("插图");
    reveal_strlit("插圖");
    special_label_at(pad, pad2, 0, "序章"@);
    special_label_at(pad, pad2, 1, "终章"@);
    special_label_at(pad, pad2, 2, "終章"@);
    special_label_at(pad, pad2, 3, "最终话"@);
    special_label_at(pad, pad2, 4, "最終話"@);
    special_label_at(pad, pad2, 5, "尾声"@);
    special_label_at(pad, pad2, 6, "尾聲"@);
    special_label_at(pad, pad2, 7, "后记"@);
    special_label_at(pad, pad2, 8, "後記"@);
    special_label_at(pad, pad2, 9, "插图"@);
    special_label_at(pad, pad2, 10, "插圖"@);
}

proof fn special_label_at(pad: Seq<char>, pad2: Seq<char>, i: int, l: Seq<char>)
    requires
        forall|k: int| 0 <= k < pad.len() ==> is_ws(#[trigger] pad[k]),
        forall|k: int| 0 <= k < pad2.len() ==> is_ws(#[trigger] pad2[k]),
        0 <= i < 11,
        SPECIAL_LABELS[i]@ == l,
        l.len() > 0,
        !is_ws(l[0]),
        !is_ws(l[l.len() - 1]),
    ensures
        chapter_label(pad + l + pad2),
{
    let s = pad + l + pad2;
    crate::text::lemma_trim_start_skip(s, pad.len() as int);
    let t = s.skip(pad.len() as int);
    assert(t =~= l + pad2);
    crate::text::lemma_trim_end_take(t, l.len() as int);
    assert(t.take(l.len() as int) =~= l);
    assert(trim(s) == l);
}

fn is_chapter_label_chars(label: &[char]) -> (b: bool)
    ensures
        b == chapter_label(label@),
{
    let t = trimmed(label);
    let suffixes = chapter_suffixes_exec();
    if split_numbered_chars(t.as_slice(), suffixes.as_slice()).is_some() {
        return true;
    }
    let mut i: usize = 0;
    while i < 11
        invariant
            i <= 11,
            t@ == trim(label@),
            forall|k: int| 0 <= k < i ==> t@ != (#[trigger] SPECIAL_LABELS[k])@,
        decreases 11 - i,
    {
        let l = to_chars(SPECIAL_LABELS[i]);
        if crate::text::chars_eq(t.as_slice(), l.as_slice()) {
            return true;
        }
        i += 1;
    }
    false
}

/// Whether a bracketed label names a chapter.
pub fn is_chapter_label(label: &str) -> (b: bool)
    ensures
        b == chapter_label(label@),
{
    let v = to_chars(label);
    is_chapter_label_chars(v.as_slice())
}

/// The separators that may follow a chapter heading.
pub open spec fn title_separators() -> Seq<char> {
    seq![':', '：', '-', '－', '—', ' ', '\t', '\u{3000}']
}

/// `str::trim_start_matches` with a set of characters.
pub open spec fn strip_leading(s: Seq<char>, set: Seq<char>) -> Seq<char>
    decreases s.len(),
{
    if s.len() > 0 && set.contains(s[0]) {
        strip_leading(s.drop_first(), set)
    } else {
        s
    }
}

/// A title with surrounding whitespace and leading separators removed.
pub open spec fn trim_separator(text: Seq<char>) -> Seq<char> {
    trim(strip_leading(trim(text), title_separators()))
}

fn strip_leading_exec(v: &[char], set: &[char]) -> (r: Vec<char>)
    ensures
        r@ == strip_leading(v@, set@),
{
    let n = v.len();
    let mut a: usize = 0;
    assert(v@.skip(0) =~= v@);
    while a < n && char_in(v[a], set)
        invariant
            n == v@.len(),
            a <= n,
            strip_leading(v@, set@) == strip_leading(v@.skip(a as int), set@),
        decreases n - a,
    {
        assert(v@.skip(a as int).drop_first() =~= v@.skip(a + 1));
        a += 1;
    }
    suffix(v, a)
}

fn trim_title_separator_chars(v: &[char]) -> (r: Vec<char>)
    ensures
        r@ == trim_separator(v@),
{
    let t = trimmed(v);
    let seps = vec![':', '：', '-', '－', '—', ' ', '\t', '\u{3000}'];
    assert(seps@ =~= title_separators());
    let s = strip_leading_exec(t.as_slice(), seps.as_slice());
    trimmed(s.as_slice())
}

/// Removes whitespace and leading separators from a title.
pub fn trim_title_separator(text: &str) -> (r: String)
    ensures
        r@ == trim_separator(text@),
{
    let v = to_chars(text);
    let r = trim_title_separator_chars(v.as_slice());
    from_chars(r.as_slice())
}

/// A catalog title without its chapter heading: `【<label>】<rest>` and
/// `第<number>章<rest>` give the rest with separators removed; other titles
/// are only trimmed. `None` when nothing is left.
pub open spec fn catalog_title(raw: Seq<char>) -> Option<Seq<char>> {
    let title = trim(raw);
    let bracket = if title.len() > 0 && title[0] == '【' {
        match after(title.drop_first(), seq!['】']) {
            Some(rest) => if chapter_label(
                title.drop_first().take(title.drop_first().len() - rest.len() - 1),
            ) {
                Some(rest)
            } else {
                None
            },
            None => None,
        }
    } else {
        None
    };
    match bracket {
        Some(rest) => {
            let cleaned = trim_separator(rest);
            if cleaned.len() > 0 {
                Some(cleaned)
            } else {
                None
            }
        },
        None => match numbered_title(title, chapter_suffixes()) {
            Some((_n, rest)) => {
                let cleaned = trim_separator(rest);
                if cleaned.len() > 0 {
                    Some(cleaned)
                } else {
                    None
                }
            },
            None => if title.len() > 0 {
                Some(title)
            } else {
                None
            },
        },
    }
}

/// Removes the chapter heading from a catalog title.
pub fn clean_catalog_chapter_title(raw: &str) -> (r: Option<String>)
    ensures
        opt_str(r) == catalog_title(raw@),
{
    let v = to_chars(raw);
    let title = trimmed(v.as_slice());
    let tv = title.as_slice();
    if title.len() > 0 && title[0] == '【' {
        let body = suffix(tv, 1);
        assert(body@ =~= title@.drop_first());
        let close = vec!['】'];
        assert(close@ =~= seq!['】']);
        match crate::text::find_exec(body.as_slice(), close.as_slice()) {
            Some(i) => {
                proof {
                    crate::text::lemma_find_from_some(body@, close@, 0);
                }
                let label = prefix(body.as_slice(), i);
                let rest = suffix(body.as_slice(), i + 1);
                assert(label@ =~= body@.take(body@.len() - rest@.len() - 1));
                if is_chapter_label_chars(label.as_slice()) {
                    let cleaned = trim_title_separator_chars(rest.as_slice());
                    if cleaned.len() > 0 {
                        return Some(from_chars(cleaned.as_slice()));
                    } else {
                        return None;
                    }
                }
            },
            None => {},
        }
    }
    let suffixes = chapter_suffixes_exec();
    match split_numbered_chars(tv, suffixes.as_slice()) {
        Some((_n, rest)) => {
            let cleaned = trim_title_separator_chars(rest.as_slice());
            if cleaned.len() > 0 {
                Some(from_chars(cleaned.as_slice()))
            } else {
                None
            }
        },
        None => if title.len() > 0 {
            Some(from_chars(tv))
        } else {
            None
        },
    }
}

// ---------------------------------------------------------------------------
// Chapter text
// ---------------------------------------------------------------------------

/// The non-blank lines, trimmed.
pub open spec fn paragraphs(ls: Seq<Seq<char>>) -> Seq<Seq<char>>
    decreases ls.len(),
{
    if ls.len() == 0 {
        seq![]
    } else if trim(ls.last()).len() == 0 {
        paragraphs(ls.drop_last())
    } else {
        paragraphs(ls.drop_last()).push(trim(ls.last()))
    }
}

/// Chapter text as paragraphs: line ends made uniform, no-break spaces made
/// spaces, every non-blank line trimmed, and the lines separated by a blank
/// line.
pub open spec fn chapter_text(raw: Seq<char>) -> Seq<char> {
    let normalized = replace(unify_line_ends(raw), "\u{a0}"@, " "@);
    join(paragraphs(lines(normalized)), "\n\n"@)
}

/// Free of line feeds, carriage returns and no-break spaces.
pub open spec fn plain_text(s: Seq<char>) -> bool {
    forall|i: int| 0 <= i < s.len() ==> #[trigger] s[i] != '\n' && s[i] != '\r' && s[i] != '\u{a0}'
}

/// A paragraph of cleaned text: not empty, trimmed, and plain.
pub open spec fn clean_paragraph(p: Seq<char>) -> bool {
    p.len() > 0 && trim(p) == p && plain_text(p)
}

/// The lines of paragraphs separated by blank lines.
pub open spec fn blank_separated(ps: Seq<Seq<char>>) -> Seq<Seq<char>>
    decreases ps.len(),
{
    if ps.len() <= 1 {
        ps
    } else {
        blank_separated(ps.drop_last()).push(seq![]).push(ps.last())
    }
}

proof fn lemma_paragraphs_clean(ls: Seq<Seq<char>>)
    requires
        forall|k: int| 0 <= k < ls.len() ==> plain_text(#[trigger] ls[k]),
    ensures
        forall|k: int| 0 <= k < paragraphs(ls).len() ==> clean_paragraph(#[trigger] paragraphs(ls)[k]),
    decreases ls.len(),
{
    if ls.len() > 0 {
        let prev = ls.drop_last();
        assert forall|k: int| 0 <= k < prev.len() implies plain_text(#[trigger] prev[k]) by {
            assert(prev[k] == ls[k]);
        }
        lemma_paragraphs_clean(prev);
        let l = ls.last();
        assert(plain_text(ls[ls.len() - 1]));
        let t = trim(l);
        if t.len() > 0 {
            let a = crate::text::lemma_trim_shape(l);
            assert forall|i: int| 0 <= i < t.len() implies #[trigger] t[i] != '\n' && t[i] != '\r'
                && t[i] != '\u{a0}' by {
                assert(t[i] == l[a + i]);
            }
            let r = paragraphs(ls);
            assert(r == paragraphs(prev).push(t));
            assert forall|k: int| 0 <= k < r.len() implies clean_paragraph(#[trigger] r[k]) by {
                if k < paragraphs(prev).len() {
                    assert(r[k] == paragraphs(prev)[k]);
                }
            }
        }
    }
}

proof fn lemma_join_plain(ps: Seq<Seq<char>>)
    requires
        forall|k: int| 0 <= k < ps.len() ==> plain_text(#[trigger] ps[k]),
    ensures
        forall|i: int| 0 <= i < join(ps, "\n\n"@).len() ==> #[trigger] join(ps, "\n\n"@)[i] != '\r'
            && join(ps, "\n\n"@)[i] != '\u{a0}',
    decreases ps.len(),
{
    reveal_strlit("\n\n");
    let sep = "\n\n"@;
    if ps.len() == 1 {
        assert(plain_text(ps[0]));
    } else if ps.len() > 1 {
        let prev = ps.drop_last();
        assert forall|k: int| 0 <= k < prev.len() implies plain_text(#[trigger] prev[k]) by {
            assert(prev[k] == ps[k]);
        }
        lemma_join_plain(prev);
        let j = join(prev, sep);
        let w = ps.last();
        assert(plain_text(ps[ps.len() - 1]));
        let out = join(ps, sep);
        assert(out == j + sep + w);
        assert forall|i: int| 0 <= i < out.len() implies #[trigger] out[i] != '\r' && out[i]
            != '\u{a0}' by {
            if i < j.len() {
                assert(out[i] == j[i]);
            } else if i < j.len() + 2 {
                assert(out[i] == sep[i - j.len()]);
            } else {
                assert(out[i] == w[i - j.len() - 2]);
            }
        }
    }
}

proof fn lemma_lines_state_join(ps: Seq<Seq<char>>)
    requires
        forall|k: int| 0 <= k < ps.len() ==> clean_paragraph(#[trigger] ps[k]),
    ensures
        ps.len() == 0 ==> lines_state(join(ps, "\n\n"@)) == (
            Seq::<Seq<char>>::empty(),
            Seq::<char>::empty(),
        ),
        ps.len() > 0 ==> lines_state(join(ps, "\n\n"@)) == (
            blank_separated(ps).drop_last(),
            ps.last(),
        ),
        ps.len() > 0 ==> blank_separated(ps).len() > 0 && blank_separated(ps).last() == ps.last(),
    decreases ps.len(),
{
    reveal_strlit("\n\n");
    let sep = "\n\n"@;
    if ps.len() == 0 {
        assert(join(ps, sep) =~= Seq::<char>::empty());
    } else if ps.len() == 1 {
        let w = ps[0];
        assert(clean_paragraph(w));
        crate::text::lemma_lines_state_extend(Seq::<char>::empty(), w);
        assert(Seq::<char>::empty() + w =~= w);
        assert(ps.drop_last() =~= Seq::<Seq<char>>::empty());
    } else {
        let prev = ps.drop_last();
        assert forall|k: int| 0 <= k < prev.len() implies clean_paragraph(#[trigger] prev[k]) by {
            assert(prev[k] == ps[k]);
        }
        lemma_lines_state_join(prev);
        let b = blank_separated(prev);
        let j = join(prev, sep);
        let w = ps.last();
        assert(clean_paragraph(ps[ps.len() - 1]));
        let j1 = j + seq!['\n'];
        assert(j1.drop_last() =~= j);
        assert(lines_state(j1) == (b.drop_last().push(prev.last()), Seq::<char>::empty()));
        assert(b.drop_last().push(prev.last()) =~= b);
        let j2 = j1 + seq!['\n'];
        assert(j2.drop_last() =~= j1);
        assert(lines_state(j2) == (b.push(Seq::<char>::empty()), Seq::<char>::empty()));
        assert(j + sep =~= j2);
        crate::text::lemma_lines_state_extend(j2, w);
        assert(Seq::<char>::empty() + w =~= w);
        assert(join(ps, sep) == j + sep + w);
        assert(blank_separated(ps) == b.push(seq![]).push(w));
        assert(blank_separated(ps).drop_last() =~= b.push(Seq::<char>::empty()));
    }
}

proof fn lemma_paragraphs_blank_separated(ps: Seq<Seq<char>>)
    requires
        forall|k: int| 0 <= k < ps.len() ==> clean_paragraph(#[trigger] ps[k]),
    ensures
        paragraphs(blank_separated(ps)) == ps,
    decreases ps.len(),
{
    if ps.len() == 1 {
        assert(clean_paragraph(ps[0]));
        assert(ps.drop_last() =~= Seq::<Seq<char>>::empty());
        assert(paragraphs(ps) == paragraphs(ps.drop_last()).push(trim(ps.last())));
        assert(seq![ps[0]] =~= ps);
    } else if ps.len() > 1 {
        let prev = ps.drop_last();
        assert forall|k: int| 0 <= k < prev.len() implies clean_paragraph(#[trigger] prev[k]) by {
            assert(prev[k] == ps[k]);
        }
        lemma_paragraphs_blank_separated(prev);
        let b = blank_separated(prev);
        let w = ps.last();
        assert(clean_paragraph(ps[ps.len() - 1]));
        let x = b.push(seq![]);
        assert(x.drop_last() =~= b);
        assert(trim(x.last()).len() == 0);
        assert(paragraphs(x) == paragraphs(b));
        let y = x.push(w);
        assert(y.drop_last() =~= x);
        assert(paragraphs(y) == paragraphs(x).push(w));
        assert(prev.push(w) =~= ps);
    }
}

/// Cleaning the text of a chapter a second time changes nothing.
pub proof fn lemma_chapter_text_stable(raw: Seq<char>)
    ensures
        chapter_text(chapter_text(raw)) == chapter_text(raw),
{
    reveal_strlit("\r\n");
    reveal_strlit("\n");
    reveal_strlit("\r");
    reveal_strlit("\u{a0}");
    reveal_strlit(" ");
    reveal_strlit("\n\n");
    assert("\r"@ =~= seq!['\r']);
    assert("\n"@ =~= seq!['\n']);
    assert("\u{a0}"@ =~= seq!['\u{a0}']);
    assert(" "@ =~= seq![' ']);
    let u1 = replace(raw, "\r\n"@, "\n"@);
    let u = replace(u1, "\r"@, "\n"@);
    assert(unify_line_ends(raw) == u);
    crate::text::lemma_replace_char_absent(u1, '\r', '\n', '\r');
    let n = replace(u, "\u{a0}"@, " "@);
    crate::text::lemma_replace_char_absent(u, '\u{a0}', ' ', '\u{a0}');
    crate::text::lemma_replace_char_absent(u, '\u{a0}', ' ', '\r');
    let ls = lines(n);
    crate::text::lemma_lines_chars(n, '\r');
    crate::text::lemma_lines_chars(n, '\u{a0}');
    assert forall|k: int| 0 <= k < ls.len() implies plain_text(#[trigger] ls[k]) by {
        assert forall|i: int| 0 <= i < ls[k].len() implies #[trigger] ls[k][i] != '\n' && ls[k][i]
            != '\r' && ls[k][i] != '\u{a0}' by {
            assert(ls[k][i] == lines(n)[k][i]);
        }
    }
    let ps = paragraphs(ls);
    lemma_paragraphs_clean(ls);
    assert forall|k: int| 0 <= k < ps.len() implies plain_text(#[trigger] ps[k]) by {
        assert(clean_paragraph(ps[k]));
    }
    let out = join(ps, "\n\n"@);
    assert(chapter_text(raw) == out);
    lemma_join_plain(ps);
    crate::text::lemma_replace_absent(out, "\r\n"@, "\n"@);
    crate::text::lemma_replace_absent(out, "\r"@, "\n"@);
    assert(unify_line_ends(out) == out);
    crate::text::lemma_replace_absent(out, "\u{a0}"@, " "@);
    lemma_lines_state_join(ps);
    if ps.len() > 0 {
        assert(lines(out) == blank_separated(ps).drop_last().push(ps.last()));
        assert(blank_separated(ps).drop_last().push(ps.last()) =~= blank_separated(ps));
        assert(clean_paragraph(ps[ps.len() - 1]));
    } else {
        assert(lines(out) =~= Seq::<Seq<char>>::empty());
    }
    lemma_paragraphs_blank_separated(ps);
}

/// Cleans up the text of a chapter.
pub fn clean_chapter_text(raw: String) -> (out: String)
    ensures
        out@ == chapter_text(raw@),
{
    proof {
        reveal_strlit("\u{a0}");
    }
    let v = to_chars(raw.as_str());
    let u = unify_line_ends_exec(v.as_slice());
    let normalized = replace_lit(u.as_slice(), "\u{a0}", " ");
    let ls = lines_exec(normalized.as_slice());
    let mut ps: Vec<Vec<char>> = Vec::new();
    let mut i: usize = 0;
    assert(views(ls@).take(0) =~= Seq::<Seq<char>>::empty());
    while i < ls.len()
        invariant
            i <= ls@.len(),
            views(ps@) == paragraphs(views(ls@).take(i as int)),
        decreases ls.len() - i,
    {
        let ghost pre = views(ls@).take(i as int);
        assert(views(ls@).take(i + 1).drop_last() =~= pre);
        assert(views(ls@).take(i + 1).last() == ls@[i as int]@);
        let line = trimmed(ls[i].as_slice());
        if line.len() > 0 {
            let ghost old_ps = ps@;
            ps.push(line);
            assert(views(ps@) =~= views(old_ps).push(trim(ls@[i as int]@)));
        }
        i += 1;
    }
    assert(views(ls@).take(ls@.len() as int) =~= views(ls@));
    let sep = to_chars("\n\n");
    let out = join_exec(&ps, sep.as_slice());
    from_chars(out.as_slice())
}

/// The illustrations of a chapter, from the `src` and `abs:src` attributes
/// of its images; images without a usable `src` are left out.
pub open spec fn image_list(imgs: Seq<(Option<String>, Option<String>)>, base: Seq<char>) -> Seq<
    Seq<char>,
>
    decreases imgs.len(),
{
    if imgs.len() == 0 {
        seq![]
    } else {
        let prev = image_list(imgs.drop_last(), base);
        match imgs.last().0 {
            Some(s) => if trim(s@).len() == 0 {
                prev
            } else {
                prev.push(normalize_image(s@, opt_str(imgs.last().1), base))
            },
            None => prev,
        }
    }
}

/// The addresses of the illustrations of a chapter.
/// The illustrations keep the order of the images: the illustrations of
/// images put together are those of the first images followed by those of
/// the rest, and one image gives its normalized address when its `src` is
/// not blank, and nothing otherwise.
pub proof fn lemma_image_list_order(
    a: Seq<(Option<String>, Option<String>)>,
    b: Seq<(Option<String>, Option<String>)>,
    base: Seq<char>,
)
    ensures
        image_list(a + b, base) == image_list(a, base) + image_list(b, base),
        forall|x: (Option<String>, Option<String>)|
            #[trigger] image_list(seq![x], base) == match x.0 {
                Some(src) => if trim(src@).len() > 0 {
                    seq![normalize_image(src@, opt_str(x.1), base)]
                } else {
                    Seq::<Seq<char>>::empty()
                },
                None => Seq::<Seq<char>>::empty(),
            },
    decreases b.len(),
{
    if b.len() == 0 {
        assert(a + b =~= a);
        assert(image_list(a, base) + image_list(b, base) =~= image_list(a, base));
    } else {
        lemma_image_list_order(a, b.drop_last(), base);
        assert((a + b).drop_last() =~= a + b.drop_last());
        assert((a + b).last() == b.last());
        let pa = image_list(a, base);
        let pb = image_list(b.drop_last(), base);
        assert((pa + pb).push(normalize_image(
            b.last().0->0@,
            opt_str(b.last().1),
            base,
        )) =~= pa + pb.push(normalize_image(b.last().0->0@, opt_str(b.last().1), base)));
    }
    assert forall|x: (Option<String>, Option<String>)|
        #[trigger] image_list(seq![x], base) == match x.0 {
            Some(src) => if trim(src@).len() > 0 {
                seq![normalize_image(src@, opt_str(x.1), base)]
            } else {
                Seq::<Seq<char>>::empty()
            },
            None => Seq::<Seq<char>>::empty(),
        } by {
        assert(seq![x].drop_last() =~= Seq::<(Option<String>, Option<String>)>::empty());
        assert(seq![x].last() == x);
        assert(image_list(seq![x].drop_last(), base) == Seq::<Seq<char>>::empty());
        if let Some(src) = x.0 {
            let v = normalize_image(src@, opt_str(x.1), base);
            assert(Seq::<Seq<char>>::empty().push(v) =~= seq![v]);
        }
    }
}

pub fn image_urls(imgs: &Vec<(Option<String>, Option<String>)>, base_url: &str) -> (out: Vec<
    String,
>)
    ensures
        crate::text::string_views(out@) == image_list(imgs@, base_url@),
{
    let mut out: Vec<String> = Vec::new();
    let mut i: usize = 0;
    assert(imgs@.take(0) =~= Seq::<(Option<String>, Option<String>)>::empty());
    while i < imgs.len()
        invariant
            i <= imgs@.len(),
            crate::text::string_views(out@) == image_list(imgs@.take(i as int), base_url@),
        decreases imgs.len() - i,
    {
        let ghost pre = imgs@.take(i as int);
        assert(imgs@.take(i + 1).drop_last() =~= pre);
        assert(imgs@.take(i + 1).last() == imgs@[i as int]);
        let (src, abs) = &imgs[i];
        let src_str: Option<&str> = match src {
            Some(s) => Some(s.as_str()),
            None => None,
        };
        let abs_str: Option<&str> = match abs {
            Some(s) => Some(s.as_str()),
            None => None,
        };
        match normalized_img(src_str, abs_str, base_url) {
            Some(u) => {
                let ghost old_out = out@;
                out.push(u);
                assert(crate::text::string_views(out@) =~= crate::text::string_views(old_out).push(
                    u@,
                ));
            },
            None => {},
        }
        i += 1;
    }
    assert(imgs@.take(imgs@.len() as int) =~= imgs@);
    out
}

// ---------------------------------------------------------------------------
// Addresses
// ---------------------------------------------------------------------------

/// `<site>/novel/<group>/<key>/index.htm`.
pub open spec fn catalog_address(key: Seq<char>) -> Seq<char> {
    BASE_URL@ + "/novel/"@ + signed_decimal(book_group(key)) + "/"@ + key + "/index.htm"@
}

/// The catalog address of a book; the key must be a number.
pub fn catalog_url(manga_key: &str) -> (r: Result<String, SourceError>)
    ensures
        parse_i32(manga_key@) is Some <==> r is Ok,
        r matches Ok(u) ==> u@ == catalog_address(manga_key@),
        r matches Err(e) ==> e matches SourceError::InvalidBookId(k) && k@ == manga_key@,
{
    let k = to_chars(manga_key);
    if parse_i32_exec(k.as_slice()).is_none() {
        return Err(SourceError::InvalidBookId(from_chars(k.as_slice())));
    }
    let group = book_group_exec(k.as_slice());
    let mut o = to_chars(BASE_URL);
    push_all(&mut o, to_chars("/novel/").as_slice());
    push_signed_decimal(&mut o, group);
    push_all(&mut o, to_chars("/").as_slice());
    push_all(&mut o, k.as_slice());
    push_all(&mut o, to_chars("/index.htm").as_slice());
    Ok(from_chars(o.as_slice()))
}

/// `<site>/novel/<group>/<book>/<chapter>.htm`.
pub open spec fn chapter_address(manga_key: Seq<char>, chapter_key: Seq<char>) -> Seq<char> {
    BASE_URL@ + "/novel/"@ + signed_decimal(book_group(manga_key)) + "/"@ + manga_key + "/"@
        + chapter_key + ".htm"@
}

/// The address of a chapter.
pub fn chapter_url(manga_key: &str, chapter_key: &str) -> (r: String)
    ensures
        r@ == chapter_address(manga_key@, chapter_key@),
{
    let k = to_chars(manga_key);
    let group = book_group_exec(k.as_slice());
    let mut o = to_chars(BASE_URL);
    push_all(&mut o, to_chars("/novel/").as_slice());
    push_signed_decimal(&mut o, group);
    push_all(&mut o, to_chars("/").as_slice());
    push_all(&mut o, k.as_slice());
    push_all(&mut o, to_chars("/").as_slice());
    push_all(&mut o, to_chars(chapter_key).as_slice());
    push_all(&mut o, to_chars(".htm").as_slice());
    from_chars(o.as_slice())
}

// ---------------------------------------------------------------------------
// The catalog
// ---------------------------------------------------------------------------

/// A link in a catalog cell: its text and `href`.
pub struct CatalogLink {
    pub text: Option<String>,
    pub href: Option<String>,
}

/// A cell of the catalog table: its `class`, its text, and its links
/// (`None` when the cell has no link element list).
pub struct CatalogCell {
    pub class: Option<String>,
    pub text: Option<String>,
    pub links: Option<Vec<CatalogLink>>,
}

/// A chapter read from the catalog. `chapter_number` counts the chapters of
/// its volume from 1; `volume` is the number of the volume heading above it,
/// if there is one and it is above zero; `language` is the chapter's
/// language code, always `zh`.
pub struct CatalogChapter {
    pub key: String,
    pub title: Option<String>,
    pub chapter_number: usize,
    pub volume: Option<Number>,
    pub url: String,
    pub language: String,
}

pub struct CatalogChapterView {
    pub key: Seq<char>,
    pub title: Option<Seq<char>>,
    pub chapter_number: nat,
    pub volume: Option<NumberView>,
    pub url: Seq<char>,
    pub language: Seq<char>,
}

impl View for CatalogChapter {
    type V = CatalogChapterView;

    open spec fn view(&self) -> CatalogChapterView {
        CatalogChapterView {
            key: self.key@,
            title: opt_str(self.title),
            chapter_number: self.chapter_number as nat,
            volume: option_number_view(self.volume),
            url: self.url@,
            language: self.language@,
        }
    }
}

pub open spec fn chapter_views(v: Seq<CatalogChapter>) -> Seq<CatalogChapterView> {
    v.map_values(|c: CatalogChapter| c@)
}

/// Reading the catalog: the chapters so far, the number of the current
/// volume, the volume headings seen, and the chapters of the current volume.
pub struct CatalogState {
    pub chapters: Seq<CatalogChapterView>,
    pub volume: Option<NumberView>,
    pub volumes_seen: nat,
    pub in_volume: nat,
}

pub open spec fn text_or_empty(o: Option<String>) -> Seq<char> {
    match o {
        Some(s) => s@,
        None => Seq::empty(),
    }
}

/// A link adds a chapter when it has a key and a non-blank title.
pub open spec fn link_step(st: CatalogState, link: CatalogLink, base: Seq<char>) -> CatalogState {
    let raw_title = text_or_empty(link.text);
    let href = text_or_empty(link.href);
    let key = chapter_key_of(href);
    if key.len() == 0 || trim(raw_title).len() == 0 {
        st
    } else {
        let n = st.in_volume + 1;
        CatalogState {
            chapters: st.chapters.push(
                CatalogChapterView {
                    key,
                    title: catalog_title(raw_title),
                    chapter_number: n,
                    volume: st.volume,
                    url: resolve(href, base),
                    language: "zh"@,
                },
            ),
            in_volume: n,
            ..st
        }
    }
}

pub open spec fn links_fold(st: CatalogState, links: Seq<CatalogLink>, base: Seq<char>) -> CatalogState
    decreases links.len(),
{
    if links.len() == 0 {
        st
    } else {
        link_step(links_fold(st, links.drop_last(), base), links.last(), base)
    }
}

pub open spec fn class_has(cell: CatalogCell, name: Seq<char>) -> bool {
    match cell.class {
        Some(c) => contains(c@, name),
        None => false,
    }
}

/// A `vcss` cell starts a volume, whose number counts only when above zero;
/// the links of a `ccss` cell are chapters; other cells are skipped.
pub open spec fn cell_step(st: CatalogState, cell: CatalogCell, base: Seq<char>) -> CatalogState {
    if class_has(cell, "vcss"@) {
        let seen = st.volumes_seen + 1;
        let n = volume_number(opt_str(cell.text), seen);
        CatalogState {
            chapters: st.chapters,
            volume: if number_positive(n) {
                Some(n)
            } else {
                None
            },
            volumes_seen: seen,
            in_volume: 0,
        }
    } else if class_has(cell, "ccss"@) {
        match cell.links {
            Some(ls) => links_fold(st, ls@, base),
            None => st,
        }
    } else {
        st
    }
}

pub open spec fn catalog_fold(cells: Seq<CatalogCell>, base: Seq<char>) -> CatalogState
    decreases cells.len(),
{
    if cells.len() == 0 {
        CatalogState { chapters: seq![], volume: None, volumes_seen: 0, in_volume: 0 }
    } else {
        cell_step(catalog_fold(cells.drop_last(), base), cells.last(), base)
    }
}

/// The chapters of a catalog, newest first; an error when the page has no
/// cells or lists no chapter.
pub open spec fn catalog(cells: Option<Seq<CatalogCell>>, base: Seq<char>) -> Result<
    Seq<CatalogChapterView>,
    SourceError,
> {
    match cells {
        None => Err(SourceError::CatalogMissing),
        Some(cs) => {
            let chapters = catalog_fold(cs, base).chapters;
            if chapters.len() == 0 {
                Err(SourceError::CatalogEmpty)
            } else {
                Ok(chapters.reverse())
            }
        },
    }
}

/// A catalog link that becomes a chapter: it has a chapter key and a title
/// that is not blank.
pub open spec fn kept_link(link: CatalogLink) -> bool {
    chapter_key_of(text_or_empty(link.href)).len() > 0 && trim(text_or_empty(link.text)).len() > 0
}

/// How many of the links become chapters.
pub open spec fn kept_count(links: Seq<CatalogLink>) -> nat
    decreases links.len(),
{
    if links.len() == 0 {
        0
    } else {
        kept_count(links.drop_last()) + if kept_link(links.last()) {
            1nat
        } else {
            0nat
        }
    }
}

/// How many links of the chapter cells after the latest volume heading
/// become chapters.
pub open spec fn links_since_volume(cells: Seq<CatalogCell>) -> nat
    decreases cells.len(),
{
    if cells.len() == 0 {
        0
    } else if class_has(cells.last(), "vcss"@) {
        0
    } else if class_has(cells.last(), "ccss"@) {
        links_since_volume(cells.drop_last()) + match cells.last().links {
            Some(ls) => kept_count(ls@),
            None => 0,
        }
    } else {
        links_since_volume(cells.drop_last())
    }
}

proof fn lemma_links_fold_count(st: CatalogState, links: Seq<CatalogLink>, base: Seq<char>)
    ensures
        links_fold(st, links, base).in_volume == st.in_volume + kept_count(links),
        links_fold(st, links, base).chapters.len() == st.chapters.len() + kept_count(links),
        links.len() > 0 && kept_link(links.last()) ==> links_fold(st, links, base).chapters.last()
            == (CatalogChapterView {
            key: chapter_key_of(text_or_empty(links.last().href)),
            title: catalog_title(text_or_empty(links.last().text)),
            chapter_number: st.in_volume + kept_count(links),
            volume: st.volume,
            url: resolve(text_or_empty(links.last().href), base),
            language: "zh"@,
        }),
        links_fold(st, links, base).volume == st.volume,
        links_fold(st, links, base).volumes_seen == st.volumes_seen,
        kept_count(links) == 0 ==> links_fold(st, links, base).chapters == st.chapters,
        kept_count(links) > 0 ==> links_fold(st, links, base).chapters.len() > 0 && links_fold(
            st,
            links,
            base,
        ).chapters.last().chapter_number == st.in_volume + kept_count(links),
    decreases links.len(),
{
    if links.len() > 0 {
        lemma_links_fold_count(st, links.drop_last(), base);
    }
}

proof fn lemma_catalog_count(cells: Seq<CatalogCell>, base: Seq<char>)
    ensures
        catalog_fold(cells, base).in_volume == links_since_volume(cells),
        links_since_volume(cells) > 0 ==> catalog_fold(cells, base).chapters.len() > 0
            && catalog_fold(cells, base).chapters.last().chapter_number == links_since_volume(cells),
    decreases cells.len(),
{
    if cells.len() > 0 {
        lemma_catalog_count(cells.drop_last(), base);
        let st = catalog_fold(cells.drop_last(), base);
        let c = cells.last();
        if !class_has(c, "vcss"@) && class_has(c, "ccss"@) {
            if let Some(ls) = c.links {
                lemma_links_fold_count(st, ls@, base);
            }
        }
    }
}

/// How many links of all the chapter cells become chapters.
pub open spec fn total_kept(cells: Seq<CatalogCell>) -> nat
    decreases cells.len(),
{
    if cells.len() == 0 {
        0
    } else {
        total_kept(cells.drop_last()) + if !class_has(cells.last(), "vcss"@) && class_has(
            cells.last(),
            "ccss"@,
        ) && cells.last().links is Some {
            kept_count(cells.last().links->0@)
        } else {
            0
        }
    }
}

proof fn lemma_catalog_fold_len(cells: Seq<CatalogCell>, base: Seq<char>)
    ensures
        catalog_fold(cells, base).chapters.len() == total_kept(cells),
    decreases cells.len(),
{
    if cells.len() > 0 {
        lemma_catalog_fold_len(cells.drop_last(), base);
        let c = cells.last();
        if !class_has(c, "vcss"@) && class_has(c, "ccss"@) {
            if let Some(ls) = c.links {
                lemma_links_fold_count(catalog_fold(cells.drop_last(), base), ls@, base);
            }
        }
    }
}

/// Every chapter link with a key and a title that is not blank becomes one
/// chapter: the catalog lists as many chapters as there are such links in
/// its chapter cells, is an error exactly when there are none, and is an
/// error when the page has no cells. The newest chapter comes from the last
/// link of the last chapter cell when that link is kept: its key, address
/// and language are that link's.
pub proof fn lemma_catalog_chapters(cells: Seq<CatalogCell>, base: Seq<char>)
    ensures
        catalog(None, base) == Err::<Seq<CatalogChapterView>, SourceError>(SourceError::CatalogMissing),
        catalog(Some(cells), base) matches Ok(chs) ==> chs.len() == total_kept(cells),
        catalog(Some(cells), base) is Err <==> total_kept(cells) == 0,
        forall|cell: CatalogCell|
            class_has(cell, "ccss"@) && !class_has(cell, "vcss"@) && (cell.links matches Some(ls)
                && ls@.len() > 0 && kept_link(ls@.last())) ==> (#[trigger] catalog(
                Some(cells.push(cell)),
                base,
            ) matches Ok(chs) && chs[0].key == chapter_key_of(
                text_or_empty(cell.links->0@.last().href),
            ) && chs[0].url == resolve(text_or_empty(cell.links->0@.last().href), base)
                && chs[0].language == "zh"@),
{
    lemma_catalog_fold_len(cells, base);
    assert forall|cell: CatalogCell|
        class_has(cell, "ccss"@) && !class_has(cell, "vcss"@) && (cell.links matches Some(ls)
            && ls@.len() > 0 && kept_link(ls@.last())) implies (#[trigger] catalog(
            Some(cells.push(cell)),
            base,
        ) matches Ok(chs) && chs[0].key == chapter_key_of(
            text_or_empty(cell.links->0@.last().href),
        ) && chs[0].url == resolve(text_or_empty(cell.links->0@.last().href), base)
            && chs[0].language == "zh"@) by {
        let cs = cells.push(cell);
        assert(cs.drop_last() =~= cells);
        let ls = cell.links->0@;
        lemma_links_fold_count(catalog_fold(cells, base), ls, base);
        let chs = catalog_fold(cs, base).chapters;
        assert(chs.reverse()[0] == chs.last());
    }
}

proof fn lemma_links_fold_extends(st: CatalogState, links: Seq<CatalogLink>, base: Seq<char>)
    ensures
        st.chapters.is_prefix_of(links_fold(st, links, base).chapters),
    decreases links.len(),
{
    if links.len() > 0 {
        lemma_links_fold_extends(st, links.drop_last(), base);
    }
}

proof fn lemma_catalog_fold_extends(cells: Seq<CatalogCell>, n: int, base: Seq<char>)
    requires
        0 <= n <= cells.len(),
    ensures
        catalog_fold(cells.take(n), base).chapters.is_prefix_of(catalog_fold(cells, base).chapters),
    decreases cells.len() - n,
{
    if n < cells.len() {
        lemma_catalog_fold_extends(cells, n + 1, base);
        let t = cells.take(n + 1);
        assert(t.drop_last() =~= cells.take(n));
        let st = catalog_fold(cells.take(n), base);
        let c = t.last();
        if !class_has(c, "vcss"@) && class_has(c, "ccss"@) {
            if let Some(ls) = c.links {
                lemma_links_fold_extends(st, ls@, base);
            }
        }
    } else {
        assert(cells.take(n) =~= cells);
    }
}

/// Reading more cells never changes the chapters already read: the catalog
/// of the first cells is the oldest end of the catalog of all of them.
pub proof fn lemma_catalog_prefix(cells: Seq<CatalogCell>, n: int, base: Seq<char>)
    requires
        0 <= n <= cells.len(),
    ensures
        catalog(Some(cells.take(n)), base) matches Ok(p) ==> (catalog(Some(cells), base) matches Ok(c)
            && p.len() <= c.len() && p == c.subrange(c.len() - p.len(), c.len() as int)),
{
    lemma_catalog_fold_extends(cells, n, base);
    let a = catalog_fold(cells.take(n), base).chapters;
    let b = catalog_fold(cells, base).chapters;
    if a.len() > 0 {
        assert(a.reverse() =~= b.reverse().subrange(b.len() - a.len(), b.len() as int)) by {
            assert forall|i: int| 0 <= i < a.len() implies a.reverse()[i] == b.reverse().subrange(
                b.len() - a.len(),
                b.len() as int,
            )[i] by {
                assert(a[a.len() - 1 - i] == b[a.len() - 1 - i]);
            }
        }
    }
}

/// Chapters are numbered within their volume, counted across all the
/// chapter cells of the volume: the newest chapter of a catalog carries the
/// number of chapter links kept since the latest volume heading, and a
/// chapter directly after a volume heading is number 1.
pub proof fn lemma_catalog_numbering(cells: Seq<CatalogCell>, base: Seq<char>)
    ensures
        links_since_volume(cells) > 0 ==> (catalog(Some(cells), base) matches Ok(chs)
            && chs[0].chapter_number == links_since_volume(cells)),
        forall|heading: CatalogCell, cell: CatalogCell|
            class_has(heading, "vcss"@) && class_has(cell, "ccss"@) && !class_has(cell, "vcss"@) && (
            cell.links matches Some(ls) && kept_count(ls@) > 0) ==> (#[trigger] catalog(
                Some(cells.push(heading).push(cell)),
                base,
            ) matches Ok(chs) && chs[0].chapter_number == kept_count(cell.links->0@)),
{
    lemma_catalog_count(cells, base);
    if links_since_volume(cells) > 0 {
        let chs = catalog_fold(cells, base).chapters;
        assert(chs.reverse()[0] == chs.last());
    }
    assert forall|heading: CatalogCell, cell: CatalogCell|
        class_has(heading, "vcss"@) && class_has(cell, "ccss"@) && !class_has(cell, "vcss"@) && (
        cell.links matches Some(ls) && kept_count(ls@) > 0) implies (#[trigger] catalog(
        Some(cells.push(heading).push(cell)),
        base,
    ) matches Ok(chs) && chs[0].chapter_number == kept_count(cell.links->0@)) by {
        let cs = cells.push(heading).push(cell);
        assert(cs.drop_last() =~= cells.push(heading));
        assert(cells.push(heading).drop_last() =~= cells);
        assert(links_since_volume(cells.push(heading)) == 0);
        assert(links_since_volume(cs) == kept_count(cell.links->0@));
        lemma_catalog_count(cs, base);
        let chs = catalog_fold(cs, base).chapters;
        assert(chs.reverse()[0] == chs.last());
    }
}

fn opt_as_str(o: &Option<String>) -> (r: Option<&str>)
    ensures
        match r {
            Some(s) => o is Some && s@ == o->0@,
            None => o is None,
        },
{
    match o {
        Some(s) => Some(s.as_str()),
        None => None,
    }
}

fn class_has_exec(cell: &CatalogCell, name: &str) -> (b: bool)
    ensures
        b == class_has(*cell, name@),
{
    match &cell.class {
        Some(c) => {
            let cv = to_chars(c.as_str());
            let nv = to_chars(name);
            contains_exec(cv.as_slice(), nv.as_slice())
        },
        None => false,
    }
}

/// Reads the chapters of a catalog page from its table cells.
pub fn parse_catalog(cells: Option<Vec<CatalogCell>>, catalog_url: &str) -> (r: Result<
    Vec<CatalogChapter>,
    SourceError,
>)
    ensures
        match catalog(
            match cells {
                Some(cs) => Some(cs@),
                None => None,
            },
            catalog_url@,
        ) {
            Ok(chs) => r matches Ok(v) && chapter_views(v@) == chs,
            Err(e) => r == Err::<Vec<CatalogChapter>, SourceError>(e),
        },
{
    let cells = match cells {
        Some(cs) => cs,
        None => return Err(SourceError::CatalogMissing),
    };
    let ghost base = catalog_url@;
    let mut chapters: Vec<CatalogChapter> = Vec::new();
    let mut volume: Option<Number> = None;
    let mut volumes_seen: usize = 0;
    let mut in_volume: usize = 0;
    let mut i: usize = 0;
    assert(cells@.take(0) =~= Seq::<CatalogCell>::empty());
    assert(chapter_views(chapters@) =~= Seq::<CatalogChapterView>::empty());
    while i < cells.len()
        invariant
            base == catalog_url@,
            i <= cells@.len(),
            volumes_seen <= i,
            in_volume <= chapters@.len(),
            catalog_fold(cells@.take(i as int), base) == (CatalogState {
                chapters: chapter_views(chapters@),
                volume: option_number_view(volume),
                volumes_seen: volumes_seen as nat,
                in_volume: in_volume as nat,
            }),
        decreases cells.len() - i,
    {
        let ghost pre = cells@.take(i as int);
        assert(cells@.take(i + 1).drop_last() =~= pre);
        assert(cells@.take(i + 1).last() == cells@[i as int]);
        let cell = &cells[i];
        if class_has_exec(cell, "vcss") {
            volumes_seen = volumes_seen + 1;
            let n = volume_number_from_cell(opt_as_str(&cell.text), volumes_seen as u64);
            volume = if is_positive(&n) {
                Some(n)
            } else {
                None
            };
            in_volume = 0;
        } else if class_has_exec(cell, "ccss") {
            match &cell.links {
                Some(links) => {
                    let ghost st0 = catalog_fold(pre, base);
                    let mut j: usize = 0;
                    assert(links@.take(0) =~= Seq::<CatalogLink>::empty());
                    while j < links.len()
                        invariant
                            base == catalog_url@,
                            j <= links@.len(),
                            in_volume <= chapters@.len(),
                            links_fold(st0, links@.take(j as int), base) == (CatalogState {
                                chapters: chapter_views(chapters@),
                                volume: option_number_view(volume),
                                volumes_seen: volumes_seen as nat,
                                in_volume: in_volume as nat,
                            }),
                        decreases links.len() - j,
                    {
                        assert(links@.take(j + 1).drop_last() =~= links@.take(j as int));
                        assert(links@.take(j + 1).last() == links@[j as int]);
                        let link = &links[j];
                        let ghost st_prev = links_fold(st0, links@.take(j as int), base);
                        let raw_title: String = match &link.text {
                            Some(t) => t.clone(),
                            None => String::new(),
                        };
                        let href: String = match &link.href {
                            Some(h) => h.clone(),
                            None => String::new(),
                        };
                        assert(raw_title@ == text_or_empty(links@[j as int].text));
                        assert(href@ == text_or_empty(links@[j as int].href));
                        let key = extract_chapter_key(href.as_str());
                        let tv = to_chars(raw_title.as_str());
                        let tt = trimmed(tv.as_slice());
                        let key_len = to_chars(key.as_str()).len();
                        if key_len != 0 && tt.len() != 0 {
                            let title = clean_catalog_chapter_title(raw_title.as_str());
                            let url = resolve_url(href.as_str(), catalog_url);
                            let vol: Option<Number> = match &volume {
                                Some(Number::Decimal(d)) => Some(Number::Decimal(d.clone())),
                                Some(Number::Whole(w)) => Some(Number::Whole(*w)),
                                None => None,
                            };
                            assert(option_number_view(vol) == option_number_view(volume));
                            let number: usize = if in_volume < usize::MAX {
                                in_volume + 1
                            } else {
                                in_volume
                            };
                            let ghost old_chapters = chapters@;
                            let entry = CatalogChapter {
                                key,
                                title,
                                chapter_number: number,
                                volume: vol,
                                url,
                                language: from_chars(to_chars("zh").as_slice()),
                            };
                            chapters.push(entry);
                            let total = chapters.len();
                            assert(in_volume < usize::MAX);
                            in_volume = number;
                            assert(chapter_views(chapters@) =~= chapter_views(old_chapters).push(
                                entry@,
                            ));
                            assert(entry@.key == chapter_key_of(href@));
                            assert(entry@.title == catalog_title(raw_title@));
                            assert(entry@.chapter_number == st_prev.in_volume + 1);
                            assert(entry@.volume == st_prev.volume);
                            assert(entry@.url == resolve(href@, base));
                            assert(entry@ == (CatalogChapterView {
                                key: chapter_key_of(href@),
                                title: catalog_title(raw_title@),
                                chapter_number: st_prev.in_volume + 1,
                                volume: st_prev.volume,
                                url: resolve(href@, base),
                                language: "zh"@,
                            }));
                        }
                        j += 1;
                    }
                    assert(links@.take(links@.len() as int) =~= links@);
                },
                None => {},
            }
        }
        i += 1;
    }
    assert(cells@.take(cells@.len() as int) =~= cells@);
    if chapters.len() == 0 {
        return Err(SourceError::CatalogEmpty);
    }
    let ghost forward = chapter_views(chapters@);
    let mut reversed: Vec<CatalogChapter> = Vec::new();
    while chapters.len() > 0
        invariant
            chapter_views(chapters@) + chapter_views(reversed@).reverse() == forward,
        decreases chapters.len(),
    {
        let ghost before_c = chapters@;
        let ghost before_r = reversed@;
        let c = chapters.pop().unwrap();
        reversed.push(c);
        assert(chapter_views(before_c) =~= chapter_views(chapters@).push(c@));
        assert(chapter_views(reversed@) =~= chapter_views(before_r).push(c@));
        assert(chapter_views(reversed@).reverse() =~= seq![c@] + chapter_views(before_r).reverse());
        assert(chapter_views(chapters@) + chapter_views(reversed@).reverse() =~= chapter_views(
            before_c,
        ) + chapter_views(before_r).reverse());
    }
    assert(chapter_views(chapters@) =~= Seq::<CatalogChapterView>::empty());
    assert(chapter_views(reversed@).reverse().reverse() =~= chapter_views(reversed@));
    assert(forward.reverse() =~= chapter_views(reversed@));
    Ok(reversed)
}

} // verus!
