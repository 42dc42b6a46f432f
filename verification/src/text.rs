//! Character-level text model and the verified string primitives that the
//! scraping logic is built from.
//!
//! Every string is modelled by its view, a `Seq<char>`. The executable helpers
//! work on `&[char]`/`Vec<char>` and state their results over these views.
use vstd::prelude::*;

verus! {

// ---------------------------------------------------------------------------
// Specifications
// ---------------------------------------------------------------------------

/// Unicode `White_Space`, the property that `char::is_whitespace` tests.
pub open spec fn is_ws(c: char) -> bool {
    ||| ('\t' <= c && c <= '\r')
    ||| c == ' '
    ||| c == '\u{85}'
    ||| c == '\u{a0}'
    ||| c == '\u{1680}'
    ||| ('\u{2000}' <= c && c <= '\u{200a}')
    ||| c == '\u{2028}'
    ||| c == '\u{2029}'
    ||| c == '\u{202f}'
    ||| c == '\u{205f}'
    ||| c == '\u{3000}'
}

pub open spec fn is_digit(c: char) -> bool {
    '0' <= c && c <= '9'
}

/// Every character is an ASCII digit (true of the empty text).
pub open spec fn all_digits(s: Seq<char>) -> bool {
    forall|i: int| 0 <= i < s.len() ==> is_digit(#[trigger] s[i])
}

/// `str::trim_start`.
pub open spec fn trim_start(s: Seq<char>) -> Seq<char>
    decreases s.len(),
{
    if s.len() > 0 && is_ws(s[0]) {
        trim_start(s.drop_first())
    } else {
        s
    }
}

/// `str::trim_end`.
pub open spec fn trim_end(s: Seq<char>) -> Seq<char>
    decreases s.len(),
{
    if s.len() > 0 && is_ws(s.last()) {
        trim_end(s.drop_last())
    } else {
        s
    }
}

/// `str::trim`.
pub open spec fn trim(s: Seq<char>) -> Seq<char> {
    trim_end(trim_start(s))
}

/// `p` occurs in `s` at position `i`.
pub open spec fn matches_at(s: Seq<char>, p: Seq<char>, i: int) -> bool {
    0 <= i && i + p.len() <= s.len() && s.subrange(i, i + p.len()) == p
}

pub open spec fn starts_with(s: Seq<char>, p: Seq<char>) -> bool {
    matches_at(s, p, 0)
}

pub open spec fn ends_with(s: Seq<char>, p: Seq<char>) -> bool {
    matches_at(s, p, s.len() - p.len())
}

/// The first position at or after `i` where `p` occurs.
pub open spec fn find_from(s: Seq<char>, p: Seq<char>, i: int) -> Option<int>
    decreases s.len() + 1 - i,
{
    if i < 0 || i + p.len() > s.len() {
        None
    } else if matches_at(s, p, i) {
        Some(i)
    } else {
        find_from(s, p, i + 1)
    }
}

/// `str::find` with a string pattern.
pub open spec fn find(s: Seq<char>, p: Seq<char>) -> Option<int> {
    find_from(s, p, 0)
}

/// `str::contains` with a string pattern.
pub open spec fn contains(s: Seq<char>, p: Seq<char>) -> bool {
    find(s, p) is Some
}

/// The text before the first occurrence of `p`, or all of `s`:
/// what `s.split(p).next()` gives.
pub open spec fn before(s: Seq<char>, p: Seq<char>) -> Seq<char> {
    match find(s, p) {
        Some(i) => s.take(i),
        None => s,
    }
}

/// The text after the first occurrence of `p`: the second half of
/// `s.split_once(p)`.
pub open spec fn after(s: Seq<char>, p: Seq<char>) -> Option<Seq<char>> {
    match find(s, p) {
        Some(i) => Some(s.skip(i + p.len())),
        None => None,
    }
}

/// `s.split(p).nth(1)`: the piece between the first and the second
/// occurrence of `p` (or the end of `s`).
pub open spec fn second_piece(s: Seq<char>, p: Seq<char>) -> Option<Seq<char>> {
    match after(s, p) {
        Some(rest) => Some(before(rest, p)),
        None => None,
    }
}


/// `str::replace` with a non-empty string pattern: every non-overlapping
/// occurrence of `p`, from the left, is replaced by `r`.
pub open spec fn replace(s: Seq<char>, p: Seq<char>, r: Seq<char>) -> Seq<char>
    decreases s.len(),
{
    if s.len() == 0 || p.len() == 0 {
        s
    } else if starts_with(s, p) {
        r + replace(s.skip(p.len() as int), p, r)
    } else {
        seq![s[0]] + replace(s.drop_first(), p, r)
    }
}

/// The views of a sequence of character vectors.
pub open spec fn views(v: Seq<Vec<char>>) -> Seq<Seq<char>> {
    v.map_values(|w: Vec<char>| w@)
}

/// The views of a sequence of strings.
pub open spec fn string_views(v: Seq<String>) -> Seq<Seq<char>> {
    v.map_values(|w: String| w@)
}

/// Splitting on a separator predicate, left to right: the pieces finished so
/// far and the piece being read.
pub open spec fn words_state(s: Seq<char>) -> (Seq<Seq<char>>, Seq<char>)
    decreases s.len(),
{
    if s.len() == 0 {
        (seq![], seq![])
    } else {
        let st = words_state(s.drop_last());
        let c = s.last();
        if is_ws(c) {
            if st.1.len() > 0 {
                (st.0.push(st.1), seq![])
            } else {
                st
            }
        } else {
            (st.0, st.1.push(c))
        }
    }
}

/// `str::split_whitespace`: the maximal runs of non-whitespace characters.
pub open spec fn words(s: Seq<char>) -> Seq<Seq<char>> {
    let st = words_state(s);
    if st.1.len() > 0 {
        st.0.push(st.1)
    } else {
        st.0
    }
}

/// The pieces joined with `sep` between consecutive ones (`[..].join(sep)`).
pub open spec fn join(ws: Seq<Seq<char>>, sep: Seq<char>) -> Seq<char>
    decreases ws.len(),
{
    if ws.len() == 0 {
        seq![]
    } else if ws.len() == 1 {
        ws[0]
    } else {
        join(ws.drop_last(), sep) + sep + ws.last()
    }
}

/// Splitting on line feeds, left to right: the lines finished so far and the
/// line being read.
pub open spec fn lines_state(s: Seq<char>) -> (Seq<Seq<char>>, Seq<char>)
    decreases s.len(),
{
    if s.len() == 0 {
        (seq![], seq![])
    } else {
        let st = lines_state(s.drop_last());
        let c = s.last();
        if c == '\n' {
            (st.0.push(st.1), seq![])
        } else {
            (st.0, st.1.push(c))
        }
    }
}

/// `str::lines` of a text without carriage returns: the pieces between line
/// feeds, where a final line feed ends the last line instead of starting an
/// empty one.
pub open spec fn lines(s: Seq<char>) -> Seq<Seq<char>> {
    let st = lines_state(s);
    if st.1.len() > 0 {
        st.0.push(st.1)
    } else {
        st.0
    }
}

/// `normalize_space`: the words of `s` separated by single spaces.
pub open spec fn normalize_space(s: Seq<char>) -> Seq<char> {
    join(words(s), seq![' '])
}

// ---------------------------------------------------------------------------
// Lemmas
// ---------------------------------------------------------------------------

pub proof fn lemma_trim_start_skip(s: Seq<char>, a: int)
    requires
        0 <= a <= s.len(),
        forall|i: int| 0 <= i < a ==> is_ws(#[trigger] s[i]),
        a == s.len() || !is_ws(s[a]),
    ensures
        trim_start(s) == s.skip(a),
    decreases a,
{
    if a == 0 {
        assert(s.skip(0) =~= s);
    } else {
        let t = s.drop_first();
        assert forall|i: int| 0 <= i < a - 1 implies is_ws(#[trigger] t[i]) by {
            assert(t[i] == s[i + 1]);
        }
        lemma_trim_start_skip(t, a - 1);
        assert(t.skip(a - 1) =~= s.skip(a));
    }
}

pub proof fn lemma_trim_end_take(s: Seq<char>, b: int)
    requires
        0 <= b <= s.len(),
        forall|i: int| b <= i < s.len() ==> is_ws(#[trigger] s[i]),
        b == 0 || !is_ws(s[b - 1]),
    ensures
        trim_end(s) == s.take(b),
    decreases s.len() - b,
{
    if b == s.len() {
        assert(s.take(b) =~= s);
    } else {
        let t = s.drop_last();
        assert forall|i: int| b <= i < t.len() implies is_ws(#[trigger] t[i]) by {
            assert(t[i] == s[i]);
        }
        lemma_trim_end_take(t, b);
        assert(t.take(b) =~= s.take(b));
    }
}

pub proof fn lemma_trim_start_len(s: Seq<char>)
    ensures
        trim_start(s).len() <= s.len(),
    decreases s.len(),
{
    if s.len() > 0 && is_ws(s[0]) {
        lemma_trim_start_len(s.drop_first());
    }
}

pub proof fn lemma_trim_end_len(s: Seq<char>)
    ensures
        trim_end(s).len() <= s.len(),
    decreases s.len(),
{
    if s.len() > 0 && is_ws(s.last()) {
        lemma_trim_end_len(s.drop_last());
    }
}

/// Trimming never lengthens a text.
pub proof fn lemma_trim_len(s: Seq<char>)
    ensures
        trim(s).len() <= s.len(),
{
    lemma_trim_start_len(s);
    lemma_trim_end_len(trim_start(s));
}

/// A word: non-empty and free of whitespace.
pub open spec fn is_word(w: Seq<char>) -> bool {
    w.len() > 0 && forall|i: int| 0 <= i < w.len() ==> !is_ws(#[trigger] w[i])
}

/// The finished pieces of a whitespace split are words, and the piece being
/// read holds no whitespace.
pub proof fn lemma_words_state_words(s: Seq<char>)
    ensures
        forall|i: int| 0 <= i < words_state(s).0.len() ==> is_word(#[trigger] words_state(s).0[i]),
        forall|i: int| 0 <= i < words_state(s).1.len() ==> !is_ws(#[trigger] words_state(s).1[i]),
    decreases s.len(),
{
    if s.len() > 0 {
        lemma_words_state_words(s.drop_last());
        let st = words_state(s.drop_last());
        let c = s.last();
        if is_ws(c) {
            if st.1.len() > 0 {
                let f = st.0.push(st.1);
                assert forall|i: int| 0 <= i < f.len() implies is_word(#[trigger] f[i]) by {
                    if i < st.0.len() {
                        assert(f[i] == st.0[i]);
                    }
                }
            }
        } else {
            let cur = st.1.push(c);
            assert forall|i: int| 0 <= i < cur.len() implies !is_ws(#[trigger] cur[i]) by {
                if i < st.1.len() {
                    assert(cur[i] == st.1[i]);
                }
            }
        }
    }
}

/// The words of a text are words.
pub proof fn lemma_words_are_words(s: Seq<char>)
    ensures
        forall|i: int| 0 <= i < words(s).len() ==> is_word(#[trigger] words(s)[i]),
{
    lemma_words_state_words(s);
    let st = words_state(s);
    if st.1.len() > 0 {
        let w = st.0.push(st.1);
        assert forall|i: int| 0 <= i < w.len() implies is_word(#[trigger] w[i]) by {
            if i < st.0.len() {
                assert(w[i] == st.0[i]);
            }
        }
    }
}

/// Reading characters without whitespace extends the piece being read.
proof fn lemma_words_state_extend(s: Seq<char>, t: Seq<char>)
    requires
        forall|i: int| 0 <= i < t.len() ==> !is_ws(#[trigger] t[i]),
    ensures
        words_state(s + t) == (words_state(s).0, words_state(s).1 + t),
    decreases t.len(),
{
    if t.len() == 0 {
        assert(s + t =~= s);
        assert(words_state(s).1 + t =~= words_state(s).1);
    } else {
        let u = t.drop_last();
        assert forall|i: int| 0 <= i < u.len() implies !is_ws(#[trigger] u[i]) by {
            assert(u[i] == t[i]);
        }
        lemma_words_state_extend(s, u);
        assert((s + t).drop_last() =~= s + u);
        assert((s + t).last() == t.last());
        assert(!is_ws(t[t.len() - 1]));
        assert((words_state(s).1 + u).push(t.last()) =~= words_state(s).1 + t);
    }
}

/// Splitting words joined by single spaces gives the words back.
pub proof fn lemma_words_of_join(ws: Seq<Seq<char>>)
    requires
        forall|i: int| 0 <= i < ws.len() ==> is_word(#[trigger] ws[i]),
    ensures
        words(join(ws, seq![' '])) == ws,
    decreases ws.len(),
{
    lemma_words_state_of_join(ws);
    if ws.len() == 0 {
        assert(words_state(join(ws, seq![' '])) == (Seq::<Seq<char>>::empty(), Seq::<char>::empty()));
    } else {
        assert(is_word(ws[ws.len() - 1]));
        assert(ws.drop_last().push(ws.last()) =~= ws);
    }
}

proof fn lemma_words_state_of_join(ws: Seq<Seq<char>>)
    requires
        forall|i: int| 0 <= i < ws.len() ==> is_word(#[trigger] ws[i]),
    ensures
        ws.len() == 0 ==> words_state(join(ws, seq![' '])) == (
            Seq::<Seq<char>>::empty(),
            Seq::<char>::empty(),
        ),
        ws.len() > 0 ==> words_state(join(ws, seq![' '])) == (ws.drop_last(), ws.last()),
    decreases ws.len(),
{
    let sp = seq![' '];
    if ws.len() == 0 {
        assert(join(ws, sp) =~= Seq::<char>::empty());
    } else if ws.len() == 1 {
        let w = ws[0];
        assert(is_word(w));
        lemma_words_state_extend(Seq::<char>::empty(), w);
        assert(Seq::<char>::empty() + w =~= w);
        assert(ws.drop_last() =~= Seq::<Seq<char>>::empty());
    } else {
        let prev = ws.drop_last();
        assert forall|i: int| 0 <= i < prev.len() implies is_word(#[trigger] prev[i]) by {
            assert(prev[i] == ws[i]);
        }
        lemma_words_state_of_join(prev);
        let j = join(prev, sp);
        let w = ws.last();
        assert(is_word(ws[ws.len() - 1]));
        assert(is_word(prev[prev.len() - 1]));
        assert((j + sp).drop_last() =~= j);
        assert((j + sp).last() == ' ');
        assert(words_state(j + sp) == (prev.drop_last().push(prev.last()), Seq::<char>::empty()));
        assert(prev.drop_last().push(prev.last()) =~= prev);
        lemma_words_state_extend(j + sp, w);
        assert(Seq::<char>::empty() + w =~= w);
        assert(join(ws, sp) == j + sp + w);
    }
}

/// Replacing a pattern whose first character the text lacks changes nothing.
pub proof fn lemma_replace_absent(s: Seq<char>, p: Seq<char>, r: Seq<char>)
    requires
        p.len() > 0,
        forall|i: int| 0 <= i < s.len() ==> s[i] != p[0],
    ensures
        replace(s, p, r) == s,
    decreases s.len(),
{
    if s.len() > 0 {
        if starts_with(s, p) {
            lemma_matches_at_index(s, p, 0, 0);
        }
        let t = s.drop_first();
        assert forall|i: int| 0 <= i < t.len() implies t[i] != p[0] by {
            assert(t[i] == s[i + 1]);
        }
        lemma_replace_absent(t, p, r);
        assert(seq![s[0]] + t =~= s);
    }
}

/// After replacing a character by another, a character `e` is absent when it
/// is the replaced one or was absent before, and is not the replacement.
pub proof fn lemma_replace_char_absent(s: Seq<char>, d: char, c: char, e: char)
    requires
        c != e,
        e == d || forall|i: int| 0 <= i < s.len() ==> s[i] != e,
    ensures
        forall|i: int| 0 <= i < replace(s, seq![d], seq![c]).len() ==> #[trigger] replace(
            s,
            seq![d],
            seq![c],
        )[i] != e,
    decreases s.len(),
{
    if s.len() > 0 {
        let t = s.drop_first();
        assert(e == d || forall|i: int| 0 <= i < t.len() ==> t[i] != e) by {
            if e != d {
                assert forall|i: int| 0 <= i < t.len() implies t[i] != e by {
                    assert(t[i] == s[i + 1]);
                }
            }
        }
        lemma_replace_char_absent(t, d, c, e);
        let rest = replace(t, seq![d], seq![c]);
        let out = replace(s, seq![d], seq![c]);
        if starts_with(s, seq![d]) {
            assert(s.skip(1) =~= t);
            assert(out == seq![c] + rest);
            assert forall|i: int| 0 <= i < out.len() implies #[trigger] out[i] != e by {
                if i > 0 {
                    assert(out[i] == rest[i - 1]);
                }
            }
        } else {
            assert(s[0] != d) by {
                if s[0] == d {
                    assert(s.subrange(0, 1) =~= seq![d]);
                }
            }
            assert(out == seq![s[0]] + rest);
            assert forall|i: int| 0 <= i < out.len() implies #[trigger] out[i] != e by {
                if i > 0 {
                    assert(out[i] == rest[i - 1]);
                }
            }
        }
    }
}

/// Reading characters other than a line feed extends the line being read.
pub proof fn lemma_lines_state_extend(s: Seq<char>, t: Seq<char>)
    requires
        forall|i: int| 0 <= i < t.len() ==> t[i] != '\n',
    ensures
        lines_state(s + t) == (lines_state(s).0, lines_state(s).1 + t),
    decreases t.len(),
{
    if t.len() == 0 {
        assert(s + t =~= s);
        assert(lines_state(s).1 + t =~= lines_state(s).1);
    } else {
        let u = t.drop_last();
        assert forall|i: int| 0 <= i < u.len() implies u[i] != '\n' by {
            assert(u[i] == t[i]);
        }
        lemma_lines_state_extend(s, u);
        assert((s + t).drop_last() =~= s + u);
        assert((s + t).last() == t.last());
        assert(t[t.len() - 1] != '\n');
        assert((lines_state(s).1 + u).push(t.last()) =~= lines_state(s).1 + t);
    }
}

/// Characters with a property keep it through a split into lines: every
/// line is made of characters of the text other than line feeds.
pub proof fn lemma_lines_chars(s: Seq<char>, e: char)
    requires
        forall|i: int| 0 <= i < s.len() ==> s[i] != e,
    ensures
        forall|k: int, i: int|
            0 <= k < lines(s).len() && 0 <= i < lines(s)[k].len() ==> #[trigger] lines(s)[k][i]
                != e && lines(s)[k][i] != '\n',
    decreases s.len(),
{
    lemma_lines_state_chars(s, e);
    let st = lines_state(s);
    if st.1.len() > 0 {
        let l = st.0.push(st.1);
        assert forall|k: int, i: int| 0 <= k < l.len() && 0 <= i < l[k].len() implies #[trigger] l[k][i]
            != e && l[k][i] != '\n' by {
            if k < st.0.len() {
                assert(l[k] == st.0[k]);
            }
        }
    }
}

proof fn lemma_lines_state_chars(s: Seq<char>, e: char)
    requires
        forall|i: int| 0 <= i < s.len() ==> s[i] != e,
    ensures
        forall|k: int, i: int|
            0 <= k < lines_state(s).0.len() && 0 <= i < lines_state(s).0[k].len()
                ==> #[trigger] lines_state(s).0[k][i] != e && lines_state(s).0[k][i] != '\n',
        forall|i: int|
            0 <= i < lines_state(s).1.len() ==> #[trigger] lines_state(s).1[i] != e
                && lines_state(s).1[i] != '\n',
    decreases s.len(),
{
    if s.len() > 0 {
        let p = s.drop_last();
        assert forall|i: int| 0 <= i < p.len() implies p[i] != e by {
            assert(p[i] == s[i]);
        }
        lemma_lines_state_chars(p, e);
        let st = lines_state(p);
        let c = s.last();
        assert(c == s[s.len() - 1]);
        if c == '\n' {
            let f = st.0.push(st.1);
            assert forall|k: int, i: int| 0 <= k < f.len() && 0 <= i < f[k].len() implies #[trigger] f[k][i]
                != e && f[k][i] != '\n' by {
                if k < st.0.len() {
                    assert(f[k] == st.0[k]);
                }
            }
        } else {
            let cur = st.1.push(c);
            assert forall|i: int| 0 <= i < cur.len() implies #[trigger] cur[i] != e && cur[i] != '\n' by {
                if i < st.1.len() {
                    assert(cur[i] == st.1[i]);
                }
            }
        }
    }
}

/// Trimming the front leaves a suffix that, unless empty, starts with a
/// non-whitespace character.
pub proof fn lemma_trim_start_shape(s: Seq<char>)
    ensures
        trim_start(s).len() <= s.len(),
        trim_start(s) == s.skip(s.len() - trim_start(s).len()),
        trim_start(s).len() > 0 ==> !is_ws(trim_start(s)[0]),
    decreases s.len(),
{
    if s.len() > 0 && is_ws(s[0]) {
        lemma_trim_start_shape(s.drop_first());
        let t = trim_start(s.drop_first());
        assert(s.drop_first().skip(s.drop_first().len() - t.len()) =~= s.skip(s.len() - t.len()));
    } else {
        assert(s.skip(0) =~= s);
    }
}

/// Trimming the end leaves a prefix that, unless empty, ends with a
/// non-whitespace character.
pub proof fn lemma_trim_end_shape(s: Seq<char>)
    ensures
        trim_end(s).len() <= s.len(),
        trim_end(s) == s.take(trim_end(s).len() as int),
        trim_end(s).len() > 0 ==> !is_ws(trim_end(s).last()),
    decreases s.len(),
{
    if s.len() > 0 && is_ws(s.last()) {
        lemma_trim_end_shape(s.drop_last());
        let t = trim_end(s.drop_last());
        assert(s.drop_last().take(t.len() as int) =~= s.take(t.len() as int));
    } else {
        assert(s.take(s.len() as int) =~= s);
    }
}

/// A trimmed text is a stretch of the text; trimming it again changes
/// nothing.
pub proof fn lemma_trim_shape(s: Seq<char>) -> (a: int)
    ensures
        0 <= a,
        a + trim(s).len() <= s.len(),
        trim(s) == s.subrange(a, a + trim(s).len()),
        trim(trim(s)) == trim(s),
{
    lemma_trim_start_shape(s);
    let y = trim_start(s);
    lemma_trim_end_shape(y);
    let t = trim(s);
    let a = s.len() - y.len();
    assert(t == y.take(t.len() as int));
    assert(t =~= s.subrange(a, a + t.len()));
    if t.len() > 0 {
        assert(t[0] == y[0]);
        lemma_trim_unchanged(t);
    } else {
        assert(trim_start(t) == t);
    }
    a
}

/// Skipping positions where `p` does not occur does not change the search.
pub proof fn lemma_find_from_skip(s: Seq<char>, p: Seq<char>, i: int, j: int)
    requires
        0 <= i <= j,
        forall|k: int| i <= k < j ==> !matches_at(s, p, k),
    ensures
        find_from(s, p, i) == find_from(s, p, j),
    decreases j - i,
{
    if i < j {
        if i + p.len() > s.len() {
            assert(find_from(s, p, j) is None);
        } else {
            assert(!matches_at(s, p, i));
            lemma_find_from_skip(s, p, i + 1, j);
        }
    }
}

/// A search from before an occurrence finds something.
pub proof fn lemma_find_from_skip_some(s: Seq<char>, p: Seq<char>, i: int, k: int)
    requires
        0 <= i <= k,
        matches_at(s, p, k),
    ensures
        find_from(s, p, i) is Some,
        find_from(s, p, i)->0 <= k,
    decreases k - i,
{
    if !matches_at(s, p, i) {
        lemma_find_from_skip_some(s, p, i + 1, k);
    }
}

/// What a successful search gives.
pub proof fn lemma_find_from_some(s: Seq<char>, p: Seq<char>, i: int)
    requires
        find_from(s, p, i) is Some,
    ensures
        matches_at(s, p, find_from(s, p, i)->0),
        i <= find_from(s, p, i)->0,
        forall|k: int| i <= k < find_from(s, p, i)->0 ==> !matches_at(s, p, k),
    decreases s.len() + 1 - i,
{
    if !matches_at(s, p, i) {
        lemma_find_from_some(s, p, i + 1);
    }
}

/// A search that fails finds no occurrence.
pub proof fn lemma_find_from_none(s: Seq<char>, p: Seq<char>, i: int, k: int)
    requires
        i >= 0,
        find_from(s, p, i) is None,
        i <= k,
    ensures
        !matches_at(s, p, k),
    decreases s.len() + 1 - i,
{
    if i + p.len() <= s.len() && i < k {
        lemma_find_from_none(s, p, i + 1, k);
    }
}

/// Where `p` occurs at `j`, each of its characters stands in its place.
pub proof fn lemma_matches_at_index(s: Seq<char>, p: Seq<char>, j: int, t: int)
    requires
        matches_at(s, p, j),
        0 <= t < p.len(),
    ensures
        s[j + t] == p[t],
{
    assert(s.subrange(j, j + p.len())[t] == s[j + t]);
}

/// The first occurrence of `p` is at `m` when it occurs there and nowhere
/// before.
pub proof fn lemma_find_at(s: Seq<char>, p: Seq<char>, m: int)
    requires
        0 <= m,
        matches_at(s, p, m),
        forall|j: int| 0 <= j < m ==> !matches_at(s, p, j),
    ensures
        find(s, p) == Some(m),
{
    lemma_find_from_skip(s, p, 0, m);
}

/// `p` is not found when it occurs nowhere.
pub proof fn lemma_find_absent(s: Seq<char>, p: Seq<char>)
    requires
        forall|j: int| 0 <= j <= s.len() ==> !matches_at(s, p, j),
    ensures
        find(s, p) is None,
{
    lemma_find_from_skip(s, p, 0, s.len() as int);
    assert(!matches_at(s, p, s.len() as int));
    if p.len() == 0 {
        assert(matches_at(s, p, s.len() as int)) by {
            assert(s.subrange(s.len() as int, s.len() as int) =~= p);
        }
    }
}

/// `p` is not found in a text that lacks one of its characters.
pub proof fn lemma_find_absent_char(s: Seq<char>, p: Seq<char>, t: int)
    requires
        0 <= t < p.len(),
        forall|i: int| 0 <= i < s.len() ==> s[i] != p[t],
    ensures
        find(s, p) is None,
{
    assert forall|j: int| 0 <= j <= s.len() implies !matches_at(s, p, j) by {
        if matches_at(s, p, j) {
            lemma_matches_at_index(s, p, j, t);
        }
    }
    lemma_find_absent(s, p);
}

/// The first occurrence of `p` is at `m` when it occurs there and the
/// `t`-th character of `p` stands in none of the places an earlier
/// occurrence would put it.
pub proof fn lemma_find_at_char(s: Seq<char>, p: Seq<char>, m: int, t: int)
    requires
        0 <= m,
        0 <= t < p.len(),
        matches_at(s, p, m),
        forall|i: int| t <= i < m + t ==> s[i] != p[t],
    ensures
        find(s, p) == Some(m),
{
    assert forall|j: int| 0 <= j < m implies !matches_at(s, p, j) by {
        if matches_at(s, p, j) {
            lemma_matches_at_index(s, p, j, t);
        }
    }
    lemma_find_at(s, p, m);
}

/// A text that begins and ends with a non-space character is its own trim.
pub proof fn lemma_trim_unchanged(s: Seq<char>)
    requires
        s.len() > 0,
        !is_ws(s[0]),
        !is_ws(s.last()),
    ensures
        trim(s) == s,
{
    assert(trim_start(s) == s);
    assert(trim_end(s) == s);
}

// ---------------------------------------------------------------------------
// Executable helpers
// ---------------------------------------------------------------------------

/// `String::push`.
#[verifier::external_body]
pub(crate) fn push_char(s: &mut String, c: char)
    ensures
        final(s)@ == old(s)@.push(c),
{
    s.push(c);
}

/// The characters of a string.
pub fn to_chars(s: &str) -> (v: Vec<char>)
    ensures
        v@ == s@,
{
    let mut v: Vec<char> = Vec::new();
    for c in it: s.chars()
        invariant
            v@ == it.seq().take(it.index() as int),
    {
        v.push(c);
    }
    v
}

/// The string made of the given characters.
pub fn from_chars(v: &[char]) -> (s: String)
    ensures
        s@ == v@,
{
    let mut s = String::new();
    let mut i: usize = 0;
    while i < v.len()
        invariant
            i <= v.len(),
            s@ == v@.take(i as int),
        decreases v.len() - i,
    {
        push_char(&mut s, v[i]);
        i += 1;
        assert(v@.take(i as int) =~= v@.take(i - 1).push(v@[i - 1]));
    }
    assert(v@.take(v@.len() as int) =~= v@);
    s
}

/// `char::is_whitespace`.
pub fn char_is_ws(c: char) -> (b: bool)
    ensures
        b == is_ws(c),
{
    ('\t' <= c && c <= '\r') || c == ' ' || c == '\u{85}' || c == '\u{a0}' || c == '\u{1680}'
        || ('\u{2000}' <= c && c <= '\u{200a}') || c == '\u{2028}' || c == '\u{2029}'
        || c == '\u{202f}' || c == '\u{205f}' || c == '\u{3000}'
}

/// The characters `v[i..j]`.
pub fn slice_chars(v: &[char], i: usize, j: usize) -> (r: Vec<char>)
    requires
        i <= j <= v@.len(),
    ensures
        r@ == v@.subrange(i as int, j as int),
{
    let mut r: Vec<char> = Vec::new();
    let mut k: usize = i;
    while k < j
        invariant
            i <= k <= j <= v@.len(),
            r@ == v@.subrange(i as int, k as int),
        decreases j - k,
    {
        r.push(v[k]);
        k += 1;
        assert(r@ =~= v@.subrange(i as int, k as int));
    }
    r
}

/// `v[i..]`.
pub fn suffix(v: &[char], i: usize) -> (r: Vec<char>)
    requires
        i <= v@.len(),
    ensures
        r@ == v@.skip(i as int),
{
    let r = slice_chars(v, i, v.len());
    assert(v@.subrange(i as int, v@.len() as int) =~= v@.skip(i as int));
    r
}

/// `v[..j]`.
pub fn prefix(v: &[char], j: usize) -> (r: Vec<char>)
    requires
        j <= v@.len(),
    ensures
        r@ == v@.take(j as int),
{
    let r = slice_chars(v, 0, j);
    assert(v@.subrange(0, j as int) =~= v@.take(j as int));
    r
}

/// The bounds of the trimmed text: `trim(v) == v[a..b]`.
pub fn trim_bounds(v: &[char]) -> (ab: (usize, usize))
    ensures
        ab.0 <= ab.1 <= v@.len(),
        trim(v@) == v@.subrange(ab.0 as int, ab.1 as int),
        trim_start(v@) == v@.skip(ab.0 as int),
{
    let mut a: usize = 0;
    while a < v.len() && char_is_ws(v[a])
        invariant
            a <= v@.len(),
            forall|i: int| 0 <= i < a ==> is_ws(#[trigger] v@[i]),
        decreases v.len() - a,
    {
        a += 1;
    }
    proof {
        lemma_trim_start_skip(v@, a as int);
    }
    let mut b: usize = v.len();
    while b > a && char_is_ws(v[b - 1])
        invariant
            a <= b <= v@.len(),
            forall|i: int| b <= i < v@.len() ==> is_ws(#[trigger] v@[i]),
        decreases b,
    {
        b -= 1;
    }
    proof {
        let t = v@.skip(a as int);
        let bb = b - a;
        assert forall|i: int| bb <= i < t.len() implies is_ws(#[trigger] t[i]) by {
            assert(t[i] == v@[i + a]);
        }
        if bb > 0 {
            assert(t[bb - 1] == v@[b - 1]);
        }
        lemma_trim_end_take(t, bb as int);
        assert(t.take(bb as int) =~= v@.subrange(a as int, b as int));
    }
    (a, b)
}

/// `str::trim`.
pub fn trimmed(v: &[char]) -> (r: Vec<char>)
    ensures
        r@ == trim(v@),
{
    let (a, b) = trim_bounds(v);
    slice_chars(v, a, b)
}

/// `str::trim_start`.
pub fn trimmed_start(v: &[char]) -> (r: Vec<char>)
    ensures
        r@ == trim_start(v@),
{
    let (a, _b) = trim_bounds(v);
    suffix(v, a)
}

/// Whether `p` occurs in `v` at position `i`.
pub fn matches_at_exec(v: &[char], p: &[char], i: usize) -> (b: bool)
    ensures
        b == matches_at(v@, p@, i as int),
{
    let n = v.len();
    if i > n || p.len() > n - i {
        return false;
    }
    let mut k: usize = 0;
    while k < p.len()
        invariant
            n == v@.len(),
            i + p@.len() <= v@.len(),
            k <= p@.len(),
            forall|m: int| 0 <= m < k ==> v@[i + m] == p@[m],
        decreases p.len() - k,
    {
        if v[i + k] != p[k] {
            assert(v@.subrange(i as int, i + p@.len())[k as int] != p@[k as int]);
            return false;
        }
        k += 1;
    }
    assert(v@.subrange(i as int, i + p@.len()) =~= p@);
    true
}

/// `v` starts with `p`.
pub fn starts_with_exec(v: &[char], p: &[char]) -> (b: bool)
    ensures
        b == starts_with(v@, p@),
{
    matches_at_exec(v, p, 0)
}

/// `v` ends with `p`.
pub fn ends_with_exec(v: &[char], p: &[char]) -> (b: bool)
    ensures
        b == ends_with(v@, p@),
{
    if p.len() > v.len() {
        false
    } else {
        matches_at_exec(v, p, v.len() - p.len())
    }
}

/// The first occurrence of `p` in `v` at or after `start`.
pub fn find_from_exec(v: &[char], p: &[char], start: usize) -> (r: Option<usize>)
    ensures
        r matches Some(i) ==> find_from(v@, p@, start as int) == Some(i as int),
        r is None ==> find_from(v@, p@, start as int) is None,
{
    let n = v.len();
    if p.len() > n || start > n - p.len() {
        return None;
    }
    let last = n - p.len();
    let mut i: usize = start;
    while i < last
        invariant
            start <= i <= last,
            last + p@.len() == v@.len(),
            forall|k: int| start <= k < i ==> !matches_at(v@, p@, k),
        decreases last - i,
    {
        if matches_at_exec(v, p, i) {
            proof {
                lemma_find_from_skip(v@, p@, start as int, i as int);
            }
            return Some(i);
        }
        i += 1;
    }
    proof {
        lemma_find_from_skip(v@, p@, start as int, last as int);
    }
    if matches_at_exec(v, p, last) {
        return Some(last);
    }
    proof {
        lemma_find_from_skip(v@, p@, start as int, last + 1);
    }
    None
}

/// `str::find`.
pub fn find_exec(v: &[char], p: &[char]) -> (r: Option<usize>)
    ensures
        r matches Some(i) ==> find(v@, p@) == Some(i as int),
        r is None ==> find(v@, p@) is None,
{
    find_from_exec(v, p, 0)
}

/// `str::contains`.
pub fn contains_exec(v: &[char], p: &[char]) -> (b: bool)
    ensures
        b == contains(v@, p@),
{
    find_exec(v, p).is_some()
}

/// `s.split(p).next()`.
pub fn before_exec(v: &[char], p: &[char]) -> (r: Vec<char>)
    ensures
        r@ == before(v@, p@),
{
    match find_exec(v, p) {
        Some(i) => {
            proof {
                lemma_find_from_some(v@, p@, 0);
            }
            prefix(v, i)
        },
        None => slice_chars(v, 0, v.len()),
    }
}

/// The second half of `s.split_once(p)`.
pub fn after_exec(v: &[char], p: &[char]) -> (r: Option<Vec<char>>)
    ensures
        r matches Some(x) ==> after(v@, p@) == Some(x@),
        r is None ==> after(v@, p@) is None,
{
    match find_exec(v, p) {
        Some(i) => {
            proof {
                lemma_find_from_some(v@, p@, 0);
            }
            let n = v.len();
            assert(i + p@.len() <= n);
            Some(suffix(v, i + p.len()))
        },
        None => None,
    }
}

/// `s.split(p).nth(1)`.
pub fn second_piece_exec(v: &[char], p: &[char]) -> (r: Option<Vec<char>>)
    ensures
        r matches Some(x) ==> second_piece(v@, p@) == Some(x@),
        r is None ==> second_piece(v@, p@) is None,
{
    match after_exec(v, p) {
        Some(rest) => Some(before_exec(rest.as_slice(), p)),
        None => None,
    }
}

/// All characters are ASCII digits.
pub fn all_digits_exec(v: &[char]) -> (b: bool)
    ensures
        b == all_digits(v@),
{
    let mut i: usize = 0;
    while i < v.len()
        invariant
            i <= v@.len(),
            forall|k: int| 0 <= k < i ==> is_digit(#[trigger] v@[k]),
        decreases v.len() - i,
    {
        if !('0' <= v[i] && v[i] <= '9') {
            return false;
        }
        i += 1;
    }
    true
}

/// `v` followed by `w`.
pub fn concat(v: &[char], w: &[char]) -> (r: Vec<char>)
    ensures
        r@ == v@ + w@,
{
    let mut r = slice_chars(v, 0, v.len());
    assert(r@ =~= v@);
    let mut k: usize = 0;
    while k < w.len()
        invariant
            k <= w@.len(),
            r@ == v@ + w@.take(k as int),
        decreases w.len() - k,
    {
        r.push(w[k]);
        k += 1;
        assert(r@ =~= v@ + w@.take(k as int));
    }
    assert(w@.take(w@.len() as int) =~= w@);
    r
}

/// Appends `w` to `r`.
pub fn push_all(r: &mut Vec<char>, w: &[char])
    ensures
        final(r)@ == old(r)@ + w@,
{
    let ghost r0 = r@;
    let mut k: usize = 0;
    while k < w.len()
        invariant
            k <= w@.len(),
            r@ == r0 + w@.take(k as int),
        decreases w.len() - k,
    {
        r.push(w[k]);
        k += 1;
        assert(r@ =~= r0 + w@.take(k as int));
    }
    assert(w@.take(w@.len() as int) =~= w@);
}

/// Equality of two texts.
pub fn chars_eq(v: &[char], w: &[char]) -> (b: bool)
    ensures
        b == (v@ == w@),
{
    if v.len() != w.len() {
        return false;
    }
    let b = matches_at_exec(v, w, 0);
    proof {
        if b {
            assert(v@.subrange(0, w@.len() as int) =~= v@);
        } else {
            assert(v@.subrange(0, w@.len() as int) =~= v@);
        }
    }
    b
}

/// `str::replace` with a non-empty pattern.
pub fn replace_exec(v: &[char], p: &[char], r: &[char]) -> (out: Vec<char>)
    requires
        p@.len() > 0,
    ensures
        out@ == replace(v@, p@, r@),
{
    let n = v.len();
    let mut out: Vec<char> = Vec::new();
    let mut i: usize = 0;
    assert(v@.skip(0) =~= v@);
    while i < n
        invariant
            n == v@.len(),
            p@.len() > 0,
            i <= n,
            out@ + replace(v@.skip(i as int), p@, r@) == replace(v@, p@, r@),
        decreases n - i,
    {
        let ghost t = v@.skip(i as int);
        if matches_at_exec(v, p, i) {
            proof {
                assert(t.subrange(0, p@.len() as int) =~= v@.subrange(i as int, i + p@.len()));
                assert(t.skip(p@.len() as int) =~= v@.skip(i + p@.len()));
                assert(out@ + r@ + replace(v@.skip(i + p@.len()), p@, r@) =~= out@ + (r@
                    + replace(t.skip(p@.len() as int), p@, r@)));
            }
            push_all(&mut out, r);
            i += p.len();
        } else {
            proof {
                if p@.len() <= t.len() {
                    assert(t.subrange(0, p@.len() as int) =~= v@.subrange(
                        i as int,
                        i + p@.len(),
                    ));
                }
                assert(t.drop_first() =~= v@.skip(i + 1));
                assert(t[0] == v@[i as int]);
                assert(out@.push(v@[i as int]) + replace(v@.skip(i + 1), p@, r@) =~= out@ + (
                seq![t[0]] + replace(t.drop_first(), p@, r@)));
            }
            out.push(v[i]);
            i += 1;
        }
    }
    assert(v@.skip(n as int) =~= Seq::<char>::empty());
    assert(out@ + Seq::<char>::empty() =~= out@);
    out
}

/// The views of character vectors, as strings.
pub fn to_strings(ws: &Vec<Vec<char>>) -> (out: Vec<String>)
    ensures
        string_views(out@) == views(ws@),
{
    let mut out: Vec<String> = Vec::new();
    let mut i: usize = 0;
    while i < ws.len()
        invariant
            i <= ws@.len(),
            string_views(out@) == views(ws@.take(i as int)),
        decreases ws.len() - i,
    {
        let s = from_chars(ws[i].as_slice());
        let ghost old_out = out@;
        out.push(s);
        assert(ws@.take(i + 1) =~= ws@.take(i as int).push(ws@[i as int]));
        assert(string_views(out@) =~= string_views(old_out).push(s@));
        assert(views(ws@.take(i + 1)) =~= views(ws@.take(i as int)).push(ws@[i as int]@));
        i += 1;
    }
    assert(ws@.take(ws@.len() as int) =~= ws@);
    out
}

/// `str::split_whitespace`.
pub fn words_exec(v: &[char]) -> (ws: Vec<Vec<char>>)
    ensures
        views(ws@) == words(v@),
{
    let n = v.len();
    let mut ws: Vec<Vec<char>> = Vec::new();
    let mut cur: Vec<char> = Vec::new();
    let mut i: usize = 0;
    assert(v@.take(0) =~= Seq::<char>::empty());
    while i < n
        invariant
            n == v@.len(),
            i <= n,
            (views(ws@), cur@) == words_state(v@.take(i as int)),
        decreases n - i,
    {
        let c = v[i];
        let ghost pre = v@.take(i as int);
        assert(v@.take(i + 1).drop_last() =~= pre);
        assert(v@.take(i + 1).last() == c);
        if char_is_ws(c) {
            if cur.len() > 0 {
                let done = cur;
                ws.push(done);
                cur = Vec::new();
                assert(views(ws@) =~= words_state(pre).0.push(words_state(pre).1));
            }
        } else {
            cur.push(c);
        }
        i += 1;
    }
    assert(v@.take(n as int) =~= v@);
    if cur.len() > 0 {
        let ghost before_push = ws@;
        ws.push(cur);
        assert(views(ws@) =~= views(before_push).push(words_state(v@).1));
    }
    ws
}

/// `pieces.join(sep)`.
pub fn join_exec(ws: &Vec<Vec<char>>, sep: &[char]) -> (out: Vec<char>)
    ensures
        out@ == join(views(ws@), sep@),
{
    let mut out: Vec<char> = Vec::new();
    let mut i: usize = 0;
    while i < ws.len()
        invariant
            i <= ws@.len(),
            out@ == join(views(ws@.take(i as int)), sep@),
        decreases ws.len() - i,
    {
        let ghost prev = views(ws@.take(i as int));
        let ghost next = views(ws@.take(i + 1));
        assert(next.drop_last() =~= prev);
        assert(next.last() == ws@[i as int]@);
        if i > 0 {
            push_all(&mut out, sep);
        }
        push_all(&mut out, ws[i].as_slice());
        proof {
            if i == 0 {
                assert(out@ =~= next[0]);
            }
        }
        i += 1;
    }
    assert(ws@.take(ws@.len() as int) =~= ws@);
    out
}

/// `str::lines` of a text without carriage returns.
pub fn lines_exec(v: &[char]) -> (ls: Vec<Vec<char>>)
    ensures
        views(ls@) == lines(v@),
{
    let n = v.len();
    let mut ls: Vec<Vec<char>> = Vec::new();
    let mut cur: Vec<char> = Vec::new();
    let mut i: usize = 0;
    assert(v@.take(0) =~= Seq::<char>::empty());
    while i < n
        invariant
            n == v@.len(),
            i <= n,
            (views(ls@), cur@) == lines_state(v@.take(i as int)),
        decreases n - i,
    {
        let c = v[i];
        let ghost pre = v@.take(i as int);
        assert(v@.take(i + 1).drop_last() =~= pre);
        assert(v@.take(i + 1).last() == c);
        if c == '\n' {
            let done = cur;
            ls.push(done);
            cur = Vec::new();
            assert(views(ls@) =~= lines_state(pre).0.push(lines_state(pre).1));
        } else {
            cur.push(c);
        }
        i += 1;
    }
    assert(v@.take(n as int) =~= v@);
    if cur.len() > 0 {
        let ghost before_push = ls@;
        ls.push(cur);
        assert(views(ls@) =~= views(before_push).push(lines_state(v@).1));
    }
    ls
}

/// `normalize_space`: the words of the text separated by single spaces.
pub fn normalize_space_exec(v: &[char]) -> (out: Vec<char>)
    ensures
        out@ == normalize_space(v@),
{
    let ws = words_exec(v);
    let sep = vec![' '];
    assert(sep@ =~= seq![' ']);
    join_exec(&ws, sep.as_slice())
}

} // verus!
