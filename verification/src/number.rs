//! Numbers in text: decimal integers (`str::parse::<i32>` and `{}`
//! formatting), numbers in chapter headings (ASCII or full-width digits,
//! or Chinese numerals), and hexadecimal digits.
use vstd::prelude::*;
use crate::text::{
    all_digits, all_digits_exec, char_is_ws, from_chars, is_digit, is_ws, suffix, to_chars,
};

verus! {

// ---------------------------------------------------------------------------
// Decimal integers
// ---------------------------------------------------------------------------

pub open spec fn digit_value(c: char) -> int {
    c as int - '0' as int
}

/// The value of a string of decimal digits.
pub open spec fn digits_value(s: Seq<char>) -> int
    decreases s.len(),
{
    if s.len() == 0 {
        0
    } else {
        digits_value(s.drop_last()) * 10 + digit_value(s.last())
    }
}

/// An optional leading sign: whether it is `-`, and the text after it.
pub open spec fn sign_split(s: Seq<char>) -> (bool, Seq<char>) {
    if s.len() > 0 && s[0] == '-' {
        (true, s.drop_first())
    } else if s.len() > 0 && s[0] == '+' {
        (false, s.drop_first())
    } else {
        (false, s)
    }
}

/// `str::parse::<i32>`: an optional sign, then one or more ASCII digits,
/// whose value fits in `i32`.
pub open spec fn parse_i32(s: Seq<char>) -> Option<i32> {
    let (neg, ds) = sign_split(s);
    if ds.len() == 0 || !all_digits(ds) {
        None
    } else {
        let v = if neg {
            -digits_value(ds)
        } else {
            digits_value(ds)
        };
        if i32::MIN <= v && v <= i32::MAX {
            Some(v as i32)
        } else {
            None
        }
    }
}

/// The character of a decimal digit.
pub open spec fn digit_char(d: int) -> char {
    (d + '0' as int) as char
}

/// The decimal digits of a natural number (`{}` formatting).
pub open spec fn decimal(n: nat) -> Seq<char>
    decreases n,
{
    if n < 10 {
        seq![digit_char(n as int)]
    } else {
        decimal(n / 10).push(digit_char((n % 10) as int))
    }
}

/// `{}` formatting of an integer.
pub open spec fn signed_decimal(n: int) -> Seq<char> {
    if n < 0 {
        seq!['-'] + decimal((-n) as nat)
    } else {
        decimal(n as nat)
    }
}

pub proof fn lemma_digits_value_nonneg(s: Seq<char>)
    requires
        all_digits(s),
    ensures
        digits_value(s) >= 0,
    decreases s.len(),
{
    if s.len() > 0 {
        lemma_digits_value_nonneg(s.drop_last());
        assert(is_digit(s[s.len() - 1]));
    }
}

/// A prefix of a digit string is worth no more than the whole.
pub proof fn lemma_digits_value_prefix(s: Seq<char>, k: int)
    requires
        all_digits(s),
        0 <= k <= s.len(),
    ensures
        digits_value(s.take(k)) <= digits_value(s),
    decreases s.len(),
{
    if k == s.len() {
        assert(s.take(k) =~= s);
    } else {
        let t = s.drop_last();
        assert(t.take(k) =~= s.take(k));
        lemma_digits_value_prefix(t, k);
        lemma_digits_value_nonneg(t);
        assert(is_digit(s[s.len() - 1]));
    }
}

pub proof fn lemma_decimal_digits(n: nat)
    ensures
        decimal(n).len() > 0,
        all_digits(decimal(n)),
        digits_value(decimal(n)) == n,
    decreases n,
{
    let c = digit_char((n % 10) as int);
    assert(c as int == (n % 10) + 48);
    let d = decimal(n);
    if n < 10 {
        assert(d.drop_last() =~= Seq::<char>::empty());
        assert(d.last() == c);
        assert(digits_value(d) == digits_value(d.drop_last()) * 10 + digit_value(d.last()));
    } else {
        lemma_decimal_digits(n / 10);
        assert(d.drop_last() =~= decimal(n / 10));
        assert(d.last() == c);
        assert(digits_value(d) == digits_value(d.drop_last()) * 10 + digit_value(d.last()));
        assert(n == (n / 10) * 10 + n % 10);
        assert(is_digit(c));
        assert forall|i: int| 0 <= i < d.len() implies is_digit(#[trigger] d[i]) by {
            if i < d.len() - 1 {
                assert(d[i] == decimal(n / 10)[i]);
            }
        }
    }
}

/// Formatting an `i32` and parsing the text back gives the same number.
pub proof fn lemma_parse_format_i32(n: i32)
    ensures
        parse_i32(signed_decimal(n as int)) == Some(n),
{
    let m: nat = if n < 0 {
        (-n) as nat
    } else {
        n as nat
    };
    lemma_decimal_digits(m);
    let d = decimal(m);
    if n < 0 {
        let s = seq!['-'] + d;
        assert(s.drop_first() =~= d);
    } else {
        assert(d[0] != '-' && d[0] != '+') by {
            assert(is_digit(d[0]));
        }
    }
}

/// Text to `i32` as `str::parse::<i32>` does it.
pub fn parse_i32_exec(v: &[char]) -> (r: Option<i32>)
    ensures
        r == parse_i32(v@),
{
    let n = v.len();
    let (neg, start): (bool, usize) = if n > 0 && v[0] == '-' {
        (true, 1)
    } else if n > 0 && v[0] == '+' {
        (false, 1)
    } else {
        (false, 0)
    };
    let ds = suffix(v, start);
    proof {
        if start == 1 {
            assert(v@.skip(1) =~= v@.drop_first());
        } else {
            assert(v@.skip(0) =~= v@);
        }
    }
    if ds.len() == 0 || !all_digits_exec(ds.as_slice()) {
        return None;
    }
    let m = ds.len();
    let mut acc: i64 = 0;
    let mut k: usize = 0;
    assert(ds@.take(0) =~= Seq::<char>::empty());
    while k < m
        invariant
            m == ds@.len(),
            sign_split(v@).1 == ds@,
            all_digits(ds@),
            k <= m,
            acc == digits_value(ds@.take(k as int)),
            0 <= acc <= 2147483648,
        decreases m - k,
    {
        let c = ds[k];
        assert(is_digit(ds@[k as int]));
        let d: i64 = (c as u32 - '0' as u32) as i64;
        let next: i64 = acc * 10 + d;
        assert(ds@.take(k + 1).drop_last() =~= ds@.take(k as int));
        assert(next == digits_value(ds@.take(k + 1)));
        if next > 2147483648 {
            proof {
                lemma_digits_value_prefix(ds@, k + 1);
            }
            return None;
        }
        acc = next;
        k += 1;
    }
    assert(ds@.take(m as int) =~= ds@);
    let value: i64 = if neg {
        -acc
    } else {
        acc
    };
    if value < -2147483648 || value > 2147483647 {
        None
    } else {
        Some(value as i32)
    }
}

/// The character of a decimal digit.
pub fn digit_char_exec(d: u64) -> (c: char)
    requires
        d < 10,
    ensures
        c == digit_char(d as int),
{
    let b: u8 = 48u8 + d as u8;
    let c = b as char;
    assert(c as int == d + 48);
    c
}

/// Appends the decimal digits of `n`.
pub fn push_decimal(out: &mut Vec<char>, n: u64)
    ensures
        final(out)@ == old(out)@ + decimal(n as nat),
    decreases n,
{
    if n < 10 {
        out.push(digit_char_exec(n));
        assert(old(out)@.push(digit_char(n as int)) =~= old(out)@ + decimal(n as nat));
    } else {
        push_decimal(out, n / 10);
        out.push(digit_char_exec(n % 10));
        assert(old(out)@ + decimal((n / 10) as nat) + seq![digit_char((n % 10) as int)]
            =~= old(out)@ + decimal(n as nat));
    }
}

/// Appends `{}` formatting of `n`.
pub fn push_signed_decimal(out: &mut Vec<char>, n: i64)
    ensures
        final(out)@ == old(out)@ + signed_decimal(n as int),
{
    if n < 0 {
        out.push('-');
        let m: u64 = (0i128 - n as i128) as u64;
        push_decimal(out, m);
        assert(old(out)@.push('-') + decimal(m as nat) =~= old(out)@ + (seq!['-'] + decimal(
            m as nat,
        )));
    } else {
        push_decimal(out, n as u64);
    }
}

// ---------------------------------------------------------------------------
// Numbers in headings
// ---------------------------------------------------------------------------

/// A number read from a heading: a decimal literal made of ASCII digits and
/// at most one point, or the value of a number written in Chinese numerals.
pub enum Number {
    Decimal(String),
    Whole(u64),
}

/// The model of `Number`.
pub enum NumberView {
    Decimal(Seq<char>),
    Whole(nat),
}

impl View for Number {
    type V = NumberView;

    open spec fn view(&self) -> NumberView {
        match self {
            Number::Decimal(s) => NumberView::Decimal(s@),
            Number::Whole(n) => NumberView::Whole(*n as nat),
        }
    }
}

pub open spec fn option_number_view(n: Option<Number>) -> Option<NumberView> {
    match n {
        Some(x) => Some(x@),
        None => None,
    }
}

pub open spec fn is_fullwidth_digit(c: char) -> bool {
    '０' <= c && c <= '９'
}

/// Reading a numeric heading number left to right: the ASCII form so far, or
/// `None` once a character that does not belong in it was met. ASCII digits
/// and points are kept, full-width digits become ASCII digits and
/// whitespace is dropped.
pub open spec fn numeric_chars(s: Seq<char>) -> Option<Seq<char>>
    decreases s.len(),
{
    if s.len() == 0 {
        Some(seq![])
    } else {
        match numeric_chars(s.drop_last()) {
            None => None,
            Some(acc) => {
                let c = s.last();
                if is_digit(c) || c == '.' {
                    Some(acc.push(c))
                } else if is_fullwidth_digit(c) {
                    Some(acc.push(((c as int) - ('０' as int) + ('0' as int)) as char))
                } else if is_ws(c) {
                    Some(acc)
                } else {
                    None
                }
            },
        }
    }
}

/// A text of ASCII digits and points that Rust's float parsing accepts: at
/// least one digit and at most one point.
pub open spec fn is_decimal_literal(t: Seq<char>) -> bool {
    &&& exists|i: int| 0 <= i < t.len() && is_digit(#[trigger] t[i])
    &&& forall|i: int, j: int| 0 <= i < j < t.len() && #[trigger] t[i] == '.' ==> #[trigger] t[j]
        != '.'
}

/// The decimal literal that a heading number written with digits stands for.
pub open spec fn numeric_text(s: Seq<char>) -> Option<Seq<char>> {
    match numeric_chars(s) {
        Some(t) => if is_decimal_literal(t) {
            Some(t)
        } else {
            None
        },
        None => None,
    }
}

pub open spec fn chinese_digit(c: char) -> Option<int> {
    if c == '零' || c == '〇' {
        Some(0)
    } else if c == '一' {
        Some(1)
    } else if c == '二' || c == '两' || c == '兩' {
        Some(2)
    } else if c == '三' {
        Some(3)
    } else if c == '四' {
        Some(4)
    } else if c == '五' {
        Some(5)
    } else if c == '六' {
        Some(6)
    } else if c == '七' {
        Some(7)
    } else if c == '八' {
        Some(8)
    } else if c == '九' {
        Some(9)
    } else {
        None
    }
}

pub open spec fn chinese_unit(c: char) -> Option<int> {
    if c == '十' {
        Some(10)
    } else if c == '百' {
        Some(100)
    } else if c == '千' {
        Some(1000)
    } else {
        None
    }
}

/// Reading Chinese numerals left to right: the total of the finished
/// groups, the pending digit, and whether any numeral was seen; `None` once a
/// character that is neither a numeral nor whitespace was met. A unit
/// multiplies the pending digit (one when there is none) into the total.
pub open spec fn chinese_state(s: Seq<char>) -> Option<(int, int, bool)>
    decreases s.len(),
{
    if s.len() == 0 {
        Some((0, 0, false))
    } else {
        match chinese_state(s.drop_last()) {
            None => None,
            Some(st) => {
                let c = s.last();
                if is_ws(c) {
                    Some(st)
                } else if chinese_digit(c) is Some {
                    Some((st.0, chinese_digit(c)->0, true))
                } else if chinese_unit(c) is Some {
                    let cur = if st.1 == 0 {
                        1
                    } else {
                        st.1
                    };
                    Some((st.0 + cur * chinese_unit(c)->0, 0, true))
                } else {
                    None
                }
            },
        }
    }
}

/// The value of a number written in Chinese numerals.
pub open spec fn chinese_number(s: Seq<char>) -> Option<int> {
    match chinese_state(s) {
        Some(st) => if st.2 {
            Some(st.0 + st.1)
        } else {
            None
        },
        None => None,
    }
}

/// How Chinese numerals read: a digit alone is its value; a unit (十, 百,
/// 千) alone is its value; a digit from 1 before a unit multiplies it; a
/// digit after a unit is added to it; and `a十b` is ten times `a` plus `b`.
pub proof fn lemma_chinese_numerals(a: char, b: char, u: char)
    requires
        chinese_digit(a) is Some,
        chinese_digit(b) is Some,
        chinese_unit(u) is Some,
    ensures
        chinese_number(seq![a]) == Some(chinese_digit(a)->0),
        chinese_number(seq![u]) == Some(chinese_unit(u)->0),
        chinese_digit(a)->0 > 0 ==> chinese_number(seq![a, u]) == Some(
            chinese_digit(a)->0 * chinese_unit(u)->0,
        ),
        chinese_number(seq![u, b]) == Some(chinese_unit(u)->0 + chinese_digit(b)->0),
        chinese_digit(a)->0 > 0 ==> chinese_number(seq![a, '十', b]) == Some(
            10 * chinese_digit(a)->0 + chinese_digit(b)->0,
        ),
{
    assert(!is_ws(a) && !is_ws(b) && !is_ws(u) && !is_ws('十'));
    assert(chinese_unit(a) is None && chinese_unit(b) is None);
    assert(chinese_digit(u) is None && chinese_digit('十') is None);
    assert(seq![a].drop_last() =~= Seq::<char>::empty());
    assert(seq![u].drop_last() =~= Seq::<char>::empty());
    assert(seq![a, u].drop_last() =~= seq![a]);
    assert(seq![u, b].drop_last() =~= seq![u]);
    assert(seq![a, '十', b].drop_last() =~= seq![a, '十']);
    assert(seq![a, '十'].drop_last() =~= seq![a]);
    assert(chinese_state(Seq::<char>::empty()) == Some((0int, 0int, false)));
    assert(seq![a].last() == a && seq![u].last() == u && seq![a, u].last() == u);
    assert(seq![u, b].last() == b && seq![a, '十', b].last() == b && seq![a, '十'].last() == '十');
    assert(chinese_state(seq![a]) == Some((0int, chinese_digit(a)->0, true)));
    assert(chinese_state(seq![u]) == Some((chinese_unit(u)->0, 0int, true)));
    assert(chinese_state(seq![a, '十']) == Some((
        (if chinese_digit(a)->0 == 0 { 1 } else { chinese_digit(a)->0 }) * 10,
        0int,
        true,
    )));
}

/// ASCII digits read as themselves, full-width digits as the ASCII digits
/// of the same value, and whitespace is skipped.
pub proof fn lemma_numeric_chars_digits(s: Seq<char>, c: char)
    ensures
        all_digits(s) ==> numeric_chars(s) == Some(s),
        numeric_chars(s) matches Some(t) ==> (is_fullwidth_digit(c) ==> numeric_chars(s.push(c))
            == Some(t.push(((c as int) - ('０' as int) + ('0' as int)) as char))) && (is_ws(c)
            ==> numeric_chars(s.push(c)) == Some(t)),
    decreases s.len(),
{
    assert(s.push(c).drop_last() =~= s);
    if all_digits(s) && s.len() > 0 {
        let p = s.drop_last();
        assert(all_digits(p)) by {
            assert forall|i: int| 0 <= i < p.len() implies is_digit(#[trigger] p[i]) by {
                assert(p[i] == s[i]);
            }
        }
        lemma_numeric_chars_digits(p, c);
        assert(is_digit(s[s.len() - 1]));
        assert(p.push(s.last()) =~= s);
    }
}

/// A number written in ASCII digits reads as those digits.
pub proof fn lemma_digits_number(s: Seq<char>)
    requires
        s.len() > 0,
        all_digits(s),
    ensures
        numeric_text(s) == Some(s),
        number_text_fits(s) == Some(NumberView::Decimal(s)),
{
    lemma_numeric_chars_digits(s, ' ');
    assert(is_digit(s[0]));
    assert forall|i: int, j: int| 0 <= i < j < s.len() && #[trigger] s[i] == '.' implies #[trigger] s[j]
        != '.' by {
        assert(is_digit(s[i]));
    }
}

/// The number in a heading: digits first, Chinese numerals otherwise.
pub open spec fn number_text(s: Seq<char>) -> Option<NumberView> {
    match numeric_text(s) {
        Some(t) => Some(NumberView::Decimal(t)),
        None => match chinese_number(s) {
            Some(v) => Some(NumberView::Whole(v as nat)),
            None => None,
        },
    }
}

/// A heading number above zero: a whole number other than 0, or a decimal
/// literal with a digit other than `0`.
pub open spec fn number_positive(n: NumberView) -> bool {
    match n {
        NumberView::Whole(v) => v > 0,
        NumberView::Decimal(t) => has_nonzero_digit(t),
    }
}

/// Some character is a digit from 1 to 9.
pub open spec fn has_nonzero_digit(t: Seq<char>) -> bool {
    exists|i: int| 0 <= i < t.len() && '1' <= #[trigger] t[i] && t[i] <= '9'
}

/// Whether a heading number is above zero.
pub fn is_positive(n: &Number) -> (b: bool)
    ensures
        b == number_positive(n@),
{
    match n {
        Number::Whole(v) => *v > 0,
        Number::Decimal(t) => {
            let v = to_chars(t.as_str());
            let mut i: usize = 0;
            while i < v.len()
                invariant
                    i <= v@.len(),
                    v@ == t@,
                    n@ == NumberView::Decimal(t@),
                    forall|k: int| 0 <= k < i ==> !('1' <= #[trigger] v@[k] && v@[k] <= '9'),
                decreases v.len() - i,
            {
                if '1' <= v[i] && v[i] <= '9' {
                    assert(t@[i as int] == v@[i as int]);
                    assert(has_nonzero_digit(t@));
                    return true;
                }
                i += 1;
            }
            false
        },
    }
}

/// `number_text`, where a value in Chinese numerals beyond `u64` counts as no
/// number.
pub open spec fn number_text_fits(s: Seq<char>) -> Option<NumberView> {
    match number_text(s) {
        Some(NumberView::Whole(v)) => if v <= u64::MAX {
            Some(NumberView::Whole(v))
        } else {
            None
        },
        other => other,
    }
}

pub proof fn lemma_chinese_state_facts(s: Seq<char>)
    requires
        chinese_state(s) is Some,
    ensures
        chinese_state(s).unwrap().0 >= 0,
        0 <= chinese_state(s).unwrap().1 <= 9,
    decreases s.len(),
{
    if s.len() > 0 {
        lemma_chinese_state_facts(s.drop_last());
    }
}

/// The total never shrinks as more numerals are read.
pub proof fn lemma_chinese_total_prefix(s: Seq<char>, k: int)
    requires
        chinese_state(s) is Some,
        0 <= k <= s.len(),
    ensures
        chinese_state(s.take(k)) is Some,
        chinese_state(s.take(k)).unwrap().0 <= chinese_state(s).unwrap().0,
    decreases s.len(),
{
    if k == s.len() {
        assert(s.take(k) =~= s);
    } else {
        let t = s.drop_last();
        assert(t.take(k) =~= s.take(k));
        lemma_chinese_total_prefix(t, k);
        lemma_chinese_state_facts(t);
    }
}

pub fn chinese_digit_exec(c: char) -> (r: Option<u64>)
    ensures
        r matches Some(d) ==> chinese_digit(c) == Some(d as int),
        r is None ==> chinese_digit(c) is None,
{
    match c {
        '零' | '〇' => Some(0),
        '一' => Some(1),
        '二' | '两' | '兩' => Some(2),
        '三' => Some(3),
        '四' => Some(4),
        '五' => Some(5),
        '六' => Some(6),
        '七' => Some(7),
        '八' => Some(8),
        '九' => Some(9),
        _ => None,
    }
}

pub fn chinese_unit_exec(c: char) -> (r: Option<u64>)
    ensures
        r matches Some(u) ==> chinese_unit(c) == Some(u as int),
        r is None ==> chinese_unit(c) is None,
{
    match c {
        '十' => Some(10),
        '百' => Some(100),
        '千' => Some(1000),
        _ => None,
    }
}

/// The value of a number in Chinese numerals, when it fits in `u64`.
pub fn chinese_number_exec(v: &[char]) -> (r: Option<u64>)
    ensures
        r matches Some(x) ==> chinese_number(v@) == Some(x as int),
        r is None ==> chinese_number(v@) is None || chinese_number(v@)->0 > u64::MAX,
{
    let n = v.len();
    let mut total: u64 = 0;
    let mut current: u64 = 0;
    let mut matched = false;
    let mut i: usize = 0;
    assert(v@.take(0) =~= Seq::<char>::empty());
    while i < n
        invariant
            n == v@.len(),
            i <= n,
            chinese_state(v@.take(i as int)) == Some((total as int, current as int, matched)),
            current <= 9,
        decreases n - i,
    {
        let c = v[i];
        let ghost pre = v@.take(i as int);
        assert(v@.take(i + 1).drop_last() =~= pre);
        assert(v@.take(i + 1).last() == c);
        if char_is_ws(c) {
        } else if let Some(d) = chinese_digit_exec(c) {
            current = d;
            matched = true;
        } else if let Some(u) = chinese_unit_exec(c) {
            let cur: u64 = if current == 0 {
                1
            } else {
                current
            };
            let add: u64 = cur * u;
            if total > u64::MAX - add {
                proof {
                    if chinese_state(v@) is Some {
                        lemma_chinese_total_prefix(v@, i + 1);
                        lemma_chinese_state_facts(v@);
                    }
                }
                return None;
            }
            total = total + add;
            current = 0;
            matched = true;
        } else {
            proof {
                assert(chinese_state(v@.take(i + 1)) is None);
                if chinese_state(v@) is Some {
                    lemma_chinese_total_prefix(v@, i + 1);
                }
            }
            return None;
        }
        i += 1;
    }
    assert(v@.take(n as int) =~= v@);
    if !matched {
        return None;
    }
    if total > u64::MAX - current {
        return None;
    }
    Some(total + current)
}

/// The ASCII form of a numeric heading number, when it is a decimal literal.
pub fn numeric_text_exec(v: &[char]) -> (r: Option<Vec<char>>)
    ensures
        r matches Some(t) ==> numeric_text(v@) == Some(t@),
        r is None ==> numeric_text(v@) is None,
{
    let n = v.len();
    let mut acc: Vec<char> = Vec::new();
    let mut i: usize = 0;
    assert(v@.take(0) =~= Seq::<char>::empty());
    while i < n
        invariant
            n == v@.len(),
            i <= n,
            numeric_chars(v@.take(i as int)) == Some(acc@),
        decreases n - i,
    {
        let c = v[i];
        let ghost pre = v@.take(i as int);
        assert(v@.take(i + 1).drop_last() =~= pre);
        assert(v@.take(i + 1).last() == c);
        if ('0' <= c && c <= '9') || c == '.' {
            acc.push(c);
        } else if '０' <= c && c <= '９' {
            let d: u32 = c as u32 - '０' as u32;
            let b: u8 = 48u8 + d as u8;
            let ascii = b as char;
            assert(ascii == ((c as int) - ('０' as int) + ('0' as int)) as char);
            acc.push(ascii);
        } else if char_is_ws(c) {
        } else {
            proof {
                assert(numeric_chars(v@.take(i + 1)) is None);
                lemma_numeric_chars_none_extends(v@, i + 1);
            }
            return None;
        }
        i += 1;
    }
    assert(v@.take(n as int) =~= v@);
    // at least one digit, at most one point
    let m = acc.len();
    let mut digits = false;
    let mut point: Option<usize> = None;
    let mut k: usize = 0;
    while k < m
        invariant
            m == acc@.len(),
            numeric_chars(v@) == Some(acc@),
            k <= m,
            digits <==> exists|i: int| 0 <= i < k && is_digit(#[trigger] acc@[i]),
            point matches Some(p) ==> p < k && acc@[p as int] == '.',
            point is None ==> forall|i: int| 0 <= i < k ==> acc@[i] != '.',
            forall|i: int, j: int| 0 <= i < j < k && #[trigger] acc@[i] == '.' ==> #[trigger] acc@[j]
                != '.',
        decreases m - k,
    {
        let c = acc[k];
        if c == '.' {
            if let Some(p) = point {
                assert(!is_decimal_literal(acc@)) by {
                    assert(acc@[p as int] == '.' && acc@[k as int] == '.');
                }
                return None;
            }
            point = Some(k);
        } else if '0' <= c && c <= '9' {
            digits = true;
        }
        k += 1;
    }
    if !digits {
        return None;
    }
    Some(acc)
}

/// Once a character that does not belong to a number was met, no longer text
/// is a number either.
pub proof fn lemma_numeric_chars_none_extends(s: Seq<char>, k: int)
    requires
        0 <= k <= s.len(),
        numeric_chars(s.take(k)) is None,
    ensures
        numeric_chars(s) is None,
    decreases s.len() - k,
{
    if k < s.len() {
        assert(s.take(k + 1).drop_last() =~= s.take(k));
        lemma_numeric_chars_none_extends(s, k + 1);
    } else {
        assert(s.take(k) =~= s);
    }
}

/// The number in a heading.
pub fn number_text_exec(v: &[char]) -> (r: Option<Number>)
    ensures
        option_number_view(r) == number_text_fits(v@),
{
    match numeric_text_exec(v) {
        Some(t) => Some(Number::Decimal(from_chars(t.as_slice()))),
        None => match chinese_number_exec(v) {
            Some(x) => Some(Number::Whole(x)),
            None => None,
        },
    }
}

// ---------------------------------------------------------------------------
// Hexadecimal
// ---------------------------------------------------------------------------

/// An upper-case hexadecimal digit.
pub open spec fn hex_upper(d: int) -> char {
    if d < 10 {
        (d + '0' as int) as char
    } else {
        (d - 10 + 'A' as int) as char
    }
}

pub fn hex_upper_exec(d: u8) -> (c: char)
    requires
        d < 16,
    ensures
        c == hex_upper(d as int),
{
    if d < 10 {
        let b: u8 = 48u8 + d;
        let c = b as char;
        assert(c as int == d + 48);
        c
    } else {
        let b: u8 = 55u8 + d;
        let c = b as char;
        assert(c as int == d + 55);
        c
    }
}

} // verus!
