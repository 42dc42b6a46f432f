//! Byte encodings: percent-encoding of URL components, Base64, and the GBK
//! character set that the site speaks.
use vstd::prelude::*;
use crate::number::{hex_upper, hex_upper_exec};
use crate::text::{from_chars, push_all};

verus! {

// ---------------------------------------------------------------------------
// Percent-encoding
// ---------------------------------------------------------------------------

/// A byte that stays as it is in a URL component: an ASCII letter or digit,
/// or one of `-`, `_`, `.`, `~`.
pub open spec fn is_unreserved(b: u8) -> bool {
    ||| (48 <= b && b <= 57)
    ||| (65 <= b && b <= 90)
    ||| (97 <= b && b <= 122)
    ||| b == 45
    ||| b == 95
    ||| b == 46
    ||| b == 126
}

/// One byte of a URL component: itself when unreserved, else `%` and two
/// upper-case hexadecimal digits.
pub open spec fn encode_byte(b: u8) -> Seq<char> {
    if is_unreserved(b) {
        seq![b as char]
    } else {
        seq!['%', hex_upper(b as int / 16), hex_upper(b as int % 16)]
    }
}

/// The percent-encoding of a byte string.
pub open spec fn percent_encode(bs: Seq<u8>) -> Seq<char>
    decreases bs.len(),
{
    if bs.len() == 0 {
        seq![]
    } else {
        percent_encode(bs.drop_last()) + encode_byte(bs.last())
    }
}

/// A character that may stand in an encoded URL component.
pub open spec fn is_component_char(c: char) -> bool {
    ||| ('0' <= c && c <= '9')
    ||| ('A' <= c && c <= 'Z')
    ||| ('a' <= c && c <= 'z')
    ||| c == '-'
    ||| c == '_'
    ||| c == '.'
    ||| c == '~'
    ||| c == '%'
}

/// The bytes of an ASCII text.
pub open spec fn ascii_bytes(s: Seq<char>) -> Seq<u8> {
    s.map_values(|c: char| (c as int) as u8)
}

/// All characters are ASCII.
pub open spec fn is_ascii_text(s: Seq<char>) -> bool {
    forall|i: int| 0 <= i < s.len() ==> 0 <= (#[trigger] s[i] as int) < 128
}

/// Percent-encodes a byte string for use in a URL.
pub fn encode_component(input: &[u8]) -> (out: String)
    ensures
        out@ == percent_encode(input@),
{
    let n = input.len();
    let mut result: Vec<char> = Vec::new();
    let mut i: usize = 0;
    assert(input@.take(0) =~= Seq::<u8>::empty());
    while i < n
        invariant
            n == input@.len(),
            i <= n,
            result@ == percent_encode(input@.take(i as int)),
        decreases n - i,
    {
        let b = input[i];
        assert(input@.take(i + 1).drop_last() =~= input@.take(i as int));
        assert(input@.take(i + 1).last() == b);
        if (48 <= b && b <= 57) || (65 <= b && b <= 90) || (97 <= b && b <= 122) || b == 45 || b
            == 95 || b == 46 || b == 126 {
            result.push(b as char);
        } else {
            result.push('%');
            result.push(hex_upper_exec(b / 16));
            result.push(hex_upper_exec(b % 16));
        }
        assert(result@ =~= percent_encode(input@.take(i as int)) + encode_byte(b));
        i += 1;
    }
    assert(input@.take(n as int) =~= input@);
    from_chars(result.as_slice())
}

/// The bytes of an ASCII text.
pub fn ascii_bytes_exec(v: &[char]) -> (out: Vec<u8>)
    requires
        is_ascii_text(v@),
    ensures
        out@ == ascii_bytes(v@),
{
    let n = v.len();
    let mut out: Vec<u8> = Vec::new();
    let mut i: usize = 0;
    while i < n
        invariant
            n == v@.len(),
            i <= n,
            out@ == ascii_bytes(v@.take(i as int)),
        decreases n - i,
    {
        out.push(v[i] as u8);
        i += 1;
        assert(out@ =~= ascii_bytes(v@.take(i as int)));
    }
    assert(v@.take(n as int) =~= v@);
    out
}

/// Percent-encoded text uses only unreserved characters and `%`.
pub proof fn lemma_percent_encode_chars(bs: Seq<u8>)
    ensures
        forall|i: int|
            0 <= i < percent_encode(bs).len() ==> is_component_char(#[trigger] percent_encode(bs)[i]),
    decreases bs.len(),
{
    if bs.len() > 0 {
        lemma_percent_encode_chars(bs.drop_last());
        let b = bs.last();
        let prev = percent_encode(bs.drop_last());
        let e = encode_byte(b);
        assert forall|i: int| 0 <= i < e.len() implies is_component_char(#[trigger] e[i]) by {
            if is_unreserved(b) {
                assert(e[i] as u32 == b as u32);
            } else {
                let hi = b as int / 16;
                let lo = b as int % 16;
                assert(0 <= hi < 16 && 0 <= lo < 16);
            }
        }
        assert forall|i: int|
            0 <= i < percent_encode(bs).len() implies is_component_char(
            #[trigger] percent_encode(bs)[i],
        ) by {
            if i < prev.len() {
                assert(percent_encode(bs)[i] == prev[i]);
            } else {
                assert(percent_encode(bs)[i] == e[i - prev.len()]);
            }
        }
    }
}

/// Bytes that need no escaping are left as they are: a text made of
/// unreserved ASCII characters encodes to itself.
pub proof fn lemma_percent_encode_unreserved(s: Seq<char>)
    requires
        forall|i: int|
            0 <= i < s.len() ==> 0 <= (#[trigger] s[i] as int) < 128 && is_unreserved((s[i] as int) as u8),
    ensures
        percent_encode(ascii_bytes(s)) == s,
    decreases s.len(),
{
    if s.len() > 0 {
        let t = s.drop_last();
        assert(ascii_bytes(s).drop_last() =~= ascii_bytes(t));
        lemma_percent_encode_unreserved(t);
        let c = s.last();
        let x = c as int;
        assert(0 <= (s[s.len() - 1] as int) < 128);
        assert(0 <= x < 128);
        assert((x as u8) as int == x);
        assert(((x as u8) as char) as int == x);
        assert((x as u8) as char == c);
        assert(percent_encode(ascii_bytes(s)) =~= t + seq![c]);
        assert(t + seq![c] =~= s);
    } else {
        assert(percent_encode(ascii_bytes(s)) =~= s);
    }
}

// ---------------------------------------------------------------------------
// Base64
// ---------------------------------------------------------------------------

/// The Base64 alphabet (`A`–`Z`, `a`–`z`, `0`–`9`, `+`, `/`).
pub open spec fn b64_char(i: int) -> char {
    if i < 26 {
        (i + 'A' as int) as char
    } else if i < 52 {
        (i - 26 + 'a' as int) as char
    } else if i < 62 {
        (i - 52 + '0' as int) as char
    } else if i == 62 {
        '+'
    } else {
        '/'
    }
}

/// The four characters of a group of up to three bytes, padded with `=`.
pub open spec fn b64_group(bs: Seq<u8>) -> Seq<char> {
    let b0 = bs[0] as int;
    let b1 = if bs.len() > 1 {
        bs[1] as int
    } else {
        0
    };
    let b2 = if bs.len() > 2 {
        bs[2] as int
    } else {
        0
    };
    seq![
        b64_char(b0 / 4),
        b64_char((b0 % 4) * 16 + b1 / 16),
        if bs.len() > 1 {
            b64_char((b1 % 16) * 4 + b2 / 64)
        } else {
            '='
        },
        if bs.len() > 2 {
            b64_char(b2 % 64)
        } else {
            '='
        },
    ]
}

/// Standard padded Base64.
pub open spec fn base64(bs: Seq<u8>) -> Seq<char>
    decreases bs.len(),
{
    if bs.len() == 0 {
        seq![]
    } else if bs.len() <= 3 {
        b64_group(bs)
    } else {
        b64_group(bs.take(3)) + base64(bs.skip(3))
    }
}

pub fn b64_char_exec(i: u8) -> (c: char)
    requires
        i < 64,
    ensures
        c == b64_char(i as int),
{
    if i < 26 {
        let b: u8 = 65u8 + i;
        let c = b as char;
        assert(c as int == i + 65);
        c
    } else if i < 52 {
        let b: u8 = 71u8 + i;
        let c = b as char;
        assert(c as int == i + 71);
        c
    } else if i < 62 {
        let b: u8 = i - 4;
        let c = b as char;
        assert(c as int == i - 4);
        c
    } else if i == 62 {
        '+'
    } else {
        '/'
    }
}

/// Base64 of a byte string, with `=` padding.
pub fn base64_encode(input: &[u8]) -> (out: String)
    ensures
        out@ == base64(input@),
{
    let n = input.len();
    let mut result: Vec<char> = Vec::new();
    let mut index: usize = 0;
    assert(input@.skip(0) =~= input@);
    while index < n
        invariant
            n == input@.len(),
            index <= n,
            result@ + base64(input@.skip(index as int)) == base64(input@),
        decreases n - index,
    {
        let ghost rest = input@.skip(index as int);
        let b0 = input[index];
        let b1: u8 = if n - index > 1 {
            input[index + 1]
        } else {
            0
        };
        let b2: u8 = if n - index > 2 {
            input[index + 2]
        } else {
            0
        };
        let mut group: Vec<char> = Vec::new();
        group.push(b64_char_exec(b0 / 4));
        group.push(b64_char_exec((b0 % 4) * 16 + b1 / 16));
        if n - index > 1 {
            group.push(b64_char_exec((b1 % 16) * 4 + b2 / 64));
        } else {
            group.push('=');
        }
        if n - index > 2 {
            group.push(b64_char_exec(b2 % 64));
        } else {
            group.push('=');
        }
        proof {
            let g = if rest.len() <= 3 {
                rest
            } else {
                rest.take(3)
            };
            assert(g[0] == b0);
            if rest.len() > 1 {
                assert(g[1] == b1);
            }
            if rest.len() > 2 {
                assert(g[2] == b2);
            }
            assert(group@ =~= b64_group(g));
            if rest.len() > 3 {
                assert(rest.skip(3) =~= input@.skip(index + 3));
            }
        }
        push_all(&mut result, group.as_slice());
        if n - index <= 3 {
            proof {
                assert(input@.skip(n as int) =~= Seq::<u8>::empty());
            }
            index = n;
        } else {
            index += 3;
        }
    }
    assert(result@ + Seq::<char>::empty() =~= result@);
    from_chars(result.as_slice())
}

/// Base64 turns every three bytes, and a last partial group, into four
/// characters.
pub proof fn lemma_base64_len(bs: Seq<u8>)
    ensures
        base64(bs).len() == 4 * ((bs.len() + 2) / 3),
    decreases bs.len(),
{
    if bs.len() > 3 {
        lemma_base64_len(bs.skip(3));
    }
}

// ---------------------------------------------------------------------------
// GBK
// ---------------------------------------------------------------------------

/// The bytes that `encoding_rs::GBK.encode` gives for a text.
pub uninterp spec fn gbk_encoding(text: Seq<char>) -> Seq<u8>;

/// The text that `encoding_rs::GBK.decode` gives for bytes.
pub uninterp spec fn gbk_decoding(bytes: Seq<u8>) -> Seq<char>;

/// Calls `encoding_rs::GBK.encode` and keeps its bytes. The result is named
/// `gbk_encoding`; the crate's source returns an ASCII-only input unchanged,
/// which is stated. Which bytes stand for other characters, and the numeric
/// references written for characters that GBK cannot represent, are left
/// unsaid. The crate panics when its buffer size overflows `usize`, which the
/// length bound rules out.
#[verifier::external_body]
pub(crate) fn gbk_encode(input: &str) -> (out: Vec<u8>)
    requires
        input@.len() <= usize::MAX / 16,
    ensures
        out@ == gbk_encoding(input@),
        is_ascii_text(input@) ==> out@ == ascii_bytes(input@),
{
    let (encoded, _, _) = encoding_rs::GBK.encode(input);
    encoded.into_owned()
}

/// Calls `encoding_rs::GBK.decode` and keeps the text. The result is named
/// `gbk_decoding`; the crate's source returns ASCII-only bytes as the same
/// characters, which is stated. How other byte sequences decode, and which
/// malformed ones become U+FFFD, is left unsaid. The crate panics when its
/// buffer size overflows `usize`, which the length bound rules out.
#[verifier::external_body]
pub(crate) fn gbk_decode(data: &[u8]) -> (out: String)
    requires
        data@.len() <= usize::MAX / 16,
    ensures
        out@ == gbk_decoding(data@),
        (forall|i: int| 0 <= i < data@.len() ==> #[trigger] data@[i] < 128) ==> out@
            == data@.map_values(|b: u8| b as char),
{
    let (decoded, _, _) = encoding_rs::GBK.decode(data);
    decoded.into_owned()
}

/// Percent-encodes the GBK bytes of a text, as the site's query strings
/// expect.
pub fn encode_gbk_component(input: &str) -> (out: String)
    requires
        input@.len() <= usize::MAX / 16,
    ensures
        out@ == percent_encode(gbk_encoding(input@)),
{
    let encoded = gbk_encode(input);
    encode_component(encoded.as_slice())
}

} // verus!
