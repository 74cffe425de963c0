//! Percent-encoding of URL parameters and query-string values.
//!
//! The encoding policy keeps ASCII alphanumerics and `-`, `_`, `.`, `~`;
//! every other byte of the UTF-8 form is written as `%` followed by two
//! upper-case hexadecimal digits. Decoding turns `%XX` sequences back into
//! bytes (any other character passes through as its UTF-8 bytes) and fails
//! when the decoded bytes are not valid UTF-8.

use vstd::prelude::*;
use vstd::utf8::decode_utf8;
use vstd::utf8::encode_utf8;
use vstd::utf8::is_ascii_chars;
use vstd::utf8::is_ascii_chars_encode_utf8;
use vstd::utf8::encode_utf8_valid_utf8;
use vstd::utf8::encode_utf8_decode_utf8;
use vstd::utf8::valid_utf8;

verus! {

/// Bytes the parameter encoding leaves as they are: ASCII alphanumerics
/// and `-`, `_`, `.`, `~`.
pub open spec fn keep_byte(b: u8) -> bool {
    (48 <= b && b <= 57) || (65 <= b && b <= 90) || (97 <= b && b <= 122) || b == 45 || b == 95
        || b == 46 || b == 126
}

/// The upper-case hexadecimal digit for a value below 16, as an ASCII byte.
pub open spec fn hex_digit(v: u8) -> u8 {
    if v < 10 {
        (48 + v) as u8
    } else {
        (55 + v) as u8
    }
}

/// The encoded form of one byte: itself when kept, else `%XX`.
pub open spec fn enc_byte_raw(b: u8) -> Seq<u8> {
    if keep_byte(b) {
        seq![b]
    } else {
        seq![37u8, hex_digit(b / 16), hex_digit(b % 16)]
    }
}

/// The percent-encoded form of a byte string, as ASCII bytes.
pub open spec fn pct_encode_raw(bs: Seq<u8>) -> Seq<u8>
    decreases bs.len(),
{
    if bs.len() == 0 {
        Seq::empty()
    } else {
        pct_encode_raw(bs.drop_last()) + enc_byte_raw(bs.last())
    }
}

/// The characters of an ASCII byte string.
pub open spec fn ascii_to_chars(bs: Seq<u8>) -> Seq<char> {
    Seq::new(bs.len(), |i: int| bs[i] as char)
}

/// The percent-encoded form of a string: each byte of its UTF-8 form is
/// kept or written `%XX`.
pub open spec fn percent_encoded(s: Seq<char>) -> Seq<char> {
    ascii_to_chars(pct_encode_raw(encode_utf8(s)))
}

/// Whether a character is a hexadecimal digit (either case).
pub open spec fn is_hex_char(c: char) -> bool {
    (48 <= c as u32 && c as u32 <= 57) || (97 <= c as u32 && c as u32 <= 102) || (65 <= c as u32
        && c as u32 <= 70)
}

/// The value of a hexadecimal digit character.
pub open spec fn hex_val(c: char) -> u8 {
    if 48 <= c as u32 && c as u32 <= 57 {
        (c as u32 - 48) as u8
    } else if 97 <= c as u32 && c as u32 <= 102 {
        (c as u32 - 87) as u8
    } else {
        (c as u32 - 55) as u8
    }
}

/// The percent-decoded bytes of a string: `%` followed by two hexadecimal
/// digits yields that byte; any other character contributes its UTF-8
/// bytes unchanged.
pub open spec fn pct_decode_raw(s: Seq<char>) -> Seq<u8>
    decreases s.len(),
{
    if s.len() == 0 {
        Seq::empty()
    } else if s[0] == '%' && s.len() >= 3 && is_hex_char(s[1]) && is_hex_char(s[2]) {
        seq![(16 * hex_val(s[1]) + hex_val(s[2])) as u8] + pct_decode_raw(s.skip(3))
    } else {
        encode_utf8(seq![s[0]]) + pct_decode_raw(s.skip(1))
    }
}

/// The percent-decoding of a string: `None` when the decoded bytes are not
/// valid UTF-8.
pub open spec fn percent_decoded(s: Seq<char>) -> Option<Seq<char>> {
    if valid_utf8(pct_decode_raw(s)) {
        Some(decode_utf8(pct_decode_raw(s)))
    } else {
        None
    }
}

/// Relies on `percent_encoding::percent_encode_byte`: the unconditional
/// `%XX` form of a byte, upper-case hexadecimal, handed back as its three
/// ASCII bytes.
#[verifier::external_body]
fn pct_byte3(b: u8) -> (r: (u8, u8, u8))
    ensures
        r.0 == 37u8,
        r.1 == hex_digit(b / 16),
        r.2 == hex_digit(b % 16),
{
    let s = percent_encoding::percent_encode_byte(b).as_bytes();
    (s[0], s[1], s[2])
}

/// Relies on std's `String::from_utf8`: `Some` exactly on valid UTF-8,
/// holding its decoding.
#[verifier::external_body]
fn string_from_utf8(v: Vec<u8>) -> (r: Option<String>)
    ensures
        r matches Some(s) ==> valid_utf8(v@) && s@ == decode_utf8(v@),
        r is None ==> !valid_utf8(v@),
{
    String::from_utf8(v).ok()
}

/// Relies on `percent_encoding::percent_decode_str` followed by its
/// `decode_utf8`: `%XX` hexadecimal sequences (either case) become single
/// bytes, every other byte passes through, and the result is `None`
/// exactly when the decoded bytes are not valid UTF-8.
#[verifier::external_body]
pub fn decode_param(param: &str) -> (r: Option<String>)
    ensures
        r matches Some(s) ==> percent_decoded(param@) == Some(s@),
        r is None ==> percent_decoded(param@) is None,
{
    match percent_encoding::percent_decode_str(param).decode_utf8() {
        Ok(cow) => Some(cow.into_owned()),
        Err(_) => None,
    }
}

/// Percent-encode a URL parameter under the policy above.
pub fn encode_param(param: &str) -> (r: String)
    ensures
        r@ == percent_encoded(param@),
{
    let bytes = param.as_bytes();
    let mut out: Vec<u8> = Vec::new();
    let mut i: usize = 0;
    proof {
        assert(bytes@ == encode_utf8(param@));
    }
    while i < bytes.len()
        invariant
            0 <= i <= bytes.len(),
            bytes@ == encode_utf8(param@),
            out@ == pct_encode_raw(bytes@.take(i as int)),
        decreases bytes.len() - i,
    {
        let b = bytes[i];
        proof {
            assert(bytes@.take(i + 1 as int).drop_last() =~= bytes@.take(i as int));
            assert(bytes@.take(i + 1 as int).last() == b);
        }
        if (48 <= b && b <= 57) || (65 <= b && b <= 90) || (97 <= b && b <= 122) || b == 45
            || b == 95 || b == 46 || b == 126 {
            out.push(b);
            assert(out@ =~= pct_encode_raw(bytes@.take(i + 1 as int)));
        } else {
            let (e0, e1, e2) = pct_byte3(b);
            out.push(e0);
            out.push(e1);
            out.push(e2);
            assert(out@ =~= pct_encode_raw(bytes@.take(i + 1 as int)));
        }
        i += 1;
    }
    proof {
        assert(bytes@.take(bytes@.len() as int) =~= bytes@);
        lemma_pct_encode_raw_ascii(bytes@);
        lemma_ascii_bytes_decode(out@);
    }
    let r = string_from_utf8(out);
    match r {
        Some(s) => s,
        None => {
            proof {
                assert(false);
            }
            String::new()
        },
    }
}

/// The encoded form of one byte of a query-string value: space becomes
/// `+`, kept bytes stay, everything else is written `%XX`.
pub open spec fn query_enc_byte(b: u8) -> Seq<char> {
    if b == 32 {
        seq!['+']
    } else if keep_byte(b) {
        seq![b as char]
    } else {
        seq!['%', hex_digit(b / 16) as char, hex_digit(b % 16) as char]
    }
}

/// The query-value encoding of a byte string.
pub open spec fn query_encode_chars(bs: Seq<u8>) -> Seq<char>
    decreases bs.len(),
{
    if bs.len() == 0 {
        Seq::empty()
    } else {
        query_encode_chars(bs.drop_last()) + query_enc_byte(bs.last())
    }
}

/// The query-value encoding of a string: as the parameter encoding, with
/// space written `+`.
pub open spec fn query_encoded(s: Seq<char>) -> Seq<char> {
    query_encode_chars(encode_utf8(s))
}

/// Each `+` replaced by the three characters `%20`.
pub open spec fn plus_to_pct(s: Seq<char>) -> Seq<char>
    decreases s.len(),
{
    if s.len() == 0 {
        Seq::empty()
    } else {
        plus_to_pct(s.drop_last()) + (if s.last() == '+' {
            seq!['%', '2', '0']
        } else {
            seq![s.last()]
        })
    }
}

/// The query-value decoding of a string: a literal `+` means a space, and
/// the rest is percent-decoded; `None` when the decoded bytes are not
/// valid UTF-8.
pub open spec fn query_decoded(s: Seq<char>) -> Option<Seq<char>> {
    percent_decoded(plus_to_pct(s))
}

/// Replace each `+` with `%20`.
fn plus_to_pct_str(s: &str) -> (r: String)
    ensures
        r@ == plus_to_pct(s@),
{
    let n = s.unicode_len();
    let mut out = String::new();
    let mut i: usize = 0;
    while i < n
        invariant
            0 <= i <= n,
            n == s@.len(),
            out@ == plus_to_pct(s@.take(i as int)),
        decreases n - i,
    {
        let c = s.get_char(i);
        proof {
            assert(s@.take(i + 1 as int).drop_last() =~= s@.take(i as int));
            assert(s@.take(i + 1 as int).last() == c);
        }
        if c == '+' {
            out.append("%20");
            proof {
                reveal_strlit("%20");
                assert("%20"@ =~= seq!['%', '2', '0']);
                assert(out@ =~= plus_to_pct(s@.take(i + 1 as int)));
            }
        } else {
            let piece = s.substring_char(i, i + 1);
            proof {
                assert(piece@ =~= seq![c]);
            }
            out.append(piece);
            proof {
                assert(out@ =~= plus_to_pct(s@.take(i + 1 as int)));
            }
        }
        i += 1;
    }
    proof {
        assert(s@.take(n as int) =~= s@);
    }
    out
}

/// Decode a query-string key or value: `+` means a space, `%XX` a byte.
pub fn decode_query_value(s: &str) -> (r: Option<String>)
    ensures
        r matches Some(t) ==> query_decoded(s@) == Some(t@),
        r is None ==> query_decoded(s@) is None,
{
    let replaced = plus_to_pct_str(s);
    decode_param(replaced.as_str())
}

/// Encode a query-string key or value: space becomes `+`, kept bytes
/// stay, everything else is written `%XX`.
pub fn encode_query_value(s: &str) -> (r: String)
    ensures
        r@ == query_encoded(s@),
{
    let bytes = s.as_bytes();
    let mut out: Vec<u8> = Vec::new();
    let mut i: usize = 0;
    proof {
        assert(bytes@ == encode_utf8(s@));
    }
    while i < bytes.len()
        invariant
            0 <= i <= bytes.len(),
            bytes@ == encode_utf8(s@),
            forall|j: int| 0 <= j < out@.len() ==> out@[j] < 128,
            ascii_to_chars(out@) =~= query_encode_chars(bytes@.take(i as int)),
        decreases bytes.len() - i,
    {
        let b = bytes[i];
        proof {
            assert(bytes@.take(i + 1 as int).drop_last() =~= bytes@.take(i as int));
            assert(bytes@.take(i + 1 as int).last() == b);
        }
        if b == 32 {
            out.push(43);
            proof {
                assert((43u8) as char == '+');
                assert(ascii_to_chars(out@) =~= query_encode_chars(bytes@.take(i + 1 as int)));
            }
        } else if (48 <= b && b <= 57) || (65 <= b && b <= 90) || (97 <= b && b <= 122) || b == 45
            || b == 95 || b == 46 || b == 126 {
            out.push(b);
            proof {
                assert(ascii_to_chars(out@) =~= query_encode_chars(bytes@.take(i + 1 as int)));
            }
        } else {
            let (e0, e1, e2) = pct_byte3(b);
            out.push(e0);
            out.push(e1);
            out.push(e2);
            proof {
                assert((37u8) as char == '%');
                assert(ascii_to_chars(out@) =~= query_encode_chars(bytes@.take(i + 1 as int)));
            }
        }
        i += 1;
    }
    proof {
        assert(bytes@.take(bytes@.len() as int) =~= bytes@);
        lemma_ascii_bytes_decode(out@);
    }
    let r = string_from_utf8(out);
    match r {
        Some(t) => t,
        None => {
            proof {
                assert(false);
            }
            String::new()
        },
    }
}

/// `plus_to_pct` distributes over concatenation.
proof fn lemma_plus_to_pct_concat(a: Seq<char>, b: Seq<char>)
    ensures
        plus_to_pct(a + b) == plus_to_pct(a) + plus_to_pct(b),
    decreases b.len(),
{
    if b.len() == 0 {
        assert(a + b =~= a);
        assert(plus_to_pct(a) + plus_to_pct(b) =~= plus_to_pct(a));
    } else {
        lemma_plus_to_pct_concat(a, b.drop_last());
        assert((a + b).drop_last() =~= a + b.drop_last());
        assert((a + b).last() == b.last());
        assert(plus_to_pct(a + b) =~= plus_to_pct(a) + plus_to_pct(b));
    }
}

/// Undoing the `+` convention on an encoded query value gives the plain
/// percent-encoded form.
proof fn lemma_query_encoded_plus(bs: Seq<u8>)
    ensures
        plus_to_pct(query_encode_chars(bs)) == ascii_to_chars(pct_encode_raw(bs)),
    decreases bs.len(),
{
    if bs.len() == 0 {
        assert(plus_to_pct(query_encode_chars(bs)) =~= ascii_to_chars(pct_encode_raw(bs)));
    } else {
        lemma_query_encoded_plus(bs.drop_last());
        let b = bs.last();
        lemma_plus_to_pct_concat(query_encode_chars(bs.drop_last()), query_enc_byte(b));
        lemma_query_enc_byte(b);
        assert(ascii_to_chars(pct_encode_raw(bs)) =~= ascii_to_chars(pct_encode_raw(bs.drop_last()))
            + ascii_to_chars(enc_byte_raw(b))) by {
            lemma_pct_encode_raw_ascii(bs);
        }
        assert(plus_to_pct(query_encode_chars(bs)) =~= ascii_to_chars(pct_encode_raw(bs)));
    }
}

/// Undoing the `+` convention on one encoded byte gives its plain
/// percent-encoded form.
proof fn lemma_query_enc_byte(b: u8)
    ensures
        plus_to_pct(query_enc_byte(b)) == ascii_to_chars(enc_byte_raw(b)),
{
    reveal_with_fuel(plus_to_pct, 4);
    let e = query_enc_byte(b);
    let raw = enc_byte_raw(b);
    if b == 32 {
        assert(e.len() == 1 && e.last() == '+');
        assert(e.drop_last() =~= Seq::<char>::empty());
        assert(plus_to_pct(e) =~= seq!['%', '2', '0']);
        assert(!keep_byte(32u8));
        assert(b / 16 == 2 && b % 16 == 0);
        assert(hex_digit(2u8) == 50 && hex_digit(0u8) == 48);
        assert(raw =~= seq![37u8, 50u8, 48u8]);
        assert((37u8 as char) as u32 == 37 && '%' as u32 == 37);
        assert((50u8 as char) as u32 == 50 && '2' as u32 == 50);
        assert((48u8 as char) as u32 == 48 && '0' as u32 == 48);
        assert(plus_to_pct(e) =~= ascii_to_chars(raw));
    } else if keep_byte(b) {
        assert(e.len() == 1 && e.last() == b as char);
        assert(e.drop_last() =~= Seq::<char>::empty());
        assert((b as char) as u32 == b as u32);
        assert('+' as u32 == 43 && b != 43);
        assert(e.last() != '+');
        assert(plus_to_pct(e) =~= seq![b as char]);
        assert(raw =~= seq![b]);
        assert(plus_to_pct(e) =~= ascii_to_chars(raw));
    } else {
        let h1 = hex_digit(b / 16);
        let h2 = hex_digit(b % 16);
        assert(e =~= seq!['%', h1 as char, h2 as char]);
        assert(h1 != 43 && h2 != 43);
        assert((h1 as char) as u32 == h1 as u32 && (h2 as char) as u32 == h2 as u32);
        assert('+' as u32 == 43 && '%' as u32 == 37);
        assert(e.last() == h2 as char && e.last() != '+');
        assert(e.drop_last() =~= seq!['%', h1 as char]);
        assert(e.drop_last().last() == h1 as char && e.drop_last().last() != '+');
        assert(e.drop_last().drop_last() =~= seq!['%']);
        assert(seq!['%'].last() == '%' && '%' != '+');
        assert(seq!['%'].drop_last() =~= Seq::<char>::empty());
        assert(plus_to_pct(seq!['%']) =~= seq!['%']);
        assert(plus_to_pct(e.drop_last()) =~= seq!['%', h1 as char]);
        assert(plus_to_pct(e) =~= seq!['%', h1 as char, h2 as char]);
        assert(raw =~= seq![37u8, h1, h2]);
        assert((37u8 as char) as u32 == 37);
        assert(plus_to_pct(e) =~= ascii_to_chars(raw));
    }
}

/// Decoding an encoded query value gives the value back.
pub proof fn lemma_query_round_trip(s: Seq<char>)
    ensures
        query_decoded(query_encoded(s)) == Some(s),
{
    lemma_query_encoded_plus(encode_utf8(s));
    lemma_percent_round_trip(s);
}

/// Every character of an encoded query value is a kept byte, `%` or `+`;
/// in particular none is `/`, `?`, `&`, `=` or a space.
pub proof fn lemma_query_encoded_chars(s: Seq<char>)
    ensures
        forall|i: int|
            0 <= i < query_encoded(s).len() ==> (keep_byte(#[trigger] query_encoded(s)[i] as u8)
                || query_encoded(s)[i] == '%' || query_encoded(s)[i] == '+'),
{
    lemma_query_chars_raw(encode_utf8(s));
}

/// Every character of a query-value encoding is a kept byte, `%` or `+`.
proof fn lemma_query_chars_raw(bs: Seq<u8>)
    ensures
        forall|i: int|
            0 <= i < query_encode_chars(bs).len() ==> (keep_byte(
                #[trigger] query_encode_chars(bs)[i] as u8,
            ) || query_encode_chars(bs)[i] == '%' || query_encode_chars(bs)[i] == '+'),
    decreases bs.len(),
{
    if bs.len() > 0 {
        lemma_query_chars_raw(bs.drop_last());
        let pre = query_encode_chars(bs.drop_last());
        let b = bs.last();
        let e = query_enc_byte(b);
        assert(forall|i: int|
            0 <= i < e.len() ==> (keep_byte(#[trigger] e[i] as u8) || e[i] == '%' || e[i] == '+'))
            by {
            if b != 32 && keep_byte(b) {
                assert(e[0] as u32 == b as u32);
            } else if b != 32 {
                assert(e[1] as u32 == hex_digit(b / 16) as u32);
                assert(e[2] as u32 == hex_digit(b % 16) as u32);
                assert(keep_byte(hex_digit(b / 16)) && keep_byte(hex_digit(b % 16)));
            }
        }
        assert forall|i: int| 0 <= i < query_encode_chars(bs).len() implies (keep_byte(
            #[trigger] query_encode_chars(bs)[i] as u8,
        ) || query_encode_chars(bs)[i] == '%' || query_encode_chars(bs)[i] == '+') by {
            if i < pre.len() {
                assert(query_encode_chars(bs)[i] == pre[i]);
            } else {
                assert(query_encode_chars(bs)[i] == e[i - pre.len()]);
            }
        }
    }
}

/// An encoded parameter is empty only for the empty parameter.
pub proof fn lemma_percent_encoded_nonempty(s: Seq<char>)
    requires
        s.len() > 0,
    ensures
        percent_encoded(s).len() > 0,
{
    assert(encode_utf8(s).len() > 0) by {
        vstd::utf8::char_is_scalar(s[0]);
        assert(vstd::utf8::encode_scalar(s[0] as u32).len() > 0);
    }
    let bs = encode_utf8(s);
    assert(pct_encode_raw(bs).len() > 0) by {
        assert(enc_byte_raw(bs.last()).len() >= 1);
    }
}

/// Front unfolding of `pct_encode_raw`.
proof fn lemma_pct_encode_raw_front(bs: Seq<u8>)
    requires
        bs.len() > 0,
    ensures
        pct_encode_raw(bs) == enc_byte_raw(bs[0]) + pct_encode_raw(bs.drop_first()),
    decreases bs.len(),
{
    if bs.len() == 1 {
        assert(bs.drop_last() =~= Seq::<u8>::empty());
        assert(bs.drop_first() =~= Seq::<u8>::empty());
        assert(bs.last() == bs[0]);
        assert(pct_encode_raw(bs) =~= enc_byte_raw(bs[0]) + pct_encode_raw(bs.drop_first()));
    } else {
        lemma_pct_encode_raw_front(bs.drop_last());
        assert(bs.drop_last()[0] == bs[0]);
        assert(bs.drop_last().drop_first() =~= bs.drop_first().drop_last());
        assert(bs.drop_first().last() == bs.last());
        assert(pct_encode_raw(bs) == pct_encode_raw(bs.drop_last()) + enc_byte_raw(bs.last()));
        assert(pct_encode_raw(bs.drop_first()) == pct_encode_raw(bs.drop_first().drop_last())
            + enc_byte_raw(bs.last()));
        assert(pct_encode_raw(bs) =~= enc_byte_raw(bs[0]) + pct_encode_raw(bs.drop_first()));
    }
}

/// Decoding the percent-encoded form of a byte string gives the bytes back.
proof fn lemma_pct_raw_round_trip(bs: Seq<u8>)
    ensures
        pct_decode_raw(ascii_to_chars(pct_encode_raw(bs))) == bs,
    decreases bs.len(),
{
    if bs.len() == 0 {
        assert(pct_decode_raw(ascii_to_chars(pct_encode_raw(bs))) =~= bs);
    } else {
        let b0 = bs[0];
        lemma_pct_encode_raw_front(bs);
        lemma_pct_raw_round_trip(bs.drop_first());
        let rest_chars = ascii_to_chars(pct_encode_raw(bs.drop_first()));
        let s = ascii_to_chars(pct_encode_raw(bs));
        if keep_byte(b0) {
            assert(s =~= seq![b0 as char] + rest_chars);
            assert(s[0] == b0 as char);
            assert(s[0] != '%') by {
                assert(b0 != 37);
                assert(s[0] as u32 == b0 as u32);
            }
            assert(!(s[0] == '%' && s.len() >= 3 && is_hex_char(s[1]) && is_hex_char(s[2])));
            assert(encode_utf8(seq![s[0]]) =~= seq![b0]) by {
                let one = seq![b0 as char];
                assert(is_ascii_chars(one)) by {
                    assert(one[0] as u32 == b0 as u32);
                    assert(b0 < 128);
                }
                is_ascii_chars_encode_utf8(one);
                assert(encode_utf8(one).len() == 1);
                assert(encode_utf8(one)[0] == one[0] as u8 == b0);
            }
            assert(s.skip(1) =~= rest_chars);
            assert(pct_decode_raw(s) =~= bs);
        } else {
            let h1 = hex_digit(b0 / 16);
            let h2 = hex_digit(b0 % 16);
            assert(s =~= seq!['%', h1 as char, h2 as char] + rest_chars) by {
                assert(enc_byte_raw(b0) == seq![37u8, h1, h2]);
                assert((37u8) as char == '%');
            }
            assert(s[0] == '%');
            assert(s.len() >= 3);
            assert(is_hex_char(s[1]) && hex_val(s[1]) == b0 / 16) by {
                assert(s[1] as u32 == h1 as u32);
            }
            assert(is_hex_char(s[2]) && hex_val(s[2]) == b0 % 16) by {
                assert(s[2] as u32 == h2 as u32);
            }
            assert((16 * hex_val(s[1]) + hex_val(s[2])) as u8 == b0);
            assert(s.skip(3) =~= rest_chars);
            assert(pct_decode_raw(s) =~= bs);
        }
    }
}

/// Decoding an encoded parameter gives the parameter back: the two
/// policies above are mutually inverse.
pub proof fn lemma_percent_round_trip(s: Seq<char>)
    ensures
        percent_decoded(percent_encoded(s)) == Some(s),
{
    lemma_pct_raw_round_trip(encode_utf8(s));
    encode_utf8_valid_utf8(s);
    encode_utf8_decode_utf8(s);
}

/// Every character of an encoded parameter is a kept byte or `%`; in
/// particular none is `/`, `?`, `&`, `=`, `+` or a space.
pub proof fn lemma_percent_encoded_chars(s: Seq<char>)
    ensures
        forall|i: int|
            0 <= i < percent_encoded(s).len() ==> (keep_byte(
                #[trigger] percent_encoded(s)[i] as u8,
            ) || percent_encoded(s)[i] == '%'),
{
    lemma_pct_raw_chars(encode_utf8(s));
    lemma_pct_encode_raw_ascii(encode_utf8(s));
    let raw = pct_encode_raw(encode_utf8(s));
    assert forall|i: int|
        0 <= i < percent_encoded(s).len() implies (keep_byte(
        #[trigger] percent_encoded(s)[i] as u8,
    ) || percent_encoded(s)[i] == '%') by {
        assert(percent_encoded(s)[i] == raw[i] as char);
        assert(raw[i] < 128);
        assert((raw[i] as char) as u32 == raw[i] as u32);
        if raw[i] == 37 {
            assert((raw[i] as char) == '%');
        } else {
            assert(keep_byte(raw[i]));
            assert(percent_encoded(s)[i] as u8 == raw[i]);
        }
    }
}

/// Every byte of a percent-encoded byte string is a kept byte or `%`.
proof fn lemma_pct_raw_chars(bs: Seq<u8>)
    ensures
        forall|i: int|
            0 <= i < pct_encode_raw(bs).len() ==> (keep_byte(#[trigger] pct_encode_raw(bs)[i])
                || pct_encode_raw(bs)[i] == 37),
    decreases bs.len(),
{
    if bs.len() > 0 {
        lemma_pct_raw_chars(bs.drop_last());
        let pre = pct_encode_raw(bs.drop_last());
        let e = enc_byte_raw(bs.last());
        assert(forall|i: int| 0 <= i < e.len() ==> (keep_byte(#[trigger] e[i]) || e[i] == 37)) by {
            assert(hex_digit(bs.last() / 16) != 47);
            assert(hex_digit(bs.last() % 16) != 47);
        }
        assert forall|i: int| 0 <= i < pct_encode_raw(bs).len() implies (keep_byte(
            #[trigger] pct_encode_raw(bs)[i],
        ) || pct_encode_raw(bs)[i] == 37) by {
            if i < pre.len() {
                assert(pct_encode_raw(bs)[i] == pre[i]);
            } else {
                assert(pct_encode_raw(bs)[i] == e[i - pre.len()]);
            }
        }
    }
}

/// Every byte of a percent-encoded byte string is ASCII.
proof fn lemma_pct_encode_raw_ascii(bs: Seq<u8>)
    ensures
        forall|i: int| 0 <= i < pct_encode_raw(bs).len() ==> pct_encode_raw(bs)[i] < 128,
    decreases bs.len(),
{
    if bs.len() > 0 {
        lemma_pct_encode_raw_ascii(bs.drop_last());
        let pre = pct_encode_raw(bs.drop_last());
        let e = enc_byte_raw(bs.last());
        assert(forall|i: int| 0 <= i < e.len() ==> e[i] < 128);
        assert forall|i: int| 0 <= i < pct_encode_raw(bs).len() implies pct_encode_raw(
            bs,
        )[i] < 128 by {
            if i < pre.len() {
                assert(pct_encode_raw(bs)[i] == pre[i]);
            } else {
                assert(pct_encode_raw(bs)[i] == e[i - pre.len()]);
            }
        }
    }
}

/// ASCII bytes are valid UTF-8 and decode to their own characters.
proof fn lemma_ascii_bytes_decode(bs: Seq<u8>)
    requires
        forall|i: int| 0 <= i < bs.len() ==> bs[i] < 128,
    ensures
        valid_utf8(bs),
        decode_utf8(bs) == ascii_to_chars(bs),
{
    let cs = ascii_to_chars(bs);
    assert forall|i: int| 0 <= i < cs.len() implies '\0' <= #[trigger] cs[i] <= '\u{7f}' by {
        assert(cs[i] == bs[i] as char);
        assert(cs[i] as u32 == bs[i] as u32);
    }
    assert(is_ascii_chars(cs));
    is_ascii_chars_encode_utf8(cs);
    assert forall|i: int| 0 <= i < cs.len() implies encode_utf8(cs)[i] == bs[i] by {
        assert(cs[i] as u8 == encode_utf8(cs)[i]);
    }
    assert(encode_utf8(cs) =~= bs);
    encode_utf8_valid_utf8(cs);
    encode_utf8_decode_utf8(cs);
}

} // verus!
