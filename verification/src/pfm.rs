//! PFM image codec.
//!
//! The on-disk form of an [`HdrImage`](crate::hdrimage::HdrImage) is a
//! small ASCII header followed by a binary pixel payload:
//!
//! ```text
//! PF              # magic, '\n' terminated
//! width height    # decimal, space separated, '\n' terminated
//! ±1.0            # a float literal; its sign is the payload byte order
//! pixels          # 12 bytes per pixel: three 32-bit channels, RGB
//! ```
//!
//! Pixel rows are stored bottom to top. Everything here is exact byte
//! arithmetic: reading and writing are verified against one spec-level
//! grammar, and writing then reading is proved to give the image back
//! unchanged.

use vstd::prelude::*;
use vstd::string::StringSliceAdditionalSpecFns;
use vstd::utf8::valid_utf8;

use crate::color::Color;
use crate::error::HdrImageErr;
use crate::hdrimage::{lemma_offset_in_range, HdrImage};
use crate::misc::ByteOrder;

verus! {

// ---------------------------------------------------------------------
// Decimal integers: the width and height fields of the header.
// ---------------------------------------------------------------------

/// ASCII decimal digit.
pub open spec fn is_dec_digit(b: u8) -> bool {
    0x30 <= b <= 0x39
}

/// Value of a most-significant-first digit string (digits only).
pub open spec fn dec_value(s: Seq<u8>) -> int
    decreases s.len(),
{
    if s.len() == 0 {
        0
    } else {
        dec_value(s.drop_last()) * 10 + (s.last() - 0x30)
    }
}

/// Every byte is an ASCII decimal digit, and there is at least one.
pub open spec fn all_dec_digits(s: Seq<u8>) -> bool {
    s.len() > 0 && forall|i: int| 0 <= i < s.len() ==> is_dec_digit(s[i])
}

/// The digit part of an unsigned decimal literal: a single leading `+`
/// is allowed and ignored.
pub open spec fn u32_literal_body(s: Seq<u8>) -> Seq<u8> {
    if s.len() > 0 && s[0] == 0x2b {
        s.drop_first()
    } else {
        s
    }
}

/// Whether the byte string is a decimal literal of a 32-bit unsigned
/// integer: an optional `+`, then digits only, with a value in range.
pub open spec fn parses_as_u32(s: Seq<u8>) -> bool {
    all_dec_digits(u32_literal_body(s)) && dec_value(u32_literal_body(s)) <= u32::MAX
}

/// The value such a literal denotes.
pub open spec fn spec_parse_u32(s: Seq<u8>) -> u32 {
    dec_value(u32_literal_body(s)) as u32
}

/// The canonical decimal form of a number: no sign, no leading zeros
/// (except for the single digit of zero itself).
pub open spec fn dec_bytes(n: nat) -> Seq<u8>
    decreases n,
{
    if n < 10 {
        seq![(0x30 + n) as u8]
    } else {
        dec_bytes(n / 10) + seq![(0x30 + n % 10) as u8]
    }
}

/// Appending one digit multiplies the value by ten.
proof fn lemma_dec_value_extend(s: Seq<u8>, i: int)
    requires
        0 <= i < s.len(),
    ensures
        dec_value(s.subrange(0, i + 1)) == dec_value(s.subrange(0, i)) * 10 + (s[i] - 0x30),
{
    let t = s.subrange(0, i + 1);
    assert(t.drop_last() =~= s.subrange(0, i));
    assert(t.last() == s[i]);
}

/// A digit string has a non-negative value.
proof fn lemma_dec_value_nonneg(s: Seq<u8>)
    requires
        forall|i: int| 0 <= i < s.len() ==> is_dec_digit(s[i]),
    ensures
        dec_value(s) >= 0,
    decreases s.len(),
{
    if s.len() > 0 {
        lemma_dec_value_nonneg(s.drop_last());
    }
}

/// Extending a digit string never shrinks its value.
proof fn lemma_dec_value_monotone(s: Seq<u8>, i: int)
    requires
        forall|j: int| 0 <= j < s.len() ==> is_dec_digit(s[j]),
        0 <= i <= s.len(),
    ensures
        dec_value(s) >= dec_value(s.subrange(0, i)),
    decreases s.len() - i,
{
    if i == s.len() {
        assert(s.subrange(0, i) =~= s);
    } else {
        lemma_dec_value_extend(s, i);
        let p = s.subrange(0, i);
        assert(forall|j: int| 0 <= j < p.len() ==> is_dec_digit(p[j]));
        lemma_dec_value_nonneg(p);
        lemma_dec_value_monotone(s, i + 1);
    }
}

/// Parse an unsigned 32-bit decimal literal: an optional `+`, then at
/// least one digit, no other byte, value at most `u32::MAX`.
fn parse_u32_bytes(b: &[u8]) -> (r: Option<u32>)
    ensures
        parses_as_u32(b@) ==> r == Some(spec_parse_u32(b@)),
        !parses_as_u32(b@) ==> r is None,
{
    let len = b.len();
    let mut i: usize = 0;
    if len > 0 && b[0] == 0x2b {
        i = 1;
    }
    let ghost start = i as int;
    proof {
        assert(u32_literal_body(b@) =~= b@.subrange(start, len as int));
        assert(u32_literal_body(b@) == b@.subrange(start, len as int));
    }
    if i == len {
        return None;
    }
    let mut acc: u64 = 0;
    while i < len
        invariant
            0 <= start <= i <= len,
            start <= 1,
            len == b@.len(),
            u32_literal_body(b@) == b@.subrange(start, len as int),
            forall|j: int| start <= j < i ==> is_dec_digit(b@[j]),
            acc == dec_value(b@.subrange(start, i as int)),
            acc <= u32::MAX,
        decreases len - i,
    {
        let d = b[i];
        if d < 0x30 || d > 0x39 {
            proof {
                let body = u32_literal_body(b@);
                assert(body[i - start] == b@.subrange(start, len as int)[i - start]);
                assert(b@.subrange(start, len as int)[i - start] == b@[i as int]);
                assert(!is_dec_digit(body[i - start]));
                assert(!all_dec_digits(body));
            }
            return None;
        }
        let dv = (d - 0x30) as u64;
        let next = acc * 10 + dv;
        proof {
            lemma_dec_value_extend(b@.subrange(start, len as int), i - start);
            assert(b@.subrange(start, len as int).subrange(0, i - start) =~= b@.subrange(
                start,
                i as int,
            ));
            assert(b@.subrange(start, len as int).subrange(0, i - start + 1) =~= b@.subrange(
                start,
                i as int + 1,
            ));
        }
        if next > u32::MAX as u64 {
            proof {
                let body = u32_literal_body(b@);
                if all_dec_digits(body) {
                    lemma_dec_value_monotone(body, i + 1 - start);
                    assert(body.subrange(0, i + 1 - start) =~= b@.subrange(start, i as int + 1));
                }
            }
            return None;
        }
        acc = next;
        i = i + 1;
    }
    proof {
        assert(b@.subrange(start, i as int) =~= u32_literal_body(b@));
    }
    Some(acc as u32)
}

/// Append the canonical decimal form of `n`.
fn push_dec(out: &mut Vec<u8>, n: u32)
    ensures
        final(out)@ == old(out)@ + dec_bytes(n as nat),
    decreases n,
{
    if n < 10 {
        out.push(0x30 + n as u8);
        proof {
            assert(out@ =~= old(out)@ + dec_bytes(n as nat));
        }
    } else {
        push_dec(out, n / 10);
        out.push(0x30 + (n % 10) as u8);
        proof {
            assert(out@ =~= old(out)@ + dec_bytes(n as nat));
        }
    }
}

/// The canonical decimal form is made of digits.
proof fn lemma_dec_bytes_digits(n: nat)
    ensures
        all_dec_digits(dec_bytes(n)),
    decreases n,
{
    if n >= 10 {
        lemma_dec_bytes_digits(n / 10);
    }
}

/// The canonical decimal form denotes the number itself.
proof fn lemma_dec_bytes_value(n: nat)
    ensures
        dec_value(dec_bytes(n)) == n,
    decreases n,
{
    if n < 10 {
        let s = dec_bytes(n);
        assert(s.drop_last() =~= Seq::<u8>::empty());
        assert(dec_value(s) == dec_value(s.drop_last()) * 10 + (s.last() - 0x30));
    } else {
        lemma_dec_bytes_value(n / 10);
        let s = dec_bytes(n);
        assert(s.len() > 0);
        assert(s.drop_last() =~= dec_bytes(n / 10));
        assert(s.last() == (0x30 + n % 10) as u8);
        assert(dec_value(s) == dec_value(s.drop_last()) * 10 + (s.last() - 0x30));
        vstd::arithmetic::div_mod::lemma_fundamental_div_mod(n as int, 10);
    }
}

/// Formatting a 32-bit number and parsing the result round-trips.
pub proof fn lemma_dec_round_trip(n: nat)
    requires
        n <= u32::MAX,
    ensures
        parses_as_u32(dec_bytes(n)),
        spec_parse_u32(dec_bytes(n)) == n,
{
    lemma_dec_bytes_digits(n);
    lemma_dec_bytes_value(n);
    assert(dec_bytes(n)[0] != 0x2b);
    assert(u32_literal_body(dec_bytes(n)) =~= dec_bytes(n));
}


// ---------------------------------------------------------------------
// Header lines: error messages, whitespace, and space-separated tokens.
// ---------------------------------------------------------------------

/// Message used whenever a header line misses its newline terminator.
pub open spec fn msg_eol() -> Seq<char> {
    "expected eol as separator inside header"@
}

/// Message for a first line that is not the magic.
pub open spec fn msg_magic() -> Seq<char> {
    "wrong magic inside header"@
}

/// Message for a shape line without exactly two fields, or with a pixel
/// count beyond what the 32-bit image interface addresses.
pub open spec fn msg_shape() -> Seq<char> {
    "wrong image shape inside header"@
}

/// Message for an endianness value without a sign.
pub open spec fn msg_endian() -> Seq<char> {
    "invalid endianness inside header"@
}

/// Message for bytes left over after the pixel payload.
pub open spec fn msg_eof() -> Seq<char> {
    "find binary content, expected eof"@
}

/// Message for a payload shorter than the header promises.
pub open spec fn msg_truncated() -> Seq<char> {
    "unexpected end of file"@
}

/// Message for a header line that is not text.
pub open spec fn msg_not_text() -> Seq<char> {
    "header line is not text"@
}

/// The result is a format error carrying the message `m`.
pub open spec fn is_format_err<T>(r: Result<T, HdrImageErr>, m: Seq<char>) -> bool {
    match r {
        Err(HdrImageErr::InvalidPfmFileFormat(s)) => s@ == m,
        _ => false,
    }
}

/// The result is a read failure carrying the message `m`.
pub open spec fn is_read_err<T>(r: Result<T, HdrImageErr>, m: Seq<char>) -> bool {
    match r {
        Err(HdrImageErr::PfmFileReadFailure(s)) => s@ == m,
        _ => false,
    }
}

/// The result is an integer-field error naming the field `m`.
pub open spec fn is_int_err<T>(r: Result<T, HdrImageErr>, m: Seq<char>) -> bool {
    match r {
        Err(HdrImageErr::PfmIntParseFailure(s)) => s@ == m,
        _ => false,
    }
}

/// The result is a float-field error naming the field `m`.
pub open spec fn is_float_err<T>(r: Result<T, HdrImageErr>, m: Seq<char>) -> bool {
    match r {
        Err(HdrImageErr::PfmFloatParseFailure(s)) => s@ == m,
        _ => false,
    }
}

/// ASCII whitespace, the bytes `str::trim_end` strips from ASCII text.
pub open spec fn is_ascii_space(b: u8) -> bool {
    b == 0x20 || b == 0x09 || b == 0x0a || b == 0x0d || b == 0x0b || b == 0x0c
}

/// Length of `s` once trailing ASCII whitespace is stripped.
pub open spec fn trim_end_len(s: Seq<u8>) -> int
    decreases s.len(),
{
    if s.len() == 0 {
        0
    } else if is_ascii_space(s.last()) {
        trim_end_len(s.drop_last())
    } else {
        s.len() as int
    }
}

/// `s` with trailing ASCII whitespace stripped.
pub open spec fn trim_end(s: Seq<u8>) -> Seq<u8> {
    s.subrange(0, trim_end_len(s))
}

/// End of the space-free run that starts at `i`.
pub open spec fn token_end(s: Seq<u8>, i: int) -> int
    recommends
        0 <= i <= s.len(),
    decreases s.len() - i,
    when i <= s.len()
{
    if i >= s.len() {
        i
    } else if s[i] == 0x20 {
        i
    } else {
        token_end(s, i + 1)
    }
}

/// The trimmed length is a position inside `s`.
pub proof fn lemma_trim_end_len_bounds(s: Seq<u8>)
    ensures
        0 <= trim_end_len(s) <= s.len(),
        trim_end_len(s) < s.len() ==> is_ascii_space(s[trim_end_len(s)]),
        forall|j: int| trim_end_len(s) <= j < s.len() ==> is_ascii_space(#[trigger] s[j]),
    decreases s.len(),
{
    if s.len() > 0 && is_ascii_space(s.last()) {
        lemma_trim_end_len_bounds(s.drop_last());
        assert(forall|j: int|
            trim_end_len(s) <= j < s.len() - 1 ==> s[j] == s.drop_last()[j]
                && is_ascii_space(#[trigger] s[j]));
    }
}

/// The token run stays inside `s` and moves forward.
pub proof fn lemma_token_end_bounds(s: Seq<u8>, i: int)
    requires
        0 <= i <= s.len(),
    ensures
        i <= token_end(s, i) <= s.len(),
        i < s.len() && s[i] != 0x20 ==> token_end(s, i) > i,
    decreases s.len() - i,
{
    if i < s.len() && s[i] != 0x20 {
        lemma_token_end_bounds(s, i + 1);
    }
}

/// The space-separated tokens of `s[i..]`: maximal space-free runs, in
/// order, empty runs dropped.
pub open spec fn tokens_from(s: Seq<u8>, i: int) -> Seq<Seq<u8>>
    recommends
        0 <= i <= s.len(),
    decreases s.len() - i,
    when 0 <= i <= s.len()
    via tokens_from_decreases
{
    if i >= s.len() {
        seq![]
    } else if s[i] == 0x20 {
        tokens_from(s, i + 1)
    } else {
        seq![s.subrange(i, token_end(s, i))] + tokens_from(s, token_end(s, i))
    }
}

#[via_fn]
proof fn tokens_from_decreases(s: Seq<u8>, i: int) {
    if 0 <= i < s.len() && s[i] != 0x20 {
        lemma_token_end_bounds(s, i);
    }
}

/// The space-separated tokens of the whole of `s`.
pub open spec fn tokens(s: Seq<u8>) -> Seq<Seq<u8>> {
    tokens_from(s, 0)
}

/// Report a missing end of line: the header is read line by line, and
/// every line must close with a newline byte.
pub fn check_eol(eol: bool) -> (r: Result<(), HdrImageErr>)
    ensures
        eol ==> r == Ok::<(), HdrImageErr>(()),
        !eol ==> is_format_err(r, msg_eol()),
{
    if eol {
        Ok(())
    } else {
        Err(HdrImageErr::InvalidPfmFileFormat("expected eol as separator inside header".to_owned()))
    }
}

/// Parse the image shape: exactly two space-separated fields, width then
/// height, each an unsigned 32-bit decimal.
pub fn parse_img_shape(line: &str) -> (r: Result<(u32, u32), HdrImageErr>)
    ensures
        ({
            let toks = tokens(line.spec_bytes());
            &&& (toks.len() == 2 && parses_as_u32(toks[0]) && parses_as_u32(toks[1])) ==> r
                == Ok::<(u32, u32), HdrImageErr>(
                (spec_parse_u32(toks[0]), spec_parse_u32(toks[1])),
            )
            &&& toks.len() != 2 ==> is_format_err(r, msg_shape())
            &&& (toks.len() == 2 && !parses_as_u32(toks[0])) ==> is_int_err(r, "image width"@)
            &&& (toks.len() == 2 && parses_as_u32(toks[0]) && !parses_as_u32(toks[1]))
                ==> is_int_err(r, "image height"@)
        }),
{
    let b = line.as_bytes();
    let ghost s = line.spec_bytes();
    let n = b.len();
    let mut i: usize = 0;
    while i < n && b[i] == 0x20
        invariant
            0 <= i <= n,
            n == s.len(),
            b@ == s,
            tokens(s) == tokens_from(s, i as int),
        decreases n - i,
    {
        i = i + 1;
    }
    if i == n {
        return Err(HdrImageErr::InvalidPfmFileFormat("wrong image shape inside header".to_owned()));
    }
    let start1 = i;
    while i < n && b[i] != 0x20
        invariant
            start1 <= i <= n,
            n == s.len(),
            b@ == s,
            token_end(s, start1 as int) == token_end(s, i as int),
        decreases n - i,
    {
        i = i + 1;
    }
    let end1 = i;
    proof {
        assert(token_end(s, start1 as int) == end1 as int);
        assert(tokens_from(s, start1 as int) == seq![s.subrange(start1 as int, end1 as int)]
            + tokens_from(s, end1 as int));
    }
    while i < n && b[i] == 0x20
        invariant
            end1 <= i <= n,
            n == s.len(),
            b@ == s,
            tokens_from(s, end1 as int) == tokens_from(s, i as int),
        decreases n - i,
    {
        i = i + 1;
    }
    if i == n {
        proof {
            assert(tokens(s).len() == 1);
        }
        return Err(HdrImageErr::InvalidPfmFileFormat("wrong image shape inside header".to_owned()));
    }
    let start2 = i;
    while i < n && b[i] != 0x20
        invariant
            start2 <= i <= n,
            n == s.len(),
            b@ == s,
            token_end(s, start2 as int) == token_end(s, i as int),
        decreases n - i,
    {
        i = i + 1;
    }
    let end2 = i;
    proof {
        assert(token_end(s, start2 as int) == end2 as int);
        assert(tokens_from(s, start2 as int) == seq![s.subrange(start2 as int, end2 as int)]
            + tokens_from(s, end2 as int));
    }
    while i < n && b[i] == 0x20
        invariant
            end2 <= i <= n,
            n == s.len(),
            b@ == s,
            tokens_from(s, end2 as int) == tokens_from(s, i as int),
        decreases n - i,
    {
        i = i + 1;
    }
    if i < n {
        proof {
            lemma_token_end_bounds(s, i as int);
            assert(tokens(s).len() >= 3);
        }
        return Err(HdrImageErr::InvalidPfmFileFormat("wrong image shape inside header".to_owned()));
    }
    proof {
        assert(tokens(s) == seq![
            s.subrange(start1 as int, end1 as int),
            s.subrange(start2 as int, end2 as int),
        ]);
    }
    let tok1 = vstd::slice::slice_subrange(b, start1, end1);
    let tok2 = vstd::slice::slice_subrange(b, start2, end2);
    let width = match parse_u32_bytes(tok1) {
        Some(w) => w,
        None => {
            return Err(HdrImageErr::PfmIntParseFailure("image width".to_owned()));
        },
    };
    let height = match parse_u32_bytes(tok2) {
        Some(h) => h,
        None => {
            return Err(HdrImageErr::PfmIntParseFailure("image height".to_owned()));
        },
    };
    Ok((width, height))
}


// ---------------------------------------------------------------------
// The endianness field: a float literal whose sign picks the byte order.
// ---------------------------------------------------------------------

/// ASCII letters mapped to lower case; other bytes unchanged.
pub open spec fn ascii_lower(b: u8) -> u8 {
    if 0x41 <= b <= 0x5a {
        (b + 0x20) as u8
    } else {
        b
    }
}

/// `s` equals the (lower-case) word `t` up to ASCII case.
pub open spec fn lower_eq(s: Seq<u8>, t: Seq<u8>) -> bool {
    s.len() == t.len() && forall|i: int| 0 <= i < s.len() ==> ascii_lower(#[trigger] s[i]) == t[i]
}

/// The literal after its optional sign.
pub open spec fn float_body(s: Seq<u8>) -> Seq<u8> {
    if s.len() > 0 && (s[0] == 0x2b || s[0] == 0x2d) {
        s.drop_first()
    } else {
        s
    }
}

/// The literal carries a minus sign.
pub open spec fn float_negative(s: Seq<u8>) -> bool {
    s.len() > 0 && s[0] == 0x2d
}

/// The not-a-number keyword.
pub open spec fn is_nan_body(b: Seq<u8>) -> bool {
    lower_eq(b, seq![0x6e, 0x61, 0x6e])
}

/// One of the two infinity keywords.
pub open spec fn is_inf_body(b: Seq<u8>) -> bool {
    lower_eq(b, seq![0x69, 0x6e, 0x66]) || lower_eq(
        b,
        seq![0x69, 0x6e, 0x66, 0x69, 0x6e, 0x69, 0x74, 0x79],
    )
}

/// First exponent marker (`e` or `E`) at or after `i`, or the length.
pub open spec fn exp_index(s: Seq<u8>, i: int) -> int
    recommends
        0 <= i <= s.len(),
    decreases s.len() - i,
    when i <= s.len()
{
    if i >= s.len() {
        i
    } else if s[i] == 0x65 || s[i] == 0x45 {
        i
    } else {
        exp_index(s, i + 1)
    }
}

/// The exponent marker position stays inside `s`.
pub proof fn lemma_exp_index_bounds(s: Seq<u8>, i: int)
    requires
        0 <= i <= s.len(),
    ensures
        i <= exp_index(s, i) <= s.len(),
        exp_index(s, i) < s.len() ==> (s[exp_index(s, i)] == 0x65 || s[exp_index(s, i)] == 0x45),
    decreases s.len() - i,
{
    if i < s.len() && s[i] != 0x65 && s[i] != 0x45 {
        lemma_exp_index_bounds(s, i + 1);
    }
}

/// A mantissa: digits with at most one decimal point, and at least one
/// digit.
pub open spec fn is_mantissa(m: Seq<u8>) -> bool {
    &&& forall|i: int| 0 <= i < m.len() ==> (is_dec_digit(#[trigger] m[i]) || m[i] == 0x2e)
    &&& forall|i: int, j: int|
        0 <= i < j < m.len() ==> !(#[trigger] m[i] == 0x2e && #[trigger] m[j] == 0x2e)
    &&& exists|i: int| 0 <= i < m.len() && is_dec_digit(#[trigger] m[i])
}

/// An exponent tail: an optional sign, then at least one digit and
/// nothing else.
pub open spec fn is_exponent_tail(x: Seq<u8>) -> bool {
    all_dec_digits(float_body(x))
}

/// A numeric (non-keyword) float body: a mantissa, optionally followed
/// by an exponent marker and an exponent tail.
pub open spec fn is_number_body(b: Seq<u8>) -> bool {
    let k = exp_index(b, 0);
    &&& is_mantissa(b.subrange(0, k))
    &&& k < b.len() ==> is_exponent_tail(b.subrange(k + 1, b.len() as int))
}

/// The byte string is a floating-point literal: an optional sign, then
/// one of the keywords or a number.
pub open spec fn is_float_literal(s: Seq<u8>) -> bool {
    let b = float_body(s);
    is_nan_body(b) || is_inf_body(b) || is_number_body(b)
}

/// The literal denotes a value with strictly positive magnitude: an
/// infinity, or a number with a nonzero mantissa digit. The not-a-number
/// keyword and every all-zero mantissa fail this, and so does nothing
/// else.
pub open spec fn float_positive_magnitude(s: Seq<u8>) -> bool {
    let b = float_body(s);
    ||| is_inf_body(b)
    ||| (is_number_body(b) && exists|i: int|
        0 <= i < exp_index(b, 0) && is_dec_digit(#[trigger] b[i]) && b[i] != 0x30)
}

/// A keyword body (not-a-number or infinity) is made of letters, so it
/// is not a numeric body.
proof fn lemma_keyword_not_number(b: Seq<u8>)
    requires
        is_nan_body(b) || is_inf_body(b),
    ensures
        !is_number_body(b),
{
    lemma_exp_index_bounds(b, 0);
    let k = exp_index(b, 0);
    let m = b.subrange(0, k);
    assert forall|i: int| 0 <= i < m.len() implies !is_dec_digit(m[i]) by {
        assert(m[i] == b[i]);
        assert(ascii_lower(b[i]) >= 0x61);
    }
    assert(!is_mantissa(m));
}

/// ASCII letters mapped to lower case; other bytes unchanged.
fn lower_byte(x: u8) -> (r: u8)
    ensures
        r == ascii_lower(x),
{
    if 0x41 <= x && x <= 0x5a {
        x + 0x20
    } else {
        x
    }
}

/// Parse the endianness field: a floating-point literal whose sign
/// selects the payload byte order. A literal of value zero (an all-zero
/// mantissa) and the not-a-number keyword select nothing and are
/// rejected.
///
/// A numeric literal so small that 32-bit arithmetic would round it to
/// zero still selects the byte order its sign names: only a literal
/// whose mantissa digits are all zero is rejected as unsigned.
#[verifier::loop_isolation(false)]
#[verifier::rlimit(60)]
pub fn parse_endianness(line: &str) -> (r: Result<ByteOrder, HdrImageErr>)
    ensures
        ({
            let s = line.spec_bytes();
            &&& !is_float_literal(s) ==> is_float_err(r, "endianness"@)
            &&& (is_float_literal(s) && !float_positive_magnitude(s)) ==> is_format_err(
                r,
                msg_endian(),
            )
            &&& (is_float_literal(s) && float_positive_magnitude(s) && !float_negative(s)) ==> r
                == Ok::<ByteOrder, HdrImageErr>(ByteOrder::BigEndian)
            &&& (is_float_literal(s) && float_positive_magnitude(s) && float_negative(s)) ==> r
                == Ok::<ByteOrder, HdrImageErr>(ByteOrder::LittleEndian)
        }),
{
    let whole = line.as_bytes();
    let ghost s = line.spec_bytes();
    let mut start: usize = 0;
    let mut negative = false;
    if whole.len() > 0 && (whole[0] == 0x2b || whole[0] == 0x2d) {
        negative = whole[0] == 0x2d;
        start = 1;
    }
    let b = vstd::slice::slice_subrange(whole, start, whole.len());
    proof {
        assert(b@ =~= float_body(s));
        assert(negative == float_negative(s));
    }
    let n = b.len();
    // The keywords first.
    if n == 3 {
        let l0 = lower_byte(b[0]);
        let l1 = lower_byte(b[1]);
        let l2 = lower_byte(b[2]);
        if l0 == 0x6e && l1 == 0x61 && l2 == 0x6e {
            proof {
                assert(is_nan_body(b@));
                lemma_keyword_not_number(b@);
                assert(!lower_eq(b@, seq![0x69u8, 0x6e, 0x66]));
            }
            return Err(HdrImageErr::InvalidPfmFileFormat(
                "invalid endianness inside header".to_owned(),
            ));
        }
        if l0 == 0x69 && l1 == 0x6e && l2 == 0x66 {
            proof {
                assert(is_inf_body(b@));
            }
            return if negative {
                Ok(ByteOrder::LittleEndian)
            } else {
                Ok(ByteOrder::BigEndian)
            };
        }
    }
    if n == 8 {
        let word: [u8; 8] = [0x69, 0x6e, 0x66, 0x69, 0x6e, 0x69, 0x74, 0x79];
        let mut k: usize = 0;
        let mut same = true;
        while k < 8
            invariant
                0 <= k <= 8,
                n == b@.len() == 8,
                word@ == seq![0x69u8, 0x6e, 0x66, 0x69, 0x6e, 0x69, 0x74, 0x79],
                same == (forall|i: int| 0 <= i < k ==> ascii_lower(#[trigger] b@[i]) == word@[i]),
            decreases 8 - k,
        {
            let l = lower_byte(b[k]);
            if l != word[k] {
                same = false;
            }
            k = k + 1;
        }
        if same {
            proof {
                assert(is_inf_body(b@));
            }
            return if negative {
                Ok(ByteOrder::LittleEndian)
            } else {
                Ok(ByteOrder::BigEndian)
            };
        }
    }
    proof {
        assert(!is_nan_body(b@) && !is_inf_body(b@));
    }
    // A number: mantissa up to the exponent marker.
    let mut i: usize = 0;
    let mut dot_seen = false;
    let ghost mut dot_at: int = 0;
    let mut has_digit = false;
    let mut nonzero = false;
    while i < n && b[i] != 0x65 && b[i] != 0x45
        invariant
            0 <= i <= n,
            n == b@.len(),
            exp_index(b@, 0) == exp_index(b@, i as int),
            forall|j: int| 0 <= j < i ==> (is_dec_digit(#[trigger] b@[j]) || b@[j] == 0x2e),
            dot_seen ==> 0 <= dot_at < i && b@[dot_at] == 0x2e,
            forall|j: int| 0 <= j < i && (!dot_seen || j != dot_at) ==> #[trigger] b@[j] != 0x2e,
            has_digit == (exists|j: int| 0 <= j < i && is_dec_digit(#[trigger] b@[j])),
            nonzero == (exists|j: int|
                0 <= j < i && is_dec_digit(#[trigger] b@[j]) && b@[j] != 0x30),
        decreases n - i,
    {
        let c = b[i];
        if c == 0x2e {
            if dot_seen {
                proof {
                    lemma_exp_index_bounds(b@, i as int);
                    let m = b@.subrange(0, exp_index(b@, 0));
                    assert(m[dot_at] == 0x2e && m[i as int] == 0x2e);
                    assert(!is_mantissa(m));
                }
                return Err(HdrImageErr::PfmFloatParseFailure("endianness".to_owned()));
            }
            dot_seen = true;
            proof {
                dot_at = i as int;
            }
        } else if c >= 0x30 && c <= 0x39 {
            has_digit = true;
            if c != 0x30 {
                nonzero = true;
            }
        } else {
            proof {
                lemma_exp_index_bounds(b@, i as int);
                let m = b@.subrange(0, exp_index(b@, 0));
                assert(m[i as int] == b@[i as int]);
                assert(!is_mantissa(m));
            }
            return Err(HdrImageErr::PfmFloatParseFailure("endianness".to_owned()));
        }
        i = i + 1;
    }
    let ghost k = exp_index(b@, 0);
    proof {
        assert(k == i as int);
    }
    if !has_digit {
        proof {
            let m = b@.subrange(0, k);
            assert(forall|j: int| 0 <= j < m.len() ==> m[j] == b@[j]);
            assert(!is_mantissa(m));
        }
        return Err(HdrImageErr::PfmFloatParseFailure("endianness".to_owned()));
    }
    proof {
        let m = b@.subrange(0, k);
        assert(forall|j: int| 0 <= j < m.len() ==> m[j] == b@[j]);
        let w = choose|j: int| 0 <= j < i && is_dec_digit(#[trigger] b@[j]);
        assert(is_dec_digit(m[w]));
        assert(is_mantissa(m));
    }
    if i < n {
        // Exponent tail: optional sign, then digits only.
        let mut j = i + 1;
        let ghost tail = b@.subrange(k + 1, n as int);
        if j < n && (b[j] == 0x2b || b[j] == 0x2d) {
            j = j + 1;
        }
        proof {
            assert(float_body(tail) =~= b@.subrange(j as int, n as int));
        }
        if j == n {
            proof {
                assert(!is_exponent_tail(tail));
            }
            return Err(HdrImageErr::PfmFloatParseFailure("endianness".to_owned()));
        }
        let ghost dstart = j as int;
        while j < n
            invariant
                dstart <= j <= n,
                n == b@.len(),
                float_body(tail) == b@.subrange(dstart, n as int),
                forall|t: int| dstart <= t < j ==> is_dec_digit(#[trigger] b@[t]),
            decreases n - j,
        {
            let c = b[j];
            if c < 0x30 || c > 0x39 {
                proof {
                    assert(float_body(tail)[j - dstart] == b@[j as int]);
                    assert(!is_exponent_tail(tail));
                }
                return Err(HdrImageErr::PfmFloatParseFailure("endianness".to_owned()));
            }
            j = j + 1;
        }
        proof {
            assert(forall|t: int|
                0 <= t < float_body(tail).len() ==> is_dec_digit(#[trigger] float_body(tail)[t]));
            assert(is_exponent_tail(tail));
        }
    }
    proof {
        assert(is_number_body(b@));
    }
    if !nonzero {
        return Err(HdrImageErr::InvalidPfmFileFormat(
            "invalid endianness inside header".to_owned(),
        ));
    }
    if negative {
        Ok(ByteOrder::LittleEndian)
    } else {
        Ok(ByteOrder::BigEndian)
    }
}


// ---------------------------------------------------------------------
// The binary pixel payload: three 32-bit channels per pixel, rows
// stored bottom to top.
// ---------------------------------------------------------------------

/// The four bytes of one 32-bit channel in the given byte order.
pub open spec fn channel_bytes(x: u32, e: ByteOrder) -> Seq<u8> {
    match e {
        ByteOrder::LittleEndian => seq![
            x as u8,
            (x >> 8) as u8,
            (x >> 16) as u8,
            (x >> 24) as u8,
        ],
        ByteOrder::BigEndian => seq![
            (x >> 24) as u8,
            (x >> 16) as u8,
            (x >> 8) as u8,
            x as u8,
        ],
    }
}

/// The twelve bytes of one pixel: red, green, blue.
pub open spec fn color_bytes(c: Color, e: ByteOrder) -> Seq<u8> {
    channel_bytes(c.r, e) + channel_bytes(c.g, e) + channel_bytes(c.b, e)
}

/// A 32-bit channel assembled from four bytes, least significant first.
pub open spec fn channel_of(b0: u8, b1: u8, b2: u8, b3: u8) -> u32 {
    (b0 as u32) | ((b1 as u32) << 8) | ((b2 as u32) << 16) | ((b3 as u32) << 24)
}

/// The channel stored at byte position `p`.
pub open spec fn channel_at(bytes: Seq<u8>, p: int, e: ByteOrder) -> u32
    recommends
        0 <= p,
        p + 4 <= bytes.len(),
{
    match e {
        ByteOrder::LittleEndian => channel_of(bytes[p], bytes[p + 1], bytes[p + 2], bytes[p + 3]),
        ByteOrder::BigEndian => channel_of(bytes[p + 3], bytes[p + 2], bytes[p + 1], bytes[p]),
    }
}

/// The pixel stored at byte position `p`.
pub open spec fn color_at(bytes: Seq<u8>, p: int, e: ByteOrder) -> Color
    recommends
        0 <= p,
        p + 12 <= bytes.len(),
{
    Color {
        r: channel_at(bytes, p, e),
        g: channel_at(bytes, p + 4, e),
        b: channel_at(bytes, p + 8, e),
    }
}

/// Serializing a channel and reading it back gives the channel.
pub proof fn lemma_channel_round_trip(x: u32, e: ByteOrder)
    ensures
        channel_at(channel_bytes(x, e), 0, e) == x,
{
    assert(((x as u8) as u32 | (((x >> 8) as u8) as u32) << 8 | (((x >> 16) as u8) as u32) << 16
        | (((x >> 24) as u8) as u32) << 24) == x) by (bit_vector);
}

/// The pixel that the `g`-th written group holds: groups run through the
/// rows bottom to top, left to right inside a row.
pub open spec fn payload_group(width: u32, height: u32, pixels: Seq<Color>, g: int) -> Color
    recommends
        width > 0,
        0 <= g < width * height,
        pixels.len() == width * height,
{
    let x = g % (width as int);
    let yr = g / (width as int);
    pixels[(height - 1 - yr) * width + x]
}

/// The payload bytes of the first `n` written groups.
pub open spec fn payload_bytes(
    width: u32,
    height: u32,
    pixels: Seq<Color>,
    e: ByteOrder,
    n: nat,
) -> Seq<u8>
    decreases n,
{
    if n == 0 {
        seq![]
    } else {
        payload_bytes(width, height, pixels, e, (n - 1) as nat) + color_bytes(
            payload_group(width, height, pixels, n - 1),
            e,
        )
    }
}

/// The whole payload: every pixel of the image once.
pub open spec fn pfm_payload(width: u32, height: u32, pixels: Seq<Color>, e: ByteOrder) -> Seq<u8> {
    payload_bytes(width, height, pixels, e, (width * height) as nat)
}

/// Twelve bytes per written group.
pub proof fn lemma_payload_bytes_len(width: u32, height: u32, pixels: Seq<Color>, e: ByteOrder, n: nat)
    ensures
        payload_bytes(width, height, pixels, e, n).len() == 12 * n,
    decreases n,
{
    if n > 0 {
        lemma_payload_bytes_len(width, height, pixels, e, (n - 1) as nat);
    }
}

/// Inside the payload, the bytes of group `g` are the bytes of its pixel.
pub proof fn lemma_payload_bytes_index(
    width: u32,
    height: u32,
    pixels: Seq<Color>,
    e: ByteOrder,
    n: nat,
    g: int,
)
    requires
        0 <= g < n,
    ensures
        payload_bytes(width, height, pixels, e, n).subrange(12 * g, 12 * g + 12) == color_bytes(
            payload_group(width, height, pixels, g),
            e,
        ),
    decreases n,
{
    lemma_payload_bytes_len(width, height, pixels, e, (n - 1) as nat);
    if g == n - 1 {
        assert(payload_bytes(width, height, pixels, e, n).subrange(12 * g, 12 * g + 12)
            =~= color_bytes(payload_group(width, height, pixels, g), e));
    } else {
        lemma_payload_bytes_index(width, height, pixels, e, (n - 1) as nat, g);
        assert(payload_bytes(width, height, pixels, e, n).subrange(12 * g, 12 * g + 12)
            =~= payload_bytes(width, height, pixels, e, (n - 1) as nat).subrange(
            12 * g,
            12 * g + 12,
        ));
    }
}

/// The header bytes: magic, shape, endianness, each line closed by a
/// newline.
pub open spec fn endian_field(e: ByteOrder) -> Seq<u8> {
    match e {
        ByteOrder::BigEndian => seq![0x31u8, 0x2e, 0x30],
        ByteOrder::LittleEndian => seq![0x2du8, 0x31, 0x2e, 0x30],
    }
}

/// The header bytes of an image of the given shape and byte order.
pub open spec fn pfm_header(width: u32, height: u32, e: ByteOrder) -> Seq<u8> {
    seq![0x50u8, 0x46, 0x0a] + dec_bytes(width as nat) + seq![0x20u8] + dec_bytes(height as nat)
        + seq![0x0au8] + endian_field(e) + seq![0x0au8]
}

/// The whole byte form of an image.
pub open spec fn pfm_bytes(width: u32, height: u32, pixels: Seq<Color>, e: ByteOrder) -> Seq<u8> {
    pfm_header(width, height, e) + pfm_payload(width, height, pixels, e)
}

/// Append the four bytes of one channel.
fn push_channel(out: &mut Vec<u8>, x: u32, e: ByteOrder)
    ensures
        final(out)@ == old(out)@ + channel_bytes(x, e),
{
    match e {
        ByteOrder::LittleEndian => {
            out.push(#[verifier::truncate] (x as u8));
            out.push(#[verifier::truncate] ((x >> 8u32) as u8));
            out.push(#[verifier::truncate] ((x >> 16u32) as u8));
            out.push(#[verifier::truncate] ((x >> 24u32) as u8));
        },
        ByteOrder::BigEndian => {
            out.push(#[verifier::truncate] ((x >> 24u32) as u8));
            out.push(#[verifier::truncate] ((x >> 16u32) as u8));
            out.push(#[verifier::truncate] ((x >> 8u32) as u8));
            out.push(#[verifier::truncate] (x as u8));
        },
    }
    proof {
        assert(out@ =~= old(out)@ + channel_bytes(x, e));
    }
}

/// Read the channel stored at byte position `p`.
fn read_channel(bytes: &[u8], p: usize, e: ByteOrder) -> (x: u32)
    requires
        p + 4 <= bytes@.len(),
    ensures
        x == channel_at(bytes@, p as int, e),
{
    let b0 = bytes[p];
    let b1 = bytes[p + 1];
    let b2 = bytes[p + 2];
    let b3 = bytes[p + 3];
    match e {
        ByteOrder::LittleEndian => {
            (b0 as u32) | ((b1 as u32) << 8u32) | ((b2 as u32) << 16u32) | ((b3 as u32) << 24u32)
        },
        ByteOrder::BigEndian => {
            (b3 as u32) | ((b2 as u32) << 8u32) | ((b1 as u32) << 16u32) | ((b0 as u32) << 24u32)
        },
    }
}

impl HdrImage {
    /// The byte form of this image: header, then the pixel rows from the
    /// bottom row up, each pixel as three channels in the chosen byte
    /// order.
    #[verifier::loop_isolation(false)]
    pub fn write_pfm_image(&self, endianness: ByteOrder) -> (out: Vec<u8>)
        requires
            self.wf(),
        ensures
            out@ == pfm_bytes(self.spec_width(), self.spec_height(), self.spec_pixels(), endianness),
    {
        let (w, h) = self.shape();
        let mut out: Vec<u8> = Vec::new();
        out.push(0x50);
        out.push(0x46);
        out.push(0x0a);
        push_dec(&mut out, w);
        out.push(0x20);
        push_dec(&mut out, h);
        out.push(0x0a);
        match endianness {
            ByteOrder::BigEndian => {
                out.push(0x31);
                out.push(0x2e);
                out.push(0x30);
            },
            ByteOrder::LittleEndian => {
                out.push(0x2d);
                out.push(0x31);
                out.push(0x2e);
                out.push(0x30);
            },
        }
        out.push(0x0a);
        proof {
            assert(out@ =~= pfm_header(w, h, endianness));
        }
        let ghost pixels = self.spec_pixels();
        let mut yr: u32 = 0;
        while yr < h
            invariant
                0 <= yr <= h,
                out@ == pfm_header(w, h, endianness) + payload_bytes(
                    w,
                    h,
                    pixels,
                    endianness,
                    (yr * w) as nat,
                ),
            decreases h - yr,
        {
            let y = h - 1 - yr;
            let mut x: u32 = 0;
            while x < w
                invariant
                    0 <= x <= w,
                    out@ == pfm_header(w, h, endianness) + payload_bytes(
                        w,
                        h,
                        pixels,
                        endianness,
                        (yr * w + x) as nat,
                    ),
                decreases w - x,
            {
                let c = match self.get_pixel(x, y) {
                    Ok(c) => c,
                    Err(_) => {
                        proof {
                            assert(false);
                        }
                        Color { r: 0, g: 0, b: 0 }
                    },
                };
                let ghost g = (yr * w + x) as int;
                proof {
                    lemma_offset_in_range(x, yr, w, h);
                    vstd::arithmetic::div_mod::lemma_fundamental_div_mod_converse(
                        g,
                        w as int,
                        yr as int,
                        x as int,
                    );
                    assert(payload_group(w, h, pixels, g) == c);
                }
                push_channel(&mut out, c.r, endianness);
                push_channel(&mut out, c.g, endianness);
                push_channel(&mut out, c.b, endianness);
                proof {
                    assert(out@ =~= pfm_header(w, h, endianness) + payload_bytes(
                        w,
                        h,
                        pixels,
                        endianness,
                        (g + 1) as nat,
                    ));
                }
                x = x + 1;
            }
            proof {
                assert((yr * w + w) as nat == ((yr + 1) * w) as nat) by (nonlinear_arith);
            }
            yr = yr + 1;
        }
        proof {
            assert((yr * w) as nat == (w * h) as nat) by (nonlinear_arith)
                requires
                    yr == h,
            ;
        }
        out
    }
}


// ---------------------------------------------------------------------
// Reading: the spec-level account of how the byte form is understood.
// ---------------------------------------------------------------------

/// First newline byte at or after `i`, or the length when there is none.
pub open spec fn newline_at(s: Seq<u8>, i: int) -> int
    recommends
        0 <= i <= s.len(),
    decreases s.len() - i,
    when i <= s.len()
{
    if i >= s.len() {
        s.len() as int
    } else if s[i] == 0x0a {
        i
    } else {
        newline_at(s, i + 1)
    }
}

/// The newline position stays inside `s`.
pub proof fn lemma_newline_at_bounds(s: Seq<u8>, i: int)
    requires
        0 <= i <= s.len(),
    ensures
        i <= newline_at(s, i) <= s.len(),
        newline_at(s, i) < s.len() ==> s[newline_at(s, i)] == 0x0a,
    decreases s.len() - i,
{
    if i < s.len() && s[i] != 0x0a {
        lemma_newline_at_bounds(s, i + 1);
    }
}

/// Position right after an end of line, clamped to the length.
pub open spec fn after_eol(s: Seq<u8>, a: int) -> int {
    if a + 1 <= s.len() {
        a + 1
    } else {
        s.len() as int
    }
}

/// End of the magic line.
pub open spec fn pfm_a1(s: Seq<u8>) -> int {
    newline_at(s, 0)
}

/// The magic line, newline excluded.
pub open spec fn pfm_line1(s: Seq<u8>) -> Seq<u8> {
    s.subrange(0, pfm_a1(s))
}

/// End of the shape line.
pub open spec fn pfm_a2(s: Seq<u8>) -> int {
    newline_at(s, after_eol(s, pfm_a1(s)))
}

/// The shape line, newline excluded.
pub open spec fn pfm_line2(s: Seq<u8>) -> Seq<u8> {
    s.subrange(after_eol(s, pfm_a1(s)), pfm_a2(s))
}

/// End of the endianness line.
pub open spec fn pfm_a3(s: Seq<u8>) -> int {
    newline_at(s, after_eol(s, pfm_a2(s)))
}

/// The endianness line, newline excluded.
pub open spec fn pfm_line3(s: Seq<u8>) -> Seq<u8> {
    s.subrange(after_eol(s, pfm_a2(s)), pfm_a3(s))
}

/// The binary payload after the header.
pub open spec fn pfm_rest(s: Seq<u8>) -> Seq<u8> {
    s.subrange(after_eol(s, pfm_a3(s)), s.len() as int)
}

/// The shape the header announces.
pub open spec fn pfm_shape(s: Seq<u8>) -> (u32, u32) {
    let toks = tokens(trim_end(pfm_line2(s)));
    (spec_parse_u32(toks[0]), spec_parse_u32(toks[1]))
}

/// The byte order the header announces.
pub open spec fn pfm_order(s: Seq<u8>) -> ByteOrder {
    if float_negative(trim_end(pfm_line3(s))) {
        ByteOrder::LittleEndian
    } else {
        ByteOrder::BigEndian
    }
}

/// The pixel matrix the payload holds, in row-major top-down order: the
/// pixel of image row `y` and column `x` is the written group number
/// `(height - 1 - y) * width + x`.
pub open spec fn pfm_pixels(s: Seq<u8>) -> Seq<Color> {
    let (w, h) = pfm_shape(s);
    Seq::new(
        (w * h) as nat,
        |i: int|
            color_at(
                pfm_rest(s),
                12 * ((h - 1 - i / (w as int)) * w + i % (w as int)),
                pfm_order(s),
            ),
    )
}

/// What a byte string looks like to the reader: well formed, or the
/// first offence found, checking each header line in the order text,
/// newline terminator, content.
pub enum PfmCheck {
    /// A header line is not UTF-8 text.
    BadText,
    /// A header line misses its newline.
    MissingEol,
    /// The first line is not the magic.
    BadMagic,
    /// The shape line does not hold exactly two fields, or the announced
    /// pixel count exceeds 32-bit addressing.
    BadShape,
    /// The width field is not an unsigned decimal.
    BadWidth,
    /// The height field is not an unsigned decimal.
    BadHeight,
    /// The endianness field is not a float literal.
    BadFloat,
    /// The endianness field has no usable sign (zero or not-a-number).
    Unsigned,
    /// Fewer payload bytes than the shape demands.
    Truncated,
    /// Bytes left over after the payload.
    Trailing,
    /// A well-formed image.
    Good,
}

/// Classify a byte string, in the order the reader scans it.
pub open spec fn pfm_check(s: Seq<u8>) -> PfmCheck {
    if !valid_utf8(pfm_line1(s)) {
        PfmCheck::BadText
    } else if pfm_a1(s) >= s.len() {
        PfmCheck::MissingEol
    } else if trim_end(pfm_line1(s)) != seq![0x50u8, 0x46u8] {
        PfmCheck::BadMagic
    } else if !valid_utf8(pfm_line2(s)) {
        PfmCheck::BadText
    } else if pfm_a2(s) >= s.len() {
        PfmCheck::MissingEol
    } else if tokens(trim_end(pfm_line2(s))).len() != 2 {
        PfmCheck::BadShape
    } else if !parses_as_u32(tokens(trim_end(pfm_line2(s)))[0]) {
        PfmCheck::BadWidth
    } else if !parses_as_u32(tokens(trim_end(pfm_line2(s)))[1]) {
        PfmCheck::BadHeight
    } else if pfm_shape(s).0 * pfm_shape(s).1 > u32::MAX {
        PfmCheck::BadShape
    } else if !valid_utf8(pfm_line3(s)) {
        PfmCheck::BadText
    } else if pfm_a3(s) >= s.len() {
        PfmCheck::MissingEol
    } else if !is_float_literal(trim_end(pfm_line3(s))) {
        PfmCheck::BadFloat
    } else if !float_positive_magnitude(trim_end(pfm_line3(s))) {
        PfmCheck::Unsigned
    } else if pfm_rest(s).len() < 12 * (pfm_shape(s).0 * pfm_shape(s).1) {
        PfmCheck::Truncated
    } else if pfm_rest(s).len() > 12 * (pfm_shape(s).0 * pfm_shape(s).1) {
        PfmCheck::Trailing
    } else {
        PfmCheck::Good
    }
}

/// First newline byte at or after `from`.
#[verifier::loop_isolation(false)]
fn find_newline(bytes: &[u8], from: usize) -> (j: usize)
    requires
        from <= bytes@.len(),
    ensures
        j == newline_at(bytes@, from as int),
        from <= j <= bytes@.len(),
{
    proof {
        lemma_newline_at_bounds(bytes@, from as int);
    }
    let mut i = from;
    while i < bytes.len()
        invariant
            from <= i <= bytes@.len(),
            newline_at(bytes@, from as int) == newline_at(bytes@, i as int),
        decreases bytes@.len() - i,
    {
        if bytes[i] == 0x0a {
            return i;
        }
        i = i + 1;
    }
    i
}

/// Whether `str::trim_end` strips this byte from ASCII text.
fn is_space_byte(b: u8) -> (r: bool)
    ensures
        r == is_ascii_space(b),
{
    b == 0x20 || b == 0x09 || b == 0x0a || b == 0x0d || b == 0x0b || b == 0x0c
}

/// Length of the input once trailing ASCII whitespace is stripped.
#[verifier::loop_isolation(false)]
fn trimmed_len(bytes: &[u8]) -> (k: usize)
    ensures
        k == trim_end_len(bytes@),
{
    let mut k = bytes.len();
    proof {
        assert(bytes@.subrange(0, k as int) =~= bytes@);
    }
    while k > 0 && is_space_byte(bytes[k - 1])
        invariant
            0 <= k <= bytes@.len(),
            trim_end_len(bytes@) == trim_end_len(bytes@.subrange(0, k as int)),
        decreases k,
    {
        proof {
            assert(bytes@.subrange(0, k as int).drop_last() =~= bytes@.subrange(0, k as int - 1));
            assert(bytes@.subrange(0, k as int).last() == bytes@[k as int - 1]);
        }
        k = k - 1;
    }
    k
}

/// Relies on std's `str::from_utf8`: it accepts exactly the valid UTF-8
/// byte strings, and the accepted text is those very bytes.
pub assume_specification[ core::str::from_utf8 ](v: &[u8]) -> (r: Result<&str, core::str::Utf8Error>)
    ensures
        r is Ok <==> valid_utf8(v@),
        r matches Ok(s) ==> s.spec_bytes() == v@,
;

/// Declares std's `core::str::Utf8Error` so that the result type of
/// `str::from_utf8` can be named; the error value itself is opaque and
/// never inspected.
#[verifier::external_type_specification]
#[verifier::external_body]
pub struct ExUtf8Error(core::str::Utf8Error);


impl HdrImage {
    /// Read an image from its PFM byte form: magic line, shape line,
    /// endianness line, then the binary payload, rows bottom to top.
    ///
    /// Every outcome is pinned by [`pfm_check`]: a well-formed byte
    /// string gives exactly the image it encodes, and a malformed one
    /// gives the error of its first offence.
    #[verifier::loop_isolation(false)]
    #[verifier::rlimit(100)]
    pub fn read_pfm_image(bytes: &[u8]) -> (r: Result<HdrImage, HdrImageErr>)
        ensures
            pfm_check(bytes@) == PfmCheck::Good ==> (r matches Ok(img) && img.wf()
                && img.spec_width() == pfm_shape(bytes@).0 && img.spec_height() == pfm_shape(
                bytes@,
            ).1 && img.spec_pixels() == pfm_pixels(bytes@)),
            pfm_check(bytes@) == PfmCheck::BadText ==> is_read_err(r, msg_not_text()),
            pfm_check(bytes@) == PfmCheck::MissingEol ==> is_format_err(r, msg_eol()),
            pfm_check(bytes@) == PfmCheck::BadMagic ==> is_format_err(r, msg_magic()),
            pfm_check(bytes@) == PfmCheck::BadShape ==> is_format_err(r, msg_shape()),
            pfm_check(bytes@) == PfmCheck::BadWidth ==> is_int_err(r, "image width"@),
            pfm_check(bytes@) == PfmCheck::BadHeight ==> is_int_err(r, "image height"@),
            pfm_check(bytes@) == PfmCheck::BadFloat ==> is_float_err(r, "endianness"@),
            pfm_check(bytes@) == PfmCheck::Unsigned ==> is_format_err(r, msg_endian()),
            pfm_check(bytes@) == PfmCheck::Truncated ==> is_read_err(r, msg_truncated()),
            pfm_check(bytes@) == PfmCheck::Trailing ==> is_format_err(r, msg_eof()),
    {
        let ghost s = bytes@;
        let n = bytes.len();
        // Magic line.
        let e1 = find_newline(bytes, 0);
        let line1 = vstd::slice::slice_subrange(bytes, 0, e1);
        proof {
            assert(line1@ == pfm_line1(s));
        }
        match core::str::from_utf8(line1) {
            Ok(_) => {},
            Err(_) => {
                return Err(HdrImageErr::PfmFileReadFailure("header line is not text".to_owned()));
            },
        }
        match check_eol(e1 < n) {
            Ok(()) => {},
            Err(e) => {
                return Err(e);
            },
        }
        let t1 = trimmed_len(line1);
        proof {
            lemma_trim_end_len_bounds(line1@);
        }
        if !(t1 == 2 && line1[0] == 0x50 && line1[1] == 0x46) {
            proof {
                let target = seq![0x50u8, 0x46u8];
                assert(target.len() == 2 && target[0] == 0x50 && target[1] == 0x46);
                assert(trim_end(line1@).len() == trim_end_len(line1@));
                if t1 == 2 {
                    assert(trim_end(line1@)[0] == line1@[0]);
                    assert(trim_end(line1@)[1] == line1@[1]);
                }
                assert(trim_end(pfm_line1(s)) != target);
            }
            return Err(HdrImageErr::InvalidPfmFileFormat("wrong magic inside header".to_owned()));
        }
        proof {
            assert(trim_end(pfm_line1(s)) =~= seq![0x50u8, 0x46u8]);
        }
        // Shape line.
        let e2 = find_newline(bytes, e1 + 1);
        let line2 = vstd::slice::slice_subrange(bytes, e1 + 1, e2);
        proof {
            assert(line2@ == pfm_line2(s));
        }
        let st2 = match core::str::from_utf8(line2) {
            Ok(st) => st,
            Err(_) => {
                return Err(HdrImageErr::PfmFileReadFailure("header line is not text".to_owned()));
            },
        };
        match check_eol(e2 < n) {
            Ok(()) => {},
            Err(e) => {
                return Err(e);
            },
        }
        let t2 = trimmed_len(line2);
        proof {
            lemma_trim_end_len_bounds(line2@);
            if t2 < line2@.len() {
                vstd::utf8::is_char_boundary_iff_not_is_continuation_byte(line2@, t2 as int);
            } else {
                vstd::utf8::is_char_boundary_start_end_of_seq(line2@);
            }
        }
        let (st2_trim, _) = st2.split_at(t2);
        proof {
            assert(st2_trim.spec_bytes() == trim_end(pfm_line2(s)));
        }
        let (width, height) = match parse_img_shape(st2_trim) {
            Ok(p) => p,
            Err(e) => {
                return Err(e);
            },
        };
        proof {
            assert((width, height) == pfm_shape(s));
        }
        proof {
            assert((width as int) * (height as int) < 0x1_0000_0000_0000_0000) by (nonlinear_arith)
                requires
                    width <= 0xffff_ffffu32,
                    height <= 0xffff_ffffu32,
            ;
        }
        if (width as u64) * (height as u64) > u32::MAX as u64 {
            return Err(HdrImageErr::InvalidPfmFileFormat("wrong image shape inside header".to_owned()));
        }
        // Endianness line.
        let e3 = find_newline(bytes, e2 + 1);
        let line3 = vstd::slice::slice_subrange(bytes, e2 + 1, e3);
        proof {
            assert(line3@ == pfm_line3(s));
        }
        let st3 = match core::str::from_utf8(line3) {
            Ok(st) => st,
            Err(_) => {
                return Err(HdrImageErr::PfmFileReadFailure("header line is not text".to_owned()));
            },
        };
        match check_eol(e3 < n) {
            Ok(()) => {},
            Err(e) => {
                return Err(e);
            },
        }
        let t3 = trimmed_len(line3);
        proof {
            lemma_trim_end_len_bounds(line3@);
            if t3 < line3@.len() {
                vstd::utf8::is_char_boundary_iff_not_is_continuation_byte(line3@, t3 as int);
            } else {
                vstd::utf8::is_char_boundary_start_end_of_seq(line3@);
            }
        }
        let (st3_trim, _) = st3.split_at(t3);
        proof {
            assert(st3_trim.spec_bytes() == trim_end(pfm_line3(s)));
        }
        let order = match parse_endianness(st3_trim) {
            Ok(o) => o,
            Err(e) => {
                return Err(e);
            },
        };
        proof {
            assert(order == pfm_order(s));
        }
        // Payload.
        let pcount = width * height;
        let base = e3 + 1;
        let avail = n - base;
        proof {
            assert(pfm_rest(s).len() == avail);
        }
        if (avail as u64) < 12u64 * (pcount as u64) {
            return Err(HdrImageErr::PfmFileReadFailure("unexpected end of file".to_owned()));
        }
        if (avail as u64) > 12u64 * (pcount as u64) {
            return Err(HdrImageErr::InvalidPfmFileFormat("find binary content, expected eof".to_owned()));
        }
        let mut img = HdrImage::new(width, height);
        let ghost w = width;
        let ghost h = height;
        let mut yr: u32 = 0;
        let mut p: usize = base;
        while yr < height
            invariant
                0 <= yr <= h,
                p == base + 12 * (yr * w),
                img.wf(),
                img.spec_width() == w,
                img.spec_height() == h,
                forall|g: int|
                    0 <= g < yr * w ==> img.spec_pixels()[(h - 1 - g / (w as int)) * w
                        + g % (w as int)] == #[trigger] color_at(s, base + 12 * g, order),
            decreases h - yr,
        {
            let y = height - 1 - yr;
            let mut x: u32 = 0;
            while x < width
                invariant
                    0 <= x <= w,
                    0 <= yr < h,
                    y == h - 1 - yr,
                    p == base + 12 * (yr * w + x),
                    img.wf(),
                    img.spec_width() == w,
                    img.spec_height() == h,
                    forall|g: int|
                        0 <= g < yr * w + x ==> img.spec_pixels()[(h - 1 - g / (w as int)) * w + g
                            % (w as int)] == #[trigger] color_at(s, base + 12 * g, order),
                decreases w - x,
            {
                let ghost g0 = (yr * w + x) as int;
                proof {
                    lemma_offset_in_range(x, yr, w, h);
                    assert(12 * g0 + 12 <= 12 * (w * h)) by (nonlinear_arith)
                        requires
                            g0 + 1 <= w * h,
                    ;
                    vstd::arithmetic::div_mod::lemma_fundamental_div_mod_converse(
                        g0,
                        w as int,
                        yr as int,
                        x as int,
                    );
                }
                let c = Color {
                    r: read_channel(bytes, p, order),
                    g: read_channel(bytes, p + 4, order),
                    b: read_channel(bytes, p + 8, order),
                };
                proof {
                    assert(color_at(s, base + 12 * g0, order) == c);
                }
                let ghost old_pixels = img.spec_pixels();
                match img.set_pixel(x, y, c) {
                    Ok(()) => {},
                    Err(_) => {
                        proof {
                            assert(false);
                        }
                        return Err(HdrImageErr::OutOfBounds((x, y), (width, height)));
                    },
                }
                proof {
                    lemma_offset_in_range(x, y, w, h);
                    assert(img.spec_pixels() == old_pixels.update((y * w + x) as int, c));
                    assert forall|g: int| 0 <= g < yr * w + x + 1 implies img.spec_pixels()[(h - 1
                        - g / (w as int)) * w + g % (w as int)] == #[trigger] color_at(
                        s,
                        base + 12 * g,
                        order,
                    ) by {
                        vstd::arithmetic::div_mod::lemma_fundamental_div_mod(g, w as int);
                        assert(g < w * h);
                        assert(0 <= g % (w as int) < w && 0 <= g / (w as int) < h)
                            by (nonlinear_arith)
                            requires
                                w > 0,
                                0 <= g < w * h,
                        ;
                        lemma_offset_in_range(
                            (g % (w as int)) as u32,
                            (h - 1 - g / (w as int)) as u32,
                            w,
                            h,
                        );
                        if g < yr * w + x {
                            assert(g / (w as int) != yr || g % (w as int) != x as int) by {
                                if g / (w as int) == yr && g % (w as int) == x as int {
                                    assert(g == (w as int) * (g / (w as int)) + g % (w as int));
                                    assert((w as int) * (yr as int) == (yr as int) * (w as int))
                                        by (nonlinear_arith);
                                    assert(false);
                                }
                            }
                            assert((h - 1 - g / (w as int)) * w + g % (w as int) != (y * w
                                + x) as int) by (nonlinear_arith)
                                requires
                                    0 <= g % (w as int) < w,
                                    0 <= g / (w as int) < h,
                                    0 <= x < w,
                                    0 <= yr < h,
                                    y == h - 1 - yr,
                                    g / (w as int) != yr || g % (w as int) != x as int,
                            ;
                        } else {
                            assert(g == g0);
                        }
                    }
                }
                x = x + 1;
                p = p + 12;
            }
            proof {
                assert((yr * w + w) == ((yr + 1) * w)) by (nonlinear_arith);
            }
            yr = yr + 1;
        }
        proof {
            assert(img.spec_pixels() =~= pfm_pixels(s)) by {
                assert(forall|i: int|
                    0 <= i < w * h ==> #[trigger] pfm_pixels(s)[i] == img.spec_pixels()[i]) by {
                    assert forall|i: int| 0 <= i < w * h implies #[trigger] pfm_pixels(s)[i]
                        == img.spec_pixels()[i] by {
                        vstd::arithmetic::div_mod::lemma_fundamental_div_mod(i, w as int);
                        assert(0 <= i % (w as int) < w && 0 <= i / (w as int) < h)
                            by (nonlinear_arith)
                            requires
                                w > 0,
                                0 <= i < w * h,
                        ;
                        let yy = i / (w as int);
                        let xx = i % (w as int);
                        let g = (h - 1 - yy) * w + xx;
                        lemma_offset_in_range(xx as u32, (h - 1 - yy) as u32, w, h);
                        vstd::arithmetic::div_mod::lemma_fundamental_div_mod_converse(
                            g,
                            w as int,
                            h - 1 - yy,
                            xx,
                        );
                        assert((h - 1 - g / (w as int)) * w + g % (w as int) == i)
                            by (nonlinear_arith)
                            requires
                                g / (w as int) == h - 1 - yy,
                                g % (w as int) == xx,
                                i == yy * (w as int) + xx,
                                0 <= yy < h,
                        ;
                        assert(g < (h as int) * (w as int)) by (nonlinear_arith)
                            requires
                                g < (w as int) * (h as int),
                        ;
                        assert(img.spec_pixels()[i] == color_at(s, base + 12 * g, order));
                        assert(color_at(pfm_rest(s), 12 * g, order) == color_at(
                            s,
                            base + 12 * g,
                            order,
                        )) by {
                            assert(12 * g + 12 <= 12 * (w * h)) by (nonlinear_arith)
                                requires
                                    g + 1 <= w * h,
                            ;
                            assert(forall|q: int|
                                0 <= q < pfm_rest(s).len() ==> #[trigger] pfm_rest(s)[q] == s[base
                                    + q]);
                        }
                    }
                }
            }
        }
        Ok(img)
    }
}


// ---------------------------------------------------------------------
// The round trip: writing an image and reading the bytes back yields
// the image unchanged.
// ---------------------------------------------------------------------

/// A run without newline bytes ends the line scan at `j`.
proof fn lemma_newline_scan(s: Seq<u8>, i: int, j: int)
    requires
        0 <= i <= j <= s.len(),
        forall|k: int| i <= k < j ==> s[k] != 0x0a,
        j < s.len() ==> s[j] == 0x0a,
    ensures
        newline_at(s, i) == if j < s.len() {
            j
        } else {
            s.len() as int
        },
    decreases j - i,
{
    if i < j {
        lemma_newline_scan(s, i + 1, j);
    }
}

/// A run without space bytes ends the token scan at `j`.
proof fn lemma_token_scan(s: Seq<u8>, i: int, j: int)
    requires
        0 <= i <= j <= s.len(),
        forall|k: int| i <= k < j ==> s[k] != 0x20,
        j < s.len() ==> s[j] == 0x20,
    ensures
        token_end(s, i) == j,
    decreases j - i,
{
    if i < j {
        lemma_token_scan(s, i + 1, j);
    }
}

/// A run without exponent markers ends the marker scan at `j`.
proof fn lemma_exp_scan(s: Seq<u8>, i: int, j: int)
    requires
        0 <= i <= j <= s.len(),
        forall|k: int| i <= k < j ==> (s[k] != 0x65 && s[k] != 0x45),
        j < s.len() ==> (s[j] == 0x65 || s[j] == 0x45),
    ensures
        exp_index(s, i) == j,
    decreases j - i,
{
    if i < j {
        lemma_exp_scan(s, i + 1, j);
    }
}

/// ASCII bytes form valid UTF-8 text.
proof fn lemma_ascii_valid_utf8(s: Seq<u8>)
    requires
        forall|k: int| 0 <= k < s.len() ==> s[k] < 0x80,
    ensures
        valid_utf8(s),
{
    assert(s.subrange(0, 0) =~= Seq::<u8>::empty());
    assert(vstd::utf8::partial_valid_utf8(s, 0));
    vstd::utf8::partial_valid_utf8_extend_ascii_block(s, 0, s.len() as int);
    assert(s.subrange(0, s.len() as int) =~= s);
}

/// A string that does not end in whitespace is its own trimming.
proof fn lemma_trim_end_noop(s: Seq<u8>)
    requires
        s.len() > 0 ==> !is_ascii_space(s.last()),
    ensures
        trim_end(s) == s,
{
    assert(trim_end(s) =~= s);
}

/// Twelve payload bytes starting at `p` hold exactly their pixel.
proof fn lemma_color_at_of_bytes(bytes: Seq<u8>, p: int, c: Color, e: ByteOrder)
    requires
        0 <= p,
        p + 12 <= bytes.len(),
        bytes.subrange(p, p + 12) == color_bytes(c, e),
    ensures
        color_at(bytes, p, e) == c,
{
    let group = color_bytes(c, e);
    let ga = channel_bytes(c.r, e);
    let gb = channel_bytes(c.g, e);
    let gc = channel_bytes(c.b, e);
    assert(ga.len() == 4 && gb.len() == 4 && gc.len() == 4);
    assert(forall|k: int| 0 <= k < 12 ==> bytes[p + k] == #[trigger] group[k]);
    assert(forall|k: int| 0 <= k < 4 ==> group[k] == #[trigger] ga[k]);
    assert(forall|k: int| 0 <= k < 4 ==> group[4 + k] == #[trigger] gb[k]);
    assert(forall|k: int| 0 <= k < 4 ==> group[8 + k] == #[trigger] gc[k]);
    lemma_channel_round_trip(c.r, e);
    lemma_channel_round_trip(c.g, e);
    lemma_channel_round_trip(c.b, e);
    assert(channel_at(bytes, p, e) == channel_at(channel_bytes(c.r, e), 0, e));
    assert(channel_at(bytes, p + 4, e) == channel_at(channel_bytes(c.g, e), 0, e));
    assert(channel_at(bytes, p + 8, e) == channel_at(channel_bytes(c.b, e), 0, e));
}

/// Positions of the header lines inside the byte form of an image.
proof fn lemma_pfm_layout(width: u32, height: u32, pixels: Seq<Color>, e: ByteOrder)
    requires
        pixels.len() == width * height,
        width * height <= u32::MAX,
    ensures
        ({
            let s = pfm_bytes(width, height, pixels, e);
            let dw = dec_bytes(width as nat);
            let dh = dec_bytes(height as nat);
            let ef = endian_field(e);
            let payload = pfm_payload(width, height, pixels, e);
            &&& pfm_a1(s) == 2
            &&& pfm_a2(s) == 3 + dw.len() + 1 + dh.len()
            &&& pfm_a3(s) == 3 + dw.len() + 1 + dh.len() + 1 + ef.len()
            &&& pfm_a2(s) < s.len()
            &&& pfm_a3(s) < s.len()
            &&& pfm_line1(s) == seq![0x50u8, 0x46u8]
            &&& pfm_line2(s) == dw + seq![0x20u8] + dh
            &&& pfm_line3(s) == ef
            &&& pfm_rest(s) == payload
        }),
{
    let s = pfm_bytes(width, height, pixels, e);
    let dw = dec_bytes(width as nat);
    let dh = dec_bytes(height as nat);
    let ef = endian_field(e);
    let payload = pfm_payload(width, height, pixels, e);
    lemma_dec_bytes_digits(width as nat);
    lemma_dec_bytes_digits(height as nat);
    let a2: int = 3 + dw.len() as int + 1 + dh.len() as int;
    let b3: int = a2 + 1;
    let a3: int = b3 + ef.len() as int;
    let b4: int = a3 + 1;
    assert(s.len() == b4 + payload.len());
    assert(s[0] == 0x50 && s[1] == 0x46 && s[2] == 0x0a);
    assert(forall|k: int| 0 <= k < dw.len() ==> s[3 + k] == #[trigger] dw[k]);
    assert(s[3 + dw.len() as int] == 0x20);
    assert(forall|k: int| 0 <= k < dh.len() ==> s[3 + dw.len() as int + 1 + k] == #[trigger] dh[k]);
    assert(s[a2] == 0x0a);
    assert(forall|k: int| 0 <= k < ef.len() ==> s[b3 + k] == #[trigger] ef[k]);
    assert(s[a3] == 0x0a);
    lemma_newline_scan(s, 0, 2);
    assert(pfm_a1(s) == 2);
    assert(pfm_line1(s) =~= seq![0x50u8, 0x46u8]);
    assert(forall|k: int|
        0 <= k < dw.len() ==> (is_dec_digit(#[trigger] s[3 + k]) && s[3 + k] != 0x0a));
    assert(forall|k: int|
        0 <= k < dh.len() ==> (is_dec_digit(#[trigger] s[3 + dw.len() as int + 1 + k]) && s[3
            + dw.len() as int + 1 + k] != 0x0a));
    lemma_newline_scan(s, 3, a2);
    assert(pfm_a2(s) == a2);
    assert(pfm_line2(s) =~= dw + seq![0x20u8] + dh);
    assert(forall|k: int|
        0 <= k < ef.len() ==> ((#[trigger] ef[k] == 0x2d || ef[k] == 0x31 || ef[k] == 0x2e
            || ef[k] == 0x30) && ef[k] != 0x0a));
    lemma_newline_scan(s, b3, a3);
    assert(pfm_a3(s) == a3);
    assert(pfm_line3(s) =~= ef);
    assert(pfm_rest(s) =~= payload);
}

/// The header of the byte form of an image is well formed and announces
/// the image's own shape and byte order.
#[verifier::rlimit(100)]
proof fn lemma_pfm_header_good(width: u32, height: u32, pixels: Seq<Color>, e: ByteOrder)
    requires
        pixels.len() == width * height,
        width * height <= u32::MAX,
    ensures
        pfm_check(pfm_bytes(width, height, pixels, e)) == PfmCheck::Good,
        pfm_shape(pfm_bytes(width, height, pixels, e)) == (width, height),
        pfm_order(pfm_bytes(width, height, pixels, e)) == e,
{
    let s = pfm_bytes(width, height, pixels, e);
    let dw = dec_bytes(width as nat);
    let dh = dec_bytes(height as nat);
    let ef = endian_field(e);
    let payload = pfm_payload(width, height, pixels, e);
    lemma_pfm_layout(width, height, pixels, e);
    lemma_dec_bytes_digits(width as nat);
    lemma_dec_bytes_digits(height as nat);
    lemma_dec_round_trip(width as nat);
    lemma_dec_round_trip(height as nat);
    lemma_payload_bytes_len(width, height, pixels, e, (width * height) as nat);
    // Line 1: the magic.
    let line1 = pfm_line1(s);
    lemma_ascii_valid_utf8(line1);
    lemma_trim_end_noop(line1);
    // Line 2: the shape.
    let line2 = pfm_line2(s);
    assert(forall|k: int| 0 <= k < dw.len() ==> (#[trigger] line2[k] == dw[k]));
    assert(line2[dw.len() as int] == 0x20);
    assert(forall|k: int|
        0 <= k < dh.len() ==> (#[trigger] line2[dw.len() as int + 1 + k] == dh[k]));
    assert(forall|k: int| 0 <= k < line2.len() ==> line2[k] < 0x80);
    lemma_ascii_valid_utf8(line2);
    assert(line2.last() == dh.last());
    lemma_trim_end_noop(line2);
    // Tokenizing the shape line gives the two decimal fields.
    assert(forall|k: int| 0 <= k < dw.len() ==> #[trigger] line2[k] != 0x20);
    assert(forall|k: int| dw.len() as int + 1 <= k < line2.len() ==> #[trigger] line2[k] != 0x20);
    lemma_token_scan(line2, 0, dw.len() as int);
    lemma_token_scan(line2, dw.len() as int + 1, line2.len() as int);
    assert(line2.subrange(0, dw.len() as int) =~= dw);
    assert(line2.subrange(dw.len() as int + 1, line2.len() as int) =~= dh);
    assert(tokens(line2) =~= seq![dw, dh]) by {
        assert(tokens_from(line2, 0) == seq![dw] + tokens_from(line2, dw.len() as int));
        assert(tokens_from(line2, dw.len() as int) == tokens_from(line2, dw.len() as int + 1));
        assert(tokens_from(line2, dw.len() as int + 1) == seq![dh] + tokens_from(
            line2,
            line2.len() as int,
        ));
        assert(tokens_from(line2, line2.len() as int) =~= Seq::<Seq<u8>>::empty());
    }
    assert(pfm_shape(s) == (width, height));
    // Line 3: the endianness.
    let line3 = pfm_line3(s);
    assert(forall|k: int|
        0 <= k < ef.len() ==> (#[trigger] ef[k] == 0x2d || ef[k] == 0x31 || ef[k] == 0x2e
            || ef[k] == 0x30));
    assert(forall|k: int| 0 <= k < line3.len() ==> line3[k] < 0x80);
    lemma_ascii_valid_utf8(line3);
    lemma_trim_end_noop(line3);
    let body = float_body(ef);
    assert(body =~= seq![0x31u8, 0x2e, 0x30]);
    assert(!is_nan_body(body) && !is_inf_body(body)) by {
        assert(ascii_lower(body[0]) == 0x31);
    }
    lemma_exp_scan(body, 0, body.len() as int);
    assert(is_mantissa(body)) by {
        assert(is_dec_digit(body[0]));
        assert(forall|i: int, j: int|
            0 <= i < j < body.len() ==> !(#[trigger] body[i] == 0x2e && #[trigger] body[j]
                == 0x2e)) by {
            assert(body[0] != 0x2e && body[2] != 0x2e);
        }
    }
    assert(is_number_body(body)) by {
        assert(body.subrange(0, body.len() as int) =~= body);
    }
    assert(is_float_literal(ef));
    assert(float_positive_magnitude(ef)) by {
        assert(body.subrange(0, body.len() as int) =~= body);
        assert(is_dec_digit(body[0]) && body[0] != 0x30);
    }
    assert(float_negative(ef) == (e == ByteOrder::LittleEndian));
    assert(pfm_order(s) == e);
    // The payload has exactly the announced length.
    assert(pfm_rest(s).len() == 12 * (width * height));
    assert(pfm_check(s) == PfmCheck::Good);
}

/// Writing an image of a well-formed shape and reading the bytes back
/// yields the very same image: the byte form is well formed, announces
/// the same shape and byte order, and its payload decodes to the same
/// pixels, bit for bit.
pub proof fn lemma_pfm_round_trip(width: u32, height: u32, pixels: Seq<Color>, e: ByteOrder)
    requires
        pixels.len() == width * height,
        width * height <= u32::MAX,
    ensures
        pfm_check(pfm_bytes(width, height, pixels, e)) == PfmCheck::Good,
        pfm_shape(pfm_bytes(width, height, pixels, e)) == (width, height),
        pfm_order(pfm_bytes(width, height, pixels, e)) == e,
        pfm_pixels(pfm_bytes(width, height, pixels, e)) == pixels,
{
    let s = pfm_bytes(width, height, pixels, e);
    let payload = pfm_payload(width, height, pixels, e);
    lemma_pfm_layout(width, height, pixels, e);
    lemma_pfm_header_good(width, height, pixels, e);
    lemma_payload_bytes_len(width, height, pixels, e, (width * height) as nat);
    let rest = pfm_rest(s);
    let w = width;
    let h = height;
    assert(pfm_pixels(s) =~= pixels) by {
        assert forall|i: int| 0 <= i < w * h implies #[trigger] pfm_pixels(s)[i] == pixels[i] by {
            assert(w > 0) by (nonlinear_arith)
                requires
                    0 <= i < w * h,
            ;
            vstd::arithmetic::div_mod::lemma_fundamental_div_mod(i, w as int);
            assert(0 <= i % (w as int) < w && 0 <= i / (w as int) < h) by (nonlinear_arith)
                requires
                    w > 0,
                    0 <= i < w * h,
            ;
            let yy = i / (w as int);
            let xx = i % (w as int);
            let g = (h - 1 - yy) * w + xx;
            lemma_offset_in_range(xx as u32, (h - 1 - yy) as u32, w, h);
            vstd::arithmetic::div_mod::lemma_fundamental_div_mod_converse(
                g,
                w as int,
                h - 1 - yy,
                xx,
            );
            assert(g < w * h);
            lemma_payload_bytes_index(w, h, pixels, e, (w * h) as nat, g);
            assert(12 * g + 12 <= 12 * (w * h)) by (nonlinear_arith)
                requires
                    g + 1 <= w * h,
            ;
            assert(payload_group(w, h, pixels, g) == pixels[i]) by {
                assert((h - 1 - g / (w as int)) * w + g % (w as int) == i) by (nonlinear_arith)
                    requires
                        g / (w as int) == h - 1 - yy,
                        g % (w as int) == xx,
                        i == yy * (w as int) + xx,
                        0 <= yy < h,
                        i == (w as int) * yy + xx,
                ;
            }
            lemma_color_at_of_bytes(rest, 12 * g, pixels[i], e);
        }
    }
}

} // verus!
