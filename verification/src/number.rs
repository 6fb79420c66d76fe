//! Whitespace and unsigned decimal and hexadecimal numbers.

use crate::stream::{Error, ErrorKind, ErrorKindSpec, Model, ParseStream, SpecResult, outcome_is};
use vstd::prelude::*;

verus! {

/// The bytes that `u8::is_ascii_whitespace` accepts: space, tab, line feed,
/// form feed and carriage return.
pub open spec fn is_ascii_ws(b: u8) -> bool {
    b == 0x20 || b == 0x09 || b == 0x0a || b == 0x0c || b == 0x0d
}

/// The offset of the first byte at or after `p` that is not whitespace, or the
/// length of `s` when there is none.
pub open spec fn spec_ws_run(s: Seq<u8>, p: int) -> int
    decreases s.len() - p,
{
    if p >= s.len() {
        s.len() as int
    } else if is_ascii_ws(s[p]) {
        spec_ws_run(s, p + 1)
    } else {
        p
    }
}

/// Where [`multispace0`] leaves the stream: after the whitespace at `p`, but only
/// when something other than whitespace follows it; whitespace that runs to the
/// end of the input is left unread.
pub open spec fn spec_ws_end(s: Seq<u8>, p: int) -> int {
    let q = spec_ws_run(s, p);
    if q < s.len() {
        q
    } else {
        p
    }
}

/// Skipping whitespace at `p`.
pub open spec fn spec_multispace0<E>(s: Seq<u8>, p: int) -> SpecResult<Seq<u8>, E> {
    Ok((s.subrange(p, spec_ws_end(s, p)), spec_ws_end(s, p)))
}

pub proof fn lemma_ws_run_bounds(s: Seq<u8>, p: int)
    requires
        0 <= p <= s.len(),
    ensures
        p <= spec_ws_run(s, p) <= s.len(),
        p <= spec_ws_end(s, p) <= s.len(),
        forall|i: int| p <= i < spec_ws_run(s, p) ==> is_ascii_ws(#[trigger] s[i]),
        spec_ws_run(s, p) < s.len() ==> !is_ascii_ws(s[spec_ws_run(s, p)]),
    decreases s.len() - p,
{
    if p < s.len() && is_ascii_ws(s[p]) {
        lemma_ws_run_bounds(s, p + 1);
    }
}

/// The whitespace run at `p` ends at `q` when every byte from `p` to `q` is a
/// space, tab, line feed, form feed or carriage return and the byte at `q`, if
/// any, is none of them.
proof fn lemma_ws_run_ends_at(s: Seq<u8>, p: int, q: int)
    requires
        0 <= p <= q <= s.len(),
        forall|i: int| p <= i < q ==> {
            let b = #[trigger] s[i];
            b == 0x20 || b == 0x09 || b == 0x0a || b == 0x0c || b == 0x0d
        },
        q < s.len() ==> !(s[q] == 0x20 || s[q] == 0x09 || s[q] == 0x0a || s[q] == 0x0c || s[q] == 0x0d),
    ensures
        spec_ws_run(s, p) == q,
    decreases q - p,
{
    if p < q {
        assert(s[p] == 0x20 || s[p] == 0x09 || s[p] == 0x0a || s[p] == 0x0c || s[p] == 0x0d);
        lemma_ws_run_ends_at(s, p + 1, q);
    }
}

/// JSON whitespace is what `u8::is_ascii_whitespace` accepts: space, tab, line
/// feed, form feed and carriage return. Skipping whitespace at `p` reads the
/// whole run of such bytes there when another byte follows it, and reads
/// nothing when the run reaches the end of the input.
pub proof fn lemma_multispace0_skips_ascii_whitespace<E>(s: Seq<u8>, p: int, q: int)
    requires
        0 <= p <= q <= s.len(),
        forall|i: int| p <= i < q ==> {
            let b = #[trigger] s[i];
            b == 0x20 || b == 0x09 || b == 0x0a || b == 0x0c || b == 0x0d
        },
        q < s.len() ==> !(s[q] == 0x20 || s[q] == 0x09 || s[q] == 0x0a || s[q] == 0x0c || s[q] == 0x0d),
    ensures
        q < s.len() ==> spec_multispace0::<E>(s, p) == Ok::<(Seq<u8>, int), (ErrorKindSpec<E>, int)>((s.subrange(p, q), q)),
        q == s.len() ==> spec_multispace0::<E>(s, p) == Ok::<(Seq<u8>, int), (ErrorKindSpec<E>, int)>((Seq::<u8>::empty(), p)),
{
    lemma_ws_run_ends_at(s, p, q);
    assert(s.subrange(p, p) =~= Seq::<u8>::empty());
}

/// Skips whitespace, but only when something other than whitespace follows it.
pub fn multispace0<'i, E>(stream: &mut ParseStream<'i, E>) -> (r: Result<&'i [u8], Error<'i, E>>)
    requires
        old(stream).wf(),
    ensures
        final(stream).wf(),
        final(stream).same_source(old(stream)),
        r is Ok,
        outcome_is(final(stream), &r, spec_multispace0(old(stream).input@, old(stream).pos())),
{
    let ghost s = stream.input@;
    let ghost p = stream.pos();
    proof {
        lemma_ws_run_bounds(s, p);
    }
    let bytes = stream.bytes;
    let mut index: usize = 0;
    while index < bytes.len()
        invariant
            stream.wf(),
            stream.path == old(stream).path,
            stream.input == old(stream).input,
            old(stream).pos() == p,
            bytes == stream.bytes,
            bytes@ == s.subrange(p, s.len() as int),
            p == stream.pos(),
            s == stream.input@,
            0 <= p <= s.len(),
            index <= bytes@.len(),
            p + index <= spec_ws_run(s, p),
            spec_ws_run(s, p) == spec_ws_run(s, p + index),
        decreases bytes@.len() - index,
    {
        assert(bytes@[index as int] == s[p + index]);
        if !is_whitespace(bytes[index]) {
            assert(spec_ws_run(s, p + index) == p + index);
            let slice = vstd::slice::slice_subrange(bytes, 0, index);
            stream.bytes = vstd::slice::slice_subrange(bytes, index, bytes.len());
            assert(stream.bytes@ =~= s.subrange(p + index, s.len() as int));
            assert(slice@ =~= s.subrange(p, p + index));
            return Ok(slice);
        }
        proof {
            lemma_ws_run_bounds(s, p + index + 1);
        }
        index = index + 1;
    }
    let empty = vstd::slice::slice_subrange(bytes, 0, 0);
    assert(empty@ =~= s.subrange(p, p));
    Ok(empty)
}

/// Whether `b` is ASCII whitespace in the sense of `u8::is_ascii_whitespace`.
pub fn is_whitespace(b: u8) -> (r: bool)
    ensures
        r == is_ascii_ws(b),
{
    b == 0x20 || b == 0x09 || b == 0x0a || b == 0x0c || b == 0x0d
}

/// The value of an ASCII decimal digit.
pub open spec fn spec_decimal_digit(c: u8) -> Option<u32> {
    if 0x30 <= c <= 0x39 {
        Some((c - 0x30) as u32)
    } else {
        None
    }
}

/// The value of an ASCII hexadecimal digit, in either case.
pub open spec fn spec_hex_digit(c: u8) -> Option<u32> {
    if 0x30 <= c <= 0x39 {
        Some((c - 0x30) as u32)
    } else if 0x61 <= c <= 0x66 {
        Some((c - 0x61 + 10) as u32)
    } else if 0x41 <= c <= 0x46 {
        Some((c - 0x41 + 10) as u32)
    } else {
        None
    }
}

/// The value of a digit in base 10 (`hex` false) or base 16 (`hex` true).
pub open spec fn spec_digit(hex: bool, c: u8) -> Option<u32> {
    if hex {
        spec_hex_digit(c)
    } else {
        spec_decimal_digit(c)
    }
}

/// The number of leading digits of `t` from offset `i` on.
pub open spec fn spec_digits_end(hex: bool, t: Seq<u8>, i: int) -> int
    decreases t.len() - i,
{
    if i >= t.len() || spec_digit(hex, t[i]) is None {
        i
    } else {
        spec_digits_end(hex, t, i + 1)
    }
}

/// The value of the first `n` digits of `t`, computed with 32-bit wrapping
/// arithmetic.
pub open spec fn spec_digits_value(hex: bool, t: Seq<u8>, n: int) -> u32
    decreases n,
{
    if n <= 0 {
        0
    } else {
        vstd::wrapping::u32_specs::wrapping_add(
            vstd::wrapping::u32_specs::wrapping_mul(
                spec_digits_value(hex, t, n - 1),
                if hex { 16u32 } else { 10u32 },
            ),
            spec_digit(hex, t[n - 1]).unwrap(),
        )
    }
}

/// The value and the length of the run of digits at the start of `t`.
pub open spec fn spec_from_radix(hex: bool, t: Seq<u8>) -> (u32, int) {
    (spec_digits_value(hex, t, spec_digits_end(hex, t, 0)), spec_digits_end(hex, t, 0))
}

pub proof fn lemma_digits_end_bounds(hex: bool, t: Seq<u8>, i: int)
    requires
        0 <= i <= t.len(),
    ensures
        i <= spec_digits_end(hex, t, i) <= t.len(),
        forall|j: int| i <= j < spec_digits_end(hex, t, i) ==> spec_digit(hex, #[trigger] t[j]) is Some,
        spec_digits_end(hex, t, i) < t.len() ==> spec_digit(hex, t[spec_digits_end(hex, t, i)]) is None,
    decreases t.len() - i,
{
    if i < t.len() && spec_digit(hex, t[i]) is Some {
        lemma_digits_end_bounds(hex, t, i + 1);
    }
}

/// The lower-case hexadecimal digit `d`, as an ASCII byte.
pub open spec fn spec_hex_byte(d: nat) -> u8 {
    if d < 10 {
        (0x30 + d) as u8
    } else {
        (0x57 + d) as u8
    }
}

/// `n` in lower-case hexadecimal without leading zeros, as `char::escape_unicode`
/// writes a code point between its braces.
pub open spec fn spec_hex_text(n: nat) -> Seq<u8>
    decreases n,
{
    if n < 16 {
        seq![spec_hex_byte(n)]
    } else {
        spec_hex_text(n / 16).push(spec_hex_byte(n % 16))
    }
}

proof fn lemma_hex_text_digits(n: nat)
    ensures
        spec_hex_text(n).len() >= 1,
        forall|j: int| 0 <= j < spec_hex_text(n).len() ==> #[trigger] spec_hex_digit(spec_hex_text(n)[j]) is Some,
    decreases n,
{
    if n >= 16 {
        lemma_hex_text_digits(n / 16);
        let t = spec_hex_text(n);
        assert forall|j: int| 0 <= j < t.len() implies #[trigger] spec_hex_digit(t[j]) is Some by {
            if j < t.len() - 1 {
                assert(t[j] == spec_hex_text(n / 16)[j]);
            }
        }
    }
}

/// The value of the first `k` digits of `t` depends on those digits alone.
proof fn lemma_digits_value_prefix(hex: bool, t1: Seq<u8>, t2: Seq<u8>, k: int)
    requires
        0 <= k <= t1.len(),
        k <= t2.len(),
        t1.subrange(0, k) == t2.subrange(0, k),
    ensures
        spec_digits_value(hex, t1, k) == spec_digits_value(hex, t2, k),
    decreases k,
{
    if k > 0 {
        assert(t1.subrange(0, k - 1) =~= t1.subrange(0, k).subrange(0, k - 1));
        assert(t2.subrange(0, k - 1) =~= t2.subrange(0, k).subrange(0, k - 1));
        assert(t1[k - 1] == t1.subrange(0, k)[k - 1]);
        assert(t2[k - 1] == t2.subrange(0, k)[k - 1]);
        lemma_digits_value_prefix(hex, t1, t2, k - 1);
    }
}

proof fn lemma_hex_text_value(n: nat)
    requires
        n <= u32::MAX,
    ensures
        spec_digits_value(true, spec_hex_text(n), spec_hex_text(n).len() as int) == n,
    decreases n,
{
    let t = spec_hex_text(n);
    let k = t.len() as int;
    if n < 16 {
        assert(spec_digits_value(true, t, 0) == 0);
    } else {
        let q = n / 16;
        let r = n % 16;
        lemma_hex_text_value(q);
        lemma_hex_text_digits(q);
        let head = spec_hex_text(q);
        assert(t.subrange(0, k - 1) =~= head.subrange(0, k - 1));
        lemma_digits_value_prefix(true, t, head, k - 1);
        assert(spec_hex_digit(t[k - 1]) == Some(r as u32));
        assert(q * 16 + r == n) by (nonlinear_arith)
            requires
                q == n / 16,
                r == n % 16,
        ;
        assert(q * 16 <= u32::MAX);
        let qu: u32 = q as u32;
        assert((qu as nat * 16u32 as nat) % 0x1_0000_0000nat == q * 16);
        assert(vstd::wrapping::u32_specs::wrapping_mul(qu, 16u32) == q * 16);
    }
}

proof fn lemma_digits_end_at(hex: bool, t: Seq<u8>, i: int, end: int)
    requires
        0 <= i <= end < t.len(),
        forall|j: int| i <= j < end ==> #[trigger] spec_digit(hex, t[j]) is Some,
        spec_digit(hex, t[end]) is None,
    ensures
        spec_digits_end(hex, t, i) == end,
    decreases end - i,
{
    if i < end {
        lemma_digits_end_at(hex, t, i + 1, end);
    }
}

/// Reading hexadecimal digits gives back any 32-bit number written in lower-case
/// hexadecimal and followed by the closing brace of a `\u{..}` escape: its value,
/// and the number of its digits.
pub proof fn lemma_from_radix_16_reads_hex(v: u32)
    ensures
        spec_from_radix(true, spec_hex_text(v as nat).push(0x7d)) == (v, spec_hex_text(v as nat).len() as int),
{
    let t = spec_hex_text(v as nat);
    let s = t.push(0x7d);
    lemma_hex_text_digits(v as nat);
    assert forall|j: int| 0 <= j < t.len() implies #[trigger] spec_digit(true, s[j]) is Some by {
        assert(s[j] == t[j]);
    }
    lemma_digits_end_at(true, s, 0, t.len() as int);
    lemma_hex_text_value(v as nat);
    assert(s.subrange(0, t.len() as int) =~= t.subrange(0, t.len() as int));
    lemma_digits_value_prefix(true, s, t, t.len() as int);
}

/// The decimal text of `n`, as error messages write it, in ASCII bytes.
pub open spec fn decimal_bytes(n: nat) -> Seq<u8> {
    crate::message::spec_decimal(n).map_values(|c: char| c as u8)
}

proof fn lemma_decimal_bytes_digits(n: nat)
    ensures
        decimal_bytes(n).len() >= 1,
        forall|j: int| 0 <= j < decimal_bytes(n).len() ==> 0x30 <= #[trigger] decimal_bytes(n)[j] <= 0x39,
        n >= 10 ==> decimal_bytes(n) == decimal_bytes(n / 10).push(((n % 10) + 0x30) as u8),
        n < 10 ==> decimal_bytes(n) == seq![(n + 0x30) as u8],
    decreases n,
{
    if n >= 10 {
        lemma_decimal_bytes_digits(n / 10);
        let t = decimal_bytes(n);
        let h = decimal_bytes(n / 10);
        assert(t =~= h.push(((n % 10) + 0x30) as u8));
    } else {
        assert(decimal_bytes(n) =~= seq![(n + 0x30) as u8]);
    }
}

proof fn lemma_decimal_bytes_value(n: nat)
    requires
        n <= u32::MAX,
    ensures
        spec_digits_value(false, decimal_bytes(n), decimal_bytes(n).len() as int) == n,
    decreases n,
{
    lemma_decimal_bytes_digits(n);
    let t = decimal_bytes(n);
    let k = t.len() as int;
    if n < 10 {
        assert(spec_digits_value(false, t, 0) == 0);
    } else {
        let q = n / 10;
        let r = n % 10;
        lemma_decimal_bytes_value(q);
        lemma_decimal_bytes_digits(q);
        let head = decimal_bytes(q);
        assert(t.subrange(0, k - 1) =~= head.subrange(0, k - 1));
        lemma_digits_value_prefix(false, t, head, k - 1);
        assert(spec_decimal_digit(t[k - 1]) == Some(r as u32));
        assert(q * 10 + r == n) by (nonlinear_arith)
            requires
                q == n / 10,
                r == n % 10,
        ;
        assert(q * 10 <= u32::MAX);
        let qu: u32 = q as u32;
        assert((qu as nat * 10u32 as nat) % 0x1_0000_0000nat == q * 10);
        assert(vstd::wrapping::u32_specs::wrapping_mul(qu, 10u32) == q * 10);
    }
}

proof fn lemma_digits_end_all(hex: bool, t: Seq<u8>, i: int)
    requires
        0 <= i <= t.len(),
        forall|j: int| i <= j < t.len() ==> #[trigger] spec_digit(hex, t[j]) is Some,
    ensures
        spec_digits_end(hex, t, i) == t.len(),
    decreases t.len() - i,
{
    if i < t.len() {
        lemma_digits_end_all(hex, t, i + 1);
    }
}

/// Reading a decimal number inverts writing one: where the input at `p` holds
/// the decimal text of `n`, as error messages write it, and no further digit
/// follows, `n` is read and reading stops just after the text.
pub proof fn lemma_dec_uint_reads_decimal<E>(n: u32, s: Seq<u8>, p: int)
    requires
        0 <= p,
        p + decimal_bytes(n as nat).len() <= s.len(),
        s.subrange(p, p + decimal_bytes(n as nat).len()) == decimal_bytes(n as nat),
        p + decimal_bytes(n as nat).len() < s.len() ==> !(0x30 <= s[p + decimal_bytes(n as nat).len()] <= 0x39),
    ensures
        spec_dec_uint::<E>(s, p) == Ok::<(u32, int), (ErrorKindSpec<E>, int)>((n, p + decimal_bytes(n as nat).len())),
{
    let t = decimal_bytes(n as nat);
    let k = t.len() as int;
    lemma_decimal_bytes_digits(n as nat);
    lemma_decimal_bytes_value(n as nat);
    let u = s.subrange(p, s.len() as int);
    assert forall|j: int| 0 <= j < k implies #[trigger] spec_digit(false, u[j]) is Some by {
        assert(u[j] == s.subrange(p, p + k)[j]);
        assert(0x30 <= t[j] <= 0x39);
    }
    if k < u.len() {
        assert(u[k] == s[p + k]);
        lemma_digits_end_at(false, u, 0, k);
    } else {
        lemma_digits_end_all(false, u, 0);
    }
    assert(u.subrange(0, k) =~= t.subrange(0, k));
    lemma_digits_value_prefix(false, u, t, k);
}

/// Reading hexadecimal digits at the start of `u`, which holds the lower-case
/// hexadecimal text of `v` and then a closing brace, gives `v` and the number
/// of its digits.
pub proof fn lemma_from_radix_16_reads_hex_before_brace(v: u32, u: Seq<u8>)
    requires
        spec_hex_text(v as nat).len() < u.len(),
        u.subrange(0, spec_hex_text(v as nat).len() as int) == spec_hex_text(v as nat),
        u[spec_hex_text(v as nat).len() as int] == 0x7d,
    ensures
        spec_from_radix(true, u) == (v, spec_hex_text(v as nat).len() as int),
{
    let t = spec_hex_text(v as nat);
    let k = t.len() as int;
    lemma_hex_text_digits(v as nat);
    assert forall|j: int| 0 <= j < k implies #[trigger] spec_digit(true, u[j]) is Some by {
        assert(u[j] == u.subrange(0, k)[j]);
    }
    lemma_digits_end_at(true, u, 0, k);
    lemma_hex_text_value(v as nat);
    assert(u.subrange(0, k) =~= t.subrange(0, k));
    lemma_digits_value_prefix(true, u, t, k);
}

pub fn ascii_to_decimal_digit(character: u8) -> (r: Option<u32>)
    ensures
        r == spec_decimal_digit(character),
{
    if character >= 0x30 && character <= 0x39 {
        Some((character - 0x30) as u32)
    } else {
        None
    }
}

pub fn ascii_to_hex_digit(character: u8) -> (r: Option<u32>)
    ensures
        r == spec_hex_digit(character),
{
    if character >= 0x30 && character <= 0x39 {
        Some((character - 0x30) as u32)
    } else if character >= 0x61 && character <= 0x66 {
        Some((character - 0x61 + 10) as u32)
    } else if character >= 0x41 && character <= 0x46 {
        Some((character - 0x41 + 10) as u32)
    } else {
        None
    }
}

fn from_radix(hex: bool, text: &[u8]) -> (r: (u32, usize))
    ensures
        (r.0, r.1 as int) == spec_from_radix(hex, text@),
{
    let mut idx: usize = 0;
    let mut num: u32 = 0;
    while idx != text.len()
        invariant
            idx <= text@.len(),
            spec_digits_end(hex, text@, idx as int) == spec_digits_end(hex, text@, 0),
            num == spec_digits_value(hex, text@, idx as int),
        ensures
            idx == spec_digits_end(hex, text@, 0),
            num == spec_digits_value(hex, text@, idx as int),
        decreases text@.len() - idx,
    {
        let dig = if hex {
            ascii_to_hex_digit(text[idx])
        } else {
            ascii_to_decimal_digit(text[idx])
        };
        if let Some(dig) = dig {
            num = num.wrapping_mul(if hex { 16 } else { 10 });
            num = num.wrapping_add(dig);
            idx = idx + 1;
        } else {
            break;
        }
    }
    (num, idx)
}

/// Reads the decimal digits at the start of `text`: their value, with 32-bit
/// wrapping arithmetic, and how many there are.
pub fn from_radix_10(text: &[u8]) -> (r: (u32, usize))
    ensures
        (r.0, r.1 as int) == spec_from_radix(false, text@),
{
    from_radix(false, text)
}

/// Reads the hexadecimal digits at the start of `text`: their value, with 32-bit
/// wrapping arithmetic, and how many there are.
pub fn from_radix_16(text: &[u8]) -> (r: (u32, usize))
    ensures
        (r.0, r.1 as int) == spec_from_radix(true, text@),
{
    from_radix(true, text)
}

/// Reading an unsigned decimal integer at `p`.
pub open spec fn spec_dec_uint<E>(s: Seq<u8>, p: int) -> SpecResult<u32, E> {
    let (number, needle) = spec_from_radix(false, s.subrange(p, s.len() as int));
    if needle == 0 {
        Err((ErrorKindSpec::FailedParsingJsonUnsignedInteger, p))
    } else {
        Ok((number, p + needle))
    }
}

/// Reads an unsigned decimal integer.
pub fn dec_uint<'i, E>(stream: &mut ParseStream<'i, E>) -> (r: Result<u32, Error<'i, E>>)
    requires
        old(stream).wf(),
    ensures
        final(stream).wf(),
        final(stream).same_source(old(stream)),
        outcome_is(final(stream), &r, spec_dec_uint(old(stream).input@, old(stream).pos())),
{
    let (number, needle) = from_radix_10(stream.bytes);
    proof {
        lemma_digits_end_bounds(false, stream.bytes@, 0);
    }
    if needle == 0 {
        let error = ErrorKind::FailedParsingJsonUnsignedInteger;
        return Err(stream.error(error));
    }
    stream.next_slice(needle)?;
    Ok(number)
}

} // verus!
