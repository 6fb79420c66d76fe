//! JSON strings: their escapes, the two scanning loops, and UTF-8 validation.

use std::borrow::Cow;
use vstd::prelude::*;
use vstd::utf8::{decode_utf8, encode_scalar, is_scalar, valid_utf8};
use crate::number::{from_radix_16, lemma_digits_end_bounds, lemma_from_radix_16_reads_hex_before_brace, spec_from_radix, spec_hex_text};
use crate::stream::{
    literal_at, outcome_is, Error, ErrorKind, ErrorKindSpec, Model, ParseStream, SpecResult, State,
};

verus! {

/// A path in a dependency file: a string.
pub type Utf8Path = str;

/// An owned path in a dependency file: a string.
pub type Utf8PathBuf = String;

/// `"` or `\`: the bytes at which the scan of a string stops.
pub open spec fn is_stop(b: u8) -> bool {
    b == 0x22 || b == 0x5c
}

/// The offset of the first `"` or `\` of `s` at or after `i`.
pub open spec fn spec_find_stop(s: Seq<u8>, i: int) -> Option<int>
    decreases s.len() - i,
{
    if i >= s.len() {
        None
    } else if is_stop(s[i]) {
        Some(i)
    } else {
        spec_find_stop(s, i + 1)
    }
}

pub proof fn lemma_find_stop(s: Seq<u8>, i: int)
    requires
        0 <= i,
    ensures
        match spec_find_stop(s, i) {
            Some(k) => {
                &&& i <= k < s.len()
                &&& is_stop(s[k])
                &&& forall|j: int| i <= j < k ==> !is_stop(#[trigger] s[j])
            },
            None => forall|j: int| i <= j < s.len() ==> !is_stop(#[trigger] s[j]),
        },
    decreases s.len() - i,
{
    if i < s.len() && !is_stop(s[i]) {
        lemma_find_stop(s, i + 1);
    }
}

/// The first `"` or `\\` of the suffix of `s` at `from`, as `memchr2` reports it,
/// is the one that `spec_find_stop` names.
pub proof fn lemma_find_stop_in_suffix(s: Seq<u8>, from: int, hay: Seq<u8>, r: Option<usize>)
    requires
        0 <= from <= s.len(),
        hay == s.subrange(from, s.len() as int),
        match r {
            Some(k) => {
                &&& k < hay.len()
                &&& (hay[k as int] == 0x22 || hay[k as int] == 0x5c)
                &&& forall|j: int| 0 <= j < k ==> #[trigger] hay[j] != 0x22 && hay[j] != 0x5c
            },
            None => forall|j: int| 0 <= j < hay.len() ==> #[trigger] hay[j] != 0x22 && hay[j] != 0x5c,
        },
    ensures
        match r {
            Some(k) => spec_find_stop(s, from) == Some(from + k),
            None => spec_find_stop(s, from) is None,
        },
{
    lemma_find_stop(s, from);
    match spec_find_stop(s, from) {
        Some(k) => {
            assert(hay[k - from] == s[k]);
            match r {
                Some(n) => {
                    assert(hay[n as int] == s[from + n]);
                },
                None => {},
            }
        },
        None => {
            match r {
                Some(n) => {
                    assert(hay[n as int] == s[from + n]);
                },
                None => {},
            }
        },
    }
}

/// The byte that a one-letter escape stands for.
pub open spec fn spec_escaped_byte(c: u8) -> Option<u8> {
    if c == 0x22 {
        Some(0x22u8)
    } else if c == 0x5c {
        Some(0x5cu8)
    } else if c == 0x2f {
        Some(0x2fu8)
    } else if c == 0x62 {
        Some(0x08u8)
    } else if c == 0x66 {
        Some(0x0cu8)
    } else if c == 0x6e {
        Some(0x0au8)
    } else if c == 0x72 {
        Some(0x0du8)
    } else if c == 0x74 {
        Some(0x09u8)
    } else {
        None
    }
}

/// The outcome of decoding an escape: the bytes it stands for and the offset
/// after it, or what went wrong and where.
pub type EscapeResult<E> = Result<(Seq<u8>, int), (ErrorKindSpec<E>, int)>;

/// Decoding `{HEX}` at `p`, the braced code point of a `\u` escape.
pub open spec fn spec_unescape_unicode<E>(s: Seq<u8>, p: int) -> EscapeResult<E> {
    if p >= s.len() {
        Err((ErrorKindSpec::NextByte, p))
    } else if s[p] != 0x7b {
        Err((ErrorKindSpec::ByteMismatch { expected: 0x7bu8 }, p + 1))
    } else {
        let (unicode, n) = spec_from_radix(true, s.subrange(p + 1, s.len() as int));
        let q = p + 1 + n;
        if q >= s.len() {
            Err((ErrorKindSpec::NextByte, q))
        } else if s[q] != 0x7d {
            Err((ErrorKindSpec::ByteMismatch { expected: 0x7du8 }, q + 1))
        } else if !is_scalar(unicode) {
            Err((ErrorKindSpec::CharFromUnicodeFailed { unicode }, q + 1))
        } else {
            Ok((encode_scalar(unicode), q + 1))
        }
    }
}

/// Decoding the escape whose letter is at `p`, just after a backslash.
pub open spec fn spec_unescape<E>(s: Seq<u8>, p: int) -> EscapeResult<E> {
    if p >= s.len() {
        Err((ErrorKindSpec::NextByte, p))
    } else if s[p] == 0x75 {
        spec_unescape_unicode(s, p + 1)
    } else {
        match spec_escaped_byte(s[p]) {
            Some(b) => Ok((seq![b], p + 1)),
            None => Err((ErrorKindSpec::FailedParsingJsonStringEscape, p + 1)),
        }
    }
}

/// Reading an escape inverts the escaping of error messages where the two
/// agree: a tab, carriage return, line feed, double quote or backslash, which a
/// message writes as a backslash and one letter (`\\t`, `\\r`, `\\n`, `\\"`,
/// `\\\\`), is what that letter after a backslash is read as in a JSON string.
pub proof fn lemma_unescape_inverts_escape<E>(b: u8, s: Seq<u8>, p: int)
    requires
        b == 0x09 || b == 0x0d || b == 0x0a || b == 0x22 || b == 0x5c,
        0 <= p < s.len(),
        crate::message::spec_escape_byte(b).len() == 2 ==> s[p] == crate::message::spec_escape_byte(b)[1] as u8,
    ensures
        crate::message::spec_escape_byte(b).len() == 2,
        crate::message::spec_escape_byte(b)[0] == '\\',
        spec_unescape::<E>(s, p) == Ok::<(Seq<u8>, int), (ErrorKindSpec<E>, int)>((seq![b], p + 1)),
{
}

/// The short escapes of JSON: after a backslash, `"` is a double quote, `\\`
/// a backslash, `/` a slash, `b` a backspace, `f` a form feed, `n` a line feed,
/// `r` a carriage return and `t` a tab; each is one letter long.
pub proof fn lemma_unescape_short_escapes<E>(s: Seq<u8>, p: int)
    requires
        0 <= p < s.len(),
    ensures
        s[p] == '"' as u8 ==> spec_unescape::<E>(s, p) == Ok::<(Seq<u8>, int), (ErrorKindSpec<E>, int)>((seq![0x22u8], p + 1)),
        s[p] == '\\' as u8 ==> spec_unescape::<E>(s, p) == Ok::<(Seq<u8>, int), (ErrorKindSpec<E>, int)>((seq![0x5cu8], p + 1)),
        s[p] == '/' as u8 ==> spec_unescape::<E>(s, p) == Ok::<(Seq<u8>, int), (ErrorKindSpec<E>, int)>((seq![0x2fu8], p + 1)),
        s[p] == 'b' as u8 ==> spec_unescape::<E>(s, p) == Ok::<(Seq<u8>, int), (ErrorKindSpec<E>, int)>((seq![0x08u8], p + 1)),
        s[p] == 'f' as u8 ==> spec_unescape::<E>(s, p) == Ok::<(Seq<u8>, int), (ErrorKindSpec<E>, int)>((seq![0x0cu8], p + 1)),
        s[p] == 'n' as u8 ==> spec_unescape::<E>(s, p) == Ok::<(Seq<u8>, int), (ErrorKindSpec<E>, int)>((seq![0x0au8], p + 1)),
        s[p] == 'r' as u8 ==> spec_unescape::<E>(s, p) == Ok::<(Seq<u8>, int), (ErrorKindSpec<E>, int)>((seq![0x0du8], p + 1)),
        s[p] == 't' as u8 ==> spec_unescape::<E>(s, p) == Ok::<(Seq<u8>, int), (ErrorKindSpec<E>, int)>((seq![0x09u8], p + 1)),
{
}

/// Reading a `\\u` escape inverts `char::escape_unicode`: where the input at
/// `p` holds `{`, the lower-case hexadecimal digits of a Unicode scalar value
/// `v` and `}`, what is read is the UTF-8 encoding of `v`, and reading stops
/// just after the brace.
pub proof fn lemma_unescape_unicode_reads_scalar<E>(v: u32, s: Seq<u8>, p: int)
    requires
        is_scalar(v),
        0 <= p,
        p + spec_hex_text(v as nat).len() + 2 <= s.len(),
        s[p] == 0x7b,
        s.subrange(p + 1, p + 1 + spec_hex_text(v as nat).len()) == spec_hex_text(v as nat),
        s[p + 1 + spec_hex_text(v as nat).len()] == 0x7d,
    ensures
        spec_unescape_unicode::<E>(s, p) == Ok::<(Seq<u8>, int), (ErrorKindSpec<E>, int)>((
            encode_scalar(v),
            p + spec_hex_text(v as nat).len() + 2,
        )),
{
    let k = spec_hex_text(v as nat).len() as int;
    let u = s.subrange(p + 1, s.len() as int);
    assert(u.subrange(0, k) =~= s.subrange(p + 1, p + 1 + k));
    assert(u[k] == s[p + 1 + k]);
    lemma_from_radix_16_reads_hex_before_brace(v, u);
}

/// A JSON string without escapes is read as its own bytes, quotes included:
/// where the input at `p` holds a quote, then bytes that are neither a quote
/// nor a backslash, then a quote at `q`, the text read is those bytes decoded
/// as UTF-8, it borrows from the input, and reading stops just after the
/// closing quote. Bytes that are not UTF-8 are refused.
pub proof fn lemma_plain_string_reads_its_bytes<E>(s: Seq<u8>, p: int, q: int)
    requires
        0 <= p < q < s.len(),
        s[p] == 0x22,
        s[q] == 0x22,
        forall|j: int| p < j < q ==> #[trigger] s[j] != 0x22 && s[j] != 0x5c,
    ensures
        !spec_string_owned::<E>(s, p, false),
        valid_utf8(s.subrange(p, q + 1)) ==> spec_json_string::<E>(s, p, false) == Ok::<(Seq<char>, int), (ErrorKindSpec<E>, int)>((
            decode_utf8(s.subrange(p, q + 1)),
            q + 1,
        )),
        !valid_utf8(s.subrange(p, q + 1)) ==> spec_json_string::<E>(s, p, false) is Err,
{
    lemma_find_stop(s, p + 1);
    assert(!is_stop(s[q]) ==> false);
    if spec_find_stop(s, p + 1) != Some(q) {
        let k = spec_find_stop(s, p + 1)->0;
        if k < q {
            assert(s[k] != 0x22 && s[k] != 0x5c);
        } else {
            assert(!is_stop(s[q]));
        }
    }
}

/// The outcome of an escape, without the bytes.
pub open spec fn spec_unit<E>(r: EscapeResult<E>) -> SpecResult<(), E> {
    match r {
        Ok((_, q)) => Ok(((), q)),
        Err(e) => Err(e),
    }
}

pub proof fn lemma_unescape_bounds<E>(s: Seq<u8>, p: int)
    requires
        0 <= p,
    ensures
        spec_unescape::<E>(s, p) matches Ok((b, q)) ==> p < q <= s.len() && b.len() > 0,
{
    if p < s.len() && s[p] == 0x75 && p + 1 < s.len() && s[p + 1] == 0x7b {
        lemma_digits_end_bounds(true, s.subrange(p + 2, s.len() as int), 0);
    }
}

/// The outcome of scanning the body of a string: its raw bytes, whether an escape
/// was decoded into them, and the offset after the closing quote.
pub type ScanResult<E> = Result<(Seq<u8>, bool, int), (ErrorKindSpec<E>, int)>;

/// Scanning a string body from the stream offset `q`, with the bytes `text`
/// decoded so far. The search for the next `"` or `\` starts one byte after `q`
/// when `skip` holds; after an escape it skips that byte again when `resume_skip`
/// holds.
pub open spec fn spec_scan<E>(s: Seq<u8>, q: nat, skip: bool, text: Seq<u8>, resume_skip: bool) -> ScanResult<E>
    decreases s.len() - q,
{
    let from: int = if skip { q + 1int } else { q as int };
    match spec_find_stop(s, from) {
        None => Err((ErrorKindSpec::EndOfStringNotFound, q as int)),
        Some(k) => {
            if s[k] == 0x22 {
                let data = s.subrange(q as int, k + 1);
                if text.len() == 0 {
                    Ok((data, false, k + 1))
                } else {
                    Ok((text + data, true, k + 1))
                }
            } else {
                match spec_unescape::<E>(s, k + 1) {
                    Err(e) => Err(e),
                    Ok((esc, q2)) => {
                        proof {
                            lemma_find_stop(s, from);
                            lemma_unescape_bounds::<E>(s, k + 1);
                        }
                        spec_scan(s, q2 as nat, resume_skip, text + s.subrange(q as int, k) + esc, resume_skip)
                    },
                }
            }
        },
    }
}

/// Which error type a scan reports leaves what it reads unchanged.
pub proof fn lemma_scan_any_error<E1, E2>(s: Seq<u8>, q: nat, skip: bool, text: Seq<u8>, resume_skip: bool)
    ensures
        spec_scan::<E1>(s, q, skip, text, resume_skip) is Ok <==> spec_scan::<E2>(s, q, skip, text, resume_skip) is Ok,
        spec_scan::<E1>(s, q, skip, text, resume_skip) is Ok ==> spec_scan::<E1>(s, q, skip, text, resume_skip)->Ok_0
            == spec_scan::<E2>(s, q, skip, text, resume_skip)->Ok_0,
    decreases s.len() - q,
{
    let from: int = if skip { q + 1int } else { q as int };
    if let Some(k) = spec_find_stop(s, from) {
        if s[k] != 0x22 {
            if let Ok((esc, q2)) = spec_unescape::<E1>(s, k + 1) {
                lemma_find_stop(s, from);
                lemma_unescape_bounds::<E1>(s, k + 1);
                lemma_scan_any_error::<E1, E2>(s, q2 as nat, resume_skip, text + s.subrange(q as int, k) + esc, resume_skip);
            }
        }
    }
}

/// Which error type the reading of a string reports leaves its text, and
/// whether it is a copy, unchanged.
pub proof fn lemma_json_string_any_error<E1, E2>(s: Seq<u8>, p: int)
    ensures
        spec_json_string::<E1>(s, p, false) is Ok <==> spec_json_string::<E2>(s, p, false) is Ok,
        spec_json_string::<E1>(s, p, false) is Ok ==> spec_json_string::<E1>(s, p, false)->Ok_0
            == spec_json_string::<E2>(s, p, false)->Ok_0,
        spec_string_owned::<E1>(s, p, false) == spec_string_owned::<E2>(s, p, false),
{
    if p < s.len() && s[p] == 0x22 {
        lemma_scan_any_error::<E1, E2>(s, p as nat, true, Seq::empty(), false);
    }
}

/// Scanning the string at `p`: its raw bytes, whether they were decoded from an
/// escape, and the offset after it.
pub open spec fn spec_string_scan<E>(s: Seq<u8>, p: int, resume_skip: bool) -> ScanResult<E> {
    if p >= s.len() {
        Err((ErrorKindSpec::NextByte, p))
    } else if s[p] != 0x22 {
        Err((ErrorKindSpec::ByteMismatch { expected: 0x22u8 }, p))
    } else {
        spec_scan(s, p as nat, true, Seq::empty(), resume_skip)
    }
}

/// Reading the JSON string at `p`. Its value keeps the surrounding quotes.
pub open spec fn spec_json_string<E>(s: Seq<u8>, p: int, resume_skip: bool) -> SpecResult<Seq<char>, E> {
    match spec_string_scan::<E>(s, p, resume_skip) {
        Err(e) => Err(e),
        Ok((bytes, owned, q)) => {
            if valid_utf8(bytes) {
                Ok((decode_utf8(bytes), q))
            } else if owned {
                Err((ErrorKindSpec::Utf8ValidationFailedVal, q))
            } else {
                Err((ErrorKindSpec::Utf8ValidationFailedPtr, q))
            }
        },
    }
}

/// Whether the value of the string at `p` was decoded from an escape, and so is
/// owned rather than borrowed from the input.
pub open spec fn spec_string_owned<E>(s: Seq<u8>, p: int, resume_skip: bool) -> bool {
    spec_string_scan::<E>(s, p, resume_skip) matches Ok((_, owned, _)) && owned
}

/// Once bytes were decoded, the scan ends with owned bytes, after its start.
pub proof fn lemma_scan_keeps_owned<E>(s: Seq<u8>, q: nat, skip: bool, text: Seq<u8>, resume_skip: bool)
    requires
        text.len() > 0,
        spec_scan::<E>(s, q, skip, text, resume_skip) is Ok,
    ensures
        spec_scan::<E>(s, q, skip, text, resume_skip) matches Ok((_, owned, end)) && owned && end > q,
    decreases s.len() - q,
{
    let from: int = if skip { q + 1int } else { q as int };
    lemma_find_stop(s, from);
    let k = spec_find_stop(s, from)->0;
    if s[k] != 0x22 {
        lemma_unescape_bounds::<E>(s, k + 1);
        let (esc, q2) = spec_unescape::<E>(s, k + 1)->Ok_0;
        lemma_scan_keeps_owned::<E>(s, q2 as nat, resume_skip, text + s.subrange(q as int, k) + esc, resume_skip);
    }
}

/// A string's value is owned exactly when a backslash stands between its quotes;
/// otherwise it is the bytes of the input from the opening to the closing quote.
pub proof fn lemma_string_owned_iff_escaped<E>(s: Seq<u8>, p: int, resume_skip: bool)
    requires
        0 <= p,
        spec_string_scan::<E>(s, p, resume_skip) is Ok,
    ensures
        spec_string_scan::<E>(s, p, resume_skip) matches Ok((bytes, owned, end)) && {
            &&& p < end <= s.len()
            &&& owned <==> exists|j: int| p < j < end && s[j] == 0x5c
            &&& !owned ==> bytes == s.subrange(p, end)
        },
{
    lemma_find_stop(s, p + 1);
    let k = spec_find_stop(s, p + 1)->0;
    if s[k] != 0x22 {
        lemma_unescape_bounds::<E>(s, k + 1);
        let (esc, q2) = spec_unescape::<E>(s, k + 1)->Ok_0;
        let text = Seq::<u8>::empty() + s.subrange(p, k) + esc;
        lemma_scan_keeps_owned::<E>(s, q2 as nat, resume_skip, text, resume_skip);
        lemma_scan_end_bound::<E>(s, q2 as nat, resume_skip, text, resume_skip);
    } else {
        assert forall|j: int| p < j < k + 1 implies s[j] != 0x5c by {
            if j < k {
                assert(!is_stop(s[j]));
            }
        }
    }
}

/// A scan that succeeds ends within the input.
pub proof fn lemma_scan_end_bound<E>(s: Seq<u8>, q: nat, skip: bool, text: Seq<u8>, resume_skip: bool)
    requires
        spec_scan::<E>(s, q, skip, text, resume_skip) is Ok,
    ensures
        spec_scan::<E>(s, q, skip, text, resume_skip) matches Ok((_, _, end)) && end <= s.len(),
    decreases s.len() - q,
{
    let from: int = if skip { q + 1int } else { q as int };
    lemma_find_stop(s, from);
    let k = spec_find_stop(s, from)->0;
    if s[k] != 0x22 {
        lemma_unescape_bounds::<E>(s, k + 1);
        let (esc, q2) = spec_unescape::<E>(s, k + 1)->Ok_0;
        lemma_scan_end_bound::<E>(s, q2 as nat, resume_skip, text + s.subrange(q as int, k) + esc, resume_skip);
    }
}

/// Whether, in the body of a string scanned from `q`, no escape is directly
/// followed by `"` or `\\`: the byte that the scan resumes at after an escape is
/// never one at which it would stop.
pub open spec fn spec_escapes_end_clear<E>(s: Seq<u8>, q: nat, skip: bool) -> bool
    decreases s.len() - q,
{
    let from: int = if skip { q + 1int } else { q as int };
    match spec_find_stop(s, from) {
        None => true,
        Some(k) => {
            if s[k] == 0x22 {
                true
            } else {
                match spec_unescape::<E>(s, k + 1) {
                    Err(_) => true,
                    Ok((_, q2)) => {
                        proof {
                            lemma_find_stop(s, from);
                            lemma_unescape_bounds::<E>(s, k + 1);
                        }
                        &&& (q2 < s.len() ==> !is_stop(s[q2]))
                        &&& spec_escapes_end_clear::<E>(s, q2 as nat, false)
                    },
                }
            }
        },
    }
}

/// Where the byte at `q` is no stop, a scan from `q` finds what a scan from one
/// byte later finds.
proof fn lemma_scan_skip_clear<E>(s: Seq<u8>, q: nat, text: Seq<u8>, resume_skip: bool)
    requires
        q < s.len() ==> !is_stop(s[q as int]),
    ensures
        spec_scan::<E>(s, q, false, text, resume_skip) == spec_scan::<E>(s, q, true, text, resume_skip),
{
    assert(spec_find_stop(s, q as int) == spec_find_stop(s, q + 1int));
}

/// Resuming one byte past an escape, or at it, scans the same string when no
/// escape is directly followed by a stop.
proof fn lemma_scan_resume_agree<E>(s: Seq<u8>, q: nat, skip: bool, text: Seq<u8>)
    requires
        spec_escapes_end_clear::<E>(s, q, skip),
    ensures
        spec_scan::<E>(s, q, skip, text, false) == spec_scan::<E>(s, q, skip, text, true),
    decreases s.len() - q,
{
    let from: int = if skip { q + 1int } else { q as int };
    lemma_find_stop(s, from);
    match spec_find_stop(s, from) {
        None => {},
        Some(k) => {
            if s[k] != 0x22 {
                lemma_unescape_bounds::<E>(s, k + 1);
                match spec_unescape::<E>(s, k + 1) {
                    Err(_) => {},
                    Ok((esc, q2)) => {
                        let t = text + s.subrange(q as int, k) + esc;
                        lemma_scan_resume_agree::<E>(s, q2 as nat, false, t);
                        lemma_scan_skip_clear::<E>(s, q2 as nat, t, true);
                    },
                }
            }
        },
    }
}

/// The two string readers, [`json_string`] and [`json_string_sans_memchr`],
/// read the same string at `p` whenever no escape in it is directly followed
/// by `"` or `\\`.
pub proof fn lemma_json_string_readers_agree<E>(s: Seq<u8>, p: int)
    requires
        0 <= p,
        spec_escapes_end_clear::<E>(s, p as nat, true),
    ensures
        spec_json_string::<E>(s, p, false) == spec_json_string::<E>(s, p, true),
        spec_string_owned::<E>(s, p, false) == spec_string_owned::<E>(s, p, true),
{
    lemma_scan_resume_agree::<E>(s, p as nat, true, Seq::empty());
}

/// `memchr::memchr2`: the index of the first byte of `haystack` that is
/// `needle1` or `needle2`, or `None` when no byte is.
#[verifier::external_body]
fn memchr2(needle1: u8, needle2: u8, haystack: &[u8]) -> (r: Option<usize>)
    ensures
        match r {
            Some(k) => {
                &&& k < haystack@.len()
                &&& (haystack@[k as int] == needle1 || haystack@[k as int] == needle2)
                &&& forall|j: int| 0 <= j < k ==> #[trigger] haystack@[j] != needle1 && haystack@[j] != needle2
            },
            None => forall|j: int| 0 <= j < haystack@.len() ==> #[trigger] haystack@[j] != needle1 && haystack@[j] != needle2,
        },
{
    memchr::memchr2(needle1, needle2, haystack)
}

/// `core::str::from_utf8`: the bytes as a string slice when they are valid
/// UTF-8, and an error when they are not.
#[verifier::external_body]
fn str_from_utf8<'a>(v: &'a [u8]) -> (r: Result<&'a str, core::str::Utf8Error>)
    ensures
        match r {
            Ok(s) => valid_utf8(v@) && s@ == decode_utf8(v@),
            Err(_) => !valid_utf8(v@),
        },
{
    core::str::from_utf8(v)
}

/// `String::from_utf8`: the bytes as a string when they are valid UTF-8, and
/// an error when they are not.
#[verifier::external_body]
fn string_from_utf8(v: Vec<u8>) -> (r: Result<String, std::string::FromUtf8Error>)
    ensures
        match r {
            Ok(s) => valid_utf8(v@) && s@ == decode_utf8(v@),
            Err(_) => !valid_utf8(v@),
        },
{
    String::from_utf8(v)
}

/// Makes `cow` own its bytes, with room for `off` more.
pub fn to_mut_with_reserve<'i>(cow: &mut Cow<'i, [u8]>, off: usize)
    ensures
        *final(cow) is Owned,
        final(cow)@ == old(cow)@,
{
    match cow {
        Cow::Borrowed(slice) => {
            let mut buf: Vec<u8> = Vec::with_capacity(slice.len().saturating_add(off));
            buf.extend_from_slice(slice);
            *cow = Cow::Owned(buf);
        },
        Cow::Owned(buf) => {
            buf.reserve(off);
        },
    }
}

/// Appends `data` to the owned bytes of `cow`.
fn extend_owned<'i>(cow: &mut Cow<'i, [u8]>, data: &[u8])
    requires
        *old(cow) is Owned,
    ensures
        *final(cow) is Owned,
        final(cow)@ == old(cow)@ + data@,
{
    match cow {
        Cow::Owned(buf) => {
            buf.extend_from_slice(data);
        },
        Cow::Borrowed(_) => {},
    }
}

/// Appends `data` and then the byte `char` to `text`.
fn extend_bytes<'i>(text: &mut Cow<'i, [u8]>, data: &'i [u8], char: u8)
    ensures
        *final(text) is Owned,
        final(text)@ == old(text)@ + data@ + seq![char],
{
    to_mut_with_reserve(text, data.len().saturating_add(1));
    extend_owned(text, data);
    match text {
        Cow::Owned(buf) => {
            buf.push(char);
        },
        Cow::Borrowed(_) => {},
    }
}

/// Whether `u` is a Unicode scalar value, the values that `char::from_u32` accepts.
pub fn is_unicode_scalar(u: u32) -> (r: bool)
    ensures
        r == is_scalar(u),
{
    u <= 0x7f || (0x80 <= u && u <= 0x7ff) || (0x800 <= u && u <= 0xffff && !(0xd800 <= u
        && u <= 0xdfff)) || (0x10000 <= u && u <= 0x10ffff)
}

/// The UTF-8 encoding of the scalar value `c`: four bytes, of which the first
/// `n` are the encoding.
fn encode_scalar_bytes(c: u32) -> (r: ([u8; 4], usize))
    requires
        is_scalar(c),
    ensures
        1 <= r.1 <= 4,
        r.0@.subrange(0, r.1 as int) == encode_scalar(c),
{
    if c <= 0x7f {
        let buf = [(c & 0x7F) as u8, 0u8, 0u8, 0u8];
        assert(buf@.subrange(0, 1) =~= encode_scalar(c));
        (buf, 1)
    } else if c <= 0x7ff {
        let buf = [0xC0 | ((c >> 6) & 0x1F) as u8, 0x80 | (c & 0x3F) as u8, 0u8, 0u8];
        assert(buf@.subrange(0, 2) =~= encode_scalar(c));
        (buf, 2)
    } else if c <= 0xffff {
        let buf = [
            0xE0 | ((c >> 12) & 0x0F) as u8,
            0x80 | ((c >> 6) & 0x3F) as u8,
            0x80 | (c & 0x3F) as u8,
            0u8,
        ];
        assert(buf@.subrange(0, 3) =~= encode_scalar(c));
        (buf, 3)
    } else {
        let buf = [
            0xF0 | ((c >> 18) & 0x7) as u8,
            0x80 | ((c >> 12) & 0x3F) as u8,
            0x80 | ((c >> 6) & 0x3F) as u8,
            0x80 | (c & 0x3F) as u8,
        ];
        assert(buf@.subrange(0, 4) =~= encode_scalar(c));
        (buf, 4)
    }
}

impl State {
    /// Appends `src` and then the UTF-8 encoding of `esc` to `dst`, encoding
    /// through the scratch buffer, which is left zeroed.
    pub fn encode_utf8<'i>(&mut self, dst: &mut Cow<'i, [u8]>, src: &'i [u8], esc: u32)
        requires
            is_scalar(esc),
        ensures
            *final(dst) is Owned,
            final(dst)@ == old(dst)@ + src@ + encode_scalar(esc),
            final(self).buffer() == seq![0u8, 0u8, 0u8, 0u8],
    {
        let (buf, len) = encode_scalar_bytes(esc);
        to_mut_with_reserve(dst, src.len().saturating_add(len));
        self.utf8_encode_buffer = buf;
        let esc_bytes = vstd::slice::slice_subrange(self.utf8_encode_buffer.as_slice(), 0, len);
        extend_owned(dst, src);
        extend_owned(dst, esc_bytes);
        self.reset_buffer();
    }
}

/// Decodes `{HEX}`, the braced code point of a `\\u` escape, and appends `src`
/// and then the code point's UTF-8 encoding to `dst`; on an error `dst` is
/// left as it was.
pub fn unescape_unicode<'i, E>(
    stream: &mut ParseStream<'i, E>,
    dst: &mut Cow<'i, [u8]>,
    src: &'i [u8],
) -> (r: Result<(), Error<'i, E>>)
    requires
        old(stream).wf(),
    ensures
        final(stream).wf(),
        final(stream).same_source(old(stream)),
        outcome_is(final(stream), &r, spec_unit(spec_unescape_unicode::<E>(old(stream).input@, old(stream).pos()))),
        r is Ok ==> {
            &&& *final(dst) is Owned
            &&& final(dst)@ == old(dst)@ + src@ + spec_unescape_unicode::<E>(old(stream).input@, old(stream).pos())->Ok_0.0
        },
        r is Err ==> *final(dst) == *old(dst),
{
    let ghost s = stream.input@;
    let ghost p = stream.pos();
    stream.match_byte(0x7b)?;
    let (unicode, needle) = from_radix_16(stream.bytes);
    proof {
        lemma_digits_end_bounds(true, stream.bytes@, 0);
        assert(stream.bytes@ =~= s.subrange(p + 1, s.len() as int));
    }
    stream.next_slice(needle)?;
    stream.match_byte(0x7d)?;
    if !is_unicode_scalar(unicode) {
        let error = ErrorKind::CharFromUnicodeFailed { unicode };
        return Err(stream.error(error));
    }
    stream.state.encode_utf8(dst, src, unicode);
    Ok(())
}

/// Decodes the escape whose backslash ends `src`, and appends the rest of `src`
/// and then the decoded bytes to `dst`.
pub fn unescape<'i, E>(
    stream: &mut ParseStream<'i, E>,
    dst: &mut Cow<'i, [u8]>,
    src: &'i [u8],
) -> (r: Result<(), Error<'i, E>>)
    requires
        old(stream).wf(),
        src@.len() > 0,
    ensures
        final(stream).wf(),
        final(stream).same_source(old(stream)),
        outcome_is(final(stream), &r, spec_unit(spec_unescape::<E>(old(stream).input@, old(stream).pos()))),
        r is Ok ==> {
            &&& *final(dst) is Owned
            &&& final(dst)@ == old(dst)@ + src@.drop_last() + spec_unescape::<E>(old(stream).input@, old(stream).pos())->Ok_0.0
        },
        r is Err ==> *final(dst) == *old(dst),
{
    let src = vstd::slice::slice_subrange(src, 0, src.len() - 1);
    match stream.next_byte()? {
        0x22 => extend_bytes(dst, src, 0x22),
        0x5c => extend_bytes(dst, src, 0x5c),
        0x2f => extend_bytes(dst, src, 0x2f),
        0x62 => extend_bytes(dst, src, 0x08),
        0x66 => extend_bytes(dst, src, 0x0c),
        0x6e => extend_bytes(dst, src, 0x0a),
        0x72 => extend_bytes(dst, src, 0x0d),
        0x74 => extend_bytes(dst, src, 0x09),
        0x75 => unescape_unicode(stream, dst, src)?,
        _ => return Err(stream.error(ErrorKind::FailedParsingJsonStringEscape)),
    }
    Ok(())
}

/// Turns the bytes of a string into text: borrowed bytes into a borrowed `str`,
/// owned bytes into a `String`. Invalid UTF-8 is an error at the stream's offset.
pub fn bstr_to_utf8<'i, E>(stream: &ParseStream<'i, E>, cow: Cow<'i, [u8]>) -> (r: Result<Cow<'i, str>, Error<'i, E>>)
    requires
        stream.wf(),
    ensures
        match r {
            Ok(v) => {
                &&& valid_utf8(cow@)
                &&& v@ == decode_utf8(cow@)
                &&& (v is Owned <==> cow is Owned)
            },
            Err(e) => {
                &&& !valid_utf8(cow@)
                &&& e.error.model() == if cow is Owned {
                    ErrorKindSpec::<E>::Utf8ValidationFailedVal
                } else {
                    ErrorKindSpec::<E>::Utf8ValidationFailedPtr
                }
                &&& e.path == stream.path
                &&& e.input == stream.input
                &&& e.bytes == stream.bytes
            },
        },
{
    match cow {
        Cow::Borrowed(ptr) => {
            match str_from_utf8(ptr) {
                Ok(str) => Ok(Cow::Borrowed(str)),
                Err(err) => {
                    let error = ErrorKind::Utf8ValidationFailedPtr { err };
                    Err(stream.error(error))
                },
            }
        },
        Cow::Owned(val) => {
            match string_from_utf8(val) {
                Ok(str) => Ok(Cow::Owned(str)),
                Err(err) => {
                    let error = ErrorKind::Utf8ValidationFailedVal { err };
                    Err(stream.error(error))
                },
            }
        },
    }
}

/// Whether `text` holds no bytes.
fn cow_is_empty(text: &Cow<[u8]>) -> (r: bool)
    ensures
        r == (text@.len() == 0),
{
    match text {
        Cow::Borrowed(slice) => slice.len() == 0,
        Cow::Owned(buf) => buf.len() == 0,
    }
}

/// Appends the last chunk `data` of a string, which ends with its closing
/// quote, to the bytes decoded so far: the string borrows `data` when nothing
/// was decoded.
fn finish_text<'i>(text: &mut Cow<'i, [u8]>, data: &'i [u8])
    requires
        *old(text) is Borrowed ==> old(text)@.len() == 0,
        *old(text) is Owned ==> old(text)@.len() > 0,
    ensures
        old(text)@.len() == 0 ==> *final(text) is Borrowed && final(text)@ == data@,
        old(text)@.len() != 0 ==> *final(text) is Owned && final(text)@ == old(text)@ + data@,
{
    if cow_is_empty(text) {
        *text = Cow::Borrowed(data);
    } else {
        extend_owned(text, data);
    }
}

/// Reads a JSON string, finding its quotes and backslashes with `memchr`. Its
/// value keeps the surrounding quotes; it borrows from the input unless an escape
/// was decoded.
#[verifier::rlimit(40)]
pub fn json_string<'i, E>(stream: &mut ParseStream<'i, E>) -> (r: Result<Cow<'i, str>, Error<'i, E>>)
    requires
        old(stream).wf(),
    ensures
        final(stream).wf(),
        final(stream).same_source(old(stream)),
        outcome_is(final(stream), &r, spec_json_string(old(stream).input@, old(stream).pos(), false)),
        r matches Ok(v) ==> (v is Owned <==> spec_string_owned::<E>(old(stream).input@, old(stream).pos(), false)),
        r matches Ok(v) ==> literal_at(old(stream).input@, old(stream).pos(), v),
{
    let ghost s = stream.input@;
    proof {
        lemma_json_string_any_error::<E, ()>(s, stream.pos());
    }
    let ghost p = stream.pos();
    if stream.peek_byte()? != 0x22 {
        let error = ErrorKind::ByteMismatch { expected: 0x22 };
        return Err(stream.error(error));
    }
    let mut off: usize = 1;
    let mut text: Cow<'i, [u8]> = Cow::Borrowed(vstd::slice::slice_subrange(stream.bytes, 0, 0));
    let ghost scan = spec_string_scan::<E>(s, p, false);
    assert(text@ =~= Seq::<u8>::empty());
    loop
        invariant_except_break
            stream.wf(),
            stream.path == old(stream).path,
            stream.input == old(stream).input,
            s == stream.input@,
            old(stream).input@ == s,
            old(stream).pos() == p,
            scan == spec_string_scan::<E>(s, p, false),
            off == 0 || off == 1,
            off == 1 ==> stream.pos() < s.len(),
            text is Borrowed ==> text@.len() == 0,
            text is Owned ==> text@.len() > 0,
            scan == spec_scan::<E>(s, stream.pos() as nat, off == 1, text@, false),
        ensures
            stream.wf(),
            stream.path == old(stream).path,
            stream.input == old(stream).input,
            scan == Ok::<(Seq<u8>, bool, int), (ErrorKindSpec<E>, int)>((text@, text is Owned, stream.pos())),
        decreases s.len() - stream.pos(),
    {
        let ghost q = stream.pos();
        let ghost from: int = if off == 1 { q + 1 } else { q };
        let hay = vstd::slice::slice_subrange(stream.bytes, off, stream.bytes.len());
        assert(hay@ =~= s.subrange(from, s.len() as int));
        let found = memchr2(0x22, 0x5c, hay);
        proof {
            lemma_find_stop_in_suffix(s, from, hay@, found);
        }
        let needle = match found {
            Some(needle) => needle,
            None => {
                let error = ErrorKind::EndOfStringNotFound;
                return Err(stream.error(error));
            },
        };
        let data = stream.next_slice(needle + off + 1)?;
        assert(data@ =~= s.subrange(q, from + needle + 1));
        if data[data.len() - 1] == 0x22 {
            finish_text(&mut text, data);
            break;
        }
        let ghost before = text@;
        proof {
            lemma_unescape_bounds::<E>(s, from + needle + 1);
            assert(data@.drop_last() =~= s.subrange(q, from + needle));
        }
        unescape(stream, &mut text, data)?;
        off = 0;
    }
    bstr_to_utf8(stream, text)
}

/// Reads a JSON string, looking at one byte at a time. After an escape the
/// search resumes one byte past it. Its value keeps the surrounding quotes; it
/// borrows from the input unless an escape was decoded.
pub fn json_string_sans_memchr<'i, E>(stream: &mut ParseStream<'i, E>) -> (r: Result<Cow<'i, str>, Error<'i, E>>)
    requires
        old(stream).wf(),
    ensures
        final(stream).wf(),
        final(stream).same_source(old(stream)),
        outcome_is(final(stream), &r, spec_json_string(old(stream).input@, old(stream).pos(), true)),
        r matches Ok(v) ==> (v is Owned <==> spec_string_owned::<E>(old(stream).input@, old(stream).pos(), true)),
{
    let ghost s = stream.input@;
    let ghost p = stream.pos();
    if stream.peek_byte()? != 0x22 {
        let error = ErrorKind::ByteMismatch { expected: 0x22 };
        return Err(stream.error(error));
    }
    let mut text: Cow<'i, [u8]> = Cow::Borrowed(vstd::slice::slice_subrange(stream.bytes, 0, 0));
    let mut off: usize = 1;
    let ghost scan = spec_string_scan::<E>(s, p, true);
    assert(text@ =~= Seq::<u8>::empty());
    loop
        invariant_except_break
            stream.wf(),
            stream.path == old(stream).path,
            stream.input == old(stream).input,
            s == stream.input@,
            old(stream).input@ == s,
            old(stream).pos() == p,
            scan == spec_string_scan::<E>(s, p, true),
            1 <= off,
            stream.pos() + off <= s.len() + 1,
            text is Borrowed ==> text@.len() == 0,
            text is Owned ==> text@.len() > 0,
            spec_find_stop(s, stream.pos() + off) == spec_find_stop(s, stream.pos() + 1),
            scan == spec_scan::<E>(s, stream.pos() as nat, true, text@, true),
        ensures
            stream.wf(),
            stream.path == old(stream).path,
            stream.input == old(stream).input,
            scan == Ok::<(Seq<u8>, bool, int), (ErrorKindSpec<E>, int)>((text@, text is Owned, stream.pos())),
        decreases s.len() + 1 - stream.pos() - off,
    {
        let ghost q = stream.pos();
        proof {
            lemma_find_stop(s, q + off);
        }
        if off >= stream.bytes.len() {
            let error = ErrorKind::EndOfStringNotFound;
            return Err(stream.error(error));
        }
        let byte = stream.bytes[off];
        assert(byte == s[q + off]);
        if byte == 0x5c {
            let data = stream.next_slice(off + 1)?;
            assert(data@.drop_last() =~= s.subrange(q, q + off));
            proof {
                lemma_unescape_bounds::<E>(s, q + off + 1);
            }
            unescape(stream, &mut text, data)?;
            off = 0;
        } else if byte == 0x22 {
            let data = stream.next_slice(off + 1)?;
            assert(data@ =~= s.subrange(q, q + off + 1));
            finish_text(&mut text, data);
            break;
        }
        off = off + 1;
    }
    bstr_to_utf8(stream, text)
}

/// Reads a JSON string as a path.
pub fn utf8_path<'i, E>(stream: &mut ParseStream<'i, E>) -> (r: Result<Cow<'i, Utf8Path>, Error<'i, E>>)
    requires
        old(stream).wf(),
    ensures
        final(stream).wf(),
        final(stream).same_source(old(stream)),
        outcome_is(final(stream), &r, spec_json_string(old(stream).input@, old(stream).pos(), false)),
        r matches Ok(v) ==> (v is Owned <==> spec_string_owned::<E>(old(stream).input@, old(stream).pos(), false)),
        r matches Ok(v) ==> literal_at(old(stream).input@, old(stream).pos(), v),
{
    json_string(stream)
}

} // verus!
