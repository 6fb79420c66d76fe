//! The messages of parse errors: where the error was raised, as
//! `path:row:column: error: `, then what went wrong, one line or two.

use vstd::prelude::*;
use crate::number::spec_hex_digit;
use crate::stream::{lossy_context_ok, lossy_prefix, spec_last_line_len, spec_line_count, Error, ErrorKind};

verus! {

/// `char::to_string`: the text that holds just `c`.
#[verifier::external_body]
pub(crate) fn char_to_string(c: char) -> (s: String)
    ensures
        s@ == seq![c],
{
    c.to_string()
}

/// The text that `Display` writes of a `core::str::Utf8Error`.
pub uninterp spec fn utf8_error_text_of(err: core::str::Utf8Error) -> Seq<char>;

/// The text that `Display` writes of a `std::string::FromUtf8Error`.
pub uninterp spec fn from_utf8_error_text_of(err: std::string::FromUtf8Error) -> Seq<char>;

/// `core::str::Utf8Error` as `Display` writes it: a function of the error
/// alone (where validation stopped and why), named by [`utf8_error_text_of`].
#[verifier::external_body]
fn utf8_error_text(err: &core::str::Utf8Error) -> (s: String)
    ensures
        s@ == utf8_error_text_of(*err),
{
    err.to_string()
}

/// `std::string::FromUtf8Error` as `Display` writes it: a function of the
/// error alone, named by [`from_utf8_error_text_of`].
#[verifier::external_body]
fn from_utf8_error_text(err: &std::string::FromUtf8Error) -> (s: String)
    ensures
        s@ == from_utf8_error_text_of(*err),
{
    err.to_string()
}

/// An error of a parser of the library's own, which describes itself.
pub trait ErrorMessage {
    /// The description.
    spec fn spec_message(&self) -> Seq<char>;

    /// Writes the description.
    fn message(&self) -> (s: String)
        ensures
            s@ == self.spec_message(),
    ;
}

/// The character of the decimal digit `d`.
pub open spec fn spec_digit_char(d: nat) -> char {
    ((d + 0x30) as u8) as char
}

/// The character of the lower-case hexadecimal digit `d`.
pub open spec fn spec_hex_char(d: nat) -> char {
    if d < 10 {
        ((d + 0x30) as u8) as char
    } else {
        ((d + 0x57) as u8) as char
    }
}

/// `n` in decimal.
pub open spec fn spec_decimal(n: nat) -> Seq<char>
    decreases n,
{
    if n < 10 {
        seq![spec_digit_char(n)]
    } else {
        spec_decimal(n / 10).push(spec_digit_char(n % 10))
    }
}

/// The ASCII escape of the byte `b`, as `u8::escape_ascii` writes it: `\t`,
/// `\r`, `\n`, `\'`, `\"` and `\\` for those bytes, printable ASCII as itself,
/// and `\xHH` for the others.
pub open spec fn spec_escape_byte(b: u8) -> Seq<char> {
    if b == 0x09 {
        seq!['\\', 't']
    } else if b == 0x0d {
        seq!['\\', 'r']
    } else if b == 0x0a {
        seq!['\\', 'n']
    } else if b == 0x27 {
        seq!['\\', '\'']
    } else if b == 0x22 {
        seq!['\\', '"']
    } else if b == 0x5c {
        seq!['\\', '\\']
    } else if 0x20 <= b < 0x7f {
        seq![b as char]
    } else {
        seq!['\\', 'x', spec_hex_char((b / 16) as nat), spec_hex_char((b % 16) as nat)]
    }
}

/// A byte that has no escape of its own and is not printable ASCII is written
/// `\xHH`: two lower-case hexadecimal digits that read back, high digit first,
/// as the byte.
pub proof fn lemma_escape_hex_reads_back(b: u8)
    requires
        !(0x20 <= b < 0x7f),
        b != 0x09 && b != 0x0a && b != 0x0d,
    ensures
        spec_escape_byte(b).len() == 4,
        spec_escape_byte(b)[0] == '\\',
        spec_escape_byte(b)[1] == 'x',
        ({
            let hi = spec_escape_byte(b)[2] as u8;
            let lo = spec_escape_byte(b)[3] as u8;
            &&& spec_hex_digit(hi) is Some
            &&& spec_hex_digit(lo) is Some
            &&& !(0x41 <= hi <= 0x46) && !(0x41 <= lo <= 0x46)
            &&& 16 * spec_hex_digit(hi)->0 + spec_hex_digit(lo)->0 == b
        }),
{
    let h = (b / 16) as nat;
    let l = (b % 16) as nat;
    assert(h < 16 && l < 16);
    lemma_hex_char_reads_back(h);
    lemma_hex_char_reads_back(l);
}

/// The digit character of `d` is a lower-case hexadecimal digit of value `d`.
proof fn lemma_hex_char_reads_back(d: nat)
    requires
        d < 16,
    ensures
        spec_hex_digit(spec_hex_char(d) as u8) == Some(d as u32),
        !(0x41 <= spec_hex_char(d) as u8 <= 0x46),
{
    if d < 10 {
        assert(((d + 0x30) as u8) as char as u8 == (d + 0x30) as u8);
    } else {
        assert(((d + 0x57) as u8) as char as u8 == (d + 0x57) as u8);
    }
}

/// The ASCII escape of each byte of `s`, in turn.
pub open spec fn spec_escape_bytes(s: Seq<u8>) -> Seq<char>
    decreases s.len(),
{
    if s.len() == 0 {
        Seq::empty()
    } else {
        spec_escape_bytes(s.drop_last()) + spec_escape_byte(s.last())
    }
}

/// Appends `c`.
pub(crate) fn push_char(out: &mut String, c: char)
    ensures
        final(out)@ == old(out)@.push(c),
{
    let s = char_to_string(c);
    out.append(s.as_str());
    assert(out@ =~= old(out)@.push(c));
}

/// Appends `n` in decimal.
fn push_decimal(out: &mut String, n: u64)
    ensures
        final(out)@ == old(out)@ + spec_decimal(n as nat),
    decreases n,
{
    let digit: u8 = (n % 10) as u8;
    if n >= 10 {
        push_decimal(out, n / 10);
    }
    let c = (digit + 0x30) as char;
    assert(c == spec_digit_char((n % 10) as nat));
    push_char(out, c);
    assert(out@ =~= old(out)@ + spec_decimal(n as nat));
}

/// Appends the lower-case hexadecimal digit `d`.
pub(crate) fn push_hex(out: &mut String, d: u8)
    requires
        d < 16,
    ensures
        final(out)@ == old(out)@.push(spec_hex_char(d as nat)),
{
    let c = if d < 10 {
        (d + 0x30) as char
    } else {
        (d + 0x57) as char
    };
    push_char(out, c);
}

/// Appends the ASCII escape of `b`.
fn push_escaped_byte(out: &mut String, b: u8)
    ensures
        final(out)@ == old(out)@ + spec_escape_byte(b),
{
    if b == 0x09 {
        push_char(out, '\\');
        push_char(out, 't');
    } else if b == 0x0d {
        push_char(out, '\\');
        push_char(out, 'r');
    } else if b == 0x0a {
        push_char(out, '\\');
        push_char(out, 'n');
    } else if b == 0x27 {
        push_char(out, '\\');
        push_char(out, '\'');
    } else if b == 0x22 {
        push_char(out, '\\');
        push_char(out, '"');
    } else if b == 0x5c {
        push_char(out, '\\');
        push_char(out, '\\');
    } else if 0x20 <= b && b < 0x7f {
        push_char(out, b as char);
    } else {
        push_char(out, '\\');
        push_char(out, 'x');
        push_hex(out, b / 16);
        push_hex(out, b % 16);
    }
    assert(out@ =~= old(out)@ + spec_escape_byte(b));
}

/// Appends the ASCII escape of each byte of `bytes`.
fn push_escaped(out: &mut String, bytes: &[u8])
    ensures
        final(out)@ == old(out)@ + spec_escape_bytes(bytes@),
{
    let mut i: usize = 0;
    while i < bytes.len()
        invariant
            i <= bytes@.len(),
            out@ == old(out)@ + spec_escape_bytes(bytes@.subrange(0, i as int)),
        decreases bytes@.len() - i,
    {
        assert(bytes@.subrange(0, i + 1).drop_last() =~= bytes@.subrange(0, i as int));
        push_escaped_byte(out, bytes[i]);
        i = i + 1;
    }
    assert(bytes@.subrange(0, i as int) =~= bytes@);
}

/// The prefix of the message of an error raised before the bytes `bytes` of the
/// input `input` named `path`: `path:row:column: error: `, counted on the text
/// before the error.
pub open spec fn spec_context_prefix(path: Seq<char>, input: Seq<u8>, bytes: Seq<u8>) -> Seq<char> {
    spec_prefix_at(path, lossy_prefix(input, bytes))
}

/// The prefix of the message of an error after the text `t` of the input named
/// `path`: `path:row:column: error: `, with the row and column that end `t`.
pub open spec fn spec_prefix_at(path: Seq<char>, t: Seq<u8>) -> Seq<char> {
    path + ":"@ + spec_decimal(spec_line_count(t) as nat) + ":"@ + spec_decimal(
        (spec_last_line_len(t) + 1) as nat,
    ) + ": error: "@
}

/// Whether the message of `e` can be written: a byte mismatch names the byte
/// before the offset, or the first byte; a slice mismatch names the bytes just
/// before the offset.
pub open spec fn error_reportable<'i, E>(e: &Error<'i, E>) -> bool {
    &&& e.bytes@.len() <= e.input@.len() <= isize::MAX
    &&& lossy_context_ok(e.input@, e.bytes@)
    &&& names_what_it_read(e)
}

/// A byte mismatch names the byte before the offset, or the first byte, which
/// must be there; a slice mismatch names the bytes just before the offset.
pub open spec fn names_what_it_read<'i, E>(e: &Error<'i, E>) -> bool {
    &&& e.error matches ErrorKind::ByteMismatch { .. } ==> e.input@.len() > 0
    &&& e.error matches ErrorKind::SliceMismatch { expected } ==> expected@.len() <= e.pos()
}

/// What the message of `e` says after its prefix; of a UTF-8 error it quotes
/// the text that the standard library gives of it.
pub open spec fn spec_kind_message<'i, E: ErrorMessage>(e: &Error<'i, E>) -> Seq<char> {
    match e.error {
        ErrorKind::CharFromUnicodeFailed { unicode } => "Conversion of unicode u32 to char failed: u32 value: "@
            + spec_decimal(unicode as nat) + "\n"@,
        ErrorKind::DuplicateField { field } => "Duplicate field: `"@ + field@ + "`\n"@,
        ErrorKind::EndOfStringNotFound => "End of string not found\n"@,
        ErrorKind::FailedParsingBool => "Failed parsing bool\n"@,
        ErrorKind::FailedParsingJsonArray => "Failed parsing JSON array:\n"@
            + "expected one of: { ',', ']' }\n"@,
        ErrorKind::FailedParsingJsonObjectProperty => "Failed parsing JSON object property:\n"@
            + "expected one of: { ',', '}' }\n"@,
        ErrorKind::FailedParsingJsonStringEscape => "Failed parsing JSON string escape:\n"@
            + "expected one of: { '\"', '\\', '/', 'b', 'f', 'n', 'r', 't', 'u' }\n"@,
        ErrorKind::FailedParsingJsonUnsignedInteger => "Failed parsing JSON unsigned integer\n"@,
        ErrorKind::MissingField { field } => "Missing field: `"@ + field@ + "`\n"@,
        ErrorKind::NextByte => "No remaining bytes\n"@,
        ErrorKind::ByteMismatch { expected } => {
            let at = if e.pos() >= 1 { e.pos() - 1 } else { 0 };
            "Byte mismatch: expected `"@ + spec_escape_byte(expected) + "`, actual `"@ + spec_escape_byte(
                e.input@[at],
            ) + "`\n"@
        },
        ErrorKind::NextSlice { offset } => "Remaining bytes less than requested slice length: remaining: "@
            + spec_decimal(e.bytes@.len()) + ", requested: "@ + spec_decimal(offset as nat) + "\n"@,
        ErrorKind::SliceMismatch { expected } => "Slice mismatch: expected `"@ + spec_escape_bytes(expected@)
            + "`, actual `"@ + spec_escape_bytes(e.input@.subrange(e.pos() - expected@.len(), e.pos()))
            + "`\n"@,
        ErrorKind::Utf8ValidationFailedPtr { err } => "UTF-8 validation failed:\n"@ + utf8_error_text_of(err)
            + "\n"@,
        ErrorKind::Utf8ValidationFailedVal { err } => "UTF-8 validation failed:\n"@ + from_utf8_error_text_of(err)
            + "\n"@,
        ErrorKind::Other { error } => error.spec_message(),
    }
}

/// The message of `e`.
pub open spec fn spec_error_message<'i, E: ErrorMessage>(e: &Error<'i, E>) -> Seq<char> {
    spec_context_prefix(e.path@, e.input@, e.bytes@) + spec_kind_message(e)
}

impl<'i, E: ErrorMessage> Error<'i, E> {
    /// The message of the error: where it was raised, as `path:row:column:
    /// error: `, then what went wrong. Of a UTF-8 error it quotes the standard
    /// library's description of it.
    pub fn to_string(&self) -> (s: String)
        requires
            error_reportable(self),
        ensures
            s@ == spec_error_message(self),
    {
        let mut out = String::new();
        out.append(self.path);
        out.append(":");
        let (row, col) = self.context();
        push_decimal(&mut out, row);
        out.append(":");
        push_decimal(&mut out, col);
        out.append(": error: ");
        let ghost prefix = out@;
        assert(prefix == spec_context_prefix(self.path@, self.input@, self.bytes@));
        match &self.error {
            ErrorKind::CharFromUnicodeFailed { unicode } => {
                out.append("Conversion of unicode u32 to char failed: u32 value: ");
                push_decimal(&mut out, *unicode as u64);
                out.append("\n");
            },
            ErrorKind::DuplicateField { field } => {
                out.append("Duplicate field: `");
                out.append(field);
                out.append("`\n");
            },
            ErrorKind::EndOfStringNotFound => {
                out.append("End of string not found\n");
            },
            ErrorKind::FailedParsingBool => {
                out.append("Failed parsing bool\n");
            },
            ErrorKind::FailedParsingJsonArray => {
                out.append("Failed parsing JSON array:\n");
                out.append("expected one of: { ',', ']' }\n");
            },
            ErrorKind::FailedParsingJsonObjectProperty => {
                out.append("Failed parsing JSON object property:\n");
                out.append("expected one of: { ',', '}' }\n");
            },
            ErrorKind::FailedParsingJsonStringEscape => {
                out.append("Failed parsing JSON string escape:\n");
                out.append("expected one of: { '\"', '\\', '/', 'b', 'f', 'n', 'r', 't', 'u' }\n");
            },
            ErrorKind::FailedParsingJsonUnsignedInteger => {
                out.append("Failed parsing JSON unsigned integer\n");
            },
            ErrorKind::MissingField { field } => {
                out.append("Missing field: `");
                out.append(field);
                out.append("`\n");
            },
            ErrorKind::NextByte => {
                out.append("No remaining bytes\n");
            },
            ErrorKind::ByteMismatch { expected } => {
                let pos = self.input.len() - self.bytes.len();
                let at = if pos >= 1 {
                    pos - 1
                } else {
                    0
                };
                out.append("Byte mismatch: expected `");
                push_escaped_byte(&mut out, *expected);
                out.append("`, actual `");
                push_escaped_byte(&mut out, self.input[at]);
                out.append("`\n");
            },
            ErrorKind::NextSlice { offset } => {
                out.append("Remaining bytes less than requested slice length: remaining: ");
                push_decimal(&mut out, self.bytes.len() as u64);
                out.append(", requested: ");
                push_decimal(&mut out, *offset as u64);
                out.append("\n");
            },
            ErrorKind::SliceMismatch { expected } => {
                let snd = self.input.len() - self.bytes.len();
                let fst = snd - expected.len();
                out.append("Slice mismatch: expected `");
                push_escaped(&mut out, expected);
                out.append("`, actual `");
                push_escaped(&mut out, vstd::slice::slice_subrange(self.input, fst, snd));
                out.append("`\n");
            },
            ErrorKind::Utf8ValidationFailedPtr { err } => {
                let text = utf8_error_text(err);
                out.append("UTF-8 validation failed:\n");
                out.append(text.as_str());
                out.append("\n");
            },
            ErrorKind::Utf8ValidationFailedVal { err } => {
                let text = from_utf8_error_text(err);
                out.append("UTF-8 validation failed:\n");
                out.append(text.as_str());
                out.append("\n");
            },
            ErrorKind::Other { error } => {
                let text = error.message();
                out.append(text.as_str());
            },
        }
        assert(out@ =~= spec_error_message(self));
        out
    }

    /// [`Error::to_string`] where the message can be written; `None` where the
    /// error lies outside its input, names a byte or bytes that are not there,
    /// or the text before it cannot be cut at a char boundary.
    pub fn try_to_string(&self) -> (r: Option<String>)
        ensures
            r is Some <==> error_reportable(self),
            r matches Some(s) ==> s@ == spec_error_message(self),
            // On UTF-8 input whose rest the error holds, the message is written
            // whenever what it names was read, and it counts the bytes before
            // the error.
            self.utf8_within_input() ==> {
                &&& (r is Some <==> names_what_it_read(self))
                &&& r matches Some(s) ==> s@ == spec_prefix_at(self.path@, self.input@.subrange(0, self.pos()))
                    + spec_kind_message(self)
            },
    {
        if self.bytes.len() > self.input.len() || self.input.len() > isize::MAX as usize {
            return None;
        }
        match &self.error {
            ErrorKind::ByteMismatch { .. } => {
                if self.input.len() == 0 {
                    return None;
                }
            },
            ErrorKind::SliceMismatch { expected } => {
                if expected.len() > self.input.len() - self.bytes.len() {
                    return None;
                }
            },
            _ => {},
        }
        match self.try_context() {
            None => None,
            Some(_) => Some(self.to_string()),
        }
    }
}

} // verus!
