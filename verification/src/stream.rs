//! The byte stream that the parsers consume, its errors, and the primitive
//! operations on it.

use core::marker::PhantomData;
use vstd::prelude::*;

verus! {

/// The error of `core::str::from_utf8`, carried through unchanged.
#[verifier::external_type_specification]
#[verifier::external_body]
pub struct ExUtf8Error(core::str::Utf8Error);

/// The error of `String::from_utf8`, carried through unchanged.
#[verifier::external_type_specification]
#[verifier::external_body]
pub struct ExFromUtf8Error(std::string::FromUtf8Error);

/// The abstract value of a parsed output, which the parser specifications speak of.
pub trait Model {
    type M;

    spec fn model(&self) -> Self::M;

    /// None of the value's texts is a copy: each borrows from the input.
    spec fn borrowed(&self) -> bool;

    /// Each of the value's texts is the text of a JSON string literal of the
    /// input `s`, and is a copy exactly when that literal holds an escape.
    spec fn from_literals(&self, s: Seq<u8>) -> bool;
}

/// `c` is the text of the JSON string literal at offset `p` of `s`, and is a
/// copy exactly when the literal holds an escape.
pub open spec fn literal_at<'a>(s: Seq<u8>, p: int, c: std::borrow::Cow<'a, str>) -> bool {
    &&& crate::string::spec_json_string::<()>(s, p, false) matches Ok((t, _))
    &&& t == c@
    &&& (c is Owned <==> crate::string::spec_string_owned::<()>(s, p, false))
}

/// No byte of `s` is a backslash.
pub open spec fn no_backslash(s: Seq<u8>) -> bool {
    forall|j: int| 0 <= j < s.len() ==> s[j] != 0x5c
}

impl Model for () {
    type M = ();

    open spec fn model(&self) -> () {
        ()
    }

    open spec fn borrowed(&self) -> bool {
        true
    }

    open spec fn from_literals(&self, s: Seq<u8>) -> bool {
        true
    }
}

impl Model for u8 {
    type M = u8;

    open spec fn model(&self) -> u8 {
        *self
    }

    open spec fn borrowed(&self) -> bool {
        true
    }

    open spec fn from_literals(&self, s: Seq<u8>) -> bool {
        true
    }
}

impl Model for u32 {
    type M = u32;

    open spec fn model(&self) -> u32 {
        *self
    }

    open spec fn borrowed(&self) -> bool {
        true
    }

    open spec fn from_literals(&self, s: Seq<u8>) -> bool {
        true
    }
}

impl Model for bool {
    type M = bool;

    open spec fn model(&self) -> bool {
        *self
    }

    open spec fn borrowed(&self) -> bool {
        true
    }

    open spec fn from_literals(&self, s: Seq<u8>) -> bool {
        true
    }
}

impl<'a> Model for &'a [u8] {
    type M = Seq<u8>;

    open spec fn model(&self) -> Seq<u8> {
        self@
    }

    open spec fn borrowed(&self) -> bool {
        true
    }

    open spec fn from_literals(&self, s: Seq<u8>) -> bool {
        true
    }
}

impl<'a> Model for &'a str {
    type M = Seq<char>;

    open spec fn model(&self) -> Seq<char> {
        self@
    }

    open spec fn borrowed(&self) -> bool {
        true
    }

    open spec fn from_literals(&self, s: Seq<u8>) -> bool {
        true
    }
}

impl<'a> Model for std::borrow::Cow<'a, str> {
    type M = Seq<char>;

    open spec fn model(&self) -> Seq<char> {
        self@
    }

    open spec fn borrowed(&self) -> bool {
        self is Borrowed
    }

    open spec fn from_literals(&self, s: Seq<u8>) -> bool {
        exists|p: int| #[trigger] literal_at(s, p, *self)
    }
}

impl<T: Model> Model for Option<T> {
    type M = Option<T::M>;

    open spec fn model(&self) -> Option<T::M> {
        match self {
            Some(t) => Some(t.model()),
            None => None,
        }
    }

    open spec fn borrowed(&self) -> bool {
        match self {
            Some(t) => t.borrowed(),
            None => true,
        }
    }

    open spec fn from_literals(&self, s: Seq<u8>) -> bool {
        match self {
            Some(t) => t.from_literals(s),
            None => true,
        }
    }
}

impl<T: Model> Model for Vec<T> {
    type M = Seq<T::M>;

    open spec fn model(&self) -> Seq<T::M> {
        self@.map_values(|t: T| t.model())
    }

    open spec fn borrowed(&self) -> bool {
        forall|i: int| 0 <= i < self@.len() ==> #[trigger] self@[i].borrowed()
    }

    open spec fn from_literals(&self, s: Seq<u8>) -> bool {
        forall|i: int| 0 <= i < self@.len() ==> #[trigger] self@[i].from_literals(s)
    }
}

/// Scratch state shared by the parsers of one stream.
pub struct State {
    pub(crate) utf8_encode_buffer: [u8; 4],
}

impl State {
    /// The scratch bytes used while encoding an escaped character.
    pub closed spec fn buffer(&self) -> Seq<u8> {
        self.utf8_encode_buffer@
    }

    /// Zeroes the scratch bytes.
    pub(crate) fn reset_buffer(&mut self)
        ensures
            final(self).buffer() == seq![0u8, 0u8, 0u8, 0u8],
    {
        self.utf8_encode_buffer = [0u8, 0u8, 0u8, 0u8];
        assert(self.utf8_encode_buffer@ =~= seq![0u8, 0u8, 0u8, 0u8]);
    }
}

impl Default for State {
    fn default() -> (state: Self)
        ensures
            state.buffer() == seq![0u8, 0u8, 0u8, 0u8],
    {
        State { utf8_encode_buffer: [0u8; 4] }
    }
}

/// What went wrong while parsing.
#[derive(Debug)]
pub enum ErrorKind<'i, E> {
    CharFromUnicodeFailed { unicode: u32 },
    DuplicateField { field: &'static str },
    EndOfStringNotFound,
    FailedParsingBool,
    FailedParsingJsonArray,
    FailedParsingJsonObjectProperty,
    FailedParsingJsonStringEscape,
    FailedParsingJsonUnsignedInteger,
    MissingField { field: &'static str },
    NextByte,
    ByteMismatch { expected: u8 },
    NextSlice { offset: usize },
    SliceMismatch { expected: &'i [u8] },
    Utf8ValidationFailedPtr { err: core::str::Utf8Error },
    Utf8ValidationFailedVal { err: std::string::FromUtf8Error },
    Other { error: E },
}

/// The abstract value of an [`ErrorKind`]: the UTF-8 errors are told apart by
/// variant only.
pub enum ErrorKindSpec<E> {
    CharFromUnicodeFailed { unicode: u32 },
    DuplicateField { field: Seq<char> },
    EndOfStringNotFound,
    FailedParsingBool,
    FailedParsingJsonArray,
    FailedParsingJsonObjectProperty,
    FailedParsingJsonStringEscape,
    FailedParsingJsonUnsignedInteger,
    MissingField { field: Seq<char> },
    NextByte,
    ByteMismatch { expected: u8 },
    NextSlice { offset: usize },
    SliceMismatch { expected: Seq<u8> },
    Utf8ValidationFailedPtr,
    Utf8ValidationFailedVal,
    Other { error: E },
}

impl<'i, E> ErrorKind<'i, E> {
    pub open spec fn model(&self) -> ErrorKindSpec<E> {
        match self {
            ErrorKind::CharFromUnicodeFailed { unicode } => ErrorKindSpec::CharFromUnicodeFailed {
                unicode: *unicode,
            },
            ErrorKind::DuplicateField { field } => ErrorKindSpec::DuplicateField { field: field@ },
            ErrorKind::EndOfStringNotFound => ErrorKindSpec::EndOfStringNotFound,
            ErrorKind::FailedParsingBool => ErrorKindSpec::FailedParsingBool,
            ErrorKind::FailedParsingJsonArray => ErrorKindSpec::FailedParsingJsonArray,
            ErrorKind::FailedParsingJsonObjectProperty => ErrorKindSpec::FailedParsingJsonObjectProperty,
            ErrorKind::FailedParsingJsonStringEscape => ErrorKindSpec::FailedParsingJsonStringEscape,
            ErrorKind::FailedParsingJsonUnsignedInteger => ErrorKindSpec::FailedParsingJsonUnsignedInteger,
            ErrorKind::MissingField { field } => ErrorKindSpec::MissingField { field: field@ },
            ErrorKind::NextByte => ErrorKindSpec::NextByte,
            ErrorKind::ByteMismatch { expected } => ErrorKindSpec::ByteMismatch { expected: *expected },
            ErrorKind::NextSlice { offset } => ErrorKindSpec::NextSlice { offset: *offset },
            ErrorKind::SliceMismatch { expected } => ErrorKindSpec::SliceMismatch { expected: expected@ },
            ErrorKind::Utf8ValidationFailedPtr { .. } => ErrorKindSpec::Utf8ValidationFailedPtr,
            ErrorKind::Utf8ValidationFailedVal { .. } => ErrorKindSpec::Utf8ValidationFailedVal,
            ErrorKind::Other { error } => ErrorKindSpec::Other { error: *error },
        }
    }
}

/// A parse error: the stream it came from, the bytes left unread when it was
/// raised, and what went wrong.
#[derive(Debug)]
pub struct Error<'i, E> {
    pub path: &'i str,
    pub input: &'i [u8],
    pub bytes: &'i [u8],
    pub error: ErrorKind<'i, E>,
}

impl<'i, E> Error<'i, E> {
    /// The offset into the input at which the error was raised.
    pub open spec fn pos(&self) -> int {
        self.input@.len() - self.bytes@.len()
    }
}

/// The outcome that a parser specification gives: the value and the offset after
/// it, or what went wrong and the offset at which it was raised.
pub type SpecResult<T, E> = Result<(T, int), (ErrorKindSpec<E>, int)>;

/// A stream of bytes, read from the front, over an input named `path`.
pub struct ParseStream<'i, E> {
    pub path: &'i str,
    pub input: &'i [u8],
    pub bytes: &'i [u8],
    pub state: State,
    pub error: PhantomData<E>,
}

/// True when `r`, returned by a parser that left the stream as `fin`, is the
/// outcome `spec` that its specification gives; an error is raised where the
/// parser left the stream.
pub open spec fn outcome_is<'i, O: Model, E>(
    fin: &ParseStream<'i, E>,
    r: &Result<O, Error<'i, E>>,
    spec: SpecResult<O::M, E>,
) -> bool {
    match r {
        Ok(o) => spec == Ok::<(O::M, int), (ErrorKindSpec<E>, int)>((o.model(), fin.pos())),
        Err(e) => {
            &&& spec == Err::<(O::M, int), (ErrorKindSpec<E>, int)>((e.error.model(), e.pos()))
            &&& e.path == fin.path
            &&& e.input == fin.input
            &&& e.bytes@.len() <= e.input@.len()
            &&& e.pos() == fin.pos()
            &&& e.bytes@ == fin.bytes@
        },
    }
}

impl<'i, E> ParseStream<'i, E> {
    /// The stream holds a suffix of its input.
    pub open spec fn wf(&self) -> bool {
        &&& self.bytes@.len() <= self.input@.len()
        &&& self.bytes@ == self.input@.subrange(self.input@.len() - self.bytes@.len(), self.input@.len() as int)
    }

    /// The offset of the next unread byte.
    pub open spec fn pos(&self) -> int {
        self.input@.len() - self.bytes@.len()
    }

    /// The same input and path, read up to another offset.
    pub open spec fn same_source(&self, other: &Self) -> bool {
        &&& self.path == other.path
        &&& self.input == other.input
    }

    pub fn new(path: &'i str, input: &'i [u8], state: State) -> (stream: Self)
        ensures
            stream.wf(),
            stream.pos() == 0,
            stream.path == path,
            stream.input == input,
    {
        assert(input@.subrange(0, input@.len() as int) =~= input@);
        Self { path, input, bytes: input, state, error: PhantomData }
    }

    /// The input that the stream reads.
    pub fn input(&self) -> (input: &'i [u8])
        ensures
            input == self.input,
    {
        self.input
    }

    /// The bytes not yet read.
    pub fn remaining(&self) -> (bytes: &'i [u8])
        ensures
            bytes == self.bytes,
    {
        self.bytes
    }

    /// An error of kind `error` at the current offset.
    pub fn error(&self, error: ErrorKind<'i, E>) -> (err: Error<'i, E>)
        requires
            self.wf(),
        ensures
            err.path == self.path,
            err.input == self.input,
            err.bytes == self.bytes,
            err.pos() == self.pos(),
            err.error == error,
    {
        Error { path: self.path, input: self.input, bytes: self.bytes, error }
    }

    /// Reads one byte.
    pub fn next_byte(&mut self) -> (r: Result<u8, Error<'i, E>>)
        requires
            old(self).wf(),
        ensures
            final(self).wf(),
            final(self).same_source(old(self)),
            outcome_is(final(self), &r, spec_next_byte(old(self).input@, old(self).pos())),
    {
        let head = self.peek_byte()?;
        let ghost before = self.bytes@;
        self.bytes = vstd::slice::slice_subrange(self.bytes, 1, self.bytes.len());
        assert(self.bytes@ =~= self.input@.subrange(self.input@.len() - self.bytes@.len(), self.input@.len() as int));
        Ok(head)
    }

    /// Looks at the next byte without reading it.
    pub fn peek_byte(&mut self) -> (r: Result<u8, Error<'i, E>>)
        requires
            old(self).wf(),
        ensures
            *final(self) == *old(self),
            outcome_is(final(self), &r, spec_peek_byte(old(self).input@, old(self).pos())),
    {
        if self.bytes.len() == 0 {
            let error = ErrorKind::NextByte;
            return Err(self.error(error));
        }
        Ok(self.bytes[0])
    }

    /// Reads one byte, which must be `expected`.
    pub fn match_byte(&mut self, expected: u8) -> (r: Result<(), Error<'i, E>>)
        requires
            old(self).wf(),
        ensures
            final(self).wf(),
            final(self).same_source(old(self)),
            outcome_is(final(self), &r, spec_match_byte(old(self).input@, old(self).pos(), expected)),
    {
        if self.next_byte()? != expected {
            let error = ErrorKind::ByteMismatch { expected };
            return Err(self.error(error));
        }
        Ok(())
    }

    /// Reads the next `offset` bytes.
    pub fn next_slice(&mut self, offset: usize) -> (r: Result<&'i [u8], Error<'i, E>>)
        requires
            old(self).wf(),
        ensures
            final(self).wf(),
            final(self).same_source(old(self)),
            outcome_is(final(self), &r, spec_next_slice(old(self).input@, old(self).pos(), offset as int)),
    {
        if offset > self.bytes.len() {
            let error = ErrorKind::NextSlice { offset };
            return Err(self.error(error));
        }
        let slice = vstd::slice::slice_subrange(self.bytes, 0, offset);
        self.bytes = vstd::slice::slice_subrange(self.bytes, offset, self.bytes.len());
        assert(self.bytes@ =~= self.input@.subrange(self.input@.len() - self.bytes@.len(), self.input@.len() as int));
        assert(slice@ =~= self.input@.subrange(self.input@.len() - self.bytes@.len() - offset, self.input@.len() - self.bytes@.len()));
        Ok(slice)
    }

    /// Reads as many bytes as `expected` holds, which must equal them.
    pub fn match_slice(&mut self, expected: &'i [u8]) -> (r: Result<(), Error<'i, E>>)
        requires
            old(self).wf(),
        ensures
            final(self).wf(),
            final(self).same_source(old(self)),
            outcome_is(final(self), &r, spec_match_slice(old(self).input@, old(self).pos(), expected@)),
    {
        let slice = self.next_slice(expected.len())?;
        if !bytes_eq(slice, expected) {
            let error = ErrorKind::SliceMismatch { expected };
            return Err(self.error(error));
        }
        Ok(())
    }
}

/// Byte-wise equality of two slices.
pub fn bytes_eq(a: &[u8], b: &[u8]) -> (eq: bool)
    ensures
        eq == (a@ == b@),
{
    if a.len() != b.len() {
        return false;
    }
    let mut i: usize = 0;
    while i < a.len()
        invariant
            a@.len() == b@.len(),
            i <= a@.len(),
            forall|j: int| 0 <= j < i ==> a@[j] == b@[j],
        decreases a@.len() - i,
    {
        if a[i] != b[i] {
            return false;
        }
        i = i + 1;
    }
    assert(a@ =~= b@);
    true
}

/// Reading one byte at offset `p` of `s`.
pub open spec fn spec_next_byte<E>(s: Seq<u8>, p: int) -> SpecResult<u8, E> {
    if p < s.len() {
        Ok((s[p], p + 1))
    } else {
        Err((ErrorKindSpec::NextByte, p))
    }
}

/// Looking at the byte at offset `p` of `s` without reading it.
pub open spec fn spec_peek_byte<E>(s: Seq<u8>, p: int) -> SpecResult<u8, E> {
    if p < s.len() {
        Ok((s[p], p))
    } else {
        Err((ErrorKindSpec::NextByte, p))
    }
}

/// Reading the byte `expected` at offset `p`; a mismatch is raised after the byte
/// was read.
pub open spec fn spec_match_byte<E>(s: Seq<u8>, p: int, expected: u8) -> SpecResult<(), E> {
    if p >= s.len() {
        Err((ErrorKindSpec::NextByte, p))
    } else if s[p] != expected {
        Err((ErrorKindSpec::ByteMismatch { expected }, p + 1))
    } else {
        Ok(((), p + 1))
    }
}

/// Reading `n` bytes at offset `p`.
pub open spec fn spec_next_slice<E>(s: Seq<u8>, p: int, n: int) -> SpecResult<Seq<u8>, E> {
    if n <= s.len() - p {
        Ok((s.subrange(p, p + n), p + n))
    } else {
        Err((ErrorKindSpec::NextSlice { offset: n as usize }, p))
    }
}

/// Reading the bytes `expected` at offset `p`; a mismatch is raised after they
/// were read.
pub open spec fn spec_match_slice<E>(s: Seq<u8>, p: int, expected: Seq<u8>) -> SpecResult<(), E> {
    if expected.len() > s.len() - p {
        Err((ErrorKindSpec::NextSlice { offset: expected.len() as usize }, p))
    } else if s.subrange(p, p + expected.len()) != expected {
        Err((ErrorKindSpec::SliceMismatch { expected }, p + expected.len()))
    } else {
        Ok(((), p + expected.len()))
    }
}

/// How many line feeds `t` holds.
pub open spec fn count_line_feeds(t: Seq<u8>) -> nat
    decreases t.len(),
{
    if t.len() == 0 {
        0
    } else {
        count_line_feeds(t.drop_last()) + if t.last() == 0x0a { 1nat } else { 0nat }
    }
}

/// The offset just after the last line feed of `t`, or 0 when it holds none.
pub open spec fn after_last_line_feed(t: Seq<u8>) -> int
    decreases t.len(),
{
    if t.len() == 0 {
        0
    } else if t.last() == 0x0a {
        t.len() as int
    } else {
        after_last_line_feed(t.drop_last())
    }
}

/// How many lines `str::lines` finds in `t`: one per line feed, and one more
/// for text after the last line feed.
pub open spec fn spec_line_count(t: Seq<u8>) -> int {
    count_line_feeds(t) + if after_last_line_feed(t) < t.len() { 1int } else { 0int }
}

/// The length of the last line that `str::lines` finds in `t`, without its line
/// ending (a line feed, or a carriage return and a line feed); 0 when there is
/// no line.
pub open spec fn spec_last_line_len(t: Seq<u8>) -> int {
    let start = after_last_line_feed(t);
    if start < t.len() {
        t.len() - start
    } else if t.len() == 0 {
        0
    } else {
        let body = t.drop_last();
        let line = body.subrange(after_last_line_feed(body), body.len() as int);
        if line.len() > 0 && line.last() == 0x0d {
            line.len() - 1
        } else {
            line.len() as int
        }
    }
}

pub proof fn lemma_after_last_line_feed_bounds(t: Seq<u8>)
    ensures
        0 <= after_last_line_feed(t) <= t.len(),
        count_line_feeds(t) <= t.len(),
    decreases t.len(),
{
    if t.len() > 0 {
        lemma_after_last_line_feed_bounds(t.drop_last());
    }
}

/// Bytes without a line feed, appended, add no line feed and leave the offset
/// after the last one where it was.
proof fn lemma_line_feeds_append_plain(x: Seq<u8>, b: Seq<u8>)
    requires
        forall|i: int| 0 <= i < b.len() ==> b[i] != 0x0a,
    ensures
        count_line_feeds(x + b) == count_line_feeds(x),
        after_last_line_feed(x + b) == after_last_line_feed(x),
    decreases b.len(),
{
    if b.len() > 0 {
        let b2 = b.drop_last();
        lemma_line_feeds_append_plain(x, b2);
        assert((x + b).drop_last() =~= x + b2);
        assert((x + b).last() == b.last());
    } else {
        assert(x + b =~= x);
    }
}

/// Lines as `str::lines` finds them: a text whose last line feed is followed by
/// the bytes `b`, none of them a line feed, has one line more than it has line
/// feeds, the last of them `b`, whole; and where `b` ends with a carriage
/// return and a line feed after it, that line is `b` without the carriage
/// return, and there are as many lines as line feeds.
pub proof fn lemma_last_line_is_after_last_line_feed(a: Seq<u8>, b: Seq<u8>)
    requires
        b.len() > 0,
        forall|i: int| 0 <= i < b.len() ==> b[i] != 0x0a,
    ensures
        spec_line_count(a + seq![0x0au8] + b) == count_line_feeds(a) + 2,
        spec_last_line_len(a + seq![0x0au8] + b) == b.len(),
        spec_line_count(b) == 1,
        spec_last_line_len(b) == b.len(),
        b.last() == 0x0d ==> spec_line_count(a + seq![0x0au8] + b + seq![0x0au8]) == count_line_feeds(a) + 2,
        b.last() == 0x0d ==> spec_last_line_len(a + seq![0x0au8] + b + seq![0x0au8]) == b.len() - 1,
{
    let x = a + seq![0x0au8];
    assert(x.drop_last() =~= a);
    assert(x.last() == 0x0a);
    assert(count_line_feeds(x) == count_line_feeds(a) + 1);
    assert(after_last_line_feed(x) == x.len());
    lemma_line_feeds_append_plain(x, b);
    lemma_line_feeds_append_plain(Seq::<u8>::empty(), b);
    assert(Seq::<u8>::empty() + b =~= b);
    let y = x + b;
    let z = y + seq![0x0au8];
    assert(z.drop_last() =~= y);
    assert(z.last() == 0x0a);
    assert(y.subrange(after_last_line_feed(y), y.len() as int) =~= b);
    assert(z.drop_last() == y);
    assert(y.last() == b.last());
}

/// The bytes of the text that `String::from_utf8_lossy` makes of `b`.
pub uninterp spec fn lossy_bytes_of(b: Seq<u8>) -> Seq<u8>;

/// `String::from_utf8_lossy`, as bytes: `b` as text, each invalid sequence
/// replaced by U+FFFD. Valid UTF-8 is kept as it is; what the replacements give
/// is named by [`lossy_bytes_of`].
#[verifier::external_body]
fn utf8_lossy_bytes(b: &[u8]) -> (r: Vec<u8>)
    ensures
        r@ == lossy_bytes_of(b@),
        vstd::utf8::valid_utf8(b@) ==> r@ == b@,
{
    String::from_utf8_lossy(b).into_owned().into_bytes()
}

/// Whether `k` is a char boundary of the UTF-8 text `t`, as `str::is_char_boundary`
/// decides: its start, its end, or the offset of a byte that starts a character.
pub open spec fn char_boundary(t: Seq<u8>, k: int) -> bool {
    ||| k == 0
    ||| k == t.len()
    ||| 0 <= k < t.len() && (t[k] < 0x80 || t[k] >= 0xc0)
}

/// The text before an error, as the message counts it: the input as lossy text,
/// without as many bytes as the lossy text of the rest of the input holds.
pub open spec fn lossy_prefix(input: Seq<u8>, bytes: Seq<u8>) -> Seq<u8> {
    let li = lossy_bytes_of(input);
    li.subrange(0, li.len() - lossy_bytes_of(bytes).len())
}

/// Whether that text can be taken: the rest is no longer than the input, and it
/// starts at a char boundary.
pub open spec fn lossy_context_ok(input: Seq<u8>, bytes: Seq<u8>) -> bool {
    let li = lossy_bytes_of(input);
    let lb = lossy_bytes_of(bytes);
    &&& lb.len() <= li.len() <= isize::MAX
    &&& char_boundary(li, li.len() - lb.len())
}

/// The row and column after the first `end` bytes of `t`: the number of lines,
/// and one more than the length of the last of them.
fn line_and_column(t0: &Vec<u8>, end: usize) -> (r: (u64, u64))
    requires
        end <= t0@.len() <= isize::MAX,
    ensures
        r.0 == spec_line_count(t0@.subrange(0, end as int)),
        r.1 == spec_last_line_len(t0@.subrange(0, end as int)) + 1,
{
    let ghost t = t0@.subrange(0, end as int);
    let mut feeds: u64 = 0;
    let mut start: usize = 0;
    let mut prev_start: usize = 0;
    let mut i: usize = 0;
    proof {
        lemma_after_last_line_feed_bounds(t);
    }
    while i < end
        invariant
            end <= t0@.len() <= isize::MAX,
            t == t0@.subrange(0, end as int),
            i <= end,
            feeds == count_line_feeds(t.subrange(0, i as int)),
            start == after_last_line_feed(t.subrange(0, i as int)),
            i > 0 && t[i - 1] == 0x0a ==> prev_start == after_last_line_feed(t.subrange(0, i - 1)),
            start <= i,
            prev_start <= i,
            feeds <= start,
        decreases end - i,
    {
        assert(t.subrange(0, i + 1).drop_last() =~= t.subrange(0, i as int));
        if t0[i] == 0x0a {
            feeds = feeds + 1;
            prev_start = start;
            start = i + 1;
        }
        i = i + 1;
    }
    assert(t.subrange(0, i as int) =~= t);
    let row = if start < end {
        feeds + 1
    } else {
        feeds
    };
    let len: usize = if start < end {
        end - start
    } else if end == 0 {
        0
    } else {
        assert(t.drop_last() =~= t.subrange(0, end - 1));
        proof {
            lemma_after_last_line_feed_bounds(t.drop_last());
        }
        assert(t[end - 1] == 0x0a);
        let line_end = end - 1;
        if line_end > prev_start && t0[line_end - 1] == 0x0d {
            line_end - 1 - prev_start
        } else {
            line_end - prev_start
        }
    };
    (row, len as u64 + 1)
}

/// Whether `k` is a char boundary of `t`, for an offset within it.
fn is_boundary(t: &Vec<u8>, k: usize) -> (b: bool)
    requires
        k <= t@.len(),
    ensures
        b == char_boundary(t@, k as int),
{
    k == 0 || k == t.len() || t[k] < 0x80 || t[k] >= 0xc0
}

impl<'i, E> Error<'i, E> {
    /// The input is UTF-8 of a length that an allocation can hold, and the error
    /// holds the rest of it from its offset, which is UTF-8 too.
    pub open spec fn utf8_within_input(&self) -> bool {
        &&& self.bytes@.len() <= self.input@.len() <= isize::MAX
        &&& self.bytes@ == self.input@.subrange(self.pos(), self.input@.len() as int)
        &&& vstd::utf8::valid_utf8(self.input@)
        &&& vstd::utf8::valid_utf8(self.bytes@)
    }

    /// Where the error was raised, as `(row, column)`, counted on the input as
    /// lossy text: the row is the number of lines before the error, and the
    /// column is one more than the length of the last of those lines. On UTF-8
    /// input these are counted on the input's bytes before the offset of the
    /// error.
    pub fn context(&self) -> (r: (u64, u64))
        requires
            lossy_context_ok(self.input@, self.bytes@),
        ensures
            r.0 == spec_line_count(lossy_prefix(self.input@, self.bytes@)),
            r.1 == spec_last_line_len(lossy_prefix(self.input@, self.bytes@)) + 1,
            // On UTF-8 input they are counted on the bytes before the error.
            vstd::utf8::valid_utf8(self.input@) && vstd::utf8::valid_utf8(self.bytes@) ==> {
                &&& r.0 == spec_line_count(self.input@.subrange(0, self.input@.len() - self.bytes@.len()))
                &&& r.1 == spec_last_line_len(self.input@.subrange(0, self.input@.len() - self.bytes@.len())) + 1
            },
    {
        let input = utf8_lossy_bytes(self.input);
        let bytes = utf8_lossy_bytes(self.bytes);
        line_and_column(&input, input.len() - bytes.len())
    }

    /// [`Error::context`] where the lossy text before the error can be taken;
    /// `None` where the standard library would refuse to cut it.
    pub fn try_context(&self) -> (r: Option<(u64, u64)>)
        ensures
            r is Some <==> lossy_context_ok(self.input@, self.bytes@),
            r matches Some(v) ==> {
                &&& v.0 == spec_line_count(lossy_prefix(self.input@, self.bytes@))
                &&& v.1 == spec_last_line_len(lossy_prefix(self.input@, self.bytes@)) + 1
            },
            // On UTF-8 input whose rest it holds, the error can always be placed,
            // and the text before it is the input before its offset.
            self.utf8_within_input() ==> {
                &&& r is Some
                &&& lossy_prefix(self.input@, self.bytes@) == self.input@.subrange(0, self.pos())
            },
    {
        let input = utf8_lossy_bytes(self.input);
        let bytes = utf8_lossy_bytes(self.bytes);
        proof {
            if self.utf8_within_input() {
                assert(input@ == self.input@);
                assert(bytes@ == self.bytes@);
                if self.bytes@.len() > 0 {
                    let k = self.pos();
                    assert(self.input@[k] == self.bytes@[0]);
                    assert(!vstd::utf8::is_continuation_byte(self.bytes@[0]));
                }
            }
        }
        if bytes.len() > input.len() || input.len() > isize::MAX as usize {
            return None;
        }
        if !is_boundary(&input, input.len() - bytes.len()) {
            return None;
        }
        Some(line_and_column(&input, input.len() - bytes.len()))
    }
}

} // verus!
