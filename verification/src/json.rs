//! JSON values: booleans, and the combinators for object fields, objects and arrays.

use std::borrow::Cow;
use vstd::prelude::*;
use crate::number::{dec_uint, lemma_digits_end_bounds, lemma_ws_run_bounds, multispace0, spec_dec_uint, spec_ws_end};
use crate::stream::{
    outcome_is, spec_match_byte, spec_match_slice, spec_next_byte, spec_peek_byte, Error, ErrorKind,
    ErrorKindSpec, Model, no_backslash, ParseStream, SpecResult,
};
use crate::string::{json_string, lemma_string_owned_iff_escaped, spec_json_string, spec_string_scan, utf8_path, Utf8Path};

verus! {

/// Something that reads a value of type `O` from a stream.
pub trait Parser<'i, O: Model, E>: Sized {
    /// What reading at offset `p` of the input `s` gives.
    spec fn spec_parse(&self, s: Seq<u8>, p: int) -> SpecResult<O::M, E>;

    /// Reading never moves backwards, nor past the end of the input.
    proof fn lemma_parse_bounds(&self, s: Seq<u8>, p: int)
        requires
            0 <= p <= s.len(),
        ensures
            self.spec_parse(s, p) matches Ok((_, q)) ==> p <= q <= s.len(),
    ;

    /// Reads a value.
    fn parse(&mut self, stream: &mut ParseStream<'i, E>) -> (r: Result<O, Error<'i, E>>)
        requires
            old(stream).wf(),
        ensures
            final(stream).wf(),
            final(stream).same_source(old(stream)),
            *final(self) == *old(self),
            outcome_is(final(stream), &r, old(self).spec_parse(old(stream).input@, old(stream).pos())),
            no_backslash(old(stream).input@) ==> (r matches Ok(v) ==> v.borrowed()),
            r matches Ok(v) ==> v.from_literals(old(stream).input@),
    ;
}

/// The bytes `rue`, which follow the `t` of `true`.
pub const TRUE_TAIL: [u8; 3] = [0x72, 0x75, 0x65];

/// The bytes `alse`, which follow the `f` of `false`.
pub const FALSE_TAIL: [u8; 4] = [0x61, 0x6c, 0x73, 0x65];

/// Reading a JSON boolean at `p`.
pub open spec fn spec_bool<E>(s: Seq<u8>, p: int) -> SpecResult<bool, E> {
    if p >= s.len() {
        Err((ErrorKindSpec::NextByte, p))
    } else if s[p] == 0x74 {
        match spec_match_slice::<E>(s, p + 1, TRUE_TAIL@) {
            Err(e) => Err(e),
            Ok((_, q)) => Ok((true, q)),
        }
    } else if s[p] == 0x66 {
        match spec_match_slice::<E>(s, p + 1, FALSE_TAIL@) {
            Err(e) => Err(e),
            Ok((_, q)) => Ok((false, q)),
        }
    } else {
        Err((ErrorKindSpec::FailedParsingBool, p + 1))
    }
}

/// The text of a JSON boolean.
pub open spec fn bool_text(b: bool) -> Seq<char> {
    if b {
        "true"@
    } else {
        "false"@
    }
}

/// Reading a boolean inverts writing one: where the input at `p` holds the
/// text `true` or `false`, that value is read and reading stops just after it;
/// and whatever is read is the text of the value read.
pub proof fn lemma_bool_reads_its_text<E>(s: Seq<u8>, p: int, b: bool)
    ensures
        0 <= p && p + bool_text(b).len() <= s.len() && s.subrange(p, p + bool_text(b).len()) == bool_text(b).map_values(
            |c: char| c as u8,
        ) ==> spec_bool::<E>(s, p) == Ok::<(bool, int), (ErrorKindSpec<E>, int)>((b, p + bool_text(b).len())),
        0 <= p ==> (spec_bool::<E>(s, p) matches Ok((v, q)) ==> q == p + bool_text(v).len() && s.subrange(p, q)
            == bool_text(v).map_values(|c: char| c as u8)),
{
    reveal_strlit("true");
    reveal_strlit("false");
    let t = bool_text(b).map_values(|c: char| c as u8);
    if b {
        assert(t =~= seq![0x74u8] + TRUE_TAIL@);
    } else {
        assert(t =~= seq![0x66u8] + FALSE_TAIL@);
    }
    if 0 <= p && p + t.len() <= s.len() && s.subrange(p, p + t.len()) == t {
        assert(s[p] == s.subrange(p, p + t.len())[0]);
        assert(s.subrange(p + 1, p + t.len()) =~= t.subrange(1, t.len() as int));
        if b {
            assert(t.subrange(1, t.len() as int) =~= TRUE_TAIL@);
        } else {
            assert(t.subrange(1, t.len() as int) =~= FALSE_TAIL@);
        }
        assert(t.len() == bool_text(b).len());
    }
    if 0 <= p && spec_bool::<E>(s, p) is Ok {
        let (v, q) = spec_bool::<E>(s, p)->Ok_0;
        let tv = bool_text(v).map_values(|c: char| c as u8);
        if v {
            assert(tv =~= seq![0x74u8] + TRUE_TAIL@);
        } else {
            assert(tv =~= seq![0x66u8] + FALSE_TAIL@);
        }
        assert(s.subrange(p, q) =~= seq![s[p]] + s.subrange(p + 1, q));
    }
}

/// Reads a JSON boolean.
pub fn bool<'i, E>(stream: &mut ParseStream<'i, E>) -> (r: Result<bool, Error<'i, E>>)
    requires
        old(stream).wf(),
    ensures
        final(stream).wf(),
        final(stream).same_source(old(stream)),
        outcome_is(final(stream), &r, spec_bool(old(stream).input@, old(stream).pos())),
{
    match stream.next_byte()? {
        0x74 => {
            stream.match_slice(vstd::array::array_as_slice(&TRUE_TAIL))?;
            Ok(true)
        },
        0x66 => {
            stream.match_slice(vstd::array::array_as_slice(&FALSE_TAIL))?;
            Ok(false)
        },
        _ => Err(stream.error(ErrorKind::FailedParsingBool)),
    }
}

/// Reads an unsigned decimal integer.
pub struct DecUint;

impl<'i, E> Parser<'i, u32, E> for DecUint {
    open spec fn spec_parse(&self, s: Seq<u8>, p: int) -> SpecResult<u32, E> {
        spec_dec_uint(s, p)
    }

    proof fn lemma_parse_bounds(&self, s: Seq<u8>, p: int) {
        lemma_digits_end_bounds(false, s.subrange(p, s.len() as int), 0);
    }

    fn parse(&mut self, stream: &mut ParseStream<'i, E>) -> (r: Result<u32, Error<'i, E>>) {
        dec_uint(stream)
    }
}

/// Reads a JSON boolean.
pub struct Bool;

impl<'i, E> Parser<'i, bool, E> for Bool {
    open spec fn spec_parse(&self, s: Seq<u8>, p: int) -> SpecResult<bool, E> {
        spec_bool(s, p)
    }

    proof fn lemma_parse_bounds(&self, s: Seq<u8>, p: int) {
    }

    fn parse(&mut self, stream: &mut ParseStream<'i, E>) -> (r: Result<bool, Error<'i, E>>) {
        bool(stream)
    }
}

/// Reads a JSON string, quotes included.
pub struct JsonString;

impl<'i, E> Parser<'i, Cow<'i, str>, E> for JsonString {
    open spec fn spec_parse(&self, s: Seq<u8>, p: int) -> SpecResult<Seq<char>, E> {
        spec_json_string(s, p, false)
    }

    proof fn lemma_parse_bounds(&self, s: Seq<u8>, p: int) {
        if spec_string_scan::<E>(s, p, false) is Ok {
            lemma_string_owned_iff_escaped::<E>(s, p, false);
        }
    }

    fn parse(&mut self, stream: &mut ParseStream<'i, E>) -> (r: Result<Cow<'i, str>, Error<'i, E>>) {
        let ghost s = stream.input@;
        let ghost p = stream.pos();
        let r = json_string(stream);
        proof {
            if r is Ok {
                assert(spec_string_scan::<E>(s, p, false) is Ok);
                lemma_string_owned_iff_escaped::<E>(s, p, false);
            }
        }
        r
    }
}

/// Reads a JSON string as a path, quotes included.
pub struct PathString;

impl<'i, E> Parser<'i, Cow<'i, Utf8Path>, E> for PathString {
    open spec fn spec_parse(&self, s: Seq<u8>, p: int) -> SpecResult<Seq<char>, E> {
        spec_json_string(s, p, false)
    }

    proof fn lemma_parse_bounds(&self, s: Seq<u8>, p: int) {
        if spec_string_scan::<E>(s, p, false) is Ok {
            lemma_string_owned_iff_escaped::<E>(s, p, false);
        }
    }

    fn parse(&mut self, stream: &mut ParseStream<'i, E>) -> (r: Result<Cow<'i, Utf8Path>, Error<'i, E>>) {
        let ghost s = stream.input@;
        let ghost p = stream.pos();
        let r = utf8_path(stream);
        proof {
            if r is Ok {
                assert(spec_string_scan::<E>(s, p, false) is Ok);
                lemma_string_owned_iff_escaped::<E>(s, p, false);
            }
        }
        r
    }
}

/// Reads the key, colon and value of an object property, and the comma after it
/// unless the object's closing brace follows.
pub struct Field<'i, P> {
    pub key: &'i [u8],
    pub val: P,
}

/// What follows a property's value at `p`: a comma, which is read, or a closing
/// brace, which is left.
pub open spec fn spec_field_end<E>(s: Seq<u8>, p: int) -> SpecResult<(), E> {
    match spec_peek_byte::<E>(s, p) {
        Err(e) => Err(e),
        Ok((b, _)) => {
            if b == 0x2c {
                Ok(((), spec_ws_end(s, p + 1)))
            } else if b == 0x7d {
                Ok(((), spec_ws_end(s, p)))
            } else {
                Err((ErrorKindSpec::FailedParsingJsonObjectProperty, p))
            }
        },
    }
}

/// Reading the key `key` and the colon after it at `p`: the offset of the value.
pub open spec fn spec_field_key<E>(s: Seq<u8>, p: int, key: Seq<u8>) -> SpecResult<(), E> {
    match spec_match_slice::<E>(s, p, key) {
        Err(e) => Err(e),
        Ok((_, p1)) => match spec_match_byte::<E>(s, spec_ws_end(s, p1), 0x3a) {
            Err(e) => Err(e),
            Ok((_, p2)) => Ok(((), spec_ws_end(s, p2))),
        },
    }
}

/// Reading the property with the key `key` at `p`, its value read by `val`.
pub open spec fn spec_field<'i, O: Model, E, P: Parser<'i, O, E>>(key: Seq<u8>, val: P, s: Seq<u8>, p: int) -> SpecResult<O::M, E> {
    match spec_field_key::<E>(s, p, key) {
        Err(e) => Err(e),
        Ok((_, p1)) => match val.spec_parse(s, p1) {
            Err(e) => Err(e),
            Ok((v, p2)) => match spec_field_end::<E>(s, spec_ws_end(s, p2)) {
                Err(e) => Err(e),
                Ok((_, p3)) => Ok((v, p3)),
            },
        },
    }
}

/// Reading a property never moves backwards, nor past the end of the input.
pub proof fn lemma_field_bounds<'i, O: Model, E, P: Parser<'i, O, E>>(key: Seq<u8>, val: P, s: Seq<u8>, p: int)
    requires
        0 <= p <= s.len(),
    ensures
        spec_field(key, val, s, p) matches Ok((_, q)) ==> p <= q <= s.len(),
{
    if spec_match_slice::<E>(s, p, key) is Ok {
        let p1 = p + key.len();
        lemma_ws_run_bounds(s, p1);
        let p2 = spec_ws_end(s, p1);
        if p2 < s.len() {
            lemma_ws_run_bounds(s, p2 + 1);
            let p3 = spec_ws_end(s, p2 + 1);
            val.lemma_parse_bounds(s, p3);
            if val.spec_parse(s, p3) is Ok {
                let p4 = val.spec_parse(s, p3)->Ok_0.1;
                lemma_ws_run_bounds(s, p4);
                let p5 = spec_ws_end(s, p4);
                if p5 < s.len() {
                    lemma_ws_run_bounds(s, p5);
                    lemma_ws_run_bounds(s, p5 + 1);
                }
            }
        }
    }
}

impl<'i, O: Model, E, P: Parser<'i, O, E>> Parser<'i, O, E> for Field<'i, P> {
    open spec fn spec_parse(&self, s: Seq<u8>, p: int) -> SpecResult<O::M, E> {
        spec_field(self.key@, self.val, s, p)
    }

    proof fn lemma_parse_bounds(&self, s: Seq<u8>, p: int) {
        lemma_field_bounds(self.key@, self.val, s, p);
    }

    fn parse(&mut self, stream: &mut ParseStream<'i, E>) -> (r: Result<O, Error<'i, E>>) {
        let ghost s = stream.input@;
        let ghost p = stream.pos();
        match field_key(stream, self.key) {
            Err(e) => {
                assert(spec_field_key::<E>(s, p, self.key@) is Err);
                assert(spec_field(self.key@, self.val, s, p) == Err::<(O::M, int), (ErrorKindSpec<E>, int)>(spec_field_key::<E>(s, p, self.key@)->Err_0));
                assert(self.spec_parse(s, p) == spec_field(self.key@, self.val, s, p));
                return Err(e);
            },
            Ok(()) => {},
        }
        let ghost p1 = stream.pos();
        let val = match self.val.parse(stream) {
            Err(e) => {
                assert(self.val.spec_parse(s, p1) is Err);
                assert(self.spec_parse(s, p) == Err::<(O::M, int), (ErrorKindSpec<E>, int)>(self.val.spec_parse(s, p1)->Err_0));
                return Err(e);
            },
            Ok(v) => v,
        };
        multispace0(stream)?;
        field_end(stream)?;
        Ok(val)
    }
}

/// Reads the key `key` of a property, the colon after it and the whitespace
/// around the colon.
pub fn field_key<'i, E>(stream: &mut ParseStream<'i, E>, key: &'i [u8]) -> (r: Result<(), Error<'i, E>>)
    requires
        old(stream).wf(),
    ensures
        final(stream).wf(),
        final(stream).same_source(old(stream)),
        outcome_is(final(stream), &r, spec_field_key(old(stream).input@, old(stream).pos(), key@)),
{
    stream.match_slice(key)?;
    multispace0(stream)?;
    stream.match_byte(0x3a)?;
    multispace0(stream)?;
    Ok(())
}

/// Reads what follows a property's value: a comma, or nothing before a closing
/// brace; and the whitespace after it.
pub fn field_end<'i, E>(stream: &mut ParseStream<'i, E>) -> (r: Result<(), Error<'i, E>>)
    requires
        old(stream).wf(),
    ensures
        final(stream).wf(),
        final(stream).same_source(old(stream)),
        outcome_is(final(stream), &r, spec_field_end(old(stream).input@, old(stream).pos())),
{
    match stream.peek_byte()? {
        0x2c => {
            stream.match_byte(0x2c)?;
        },
        0x7d => {},
        _ => return Err(stream.error(ErrorKind::FailedParsingJsonObjectProperty)),
    }
    multispace0(stream)?;
    Ok(())
}

/// Makes the parser of an object property with the key `key`.
pub fn field<'i, P>(key: &'i [u8], val: P) -> (f: Field<'i, P>)
    ensures
        f.key == key,
        f.val == val,
{
    Field { key, val }
}

/// Reads an object: an opening brace, what `val` reads, and a closing brace.
pub struct Record<P> {
    pub val: P,
}

impl<'i, O: Model, E, P: Parser<'i, O, E>> Parser<'i, O, E> for Record<P> {
    open spec fn spec_parse(&self, s: Seq<u8>, p: int) -> SpecResult<O::M, E> {
        match spec_match_byte::<E>(s, p, 0x7b) {
            Err(e) => Err(e),
            Ok((_, p1)) => match self.val.spec_parse(s, spec_ws_end(s, p1)) {
                Err(e) => Err(e),
                Ok((v, p2)) => match spec_match_byte::<E>(s, p2, 0x7d) {
                    Err(e) => Err(e),
                    Ok((_, p3)) => Ok((v, p3)),
                },
            },
        }
    }

    proof fn lemma_parse_bounds(&self, s: Seq<u8>, p: int) {
        if p < s.len() {
            lemma_ws_run_bounds(s, p + 1);
            self.val.lemma_parse_bounds(s, spec_ws_end(s, p + 1));
        }
    }

    fn parse(&mut self, stream: &mut ParseStream<'i, E>) -> (r: Result<O, Error<'i, E>>) {
        stream.match_byte(0x7b)?;
        multispace0(stream)?;
        let val = self.val.parse(stream)?;
        stream.match_byte(0x7d)?;
        Ok(val)
    }
}

/// Makes the parser of an object whose contents `val` reads.
pub fn record<P>(val: P) -> (r: Record<P>)
    ensures
        r.val == val,
{
    Record { val }
}

/// Reads an array: an opening bracket, values that `val` reads separated by
/// commas, and a closing bracket.
pub struct Array<P> {
    pub val: P,
}

/// Reading the items of an array from `p` on, after the items `acc`.
pub open spec fn spec_items<'i, O: Model, E, P: Parser<'i, O, E>>(val: P, s: Seq<u8>, p: int, acc: Seq<O::M>) -> SpecResult<Seq<O::M>, E>
    decreases s.len() - p when 0 <= p <= s.len()
{
    match val.spec_parse(s, p) {
        Err(e) => Err(e),
        Ok((v, q)) => match spec_next_byte::<E>(s, spec_ws_end(s, q)) {
            Err(e) => Err(e),
            Ok((b, q2)) => {
                if b == 0x2c {
                    proof {
                        val.lemma_parse_bounds(s, p);
                        lemma_ws_run_bounds(s, q);
                        lemma_ws_run_bounds(s, q2);
                    }
                    spec_items(val, s, spec_ws_end(s, q2), acc.push(v))
                } else if b == 0x5d {
                    Ok((acc.push(v), q2))
                } else {
                    Err((ErrorKindSpec::FailedParsingJsonArray, q2))
                }
            },
        },
    }
}

impl<'i, O: Model, E, P: Parser<'i, O, E>> Parser<'i, Vec<O>, E> for Array<P> {
    open spec fn spec_parse(&self, s: Seq<u8>, p: int) -> SpecResult<Seq<O::M>, E> {
        match spec_match_byte::<E>(s, p, 0x5b) {
            Err(e) => Err(e),
            Ok((_, p1)) => {
                let p2 = spec_ws_end(s, p1);
                match spec_peek_byte::<E>(s, p2) {
                    Err(e) => Err(e),
                    Ok((b, _)) => {
                        if b != 0x5d {
                            spec_items(self.val, s, p2, Seq::empty())
                        } else {
                            Ok((Seq::empty(), p2 + 1))
                        }
                    },
                }
            },
        }
    }

    proof fn lemma_parse_bounds(&self, s: Seq<u8>, p: int) {
        if p < s.len() {
            lemma_ws_run_bounds(s, p + 1);
            lemma_items_bounds(self.val, s, spec_ws_end(s, p + 1), Seq::empty());
        }
    }

    fn parse(&mut self, stream: &mut ParseStream<'i, E>) -> (r: Result<Vec<O>, Error<'i, E>>) {
        let ghost s = stream.input@;
        stream.match_byte(0x5b)?;
        let mut vec: Vec<O> = Vec::new();
        multispace0(stream)?;
        if 0x5d != stream.peek_byte()? {
            let ghost p0 = stream.pos();
            let ghost items = spec_items(self.val, s, p0, Seq::empty());
            proof {
                lemma_ws_run_bounds(s, p0);
            }
            assert(vec.model() =~= Seq::<O::M>::empty());
            assert(items == old(self).spec_parse(old(stream).input@, old(stream).pos()));
            loop
                invariant_except_break
                    items == old(self).spec_parse(old(stream).input@, old(stream).pos()),
                    stream.wf(),
                    stream.path == old(stream).path,
                    stream.input == old(stream).input,
                    s == stream.input@,
                    *self == *old(self),
                    0 <= stream.pos() <= s.len(),
                    items == spec_items(self.val, s, stream.pos(), vec.model()),
                    no_backslash(s) ==> vec.borrowed(),
                    vec.from_literals(s),
                ensures
                    no_backslash(s) ==> vec.borrowed(),
                    vec.from_literals(s),
                    stream.wf(),
                    stream.path == old(stream).path,
                    stream.input == old(stream).input,
                    *self == *old(self),
                    items == old(self).spec_parse(old(stream).input@, old(stream).pos()),
                    items == Ok::<(Seq<O::M>, int), (ErrorKindSpec<E>, int)>((vec.model(), stream.pos())),
                decreases s.len() - stream.pos(),
            {
                let ghost p = stream.pos();
                let ghost before = vec.model();
                proof {
                    self.val.lemma_parse_bounds(s, p);
                }
                let ghost vec_before = vec@;
                let item = self.val.parse(stream)?;
                vec.push(item);
                assert(vec.model() =~= before.push(item.model()));
                assert(no_backslash(s) ==> vec.borrowed()) by {
                    if no_backslash(s) {
                        assert forall|i: int| 0 <= i < vec@.len() implies #[trigger] vec@[i].borrowed() by {
                            if i < vec_before.len() {
                                assert(vec@[i] == vec_before[i]);
                            }
                        }
                    }
                }
                assert forall|i: int| 0 <= i < vec@.len() implies #[trigger] vec@[i].from_literals(s) by {
                    if i < vec_before.len() {
                        assert(vec@[i] == vec_before[i]);
                    }
                }
                let ghost q = stream.pos();
                proof {
                    lemma_ws_run_bounds(s, q);
                }
                multispace0(stream)?;
                match stream.next_byte()? {
                    0x2c => {
                        proof {
                            lemma_ws_run_bounds(s, stream.pos());
                        }
                        multispace0(stream)?;
                    },
                    0x5d => break,
                    _ => return Err(stream.error(ErrorKind::FailedParsingJsonArray)),
                }
            }
        } else {
            stream.match_byte(0x5d)?;
            assert(vec.model() =~= Seq::<O::M>::empty());
        }
        Ok(vec)
    }
}

/// Reading the items of an array never moves backwards, nor past the end.
pub proof fn lemma_items_bounds<'i, O: Model, E, P: Parser<'i, O, E>>(val: P, s: Seq<u8>, p: int, acc: Seq<O::M>)
    requires
        0 <= p <= s.len(),
    ensures
        spec_items(val, s, p, acc) matches Ok((_, q)) ==> p <= q <= s.len(),
    decreases s.len() - p,
{
    val.lemma_parse_bounds(s, p);
    if val.spec_parse(s, p) is Ok {
        let (v, q) = val.spec_parse(s, p)->Ok_0;
        lemma_ws_run_bounds(s, q);
        let q1 = spec_ws_end(s, q);
        if q1 < s.len() && s[q1] == 0x2c {
            lemma_ws_run_bounds(s, q1 + 1);
            lemma_items_bounds(val, s, spec_ws_end(s, q1 + 1), acc.push(v));
        }
    }
}

/// Reading an array `[x,y]` keeps its items in order: where `val` reads `v1`
/// from just after the bracket up to a comma, and `v2` from just after the
/// comma up to the closing bracket, the array is `v1` then `v2`, and reading
/// stops after the bracket.
pub proof fn lemma_array_keeps_item_order<'i, O: Model, E, P: Parser<'i, O, E>>(
    val: P,
    s: Seq<u8>,
    p: int,
    v1: O::M,
    q1: int,
    v2: O::M,
    q2: int,
)
    requires
        0 <= p && p + 1 < s.len(),
        s[p] == 0x5b,
        !(s[p + 1] == 0x20 || s[p + 1] == 0x09 || s[p + 1] == 0x0a || s[p + 1] == 0x0c || s[p + 1] == 0x0d),
        s[p + 1] != 0x5d,
        val.spec_parse(s, p + 1) == Ok::<(O::M, int), (ErrorKindSpec<E>, int)>((v1, q1)),
        0 <= q1 && q1 + 1 < s.len(),
        s[q1] == 0x2c,
        !(s[q1 + 1] == 0x20 || s[q1 + 1] == 0x09 || s[q1 + 1] == 0x0a || s[q1 + 1] == 0x0c || s[q1 + 1] == 0x0d),
        val.spec_parse(s, q1 + 1) == Ok::<(O::M, int), (ErrorKindSpec<E>, int)>((v2, q2)),
        0 <= q2 < s.len(),
        s[q2] == 0x5d,
    ensures
        (Array { val }).spec_parse(s, p) == Ok::<(Seq<O::M>, int), (ErrorKindSpec<E>, int)>((seq![v1, v2], q2 + 1)),
{
    lemma_ws_run_bounds(s, p + 1);
    lemma_ws_run_bounds(s, q1);
    lemma_ws_run_bounds(s, q1 + 1);
    lemma_ws_run_bounds(s, q2);
    assert(spec_ws_end(s, p + 1) == p + 1);
    assert(spec_ws_end(s, q1) == q1);
    assert(spec_ws_end(s, q1 + 1) == q1 + 1);
    assert(spec_ws_end(s, q2) == q2);
    assert(spec_items(val, s, q1 + 1, seq![v1]) == Ok::<(Seq<O::M>, int), (ErrorKindSpec<E>, int)>((seq![v1].push(v2), q2 + 1)));
    assert(seq![v1].push(v2) =~= seq![v1, v2]);
    assert(Seq::<O::M>::empty().push(v1) =~= seq![v1]);
    assert(spec_items(val, s, p + 1, Seq::empty()) == spec_items(val, s, q1 + 1, seq![v1]));
}

/// Makes the parser of an array whose items `val` reads.
pub fn vec<P>(val: P) -> (v: Array<P>)
    ensures
        v.val == val,
{
    Array { val }
}

} // verus!
