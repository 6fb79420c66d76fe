//! The parsers of the dependency file format: one reads a whole file; the others
//! read the objects within it.

use std::borrow::Cow;
use vstd::prelude::*;
use crate::json::{
    lemma_field_bounds, lemma_items_bounds, spec_field, Array, Bool, DecUint, Field, JsonString,
    Parser, PathString, Record,
};
use crate::number::{lemma_digits_end_bounds, lemma_ws_run_bounds, multispace0, spec_dec_uint, spec_ws_end};
use crate::string::Utf8Path;
use crate::message::ErrorMessage;
use crate::r5::{
    must_be_false, must_be_true, DepFile, DepFileModel, DepInfo, DepInfoModel, ModuleDesc,
    ModuleDescModel, ProvidedModel, ProvidedModuleDesc, RequiredModel, RequiredModuleDesc,
    RequiredModuleDescLookupMethod,
};
use crate::stream::{
    bytes_eq, outcome_is, spec_match_slice, spec_next_byte, spec_next_slice, spec_peek_byte, Error,
    ErrorKindSpec, Model, no_backslash, SpecResult,
};

verus! {

/// What the dependency file parsers found in place of what they expected.
#[derive(Clone, Copy, Debug, PartialEq, Eq, Structural)]
pub enum ErrorKind {
    DepFile,
    DepInfo,
    LookupMethod,
    ProvidedModuleDesc,
    RequiredModuleDesc,
}

/// A stream that the dependency file parsers read.
pub type ParseStream<'i> = crate::stream::ParseStream<'i, ErrorKind>;

/// The outcome of a dependency file parser.
pub type PResult<'i, T> = Result<T, Error<'i, ErrorKind>>;

/// A specification outcome of a dependency file parser.
pub type SpecOutcome<T> = SpecResult<T, ErrorKind>;

/// The error kind `Other` that carries `kind`.
pub open spec fn other(kind: ErrorKind) -> ErrorKindSpec<ErrorKind> {
    ErrorKindSpec::Other { error: kind }
}

impl ErrorKind {
    /// This error at the stream's offset.
    pub fn error<'i>(self, stream: &mut ParseStream<'i>) -> (err: Error<'i, ErrorKind>)
        requires
            old(stream).wf(),
        ensures
            *final(stream) == *old(stream),
            err.path == old(stream).path,
            err.input == old(stream).input,
            err.bytes == old(stream).bytes,
            err.pos() == old(stream).pos(),
            err.error.model() == other(self),
    {
        let error = crate::stream::ErrorKind::Other { error: self };
        stream.error(error)
    }
}

impl ErrorMessage for ErrorKind {
    open spec fn spec_message(&self) -> Seq<char> {
        match self {
            ErrorKind::DepFile => "Failed parsing DepFile fields:\n"@
                + "expected one of: { \"revision\", \"rules\", \"version\" }\n"@,
            ErrorKind::DepInfo => "Failed parsing DepInfo fields:\n"@
                + "expected one of: { \"outputs\", \"primary-output\", \"provides\", \"requires\", \"work-directory\" }\n"@,
            ErrorKind::LookupMethod => "Failed parsing `LookupMethod`:\n"@
                + "expected one of: { \"by-name\", \"include-angle\", \"include-quote\" }\n"@,
            ErrorKind::ProvidedModuleDesc => "Failed parsing object fields:\n"@
                + "expected one of: { \"compiled-module-path\", \"is-interface\", \"logical-name\", \"source-path\", \"unique-on-source-path\" }\n"@,
            ErrorKind::RequiredModuleDesc => "Failed parsing object fields:\n"@
                + "expected one of: { \"compiled-module-path\", \"logical-name\", \"lookup-method\", \"source-path\", \"unique-on-source-path\" }\n"@,
        }
    }

    fn message(&self) -> (s: String) {
        let mut out = String::new();
        match self {
            ErrorKind::DepFile => {
                out.append("Failed parsing DepFile fields:\n");
                out.append("expected one of: { \"revision\", \"rules\", \"version\" }\n");
            },
            ErrorKind::DepInfo => {
                out.append("Failed parsing DepInfo fields:\n");
                out.append("expected one of: { \"outputs\", \"primary-output\", \"provides\", \"requires\", \"work-directory\" }\n");
            },
            ErrorKind::LookupMethod => {
                out.append("Failed parsing `LookupMethod`:\n");
                out.append("expected one of: { \"by-name\", \"include-angle\", \"include-quote\" }\n");
            },
            ErrorKind::ProvidedModuleDesc => {
                out.append("Failed parsing object fields:\n");
                out.append("expected one of: { \"compiled-module-path\", \"is-interface\", \"logical-name\", \"source-path\", \"unique-on-source-path\" }\n");
            },
            ErrorKind::RequiredModuleDesc => {
                out.append("Failed parsing object fields:\n");
                out.append("expected one of: { \"compiled-module-path\", \"logical-name\", \"lookup-method\", \"source-path\", \"unique-on-source-path\" }\n");
            },
        }
        assert(out@ =~= self.spec_message());
        out
    }
}

/// The rest of `"by-name"` once `"b` was read.
pub const BY_NAME_TAIL: [u8; 7] = [0x79, 0x2d, 0x6e, 0x61, 0x6d, 0x65, 0x22];

/// The rest of `"include-angle"` once `"i` was read.
pub const INCLUDE_ANGLE_TAIL: [u8; 13] = [0x6e, 0x63, 0x6c, 0x75, 0x64, 0x65, 0x2d, 0x61, 0x6e, 0x67, 0x6c, 0x65, 0x22];

/// The rest of `"include-quote"` once `"i` was read.
pub const INCLUDE_QUOTE_TAIL: [u8; 13] = [0x6e, 0x63, 0x6c, 0x75, 0x64, 0x65, 0x2d, 0x71, 0x75, 0x6f, 0x74, 0x65, 0x22];

/// The rest of the key `"revision"` once `"re` was read.
pub const REVISION_KEY: [u8; 7] = [0x76, 0x69, 0x73, 0x69, 0x6f, 0x6e, 0x22];

/// The rest of the key `"rules"` once `"ru` was read.
pub const RULES_KEY: [u8; 4] = [0x6c, 0x65, 0x73, 0x22];

/// The rest of the key `"version"` once `"v` was read.
pub const VERSION_KEY: [u8; 7] = [0x65, 0x72, 0x73, 0x69, 0x6f, 0x6e, 0x22];

/// The rest of the key `"outputs"` once `"o` was read.
pub const OUTPUTS_KEY: [u8; 7] = [0x75, 0x74, 0x70, 0x75, 0x74, 0x73, 0x22];

/// The rest of the key `"primary-output"` once `"pri` was read.
pub const PRIMARY_OUTPUT_KEY: [u8; 12] = [0x6d, 0x61, 0x72, 0x79, 0x2d, 0x6f, 0x75, 0x74, 0x70, 0x75, 0x74, 0x22];

/// The rest of the key `"provides"` once `"pro` was read.
pub const PROVIDES_KEY: [u8; 6] = [0x76, 0x69, 0x64, 0x65, 0x73, 0x22];

/// The rest of the key `"requires"` once `"r` was read.
pub const REQUIRES_KEY: [u8; 8] = [0x65, 0x71, 0x75, 0x69, 0x72, 0x65, 0x73, 0x22];

/// The rest of the key `"work-directory"` once `"w` was read.
pub const WORK_DIRECTORY_KEY: [u8; 14] = [0x6f, 0x72, 0x6b, 0x2d, 0x64, 0x69, 0x72, 0x65, 0x63, 0x74, 0x6f, 0x72, 0x79, 0x22];

/// The rest of the key `"source-path"` once `"s` was read.
pub const SOURCE_PATH_KEY: [u8; 11] = [0x6f, 0x75, 0x72, 0x63, 0x65, 0x2d, 0x70, 0x61, 0x74, 0x68, 0x22];

/// The rest of the key `"compiled-module-path"` once `"c` was read.
pub const COMPILED_MODULE_PATH_KEY: [u8; 20] = [0x6f, 0x6d, 0x70, 0x69, 0x6c, 0x65, 0x64, 0x2d, 0x6d, 0x6f, 0x64, 0x75, 0x6c, 0x65, 0x2d, 0x70, 0x61, 0x74, 0x68, 0x22];

/// The rest of the key `"logical-name"` once `"l` was read.
pub const LOGICAL_NAME_KEY: [u8; 12] = [0x6f, 0x67, 0x69, 0x63, 0x61, 0x6c, 0x2d, 0x6e, 0x61, 0x6d, 0x65, 0x22];

/// The rest of the key `"unique-on-source-path"` once `"u` was read.
pub const UNIQUE_ON_SOURCE_PATH_KEY: [u8; 21] = [0x6e, 0x69, 0x71, 0x75, 0x65, 0x2d, 0x6f, 0x6e, 0x2d, 0x73, 0x6f, 0x75, 0x72, 0x63, 0x65, 0x2d, 0x70, 0x61, 0x74, 0x68, 0x22];

/// The rest of the key `"is-interface"` once `"i` was read.
pub const IS_INTERFACE_KEY: [u8; 12] = [0x73, 0x2d, 0x69, 0x6e, 0x74, 0x65, 0x72, 0x66, 0x61, 0x63, 0x65, 0x22];

/// The bytes `og`, which follow `"l` in `"logical-name"`.
pub const LOG_PREFIX: [u8; 2] = [0x6f, 0x67];

/// The bytes `oo`, which follow `"l` in `"lookup-method"`.
pub const LOO_PREFIX: [u8; 2] = [0x6f, 0x6f];

/// The rest of the key `"logical-name"` once `"log` was read.
pub const LOGICAL_NAME_TAIL: [u8; 10] = [0x69, 0x63, 0x61, 0x6c, 0x2d, 0x6e, 0x61, 0x6d, 0x65, 0x22];

/// The rest of the key `"lookup-method"` once `"loo` was read.
pub const LOOKUP_METHOD_TAIL: [u8; 11] = [0x6b, 0x75, 0x70, 0x2d, 0x6d, 0x65, 0x74, 0x68, 0x6f, 0x64, 0x22];

/// Reading a lookup method at `p`.
pub open spec fn spec_lookup_method(s: Seq<u8>, p: int) -> SpecOutcome<RequiredModuleDescLookupMethod> {
    match spec_next_byte::<ErrorKind>(s, p) {
        Err(e) => Err(e),
        Ok((b0, p1)) => {
            if b0 != 0x22 {
                Err((other(ErrorKind::LookupMethod), p1))
            } else {
                match spec_next_byte::<ErrorKind>(s, p1) {
                    Err(e) => Err(e),
                    Ok((b1, p2)) => {
                        if b1 == 0x62 {
                            match spec_match_slice::<ErrorKind>(s, p2, BY_NAME_TAIL@) {
                                Err(e) => Err(e),
                                Ok((_, q)) => Ok((RequiredModuleDescLookupMethod::ByName, q)),
                            }
                        } else if b1 == 0x69 {
                            match spec_next_slice::<ErrorKind>(s, p2, 13) {
                                Err(e) => Err(e),
                                Ok((t, q)) => {
                                    if t == INCLUDE_ANGLE_TAIL@ {
                                        Ok((RequiredModuleDescLookupMethod::IncludeAngle, q))
                                    } else if t == INCLUDE_QUOTE_TAIL@ {
                                        Ok((RequiredModuleDescLookupMethod::IncludeQuote, q))
                                    } else {
                                        Err((other(ErrorKind::LookupMethod), q))
                                    }
                                },
                            }
                        } else {
                            Err((other(ErrorKind::LookupMethod), p2))
                        }
                    },
                }
            }
        },
    }
}

/// The bytes of an ASCII text.
pub open spec fn ascii_bytes(t: Seq<char>) -> Seq<u8> {
    t.map_values(|c: char| c as u8)
}

/// The texts that [`RequiredModuleDescLookupMethod::to_string`] writes, as
/// bytes.
proof fn lemma_lookup_method_texts()
    ensures
        ascii_bytes(RequiredModuleDescLookupMethod::ByName.spec_repr()) =~= seq![0x22u8, 0x62u8] + BY_NAME_TAIL@,
        ascii_bytes(RequiredModuleDescLookupMethod::IncludeAngle.spec_repr()) =~= seq![0x22u8, 0x69u8]
            + INCLUDE_ANGLE_TAIL@,
        ascii_bytes(RequiredModuleDescLookupMethod::IncludeQuote.spec_repr()) =~= seq![0x22u8, 0x69u8]
            + INCLUDE_QUOTE_TAIL@,
{
    reveal_strlit("\"by-name\"");
    reveal_strlit("\"include-angle\"");
    reveal_strlit("\"include-quote\"");
}

/// Reading a lookup method inverts writing one: where the input at `p` holds
/// the text that `to_string` writes for a method (`"include-quote"`, quotes
/// included, for `IncludeQuote`), that method is read, and reading stops just
/// after the text.
pub proof fn lemma_lookup_method_reads_its_text(m: RequiredModuleDescLookupMethod, s: Seq<u8>, p: int)
    requires
        0 <= p,
        p + m.spec_repr().len() <= s.len(),
        s.subrange(p, p + m.spec_repr().len()) == ascii_bytes(m.spec_repr()),
    ensures
        spec_lookup_method(s, p) == Ok::<(RequiredModuleDescLookupMethod, int), (ErrorKindSpec<ErrorKind>, int)>(
            (m, p + m.spec_repr().len()),
        ),
{
    lemma_lookup_method_texts();
    let t = ascii_bytes(m.spec_repr());
    let n = t.len() as int;
    assert(t.len() == m.spec_repr().len());
    assert(s[p] == s.subrange(p, p + n)[0]);
    assert(s[p + 1] == s.subrange(p, p + n)[1]);
    assert(s.subrange(p + 2, p + n) =~= t.subrange(2, n));
    match m {
        RequiredModuleDescLookupMethod::ByName => {
            assert(t.subrange(2, n) =~= BY_NAME_TAIL@);
        },
        RequiredModuleDescLookupMethod::IncludeAngle => {
            assert(t.subrange(2, n) =~= INCLUDE_ANGLE_TAIL@);
        },
        RequiredModuleDescLookupMethod::IncludeQuote => {
            assert(t.subrange(2, n) =~= INCLUDE_QUOTE_TAIL@);
            assert(INCLUDE_QUOTE_TAIL@[7] != INCLUDE_ANGLE_TAIL@[7]);
        },
    }
}

/// The three texts of the format name their own methods: `"by-name"` is read
/// as `ByName`, `"include-angle"` as `IncludeAngle` and `"include-quote"` as
/// `IncludeQuote`, quotes included, wherever they stand in the input.
pub proof fn lemma_lookup_method_names(s: Seq<u8>, p: int)
    requires
        0 <= p,
    ensures
        p + 9 <= s.len() && s.subrange(p, p + 9) == ascii_bytes("\"by-name\""@) ==> spec_lookup_method(s, p)
            == Ok::<(RequiredModuleDescLookupMethod, int), (ErrorKindSpec<ErrorKind>, int)>(
            (RequiredModuleDescLookupMethod::ByName, p + 9),
        ),
        p + 15 <= s.len() && s.subrange(p, p + 15) == ascii_bytes("\"include-angle\""@) ==> spec_lookup_method(s, p)
            == Ok::<(RequiredModuleDescLookupMethod, int), (ErrorKindSpec<ErrorKind>, int)>(
            (RequiredModuleDescLookupMethod::IncludeAngle, p + 15),
        ),
        p + 15 <= s.len() && s.subrange(p, p + 15) == ascii_bytes("\"include-quote\""@) ==> spec_lookup_method(s, p)
            == Ok::<(RequiredModuleDescLookupMethod, int), (ErrorKindSpec<ErrorKind>, int)>(
            (RequiredModuleDescLookupMethod::IncludeQuote, p + 15),
        ),
{
    reveal_strlit("\"by-name\"");
    reveal_strlit("\"include-angle\"");
    reveal_strlit("\"include-quote\"");
    if p + 9 <= s.len() && s.subrange(p, p + 9) == ascii_bytes("\"by-name\""@) {
        lemma_lookup_method_reads_its_text(RequiredModuleDescLookupMethod::ByName, s, p);
    }
    if p + 15 <= s.len() && s.subrange(p, p + 15) == ascii_bytes("\"include-angle\""@) {
        lemma_lookup_method_reads_its_text(RequiredModuleDescLookupMethod::IncludeAngle, s, p);
    }
    if p + 15 <= s.len() && s.subrange(p, p + 15) == ascii_bytes("\"include-quote\""@) {
        lemma_lookup_method_reads_its_text(RequiredModuleDescLookupMethod::IncludeQuote, s, p);
    }
}

/// Whatever reading a lookup method accepts is the text that `to_string`
/// writes for the method read.
pub proof fn lemma_lookup_method_read_is_its_text(s: Seq<u8>, p: int)
    requires
        0 <= p,
        spec_lookup_method(s, p) is Ok,
    ensures
        spec_lookup_method(s, p) matches Ok((m, q)) && {
            &&& q == p + m.spec_repr().len()
            &&& s.subrange(p, q) == ascii_bytes(m.spec_repr())
        },
{
    lemma_lookup_method_texts();
    let (m, q) = spec_lookup_method(s, p)->Ok_0;
    let t = ascii_bytes(m.spec_repr());
    assert(s.subrange(p, q) =~= seq![s[p], s[p + 1]] + s.subrange(p + 2, q));
    match m {
        RequiredModuleDescLookupMethod::ByName => {
            assert(t =~= seq![0x22u8, 0x62u8] + BY_NAME_TAIL@);
        },
        RequiredModuleDescLookupMethod::IncludeAngle => {
            assert(t =~= seq![0x22u8, 0x69u8] + INCLUDE_ANGLE_TAIL@);
        },
        RequiredModuleDescLookupMethod::IncludeQuote => {
            assert(t =~= seq![0x22u8, 0x69u8] + INCLUDE_QUOTE_TAIL@);
        },
    }
}

/// Reads a lookup method: `"by-name"`, `"include-angle"` or `"include-quote"`.
pub fn lookup_method<'i>(stream: &mut ParseStream<'i>) -> (r: PResult<'i, RequiredModuleDescLookupMethod>)
    requires
        old(stream).wf(),
    ensures
        final(stream).wf(),
        final(stream).same_source(old(stream)),
        outcome_is(final(stream), &r, spec_lookup_method(old(stream).input@, old(stream).pos())),
{
    match stream.next_byte()? {
        0x22 => match stream.next_byte()? {
            0x62 => {
                stream.match_slice(vstd::array::array_as_slice(&BY_NAME_TAIL))?;
                Ok(RequiredModuleDescLookupMethod::ByName)
            },
            0x69 => {
                let tail = stream.next_slice(13)?;
                if bytes_eq(tail, vstd::array::array_as_slice(&INCLUDE_ANGLE_TAIL)) {
                    Ok(RequiredModuleDescLookupMethod::IncludeAngle)
                } else if bytes_eq(tail, vstd::array::array_as_slice(&INCLUDE_QUOTE_TAIL)) {
                    Ok(RequiredModuleDescLookupMethod::IncludeQuote)
                } else {
                    Err(ErrorKind::LookupMethod.error(stream))
                }
            },
            _ => Err(ErrorKind::LookupMethod.error(stream)),
        },
        _ => Err(ErrorKind::LookupMethod.error(stream)),
    }
}

/// Reads a lookup method.
pub struct LookupMethod;

impl<'i> Parser<'i, RequiredModuleDescLookupMethod, ErrorKind> for LookupMethod {
    open spec fn spec_parse(&self, s: Seq<u8>, p: int) -> SpecOutcome<RequiredModuleDescLookupMethod> {
        spec_lookup_method(s, p)
    }

    proof fn lemma_parse_bounds(&self, s: Seq<u8>, p: int) {
    }

    fn parse(&mut self, stream: &mut ParseStream<'i>) -> (r: PResult<'i, RequiredModuleDescLookupMethod>) {
        lookup_method(stream)
    }
}

/// The fields of a required module read so far.
pub struct RequiredSeen<'i> {
    pub source_path: Option<Cow<'i, Utf8Path>>,
    pub compiled_module_path: Option<Cow<'i, Utf8Path>>,
    pub lookup_method: Option<RequiredModuleDescLookupMethod>,
    pub unique_on_source_path: Option<bool>,
    pub logical_name: Option<Cow<'i, str>>,
}

/// The abstract value of a [`RequiredSeen`].
pub struct RequiredSeenModel {
    pub source_path: Option<Seq<char>>,
    pub compiled_module_path: Option<Seq<char>>,
    pub lookup_method: Option<RequiredModuleDescLookupMethod>,
    pub unique_on_source_path: Option<bool>,
    pub logical_name: Option<Seq<char>>,
}

impl<'i> Model for RequiredSeen<'i> {
    type M = RequiredSeenModel;

    open spec fn model(&self) -> RequiredSeenModel {
        RequiredSeenModel {
            source_path: self.source_path.model(),
            compiled_module_path: self.compiled_module_path.model(),
            lookup_method: self.lookup_method,
            unique_on_source_path: self.unique_on_source_path,
            logical_name: self.logical_name.model(),
        }
    }

    open spec fn borrowed(&self) -> bool {
        &&& self.source_path.borrowed()
        &&& self.compiled_module_path.borrowed()
        &&& self.logical_name.borrowed()
    }

    open spec fn from_literals(&self, s: Seq<u8>) -> bool {
        &&& self.source_path.from_literals(s)
        &&& self.compiled_module_path.from_literals(s)
        &&& self.logical_name.from_literals(s)
    }
}

/// The outcome of reading one field of an object: what was read so far, and the
/// offset after the field.
pub type StepOutcome<T> = Result<(T, int), (ErrorKindSpec<ErrorKind>, int)>;

/// The error `DuplicateField` of the field `name`.
pub open spec fn duplicate(name: &str) -> ErrorKindSpec<ErrorKind> {
    ErrorKindSpec::DuplicateField { field: name@ }
}

/// The error `MissingField` of the field `name`.
pub open spec fn missing(name: &str) -> ErrorKindSpec<ErrorKind> {
    ErrorKindSpec::MissingField { field: name@ }
}

/// The outcome of a field, without what was read.
pub open spec fn spec_step_unit<T>(r: StepOutcome<T>) -> SpecOutcome<()> {
    match r {
        Ok((_, q)) => Ok(((), q)),
        Err(e) => Err(e),
    }
}

/// Reading one field of a required module at `p`, after the fields `st`.
#[verifier::opaque]
pub open spec fn spec_required_step(s: Seq<u8>, p: int, st: RequiredSeenModel) -> StepOutcome<RequiredSeenModel> {
    match spec_next_byte::<ErrorKind>(s, p) {
        Err(e) => Err(e),
        Ok((b0, p1)) => if b0 != 0x22 {
            Err((other(ErrorKind::RequiredModuleDesc), p1))
        } else {
            match spec_next_byte::<ErrorKind>(s, p1) {
                Err(e) => Err(e),
                Ok((b1, p2)) => if b1 == 0x73 {
                    if st.source_path is Some {
                        Err((duplicate("source-path"), p2))
                    } else {
                        match spec_field(SOURCE_PATH_KEY@, PathString, s, p2) {
                            Err(e) => Err(e),
                            Ok((v, q)) => Ok((RequiredSeenModel { source_path: Some(v), ..st }, q)),
                        }
                    }
                } else if b1 == 0x63 {
                    if st.compiled_module_path is Some {
                        Err((duplicate("compiled-module-path"), p2))
                    } else {
                        match spec_field(COMPILED_MODULE_PATH_KEY@, PathString, s, p2) {
                            Err(e) => Err(e),
                            Ok((v, q)) => Ok((RequiredSeenModel { compiled_module_path: Some(v), ..st }, q)),
                        }
                    }
                } else if b1 == 0x6c {
                    match spec_next_slice::<ErrorKind>(s, p2, 2) {
                        Err(e) => Err(e),
                        Ok((t, p3)) => if t == LOG_PREFIX@ {
                            if st.logical_name is Some {
                                Err((duplicate("logical-name"), p3))
                            } else {
                                match spec_field(LOGICAL_NAME_TAIL@, JsonString, s, p3) {
                                    Err(e) => Err(e),
                                    Ok((v, q)) => Ok((RequiredSeenModel { logical_name: Some(v), ..st }, q)),
                                }
                            }
                        } else if t == LOO_PREFIX@ {
                            if st.lookup_method is Some {
                                Err((duplicate("lookup-method"), p3))
                            } else {
                                match spec_field(LOOKUP_METHOD_TAIL@, LookupMethod, s, p3) {
                                    Err(e) => Err(e),
                                    Ok((v, q)) => Ok((RequiredSeenModel { lookup_method: Some(v), ..st }, q)),
                                }
                            }
                        } else {
                            Err((other(ErrorKind::RequiredModuleDesc), p3))
                        },
                    }
                } else if b1 == 0x75 {
                    if st.unique_on_source_path is Some {
                        Err((duplicate("unique-on-source-path"), p2))
                    } else {
                        match spec_field(UNIQUE_ON_SOURCE_PATH_KEY@, Bool, s, p2) {
                            Err(e) => Err(e),
                            Ok((v, q)) => Ok((RequiredSeenModel { unique_on_source_path: Some(v), ..st }, q)),
                        }
                    }
                } else {
                    Err((other(ErrorKind::RequiredModuleDesc), p2))
                },
            }
        },
    }
}

/// Reading a field never moves backwards, nor past the end of the input.
pub proof fn lemma_required_step_bounds(s: Seq<u8>, p: int, st: RequiredSeenModel)
    requires
        0 <= p <= s.len(),
    ensures
        spec_required_step(s, p, st) matches Ok((_, q)) ==> p < q <= s.len(),
{
    reveal(spec_required_step);
    if p + 2 <= s.len() {
        lemma_field_bounds::<Cow<Utf8Path>, ErrorKind, PathString>(SOURCE_PATH_KEY@, PathString, s, p + 2);
        lemma_field_bounds::<Cow<Utf8Path>, ErrorKind, PathString>(COMPILED_MODULE_PATH_KEY@, PathString, s, p + 2);
        lemma_field_bounds::<bool, ErrorKind, Bool>(UNIQUE_ON_SOURCE_PATH_KEY@, Bool, s, p + 2);
    }
    if p + 4 <= s.len() {
        lemma_field_bounds::<Cow<str>, ErrorKind, JsonString>(LOGICAL_NAME_TAIL@, JsonString, s, p + 4);
        lemma_field_bounds::<RequiredModuleDescLookupMethod, ErrorKind, LookupMethod>(LOOKUP_METHOD_TAIL@, LookupMethod, s, p + 4);
    }
}

/// What the fields `st` of a required module, read up to its closing brace at
/// `p`, make: a module unique on its source path when `unique-on-source-path`
/// is true, and on its logical name otherwise.
pub open spec fn spec_required_finish(st: RequiredSeenModel, p: int) -> SpecOutcome<RequiredModel> {
    let lookup_method = match st.lookup_method {
        Some(m) => m,
        None => RequiredModuleDescLookupMethod::ByName,
    };
    if st.unique_on_source_path == Some(true) {
        if st.source_path is None {
            Err((missing("source-path"), p))
        } else if st.logical_name is None {
            Err((missing("logical-name"), p))
        } else {
            Ok((RequiredModel {
                desc: ModuleDescModel::BySourcePath {
                    logical_name: st.logical_name->0,
                    source_path: st.source_path->0,
                    compiled_module_path: st.compiled_module_path,
                },
                lookup_method,
            }, p))
        }
    } else if st.logical_name is None {
        Err((missing("logical-name"), p))
    } else {
        Ok((RequiredModel {
            desc: ModuleDescModel::ByLogicalName {
                logical_name: st.logical_name->0,
                source_path: st.source_path,
                compiled_module_path: st.compiled_module_path,
                unique_on_source_path: st.unique_on_source_path is Some,
            },
            lookup_method,
        }, p))
    }
}

/// Reading the fields of a required module from `p` on, after the fields `st`,
/// up to its closing brace.
pub open spec fn spec_required_fields(s: Seq<u8>, p: int, st: RequiredSeenModel) -> SpecOutcome<RequiredModel>
    decreases s.len() - p when 0 <= p <= s.len()
{
    match spec_peek_byte::<ErrorKind>(s, p) {
        Err(e) => Err(e),
        Ok((b, _)) => if b == 0x7d {
            spec_required_finish(st, p)
        } else {
            match spec_required_step(s, p, st) {
                Err(e) => Err(e),
                Ok((st2, q)) => {
                    proof {
                        lemma_required_step_bounds(s, p, st);
                    }
                    spec_required_fields(s, q, st2)
                },
            }
        },
    }
}

/// No fields read yet.
pub open spec fn required_none() -> RequiredSeenModel {
    RequiredSeenModel {
        source_path: None,
        compiled_module_path: None,
        lookup_method: None,
        unique_on_source_path: None,
        logical_name: None,
    }
}

/// Reading a required module at `p`, with the whitespace around it.
pub open spec fn spec_required_module_desc(s: Seq<u8>, p: int) -> SpecOutcome<RequiredModel> {
    match (Record { val: RequiredFields }).spec_parse(s, spec_ws_end(s, p)) {
        Err(e) => Err(e),
        Ok((v, q)) => Ok((v, spec_ws_end(s, q))),
    }
}

/// The input `s` holds the bytes `t` at offset `p`.
pub open spec fn holds_at(s: Seq<u8>, p: int, t: Seq<u8>) -> bool {
    &&& 0 <= p
    &&& p + t.len() <= s.len()
    &&& s.subrange(p, p + t.len()) == t
}

/// Whitespace is skipped to nothing before a byte that is not whitespace.
proof fn lemma_ws_end_at_token(s: Seq<u8>, x: int)
    requires
        0 <= x < s.len(),
        !(s[x] == 0x20 || s[x] == 0x09 || s[x] == 0x0a || s[x] == 0x0c || s[x] == 0x0d),
    ensures
        spec_ws_end(s, x) == x,
{
}

/// A JSON string read at `x` starts with a quote.
proof fn lemma_json_string_starts_with_quote(s: Seq<u8>, x: int)
    requires
        crate::string::spec_json_string::<ErrorKind>(s, x, false) is Ok,
    ensures
        0 <= x < s.len() || x < 0,
        0 <= x < s.len() ==> s[x] == 0x22,
{
}

/// What the bytes of `{"logical-name":` at `p` are, one by one.
proof fn lemma_head_bytes(s: Seq<u8>, p: int)
    requires
        holds_at(s, p, ascii_bytes("{\"logical-name\":"@)),
    ensures
        p + 16 <= s.len(),
        s[p] == 0x7b,
        s[p + 1] == 0x22,
        s[p + 2] == 0x6c,
        s.subrange(p + 3, p + 5) == LOG_PREFIX@,
        s.subrange(p + 5, p + 15) == LOGICAL_NAME_TAIL@,
        s[p + 15] == 0x3a,
{
    reveal_strlit("{\"logical-name\":");
    let head = ascii_bytes("{\"logical-name\":"@);
    assert(head =~= seq![0x7bu8, 0x22u8, 0x6cu8, 0x6fu8, 0x67u8, 0x69u8, 0x63u8, 0x61u8, 0x6cu8, 0x2du8, 0x6eu8, 0x61u8, 0x6du8, 0x65u8, 0x22u8, 0x3au8]);
    assert forall|i: int| 0 <= i < 16 implies s[p + i] == #[trigger] head[i] by {
        assert(s.subrange(p, p + 16)[i] == s[p + i]);
    }
    assert(s.subrange(p + 3, p + 5) =~= LOG_PREFIX@);
    assert(s.subrange(p + 5, p + 15) =~= LOGICAL_NAME_TAIL@);
}

/// The first field of `{"logical-name":L,` is read as the logical name `L`.
#[verifier::rlimit(50)]
proof fn lemma_logical_name_step(s: Seq<u8>, p: int, l: Seq<char>, q1: int)
    requires
        0 <= p,
        p + 16 <= s.len(),
        s[p + 1] == 0x22,
        s[p + 2] == 0x6c,
        s.subrange(p + 3, p + 5) == LOG_PREFIX@,
        s.subrange(p + 5, p + 15) == LOGICAL_NAME_TAIL@,
        s[p + 15] == 0x3a,
        crate::string::spec_json_string::<ErrorKind>(s, p + 16, false) == Ok::<(Seq<char>, int), (ErrorKindSpec<ErrorKind>, int)>((l, q1)),
        0 <= q1 && q1 + 1 < s.len(),
        s[q1] == 0x2c,
        s[q1 + 1] == 0x22,
    ensures
        spec_required_step(s, p + 1, required_none()) == Ok::<(RequiredSeenModel, int), (ErrorKindSpec<ErrorKind>, int)>((
            RequiredSeenModel { logical_name: Some(l), ..required_none() },
            q1 + 1,
        )),
{
    reveal(spec_required_step);
    lemma_json_string_starts_with_quote(s, p + 16);
    lemma_ws_end_at_token(s, p + 15);
    lemma_ws_end_at_token(s, p + 16);
    lemma_ws_end_at_token(s, q1);
    lemma_ws_end_at_token(s, q1 + 1);
}

/// The key of a path field of a required module, with the comma before it and
/// the colon after it.
pub open spec fn path_key_text(compiled: bool) -> Seq<char> {
    if compiled {
        ",\"compiled-module-path\":"@
    } else {
        ",\"source-path\":"@
    }
}

/// What the bytes of a path key at `q1` are.
proof fn lemma_path_key_bytes(s: Seq<u8>, q1: int, compiled: bool)
    requires
        holds_at(s, q1, ascii_bytes(path_key_text(compiled))),
    ensures
        path_key_text(compiled).len() == if compiled { 24int } else { 15int },
        s[q1] == 0x2c,
        s[q1 + 1] == 0x22,
        s[q1 + 2] == if compiled { 0x63u8 } else { 0x73u8 },
        compiled ==> s.subrange(q1 + 3, q1 + 23) == COMPILED_MODULE_PATH_KEY@,
        !compiled ==> s.subrange(q1 + 3, q1 + 14) == SOURCE_PATH_KEY@,
        s[q1 + path_key_text(compiled).len() - 1] == 0x3a,
{
    reveal_strlit(",\"compiled-module-path\":");
    reveal_strlit(",\"source-path\":");
    let kb = ascii_bytes(path_key_text(compiled));
    let n = kb.len() as int;
    if compiled {
        assert(kb =~= seq![0x2cu8, 0x22u8, 0x63u8, 0x6fu8, 0x6du8, 0x70u8, 0x69u8, 0x6cu8, 0x65u8, 0x64u8, 0x2du8, 0x6du8, 0x6fu8, 0x64u8, 0x75u8, 0x6cu8, 0x65u8, 0x2du8, 0x70u8, 0x61u8, 0x74u8, 0x68u8, 0x22u8, 0x3au8]);
    } else {
        assert(kb =~= seq![0x2cu8, 0x22u8, 0x73u8, 0x6fu8, 0x75u8, 0x72u8, 0x63u8, 0x65u8, 0x2du8, 0x70u8, 0x61u8, 0x74u8, 0x68u8, 0x22u8, 0x3au8]);
    }
    assert forall|i: int| 0 <= i < n implies s[q1 + i] == #[trigger] kb[i] by {
        assert(s.subrange(q1, q1 + n)[i] == s[q1 + i]);
    }
    if compiled {
        assert(s.subrange(q1 + 3, q1 + 23) =~= COMPILED_MODULE_PATH_KEY@);
    } else {
        assert(s.subrange(q1 + 3, q1 + 14) =~= SOURCE_PATH_KEY@);
    }
}

/// After a comma, the field `"source-path":V` or `"compiled-module-path":V`
/// followed by `}` is read into the field of its name.
#[verifier::rlimit(50)]
proof fn lemma_path_step(s: Seq<u8>, q1: int, compiled: bool, st: RequiredSeenModel, v: Seq<char>, q2: int)
    requires
        0 <= q1,
        s[q1 + 1] == 0x22,
        s[q1 + 2] == if compiled { 0x63u8 } else { 0x73u8 },
        compiled ==> s.subrange(q1 + 3, q1 + 23) == COMPILED_MODULE_PATH_KEY@,
        !compiled ==> s.subrange(q1 + 3, q1 + 14) == SOURCE_PATH_KEY@,
        s[q1 + path_key_text(compiled).len() - 1] == 0x3a,
        path_key_text(compiled).len() == if compiled { 24int } else { 15int },
        crate::string::spec_json_string::<ErrorKind>(s, q1 + path_key_text(compiled).len(), false)
            == Ok::<(Seq<char>, int), (ErrorKindSpec<ErrorKind>, int)>((v, q2)),
        0 <= q2 < s.len(),
        s[q2] == 0x7d,
        st.source_path is None,
        st.compiled_module_path is None,
    ensures
        spec_required_step(s, q1 + 1, st) == Ok::<(RequiredSeenModel, int), (ErrorKindSpec<ErrorKind>, int)>((
            if compiled {
                RequiredSeenModel { compiled_module_path: Some(v), ..st }
            } else {
                RequiredSeenModel { source_path: Some(v), ..st }
            },
            q2,
        )),
{
    reveal(spec_required_step);
    let n = path_key_text(compiled).len() as int;
    assert(q1 + n <= s.len()) by {
        lemma_json_string_starts_with_quote(s, q1 + n);
    }
    lemma_json_string_starts_with_quote(s, q1 + n);
    lemma_ws_end_at_token(s, q1 + n - 1);
    lemma_ws_end_at_token(s, q1 + n);
    lemma_ws_end_at_token(s, q2);
}

/// Reading a required module object `{"logical-name":L,"source-path":V}` or
/// `{"logical-name":L,"compiled-module-path":V}`, where `L` and `V` are any JSON
/// strings: its logical name is the text of `L`, and the text of `V` lands in
/// the field of the same name as its key, the other path being absent. The
/// module is named by its logical name and looked up by name.
pub proof fn lemma_required_path_fields_land(s: Seq<u8>, p: int, compiled: bool, l: Seq<char>, q1: int, v: Seq<char>, q2: int)
    requires
        holds_at(s, p, ascii_bytes("{\"logical-name\":"@)),
        crate::string::spec_json_string::<ErrorKind>(s, p + 16, false) == Ok::<(Seq<char>, int), (ErrorKindSpec<ErrorKind>, int)>((l, q1)),
        holds_at(s, q1, ascii_bytes(path_key_text(compiled))),
        crate::string::spec_json_string::<ErrorKind>(s, q1 + path_key_text(compiled).len(), false)
            == Ok::<(Seq<char>, int), (ErrorKindSpec<ErrorKind>, int)>((v, q2)),
        holds_at(s, q2, seq![0x7du8]),
    ensures
        spec_required_module_desc(s, p) == Ok::<(RequiredModel, int), (ErrorKindSpec<ErrorKind>, int)>((
            RequiredModel {
                desc: ModuleDescModel::ByLogicalName {
                    logical_name: l,
                    source_path: if compiled { None } else { Some(v) },
                    compiled_module_path: if compiled { Some(v) } else { None },
                    unique_on_source_path: false,
                },
                lookup_method: RequiredModuleDescLookupMethod::ByName,
            },
            spec_ws_end(s, q2 + 1),
        )),
{
    lemma_head_bytes(s, p);
    lemma_path_key_bytes(s, q1, compiled);
    assert(s.subrange(q2, q2 + 1)[0] == s[q2]);
    lemma_ws_end_at_token(s, p);
    lemma_ws_end_at_token(s, p + 1);
    lemma_logical_name_step(s, p, l, q1);
    let st1 = RequiredSeenModel { logical_name: Some(l), ..required_none() };
    lemma_path_step(s, q1, compiled, st1, v, q2);
    let st2 = if compiled {
        RequiredSeenModel { compiled_module_path: Some(v), ..st1 }
    } else {
        RequiredSeenModel { source_path: Some(v), ..st1 }
    };
    assert(spec_required_fields(s, q2, st2) == spec_required_finish(st2, q2));
    assert(spec_required_fields(s, q1 + 1, st1) == spec_required_fields(s, q2, st2));
    assert(spec_required_fields(s, p + 1, required_none()) == spec_required_fields(s, q1 + 1, st1));
}

/// The opening of an object whose first key is a path key of a required
/// module, with the colon after it.
pub open spec fn open_path_key_text(compiled: bool) -> Seq<char> {
    if compiled {
        "{\"compiled-module-path\":"@
    } else {
        "{\"source-path\":"@
    }
}

/// A required module must give its logical name: `{"source-path":V}` and
/// `{"compiled-module-path":V}`, where `V` is any JSON string, are refused for
/// the missing field `logical-name`, at their closing brace.
pub proof fn lemma_required_without_logical_name_refused(s: Seq<u8>, p: int, compiled: bool, v: Seq<char>, q2: int)
    requires
        holds_at(s, p, ascii_bytes(open_path_key_text(compiled))),
        crate::string::spec_json_string::<ErrorKind>(s, p + open_path_key_text(compiled).len(), false)
            == Ok::<(Seq<char>, int), (ErrorKindSpec<ErrorKind>, int)>((v, q2)),
        holds_at(s, q2, seq![0x7du8]),
    ensures
        spec_required_module_desc(s, p) == Err::<(RequiredModel, int), (ErrorKindSpec<ErrorKind>, int)>(
            (missing("logical-name"), q2),
        ),
{
    reveal_strlit("{\"compiled-module-path\":");
    reveal_strlit("{\"source-path\":");
    reveal_strlit(",\"compiled-module-path\":");
    reveal_strlit(",\"source-path\":");
    let kb = ascii_bytes(open_path_key_text(compiled));
    let n = kb.len() as int;
    if compiled {
        assert(kb =~= seq![0x7bu8, 0x22u8, 0x63u8, 0x6fu8, 0x6du8, 0x70u8, 0x69u8, 0x6cu8, 0x65u8, 0x64u8, 0x2du8, 0x6du8, 0x6fu8, 0x64u8, 0x75u8, 0x6cu8, 0x65u8, 0x2du8, 0x70u8, 0x61u8, 0x74u8, 0x68u8, 0x22u8, 0x3au8]);
    } else {
        assert(kb =~= seq![0x7bu8, 0x22u8, 0x73u8, 0x6fu8, 0x75u8, 0x72u8, 0x63u8, 0x65u8, 0x2du8, 0x70u8, 0x61u8, 0x74u8, 0x68u8, 0x22u8, 0x3au8]);
    }
    assert forall|i: int| 0 <= i < n implies s[p + i] == #[trigger] kb[i] by {
        assert(s.subrange(p, p + n)[i] == s[p + i]);
    }
    if compiled {
        assert(s.subrange(p + 3, p + 23) =~= COMPILED_MODULE_PATH_KEY@);
    } else {
        assert(s.subrange(p + 3, p + 14) =~= SOURCE_PATH_KEY@);
    }
    assert(s[q2] == s.subrange(q2, q2 + 1)[0]);
    lemma_ws_end_at_token(s, p);
    lemma_ws_end_at_token(s, p + 1);
    lemma_path_step(s, p, compiled, required_none(), v, q2);
    let st = if compiled {
        RequiredSeenModel { compiled_module_path: Some(v), ..required_none() }
    } else {
        RequiredSeenModel { source_path: Some(v), ..required_none() }
    };
    assert(spec_required_fields(s, q2, st) == spec_required_finish(st, q2));
    assert(spec_required_fields(s, p + 1, required_none()) == spec_required_fields(s, q2, st));
}

/// The last field of a required module, `,"unique-on-source-path":true}` or
/// `,"unique-on-source-path":false}`, with the comma before it and the closing
/// brace.
pub open spec fn unique_tail_text(unique: bool) -> Seq<char> {
    if unique {
        ",\"unique-on-source-path\":true}"@
    } else {
        ",\"unique-on-source-path\":false}"@
    }
}

/// What the bytes of the last field of a required module at `q` are.
proof fn lemma_unique_tail_bytes(s: Seq<u8>, q: int, unique: bool)
    requires
        holds_at(s, q, ascii_bytes(unique_tail_text(unique))),
    ensures
        unique_tail_text(unique).len() == if unique { 30int } else { 31int },
        s[q] == 0x2c,
        s[q + 1] == 0x22,
        s[q + 2] == 0x75,
        s.subrange(q + 3, q + 24) == UNIQUE_ON_SOURCE_PATH_KEY@,
        s[q + 24] == 0x3a,
        unique ==> s[q + 25] == 0x74 && s.subrange(q + 26, q + 29) == crate::json::TRUE_TAIL@ && s[q + 29] == 0x7d,
        !unique ==> s[q + 25] == 0x66 && s.subrange(q + 26, q + 30) == crate::json::FALSE_TAIL@ && s[q + 30] == 0x7d,
{
    reveal_strlit(",\"unique-on-source-path\":true}");
    reveal_strlit(",\"unique-on-source-path\":false}");
    let kb = ascii_bytes(unique_tail_text(unique));
    let n = kb.len() as int;
    if unique {
        assert(kb =~= seq![0x2cu8, 0x22u8, 0x75u8, 0x6eu8, 0x69u8, 0x71u8, 0x75u8, 0x65u8, 0x2du8, 0x6fu8, 0x6eu8, 0x2du8, 0x73u8, 0x6fu8, 0x75u8, 0x72u8, 0x63u8, 0x65u8, 0x2du8, 0x70u8, 0x61u8, 0x74u8, 0x68u8, 0x22u8, 0x3au8, 0x74u8, 0x72u8, 0x75u8, 0x65u8, 0x7du8]);
    } else {
        assert(kb =~= seq![0x2cu8, 0x22u8, 0x75u8, 0x6eu8, 0x69u8, 0x71u8, 0x75u8, 0x65u8, 0x2du8, 0x6fu8, 0x6eu8, 0x2du8, 0x73u8, 0x6fu8, 0x75u8, 0x72u8, 0x63u8, 0x65u8, 0x2du8, 0x70u8, 0x61u8, 0x74u8, 0x68u8, 0x22u8, 0x3au8, 0x66u8, 0x61u8, 0x6cu8, 0x73u8, 0x65u8, 0x7du8]);
    }
    assert forall|i: int| 0 <= i < n implies s[q + i] == #[trigger] kb[i] by {
        assert(s.subrange(q, q + n)[i] == s[q + i]);
    }
    assert(s.subrange(q + 3, q + 24) =~= UNIQUE_ON_SOURCE_PATH_KEY@);
    if unique {
        assert(s.subrange(q + 26, q + 29) =~= crate::json::TRUE_TAIL@);
    } else {
        assert(s.subrange(q + 26, q + 30) =~= crate::json::FALSE_TAIL@);
    }
}

/// After a comma, the field `"source-path":V` of a required module, followed
/// by another field, is read into its source path.
#[verifier::rlimit(50)]
proof fn lemma_required_source_path_step(s: Seq<u8>, q1: int, st: RequiredSeenModel, v: Seq<char>, q2: int)
    requires
        0 <= q1,
        s[q1 + 1] == 0x22,
        s[q1 + 2] == 0x73u8,
        s.subrange(q1 + 3, q1 + 14) == SOURCE_PATH_KEY@,
        s[q1 + 14] == 0x3a,
        crate::string::spec_json_string::<ErrorKind>(s, q1 + 15, false) == Ok::<(Seq<char>, int), (ErrorKindSpec<ErrorKind>, int)>((v, q2)),
        0 <= q2 && q2 + 1 < s.len(),
        s[q2] == 0x2c,
        s[q2 + 1] == 0x22,
        st.source_path is None,
    ensures
        spec_required_step(s, q1 + 1, st) == Ok::<(RequiredSeenModel, int), (ErrorKindSpec<ErrorKind>, int)>((
            RequiredSeenModel { source_path: Some(v), ..st },
            q2 + 1,
        )),
{
    reveal(spec_required_step);
    lemma_json_string_starts_with_quote(s, q1 + 15);
    lemma_ws_end_at_token(s, q1 + 14);
    lemma_ws_end_at_token(s, q1 + 15);
    lemma_ws_end_at_token(s, q2);
    lemma_ws_end_at_token(s, q2 + 1);
}

/// The field `"unique-on-source-path":B}` of a required module, after a
/// comma, is read as whether it is unique on its source path.
#[verifier::rlimit(50)]
proof fn lemma_unique_step(s: Seq<u8>, q: int, unique: bool, st: RequiredSeenModel)
    requires
        0 <= q,
        q + unique_tail_text(unique).len() <= s.len(),
        unique_tail_text(unique).len() == if unique { 30int } else { 31int },
        s[q + 1] == 0x22,
        s[q + 2] == 0x75,
        s.subrange(q + 3, q + 24) == UNIQUE_ON_SOURCE_PATH_KEY@,
        s[q + 24] == 0x3a,
        unique ==> s[q + 25] == 0x74 && s.subrange(q + 26, q + 29) == crate::json::TRUE_TAIL@ && s[q + 29] == 0x7d,
        !unique ==> s[q + 25] == 0x66 && s.subrange(q + 26, q + 30) == crate::json::FALSE_TAIL@ && s[q + 30] == 0x7d,
        st.unique_on_source_path is None,
    ensures
        spec_required_step(s, q + 1, st) == Ok::<(RequiredSeenModel, int), (ErrorKindSpec<ErrorKind>, int)>((
            RequiredSeenModel { unique_on_source_path: Some(unique), ..st },
            q + unique_tail_text(unique).len() - 1,
        )),
{
    reveal(spec_required_step);
    let e = q + unique_tail_text(unique).len() - 1;
    lemma_ws_end_at_token(s, q + 24);
    lemma_ws_end_at_token(s, q + 25);
    lemma_ws_end_at_token(s, e);
}

/// Reading a required module object
/// `{"logical-name":L,"source-path":V,"unique-on-source-path":B}`, where `L`
/// and `V` are any JSON strings: with `B` true the module is named by its
/// source path, the text of `V`, with the logical name the text of `L`; with
/// `B` false it is named by its logical name, with that source path and the
/// uniqueness given. It has no compiled module path and is looked up by name.
pub proof fn lemma_required_unique_on_source_path(
    s: Seq<u8>,
    p: int,
    l: Seq<char>,
    q1: int,
    v: Seq<char>,
    q2: int,
    unique: bool,
)
    requires
        holds_at(s, p, ascii_bytes("{\"logical-name\":"@)),
        crate::string::spec_json_string::<ErrorKind>(s, p + 16, false) == Ok::<(Seq<char>, int), (ErrorKindSpec<ErrorKind>, int)>((l, q1)),
        holds_at(s, q1, ascii_bytes(path_key_text(false))),
        crate::string::spec_json_string::<ErrorKind>(s, q1 + 15, false) == Ok::<(Seq<char>, int), (ErrorKindSpec<ErrorKind>, int)>((v, q2)),
        holds_at(s, q2, ascii_bytes(unique_tail_text(unique))),
    ensures
        spec_required_module_desc(s, p) == Ok::<(RequiredModel, int), (ErrorKindSpec<ErrorKind>, int)>((
            RequiredModel {
                desc: if unique {
                    ModuleDescModel::BySourcePath { logical_name: l, source_path: v, compiled_module_path: None }
                } else {
                    ModuleDescModel::ByLogicalName {
                        logical_name: l,
                        source_path: Some(v),
                        compiled_module_path: None,
                        unique_on_source_path: true,
                    }
                },
                lookup_method: RequiredModuleDescLookupMethod::ByName,
            },
            spec_ws_end(s, q2 + unique_tail_text(unique).len()),
        )),
{
    lemma_head_bytes(s, p);
    lemma_path_key_bytes(s, q1, false);
    lemma_unique_tail_bytes(s, q2, unique);
    lemma_ws_end_at_token(s, p);
    lemma_ws_end_at_token(s, p + 1);
    lemma_logical_name_step(s, p, l, q1);
    let st1 = RequiredSeenModel { logical_name: Some(l), ..required_none() };
    lemma_required_source_path_step(s, q1, st1, v, q2);
    let st2 = RequiredSeenModel { source_path: Some(v), ..st1 };
    lemma_unique_step(s, q2, unique, st2);
    let st3 = RequiredSeenModel { unique_on_source_path: Some(unique), ..st2 };
    let e = q2 + unique_tail_text(unique).len() - 1;
    assert(spec_required_fields(s, e, st3) == spec_required_finish(st3, e));
    assert(spec_required_fields(s, q2 + 1, st2) == spec_required_fields(s, e, st3));
    assert(spec_required_fields(s, q1 + 1, st1) == spec_required_fields(s, q2 + 1, st2));
    assert(spec_required_fields(s, p + 1, required_none()) == spec_required_fields(s, q1 + 1, st1));
}

/// After a comma, the field `"lookup-method":M}` of a required module, where
/// `M` is the text of the method `m`, is read as its lookup method, up to the
/// closing brace.
#[verifier::rlimit(50)]
proof fn lemma_lookup_method_step(s: Seq<u8>, q1: int, st: RequiredSeenModel, m: RequiredModuleDescLookupMethod)
    requires
        holds_at(s, q1, ascii_bytes(",\"lookup-method\":"@)),
        holds_at(s, q1 + 17, ascii_bytes(m.spec_repr())),
        holds_at(s, q1 + 17 + m.spec_repr().len(), seq![0x7du8]),
        st.lookup_method is None,
    ensures
        spec_required_step(s, q1 + 1, st) == Ok::<(RequiredSeenModel, int), (ErrorKindSpec<ErrorKind>, int)>((
            RequiredSeenModel { lookup_method: Some(m), ..st },
            q1 + 17 + m.spec_repr().len(),
        )),
{
    reveal_strlit(",\"lookup-method\":");
    let k = ascii_bytes(",\"lookup-method\":"@);
    assert(k =~= seq![0x2cu8, 0x22u8, 0x6cu8, 0x6fu8, 0x6fu8, 0x6bu8, 0x75u8, 0x70u8, 0x2du8, 0x6du8, 0x65u8, 0x74u8, 0x68u8, 0x6fu8, 0x64u8, 0x22u8, 0x3au8]);
    assert forall|i: int| 0 <= i < 17 implies s[q1 + i] == #[trigger] k[i] by {
        assert(s.subrange(q1, q1 + 17)[i] == s[q1 + i]);
    }
    assert(s.subrange(q1 + 3, q1 + 5) =~= LOO_PREFIX@);
    assert(s.subrange(q1 + 5, q1 + 16) =~= LOOKUP_METHOD_TAIL@);
    let e = q1 + 17 + m.spec_repr().len();
    assert(s[e] == s.subrange(e, e + 1)[0]);
    lemma_lookup_method_texts();
    assert(s[q1 + 17] == s.subrange(q1 + 17, e)[0]);
    lemma_lookup_method_reads_its_text(m, s, q1 + 17);
    reveal(spec_required_step);
    lemma_ws_end_at_token(s, q1 + 16);
    lemma_ws_end_at_token(s, q1 + 17);
    lemma_ws_end_at_token(s, e);
}

/// Reading a required module object `{"logical-name":L,"lookup-method":M}`,
/// where `L` is any JSON string and `M` the text that `to_string` writes for a
/// method `m`: the module is named by its logical name, the text of `L`, with
/// no paths, and is looked up by `m`.
pub proof fn lemma_required_lookup_method_lands(
    s: Seq<u8>,
    p: int,
    l: Seq<char>,
    q1: int,
    m: RequiredModuleDescLookupMethod,
)
    requires
        holds_at(s, p, ascii_bytes("{\"logical-name\":"@)),
        crate::string::spec_json_string::<ErrorKind>(s, p + 16, false) == Ok::<(Seq<char>, int), (ErrorKindSpec<ErrorKind>, int)>((l, q1)),
        holds_at(s, q1, ascii_bytes(",\"lookup-method\":"@)),
        holds_at(s, q1 + 17, ascii_bytes(m.spec_repr())),
        holds_at(s, q1 + 17 + m.spec_repr().len(), seq![0x7du8]),
    ensures
        spec_required_module_desc(s, p) == Ok::<(RequiredModel, int), (ErrorKindSpec<ErrorKind>, int)>((
            RequiredModel {
                desc: ModuleDescModel::ByLogicalName {
                    logical_name: l,
                    source_path: None,
                    compiled_module_path: None,
                    unique_on_source_path: false,
                },
                lookup_method: m,
            },
            spec_ws_end(s, q1 + 17 + m.spec_repr().len() + 1),
        )),
{
    reveal_strlit(",\"lookup-method\":");
    assert(s[q1] == s.subrange(q1, q1 + 17)[0]);
    assert(s[q1 + 1] == s.subrange(q1, q1 + 17)[1]);
    lemma_head_bytes(s, p);
    lemma_ws_end_at_token(s, p);
    lemma_ws_end_at_token(s, p + 1);
    lemma_logical_name_step(s, p, l, q1);
    let st1 = RequiredSeenModel { logical_name: Some(l), ..required_none() };
    lemma_lookup_method_step(s, q1, st1, m);
    let st2 = RequiredSeenModel { lookup_method: Some(m), ..st1 };
    let e = q1 + 17 + m.spec_repr().len();
    assert(s[e] == s.subrange(e, e + 1)[0]);
    assert(spec_required_fields(s, e, st2) == spec_required_finish(st2, e));
    assert(spec_required_fields(s, q1 + 1, st1) == spec_required_fields(s, e, st2));
    assert(spec_required_fields(s, p + 1, required_none()) == spec_required_fields(s, q1 + 1, st1));
}

/// A required module may give its logical name once: in
/// `{"logical-name":L,"logical-name":`, where `L` is any JSON string, the
/// second key is refused as a duplicate field, just after its `"log` was read.
pub proof fn lemma_required_logical_name_twice_refused(s: Seq<u8>, p: int, l: Seq<char>, q1: int)
    requires
        holds_at(s, p, ascii_bytes("{\"logical-name\":"@)),
        crate::string::spec_json_string::<ErrorKind>(s, p + 16, false) == Ok::<(Seq<char>, int), (ErrorKindSpec<ErrorKind>, int)>((l, q1)),
        holds_at(s, q1, ascii_bytes(",\"logical-name\":"@)),
    ensures
        spec_required_module_desc(s, p) == Err::<(RequiredModel, int), (ErrorKindSpec<ErrorKind>, int)>(
            (duplicate("logical-name"), q1 + 5),
        ),
{
    reveal_strlit(",\"logical-name\":");
    let b = ascii_bytes(",\"logical-name\":"@);
    assert(b =~= seq![0x2cu8, 0x22u8, 0x6cu8, 0x6fu8, 0x67u8, 0x69u8, 0x63u8, 0x61u8, 0x6cu8, 0x2du8, 0x6eu8, 0x61u8, 0x6du8, 0x65u8, 0x22u8, 0x3au8]);
    assert forall|i: int| 0 <= i < 16 implies s[q1 + i] == #[trigger] b[i] by {
        assert(s.subrange(q1, q1 + 16)[i] == s[q1 + i]);
    }
    assert(s.subrange(q1 + 3, q1 + 5) =~= LOG_PREFIX@);
    lemma_head_bytes(s, p);
    lemma_ws_end_at_token(s, p);
    lemma_ws_end_at_token(s, p + 1);
    lemma_logical_name_step(s, p, l, q1);
    let st1 = RequiredSeenModel { logical_name: Some(l), ..required_none() };
    assert(spec_required_step(s, q1 + 1, st1) == Err::<(RequiredSeenModel, int), (ErrorKindSpec<ErrorKind>, int)>(
        (duplicate("logical-name"), q1 + 5),
    )) by {
        reveal(spec_required_step);
    }
    assert(spec_required_fields(s, q1 + 1, st1) == Err::<(RequiredModel, int), (ErrorKindSpec<ErrorKind>, int)>(
        (duplicate("logical-name"), q1 + 5),
    ));
    assert(spec_required_fields(s, p + 1, required_none()) == spec_required_fields(s, q1 + 1, st1));
}

/// A required module unique on its source path must give that path:
/// `{"logical-name":L,"unique-on-source-path":true}`, where `L` is any JSON
/// string, is refused for the missing field `source-path`, at its closing
/// brace.
pub proof fn lemma_required_unique_needs_source_path(s: Seq<u8>, p: int, l: Seq<char>, q1: int)
    requires
        holds_at(s, p, ascii_bytes("{\"logical-name\":"@)),
        crate::string::spec_json_string::<ErrorKind>(s, p + 16, false) == Ok::<(Seq<char>, int), (ErrorKindSpec<ErrorKind>, int)>((l, q1)),
        holds_at(s, q1, ascii_bytes(unique_tail_text(true))),
    ensures
        spec_required_module_desc(s, p) == Err::<(RequiredModel, int), (ErrorKindSpec<ErrorKind>, int)>(
            (missing("source-path"), q1 + 29),
        ),
{
    lemma_head_bytes(s, p);
    lemma_unique_tail_bytes(s, q1, true);
    lemma_ws_end_at_token(s, p);
    lemma_ws_end_at_token(s, p + 1);
    lemma_logical_name_step(s, p, l, q1);
    let st1 = RequiredSeenModel { logical_name: Some(l), ..required_none() };
    lemma_unique_step(s, q1, true, st1);
    let st2 = RequiredSeenModel { unique_on_source_path: Some(true), ..st1 };
    assert(spec_required_fields(s, q1 + 29, st2) == spec_required_finish(st2, q1 + 29));
    assert(spec_required_fields(s, q1 + 1, st1) == spec_required_fields(s, q1 + 29, st2));
    assert(spec_required_fields(s, p + 1, required_none()) == spec_required_fields(s, q1 + 1, st1));
}

/// Reads one field of a required module into `seen`.
fn required_field<'i>(stream: &mut ParseStream<'i>, seen: &mut RequiredSeen<'i>) -> (r: PResult<'i, ()>)
    requires
        old(stream).wf(),
    ensures
        final(stream).wf(),
        final(stream).same_source(old(stream)),
        outcome_is(final(stream), &r, spec_step_unit(spec_required_step(old(stream).input@, old(stream).pos(), old(seen).model()))),
        r is Ok ==> final(seen).model() == spec_required_step(old(stream).input@, old(stream).pos(), old(seen).model())->Ok_0.0,
        no_backslash(old(stream).input@) ==> (old(seen).borrowed() ==> (r is Ok ==> final(seen).borrowed())),
        old(seen).from_literals(old(stream).input@) ==> (r is Ok ==> final(seen).from_literals(old(stream).input@)),
{
    reveal(spec_required_step);
    match stream.next_byte()? {
        0x22 => match stream.next_byte()? {
            0x73 => {
                if seen.source_path.is_some() {
                    let field = "source-path";
                    let error = crate::stream::ErrorKind::DuplicateField { field };
                    return Err(stream.error(error));
                }
                let key = vstd::array::array_as_slice(&SOURCE_PATH_KEY);
                let val = Field { key, val: PathString }.parse(stream)?;
                seen.source_path = Some(val);
            },
            0x63 => {
                if seen.compiled_module_path.is_some() {
                    let field = "compiled-module-path";
                    let error = crate::stream::ErrorKind::DuplicateField { field };
                    return Err(stream.error(error));
                }
                let key = vstd::array::array_as_slice(&COMPILED_MODULE_PATH_KEY);
                let val = Field { key, val: PathString }.parse(stream)?;
                seen.compiled_module_path = Some(val);
            },
            0x6c => {
                let prefix = stream.next_slice(2)?;
                if bytes_eq(prefix, vstd::array::array_as_slice(&LOG_PREFIX)) {
                    if seen.logical_name.is_some() {
                        let field = "logical-name";
                        let error = crate::stream::ErrorKind::DuplicateField { field };
                        return Err(stream.error(error));
                    }
                    let key = vstd::array::array_as_slice(&LOGICAL_NAME_TAIL);
                    let val = Field { key, val: JsonString }.parse(stream)?;
                    seen.logical_name = Some(val);
                } else if bytes_eq(prefix, vstd::array::array_as_slice(&LOO_PREFIX)) {
                    if seen.lookup_method.is_some() {
                        let field = "lookup-method";
                        let error = crate::stream::ErrorKind::DuplicateField { field };
                        return Err(stream.error(error));
                    }
                    let key = vstd::array::array_as_slice(&LOOKUP_METHOD_TAIL);
                    let val = Field { key, val: LookupMethod }.parse(stream)?;
                    seen.lookup_method = Some(val);
                } else {
                    return Err(ErrorKind::RequiredModuleDesc.error(stream));
                }
            },
            0x75 => {
                if seen.unique_on_source_path.is_some() {
                    let field = "unique-on-source-path";
                    let error = crate::stream::ErrorKind::DuplicateField { field };
                    return Err(stream.error(error));
                }
                let key = vstd::array::array_as_slice(&UNIQUE_ON_SOURCE_PATH_KEY);
                let val = Field { key, val: Bool }.parse(stream)?;
                seen.unique_on_source_path = Some(val);
            },
            _ => return Err(ErrorKind::RequiredModuleDesc.error(stream)),
        },
        _ => return Err(ErrorKind::RequiredModuleDesc.error(stream)),
    }
    Ok(())
}

/// Makes a required module of the fields `seen`, read up to its closing brace.
fn required_finish<'i>(stream: &ParseStream<'i>, seen: RequiredSeen<'i>) -> (r: PResult<'i, RequiredModuleDesc<'i>>)
    requires
        stream.wf(),
    ensures
        outcome_is(stream, &r, spec_required_finish(seen.model(), stream.pos())),
        seen.borrowed() ==> (r matches Ok(v) ==> v.borrowed()),
        seen.from_literals(stream.input@) ==> (r matches Ok(v) ==> v.from_literals(stream.input@)),
{
    let RequiredSeen { source_path, compiled_module_path, lookup_method, unique_on_source_path, logical_name } = seen;
    let lookup_method = match lookup_method {
        Some(m) => m,
        None => RequiredModuleDescLookupMethod::default(),
    };
    let desc = if unique_on_source_path == Some(true) {
        let source_path = match source_path {
            Some(v) => v,
            None => {
                let field = "source-path";
                let error = crate::stream::ErrorKind::MissingField { field };
                return Err(stream.error(error));
            },
        };
        let logical_name = match logical_name {
            Some(v) => v,
            None => {
                let field = "logical-name";
                let error = crate::stream::ErrorKind::MissingField { field };
                return Err(stream.error(error));
            },
        };
        ModuleDesc::BySourcePath {
            source_path,
            compiled_module_path,
            logical_name,
            unique_on_source_path: must_be_true(),
        }
    } else {
        let logical_name = match logical_name {
            Some(v) => v,
            None => {
                let field = "logical-name";
                let error = crate::stream::ErrorKind::MissingField { field };
                return Err(stream.error(error));
            },
        };
        let unique_on_source_path = match unique_on_source_path {
            Some(_) => Some(must_be_false()),
            None => None,
        };
        ModuleDesc::ByLogicalName { source_path, compiled_module_path, logical_name, unique_on_source_path }
    };
    Ok(RequiredModuleDesc { desc, lookup_method })
}

/// Reads the fields of a required module, up to its closing brace.
pub struct RequiredFields;

impl<'i> Parser<'i, RequiredModuleDesc<'i>, ErrorKind> for RequiredFields {
    open spec fn spec_parse(&self, s: Seq<u8>, p: int) -> SpecOutcome<RequiredModel> {
        spec_required_fields(s, p, required_none())
    }

    proof fn lemma_parse_bounds(&self, s: Seq<u8>, p: int) {
        lemma_required_fields_bounds(s, p, required_none());
    }

    fn parse(&mut self, stream: &mut ParseStream<'i>) -> (r: PResult<'i, RequiredModuleDesc<'i>>) {
        let ghost s = stream.input@;
        let ghost p0 = stream.pos();
        let mut seen = RequiredSeen {
            source_path: None,
            compiled_module_path: None,
            lookup_method: None,
            unique_on_source_path: None,
            logical_name: None,
        };
        loop
            invariant_except_break
                stream.wf(),
                stream.path == old(stream).path,
                stream.input == old(stream).input,
                s == stream.input@,
                old(stream).input@ == s,
                old(stream).pos() == p0,
                0 <= p0 <= s.len(),
                0 <= stream.pos() <= s.len(),
                spec_required_fields(s, p0, required_none()) == spec_required_fields(s, stream.pos(), seen.model()),
                no_backslash(s) ==> seen.borrowed(),
                seen.from_literals(s),
            ensures
                stream.wf(),
                stream.path == old(stream).path,
                stream.input == old(stream).input,
                old(stream).input@ == s,
                old(stream).pos() == p0,
                spec_required_fields(s, p0, required_none()) == spec_required_finish(seen.model(), stream.pos()),
                no_backslash(s) ==> seen.borrowed(),
                seen.from_literals(s),
            decreases s.len() - stream.pos(),
        {
            if stream.peek_byte()? == 0x7d {
                break;
            }
            proof {
                lemma_required_step_bounds(s, stream.pos(), seen.model());
            }
            required_field(stream, &mut seen)?;
        }
        required_finish(stream, seen)
    }
}

/// Reading the fields of a required module never moves backwards, nor past the
/// end of the input.
pub proof fn lemma_required_fields_bounds(s: Seq<u8>, p: int, st: RequiredSeenModel)
    requires
        0 <= p <= s.len(),
    ensures
        spec_required_fields(s, p, st) matches Ok((_, q)) ==> p <= q <= s.len(),
    decreases s.len() - p,
{
    lemma_required_step_bounds(s, p, st);
    if p < s.len() && s[p] != 0x7d {
        if spec_required_step(s, p, st) is Ok {
            let (st2, q) = spec_required_step(s, p, st)->Ok_0;
            lemma_required_fields_bounds(s, q, st2);
        }
    }
}

/// Reads a required module: an object, with the whitespace around it.
pub fn required_module_desc<'i>(stream: &mut ParseStream<'i>) -> (r: PResult<'i, RequiredModuleDesc<'i>>)
    requires
        old(stream).wf(),
    ensures
        final(stream).wf(),
        final(stream).same_source(old(stream)),
        outcome_is(final(stream), &r, spec_required_module_desc(old(stream).input@, old(stream).pos())),
        no_backslash(old(stream).input@) ==> (r matches Ok(v) ==> v.borrowed()),
        r matches Ok(v) ==> v.from_literals(old(stream).input@),
{
    multispace0(stream)?;
    let res = Record { val: RequiredFields }.parse(stream)?;
    multispace0(stream)?;
    Ok(res)
}

/// Reads a required module.
pub struct RequiredModule;

impl<'i> Parser<'i, RequiredModuleDesc<'i>, ErrorKind> for RequiredModule {
    open spec fn spec_parse(&self, s: Seq<u8>, p: int) -> SpecOutcome<RequiredModel> {
        spec_required_module_desc(s, p)
    }

    proof fn lemma_parse_bounds(&self, s: Seq<u8>, p: int) {
        lemma_ws_run_bounds(s, p);
        let p1 = spec_ws_end(s, p);
        (Record { val: RequiredFields }).lemma_parse_bounds(s, p1);
        if (Record { val: RequiredFields }).spec_parse(s, p1) is Ok {
            lemma_ws_run_bounds(s, (Record { val: RequiredFields }).spec_parse(s, p1)->Ok_0.1);
        }
    }

    fn parse(&mut self, stream: &mut ParseStream<'i>) -> (r: PResult<'i, RequiredModuleDesc<'i>>) {
        required_module_desc(stream)
    }
}

/// The fields of a provided module read so far.
pub struct ProvidedSeen<'i> {
    pub source_path: Option<Cow<'i, Utf8Path>>,
    pub compiled_module_path: Option<Cow<'i, Utf8Path>>,
    pub logical_name: Option<Cow<'i, str>>,
    pub unique_on_source_path: Option<bool>,
    pub is_interface: Option<bool>,
}

/// The abstract value of a [`ProvidedSeen`].
pub struct ProvidedSeenModel {
    pub source_path: Option<Seq<char>>,
    pub compiled_module_path: Option<Seq<char>>,
    pub logical_name: Option<Seq<char>>,
    pub unique_on_source_path: Option<bool>,
    pub is_interface: Option<bool>,
}

impl<'i> Model for ProvidedSeen<'i> {
    type M = ProvidedSeenModel;

    open spec fn model(&self) -> ProvidedSeenModel {
        ProvidedSeenModel {
            source_path: self.source_path.model(),
            compiled_module_path: self.compiled_module_path.model(),
            logical_name: self.logical_name.model(),
            unique_on_source_path: self.unique_on_source_path,
            is_interface: self.is_interface,
        }
    }

    open spec fn borrowed(&self) -> bool {
        &&& self.source_path.borrowed()
        &&& self.compiled_module_path.borrowed()
        &&& self.logical_name.borrowed()
    }

    open spec fn from_literals(&self, s: Seq<u8>) -> bool {
        &&& self.source_path.from_literals(s)
        &&& self.compiled_module_path.from_literals(s)
        &&& self.logical_name.from_literals(s)
    }
}

/// Reading one field of a provided module at `p`, after the fields `st`.
#[verifier::opaque]
pub open spec fn spec_provided_step(s: Seq<u8>, p: int, st: ProvidedSeenModel) -> StepOutcome<ProvidedSeenModel> {
    match spec_next_byte::<ErrorKind>(s, p) {
        Err(e) => Err(e),
        Ok((b0, p1)) => if b0 != 0x22 {
            Err((other(ErrorKind::ProvidedModuleDesc), p1))
        } else {
            match spec_next_byte::<ErrorKind>(s, p1) {
                Err(e) => Err(e),
                Ok((b1, p2)) => if b1 == 0x73 {
                    if st.source_path is Some {
                        Err((duplicate("source-path"), p2))
                    } else {
                        match spec_field(SOURCE_PATH_KEY@, PathString, s, p2) {
                            Err(e) => Err(e),
                            Ok((v, q)) => Ok((ProvidedSeenModel { source_path: Some(v), ..st }, q)),
                        }
                    }
                } else if b1 == 0x63 {
                    if st.compiled_module_path is Some {
                        Err((duplicate("compiled-module-path"), p2))
                    } else {
                        match spec_field(COMPILED_MODULE_PATH_KEY@, PathString, s, p2) {
                            Err(e) => Err(e),
                            Ok((v, q)) => Ok((ProvidedSeenModel { compiled_module_path: Some(v), ..st }, q)),
                        }
                    }
                } else if b1 == 0x6c {
                    if st.logical_name is Some {
                        Err((duplicate("logical-name"), p2))
                    } else {
                        match spec_field(LOGICAL_NAME_KEY@, JsonString, s, p2) {
                            Err(e) => Err(e),
                            Ok((v, q)) => Ok((ProvidedSeenModel { logical_name: Some(v), ..st }, q)),
                        }
                    }
                } else if b1 == 0x75 {
                    if st.unique_on_source_path is Some {
                        Err((duplicate("unique-on-source-path"), p2))
                    } else {
                        match spec_field(UNIQUE_ON_SOURCE_PATH_KEY@, Bool, s, p2) {
                            Err(e) => Err(e),
                            Ok((v, q)) => Ok((ProvidedSeenModel { unique_on_source_path: Some(v), ..st }, q)),
                        }
                    }
                } else if b1 == 0x69 {
                    if st.is_interface is Some {
                        Err((duplicate("is-interface"), p2))
                    } else {
                        match spec_field(IS_INTERFACE_KEY@, Bool, s, p2) {
                            Err(e) => Err(e),
                            Ok((v, q)) => Ok((ProvidedSeenModel { is_interface: Some(v), ..st }, q)),
                        }
                    }
                } else {
                    Err((other(ErrorKind::ProvidedModuleDesc), p2))
                },
            }
        },
    }
}

/// Reading a field never moves backwards, nor past the end of the input.
pub proof fn lemma_provided_step_bounds(s: Seq<u8>, p: int, st: ProvidedSeenModel)
    requires
        0 <= p <= s.len(),
    ensures
        spec_provided_step(s, p, st) matches Ok((_, q)) ==> p < q <= s.len(),
{
    reveal(spec_provided_step);
    if p + 2 <= s.len() {
        lemma_field_bounds::<Cow<Utf8Path>, ErrorKind, PathString>(SOURCE_PATH_KEY@, PathString, s, p + 2);
        lemma_field_bounds::<Cow<Utf8Path>, ErrorKind, PathString>(COMPILED_MODULE_PATH_KEY@, PathString, s, p + 2);
        lemma_field_bounds::<Cow<str>, ErrorKind, JsonString>(LOGICAL_NAME_KEY@, JsonString, s, p + 2);
        lemma_field_bounds::<bool, ErrorKind, Bool>(UNIQUE_ON_SOURCE_PATH_KEY@, Bool, s, p + 2);
        lemma_field_bounds::<bool, ErrorKind, Bool>(IS_INTERFACE_KEY@, Bool, s, p + 2);
    }
}

/// What the fields `st` of a provided module, read up to its closing brace at
/// `p`, make: a module unique on its source path when `unique-on-source-path`
/// is true, and on its logical name otherwise.
pub open spec fn spec_provided_finish(st: ProvidedSeenModel, p: int) -> SpecOutcome<ProvidedModel> {
    if st.unique_on_source_path == Some(true) {
        if st.source_path is None {
            Err((missing("source-path"), p))
        } else if st.logical_name is None {
            Err((missing("logical_name"), p))
        } else if st.is_interface is None {
            Err((missing("is-interface"), p))
        } else {
            Ok((ProvidedModel {
                desc: ModuleDescModel::BySourcePath {
                    logical_name: st.logical_name->0,
                    source_path: st.source_path->0,
                    compiled_module_path: st.compiled_module_path,
                },
                is_interface: st.is_interface->0,
            }, p))
        }
    } else if st.logical_name is None {
        Err((missing("logical-name"), p))
    } else if st.is_interface is None {
        Err((missing("is-interface"), p))
    } else {
        Ok((ProvidedModel {
            desc: ModuleDescModel::ByLogicalName {
                logical_name: st.logical_name->0,
                source_path: st.source_path,
                compiled_module_path: st.compiled_module_path,
                unique_on_source_path: st.unique_on_source_path is Some,
            },
            is_interface: st.is_interface->0,
        }, p))
    }
}

/// Reading the fields of a provided module from `p` on, after the fields `st`,
/// up to its closing brace.
pub open spec fn spec_provided_fields(s: Seq<u8>, p: int, st: ProvidedSeenModel) -> SpecOutcome<ProvidedModel>
    decreases s.len() - p when 0 <= p <= s.len()
{
    match spec_peek_byte::<ErrorKind>(s, p) {
        Err(e) => Err(e),
        Ok((b, _)) => if b == 0x7d {
            spec_provided_finish(st, p)
        } else {
            match spec_provided_step(s, p, st) {
                Err(e) => Err(e),
                Ok((st2, q)) => {
                    proof {
                        lemma_provided_step_bounds(s, p, st);
                    }
                    spec_provided_fields(s, q, st2)
                },
            }
        },
    }
}

/// No fields read yet.
pub open spec fn provided_none() -> ProvidedSeenModel {
    ProvidedSeenModel {
        source_path: None,
        compiled_module_path: None,
        logical_name: None,
        unique_on_source_path: None,
        is_interface: None,
    }
}

/// Reading a provided module at `p`, with the whitespace around it.
pub open spec fn spec_provided_module_desc(s: Seq<u8>, p: int) -> SpecOutcome<ProvidedModel> {
    match (Record { val: ProvidedFields }).spec_parse(s, spec_ws_end(s, p)) {
        Err(e) => Err(e),
        Ok((v, q)) => Ok((v, spec_ws_end(s, q))),
    }
}

/// The last field of a provided module, `,"is-interface":true}` or
/// `,"is-interface":false}`, with the comma before it and the closing brace.
pub open spec fn interface_tail_text(is_interface: bool) -> Seq<char> {
    if is_interface {
        ",\"is-interface\":true}"@
    } else {
        ",\"is-interface\":false}"@
    }
}

/// What the bytes of the last field of a provided module at `q` are.
proof fn lemma_interface_tail_bytes(s: Seq<u8>, q: int, is_interface: bool)
    requires
        holds_at(s, q, ascii_bytes(interface_tail_text(is_interface))),
    ensures
        interface_tail_text(is_interface).len() == if is_interface { 21int } else { 22int },
        s[q] == 0x2c,
        s[q + 1] == 0x22,
        s[q + 2] == 0x69,
        s.subrange(q + 3, q + 15) == IS_INTERFACE_KEY@,
        s[q + 15] == 0x3a,
        is_interface ==> s[q + 16] == 0x74 && s.subrange(q + 17, q + 20) == crate::json::TRUE_TAIL@ && s[q + 20] == 0x7d,
        !is_interface ==> s[q + 16] == 0x66 && s.subrange(q + 17, q + 21) == crate::json::FALSE_TAIL@ && s[q + 21] == 0x7d,
{
    reveal_strlit(",\"is-interface\":true}");
    reveal_strlit(",\"is-interface\":false}");
    let kb = ascii_bytes(interface_tail_text(is_interface));
    let n = kb.len() as int;
    if is_interface {
        assert(kb =~= seq![0x2cu8, 0x22u8, 0x69u8, 0x73u8, 0x2du8, 0x69u8, 0x6eu8, 0x74u8, 0x65u8, 0x72u8, 0x66u8, 0x61u8, 0x63u8, 0x65u8, 0x22u8, 0x3au8, 0x74u8, 0x72u8, 0x75u8, 0x65u8, 0x7du8]);
    } else {
        assert(kb =~= seq![0x2cu8, 0x22u8, 0x69u8, 0x73u8, 0x2du8, 0x69u8, 0x6eu8, 0x74u8, 0x65u8, 0x72u8, 0x66u8, 0x61u8, 0x63u8, 0x65u8, 0x22u8, 0x3au8, 0x66u8, 0x61u8, 0x6cu8, 0x73u8, 0x65u8, 0x7du8]);
    }
    assert forall|i: int| 0 <= i < n implies s[q + i] == #[trigger] kb[i] by {
        assert(s.subrange(q, q + n)[i] == s[q + i]);
    }
    assert(s.subrange(q + 3, q + 15) =~= IS_INTERFACE_KEY@);
    if is_interface {
        assert(s.subrange(q + 17, q + 20) =~= crate::json::TRUE_TAIL@);
    } else {
        assert(s.subrange(q + 17, q + 21) =~= crate::json::FALSE_TAIL@);
    }
}

/// The first field of a provided module `{"logical-name":L,` is read as its
/// logical name.
#[verifier::rlimit(50)]
proof fn lemma_provided_logical_name_step(s: Seq<u8>, p: int, l: Seq<char>, q1: int)
    requires
        0 <= p,
        p + 16 <= s.len(),
        s[p + 1] == 0x22,
        s[p + 2] == 0x6c,
        s.subrange(p + 3, p + 15) == LOGICAL_NAME_KEY@,
        s[p + 15] == 0x3a,
        crate::string::spec_json_string::<ErrorKind>(s, p + 16, false) == Ok::<(Seq<char>, int), (ErrorKindSpec<ErrorKind>, int)>((l, q1)),
        0 <= q1 && q1 + 1 < s.len(),
        s[q1] == 0x2c,
        s[q1 + 1] == 0x22,
    ensures
        spec_provided_step(s, p + 1, provided_none()) == Ok::<(ProvidedSeenModel, int), (ErrorKindSpec<ErrorKind>, int)>((
            ProvidedSeenModel { logical_name: Some(l), ..provided_none() },
            q1 + 1,
        )),
{
    reveal(spec_provided_step);
    lemma_json_string_starts_with_quote(s, p + 16);
    lemma_ws_end_at_token(s, p + 15);
    lemma_ws_end_at_token(s, p + 16);
    lemma_ws_end_at_token(s, q1);
    lemma_ws_end_at_token(s, q1 + 1);
}

/// The only field of a provided module `{"logical-name":L}` is read as its
/// logical name, up to the closing brace.
#[verifier::rlimit(50)]
proof fn lemma_provided_lone_name_step(s: Seq<u8>, p: int, l: Seq<char>, q1: int)
    requires
        0 <= p,
        p + 16 <= s.len(),
        s[p + 1] == 0x22,
        s[p + 2] == 0x6c,
        s.subrange(p + 3, p + 15) == LOGICAL_NAME_KEY@,
        s[p + 15] == 0x3a,
        crate::string::spec_json_string::<ErrorKind>(s, p + 16, false) == Ok::<(Seq<char>, int), (ErrorKindSpec<ErrorKind>, int)>((l, q1)),
        0 <= q1 < s.len(),
        s[q1] == 0x7d,
    ensures
        spec_provided_step(s, p + 1, provided_none()) == Ok::<(ProvidedSeenModel, int), (ErrorKindSpec<ErrorKind>, int)>((
            ProvidedSeenModel { logical_name: Some(l), ..provided_none() },
            q1,
        )),
{
    reveal(spec_provided_step);
    lemma_json_string_starts_with_quote(s, p + 16);
    lemma_ws_end_at_token(s, p + 15);
    lemma_ws_end_at_token(s, p + 16);
    lemma_ws_end_at_token(s, q1);
}

/// A provided module must say whether it is an interface:
/// `{"logical-name":L}`, where `L` is any JSON string, is refused for the
/// missing field `is-interface`, at its closing brace.
pub proof fn lemma_provided_without_interface_refused(s: Seq<u8>, p: int, l: Seq<char>, q1: int)
    requires
        holds_at(s, p, ascii_bytes("{\"logical-name\":"@)),
        crate::string::spec_json_string::<ErrorKind>(s, p + 16, false) == Ok::<(Seq<char>, int), (ErrorKindSpec<ErrorKind>, int)>((l, q1)),
        holds_at(s, q1, seq![0x7du8]),
    ensures
        spec_provided_module_desc(s, p) == Err::<(ProvidedModel, int), (ErrorKindSpec<ErrorKind>, int)>(
            (missing("is-interface"), q1),
        ),
{
    lemma_head_bytes(s, p);
    assert(s.subrange(p + 3, p + 15) =~= s.subrange(p + 3, p + 5) + s.subrange(p + 5, p + 15));
    assert(LOGICAL_NAME_KEY@ =~= LOG_PREFIX@ + LOGICAL_NAME_TAIL@);
    assert(s[q1] == s.subrange(q1, q1 + 1)[0]);
    lemma_ws_end_at_token(s, p);
    lemma_ws_end_at_token(s, p + 1);
    lemma_provided_lone_name_step(s, p, l, q1);
    let st1 = ProvidedSeenModel { logical_name: Some(l), ..provided_none() };
    assert(spec_provided_fields(s, q1, st1) == spec_provided_finish(st1, q1));
    assert(spec_provided_fields(s, p + 1, provided_none()) == spec_provided_fields(s, q1, st1));
}

/// After a comma, the field `"source-path":V` or `"compiled-module-path":V`
/// of a provided module, followed by another field, is read into the field of
/// its name.
#[verifier::rlimit(50)]
proof fn lemma_provided_path_step(s: Seq<u8>, q1: int, compiled: bool, st: ProvidedSeenModel, v: Seq<char>, q2: int)
    requires
        0 <= q1,
        s[q1 + 1] == 0x22,
        s[q1 + 2] == if compiled { 0x63u8 } else { 0x73u8 },
        compiled ==> s.subrange(q1 + 3, q1 + 23) == COMPILED_MODULE_PATH_KEY@,
        !compiled ==> s.subrange(q1 + 3, q1 + 14) == SOURCE_PATH_KEY@,
        s[q1 + path_key_text(compiled).len() - 1] == 0x3a,
        path_key_text(compiled).len() == if compiled { 24int } else { 15int },
        crate::string::spec_json_string::<ErrorKind>(s, q1 + path_key_text(compiled).len(), false)
            == Ok::<(Seq<char>, int), (ErrorKindSpec<ErrorKind>, int)>((v, q2)),
        0 <= q2 && q2 + 1 < s.len(),
        s[q2] == 0x2c,
        s[q2 + 1] == 0x22,
        st.source_path is None,
        st.compiled_module_path is None,
    ensures
        spec_provided_step(s, q1 + 1, st) == Ok::<(ProvidedSeenModel, int), (ErrorKindSpec<ErrorKind>, int)>((
            if compiled {
                ProvidedSeenModel { compiled_module_path: Some(v), ..st }
            } else {
                ProvidedSeenModel { source_path: Some(v), ..st }
            },
            q2 + 1,
        )),
{
    reveal(spec_provided_step);
    let n = path_key_text(compiled).len() as int;
    lemma_json_string_starts_with_quote(s, q1 + n);
    lemma_ws_end_at_token(s, q1 + n - 1);
    lemma_ws_end_at_token(s, q1 + n);
    lemma_ws_end_at_token(s, q2);
    lemma_ws_end_at_token(s, q2 + 1);
}

/// The field `"is-interface":B}` of a provided module, after a comma, is read
/// as whether the module is an interface.
#[verifier::rlimit(50)]
proof fn lemma_interface_step(s: Seq<u8>, q: int, is_interface: bool, st: ProvidedSeenModel)
    requires
        0 <= q,
        q + interface_tail_text(is_interface).len() <= s.len(),
        interface_tail_text(is_interface).len() == if is_interface { 21int } else { 22int },
        s[q + 1] == 0x22,
        s[q + 2] == 0x69,
        s.subrange(q + 3, q + 15) == IS_INTERFACE_KEY@,
        s[q + 15] == 0x3a,
        is_interface ==> s[q + 16] == 0x74 && s.subrange(q + 17, q + 20) == crate::json::TRUE_TAIL@ && s[q + 20] == 0x7d,
        !is_interface ==> s[q + 16] == 0x66 && s.subrange(q + 17, q + 21) == crate::json::FALSE_TAIL@ && s[q + 21] == 0x7d,
        st.is_interface is None,
    ensures
        spec_provided_step(s, q + 1, st) == Ok::<(ProvidedSeenModel, int), (ErrorKindSpec<ErrorKind>, int)>((
            ProvidedSeenModel { is_interface: Some(is_interface), ..st },
            q + interface_tail_text(is_interface).len() - 1,
        )),
{
    reveal(spec_provided_step);
    let e = q + interface_tail_text(is_interface).len() - 1;
    lemma_ws_end_at_token(s, q + 15);
    lemma_ws_end_at_token(s, q + 16);
    lemma_ws_end_at_token(s, e);
}

/// Reading a provided module object
/// `{"logical-name":L,"source-path":V,"is-interface":B}` or
/// `{"logical-name":L,"compiled-module-path":V,"is-interface":B}`, where `L` and
/// `V` are any JSON strings and `B` is `true` or `false`: its logical name is
/// the text of `L`, the text of `V` lands in the field of the same name as its
/// key, the other path being absent, and it is an interface exactly when `B`
/// is `true`.
pub proof fn lemma_provided_fields_land(
    s: Seq<u8>,
    p: int,
    compiled: bool,
    l: Seq<char>,
    q1: int,
    v: Seq<char>,
    q2: int,
    is_interface: bool,
)
    requires
        holds_at(s, p, ascii_bytes("{\"logical-name\":"@)),
        crate::string::spec_json_string::<ErrorKind>(s, p + 16, false) == Ok::<(Seq<char>, int), (ErrorKindSpec<ErrorKind>, int)>((l, q1)),
        holds_at(s, q1, ascii_bytes(path_key_text(compiled))),
        crate::string::spec_json_string::<ErrorKind>(s, q1 + path_key_text(compiled).len(), false)
            == Ok::<(Seq<char>, int), (ErrorKindSpec<ErrorKind>, int)>((v, q2)),
        holds_at(s, q2, ascii_bytes(interface_tail_text(is_interface))),
    ensures
        spec_provided_module_desc(s, p) == Ok::<(ProvidedModel, int), (ErrorKindSpec<ErrorKind>, int)>((
            ProvidedModel {
                desc: ModuleDescModel::ByLogicalName {
                    logical_name: l,
                    source_path: if compiled { None } else { Some(v) },
                    compiled_module_path: if compiled { Some(v) } else { None },
                    unique_on_source_path: false,
                },
                is_interface,
            },
            spec_ws_end(s, q2 + interface_tail_text(is_interface).len()),
        )),
{
    lemma_head_bytes(s, p);
    assert(s.subrange(p + 3, p + 15) =~= s.subrange(p + 3, p + 5) + s.subrange(p + 5, p + 15));
    assert(LOGICAL_NAME_KEY@ =~= LOG_PREFIX@ + LOGICAL_NAME_TAIL@);
    lemma_path_key_bytes(s, q1, compiled);
    lemma_interface_tail_bytes(s, q2, is_interface);
    lemma_ws_end_at_token(s, p);
    lemma_ws_end_at_token(s, p + 1);
    lemma_provided_logical_name_step(s, p, l, q1);
    let st1 = ProvidedSeenModel { logical_name: Some(l), ..provided_none() };
    lemma_provided_path_step(s, q1, compiled, st1, v, q2);
    let st2 = if compiled {
        ProvidedSeenModel { compiled_module_path: Some(v), ..st1 }
    } else {
        ProvidedSeenModel { source_path: Some(v), ..st1 }
    };
    lemma_interface_step(s, q2, is_interface, st2);
    let st3 = ProvidedSeenModel { is_interface: Some(is_interface), ..st2 };
    let e = q2 + interface_tail_text(is_interface).len() - 1;
    assert(spec_provided_fields(s, e, st3) == spec_provided_finish(st3, e));
    assert(spec_provided_fields(s, q2 + 1, st2) == spec_provided_fields(s, e, st3));
    assert(spec_provided_fields(s, q1 + 1, st1) == spec_provided_fields(s, q2 + 1, st2));
    assert(spec_provided_fields(s, p + 1, provided_none()) == spec_provided_fields(s, q1 + 1, st1));
}

/// Reads one field of a provided module into `seen`.
fn provided_field<'i>(stream: &mut ParseStream<'i>, seen: &mut ProvidedSeen<'i>) -> (r: PResult<'i, ()>)
    requires
        old(stream).wf(),
    ensures
        final(stream).wf(),
        final(stream).same_source(old(stream)),
        outcome_is(final(stream), &r, spec_step_unit(spec_provided_step(old(stream).input@, old(stream).pos(), old(seen).model()))),
        r is Ok ==> final(seen).model() == spec_provided_step(old(stream).input@, old(stream).pos(), old(seen).model())->Ok_0.0,
        no_backslash(old(stream).input@) ==> (old(seen).borrowed() ==> (r is Ok ==> final(seen).borrowed())),
        old(seen).from_literals(old(stream).input@) ==> (r is Ok ==> final(seen).from_literals(old(stream).input@)),
{
    reveal(spec_provided_step);
    match stream.next_byte()? {
        0x22 => match stream.next_byte()? {
            0x73 => {
                if seen.source_path.is_some() {
                    let field = "source-path";
                    let error = crate::stream::ErrorKind::DuplicateField { field };
                    return Err(stream.error(error));
                }
                let key = vstd::array::array_as_slice(&SOURCE_PATH_KEY);
                let val = Field { key, val: PathString }.parse(stream)?;
                seen.source_path = Some(val);
            },
            0x63 => {
                if seen.compiled_module_path.is_some() {
                    let field = "compiled-module-path";
                    let error = crate::stream::ErrorKind::DuplicateField { field };
                    return Err(stream.error(error));
                }
                let key = vstd::array::array_as_slice(&COMPILED_MODULE_PATH_KEY);
                let val = Field { key, val: PathString }.parse(stream)?;
                seen.compiled_module_path = Some(val);
            },
            0x6c => {
                if seen.logical_name.is_some() {
                    let field = "logical-name";
                    let error = crate::stream::ErrorKind::DuplicateField { field };
                    return Err(stream.error(error));
                }
                let key = vstd::array::array_as_slice(&LOGICAL_NAME_KEY);
                let val = Field { key, val: JsonString }.parse(stream)?;
                seen.logical_name = Some(val);
            },
            0x75 => {
                if seen.unique_on_source_path.is_some() {
                    let field = "unique-on-source-path";
                    let error = crate::stream::ErrorKind::DuplicateField { field };
                    return Err(stream.error(error));
                }
                let key = vstd::array::array_as_slice(&UNIQUE_ON_SOURCE_PATH_KEY);
                let val = Field { key, val: Bool }.parse(stream)?;
                seen.unique_on_source_path = Some(val);
            },
            0x69 => {
                if seen.is_interface.is_some() {
                    let field = "is-interface";
                    let error = crate::stream::ErrorKind::DuplicateField { field };
                    return Err(stream.error(error));
                }
                let key = vstd::array::array_as_slice(&IS_INTERFACE_KEY);
                let val = Field { key, val: Bool }.parse(stream)?;
                seen.is_interface = Some(val);
            },
            _ => return Err(ErrorKind::ProvidedModuleDesc.error(stream)),
        },
        _ => return Err(ErrorKind::ProvidedModuleDesc.error(stream)),
    }
    Ok(())
}

/// Makes a provided module of the fields `seen`, read up to its closing brace.
fn provided_finish<'i>(stream: &ParseStream<'i>, seen: ProvidedSeen<'i>) -> (r: PResult<'i, ProvidedModuleDesc<'i>>)
    requires
        stream.wf(),
    ensures
        outcome_is(stream, &r, spec_provided_finish(seen.model(), stream.pos())),
        seen.borrowed() ==> (r matches Ok(v) ==> v.borrowed()),
        seen.from_literals(stream.input@) ==> (r matches Ok(v) ==> v.from_literals(stream.input@)),
{
    let ProvidedSeen { source_path, compiled_module_path, logical_name, unique_on_source_path, is_interface } = seen;
    let desc = if unique_on_source_path == Some(true) {
        let source_path = match source_path {
            Some(v) => v,
            None => {
                let field = "source-path";
                let error = crate::stream::ErrorKind::MissingField { field };
                return Err(stream.error(error));
            },
        };
        let logical_name = match logical_name {
            Some(v) => v,
            None => {
                let field = "logical_name";
                let error = crate::stream::ErrorKind::MissingField { field };
                return Err(stream.error(error));
            },
        };
        ModuleDesc::BySourcePath {
            source_path,
            compiled_module_path,
            logical_name,
            unique_on_source_path: must_be_true(),
        }
    } else {
        let logical_name = match logical_name {
            Some(v) => v,
            None => {
                let field = "logical-name";
                let error = crate::stream::ErrorKind::MissingField { field };
                return Err(stream.error(error));
            },
        };
        let unique_on_source_path = match unique_on_source_path {
            Some(_) => Some(must_be_false()),
            None => None,
        };
        ModuleDesc::ByLogicalName { source_path, compiled_module_path, logical_name, unique_on_source_path }
    };
    let is_interface = match is_interface {
        Some(v) => v,
        None => {
            let field = "is-interface";
            let error = crate::stream::ErrorKind::MissingField { field };
            return Err(stream.error(error));
        },
    };
    Ok(ProvidedModuleDesc { desc, is_interface })
}

/// Reads the fields of a provided module, up to its closing brace.
pub struct ProvidedFields;

impl<'i> Parser<'i, ProvidedModuleDesc<'i>, ErrorKind> for ProvidedFields {
    open spec fn spec_parse(&self, s: Seq<u8>, p: int) -> SpecOutcome<ProvidedModel> {
        spec_provided_fields(s, p, provided_none())
    }

    proof fn lemma_parse_bounds(&self, s: Seq<u8>, p: int) {
        lemma_provided_fields_bounds(s, p, provided_none());
    }

    fn parse(&mut self, stream: &mut ParseStream<'i>) -> (r: PResult<'i, ProvidedModuleDesc<'i>>) {
        let ghost s = stream.input@;
        let ghost p0 = stream.pos();
        let mut seen = ProvidedSeen {
            source_path: None,
            compiled_module_path: None,
            logical_name: None,
            unique_on_source_path: None,
            is_interface: None,
        };
        loop
            invariant_except_break
                stream.wf(),
                stream.path == old(stream).path,
                stream.input == old(stream).input,
                s == stream.input@,
                old(stream).input@ == s,
                old(stream).pos() == p0,
                0 <= p0 <= s.len(),
                0 <= stream.pos() <= s.len(),
                spec_provided_fields(s, p0, provided_none()) == spec_provided_fields(s, stream.pos(), seen.model()),
                no_backslash(s) ==> seen.borrowed(),
                seen.from_literals(s),
            ensures
                stream.wf(),
                stream.path == old(stream).path,
                stream.input == old(stream).input,
                old(stream).input@ == s,
                old(stream).pos() == p0,
                spec_provided_fields(s, p0, provided_none()) == spec_provided_finish(seen.model(), stream.pos()),
                no_backslash(s) ==> seen.borrowed(),
                seen.from_literals(s),
            decreases s.len() - stream.pos(),
        {
            if stream.peek_byte()? == 0x7d {
                break;
            }
            proof {
                lemma_provided_step_bounds(s, stream.pos(), seen.model());
            }
            provided_field(stream, &mut seen)?;
        }
        provided_finish(stream, seen)
    }
}

/// Reading the fields of a provided module never moves backwards, nor past the
/// end of the input.
pub proof fn lemma_provided_fields_bounds(s: Seq<u8>, p: int, st: ProvidedSeenModel)
    requires
        0 <= p <= s.len(),
    ensures
        spec_provided_fields(s, p, st) matches Ok((_, q)) ==> p <= q <= s.len(),
    decreases s.len() - p,
{
    lemma_provided_step_bounds(s, p, st);
    if p < s.len() && s[p] != 0x7d {
        if spec_provided_step(s, p, st) is Ok {
            let (st2, q) = spec_provided_step(s, p, st)->Ok_0;
            lemma_provided_fields_bounds(s, q, st2);
        }
    }
}

/// Reads a provided module: an object, with the whitespace around it.
pub fn provided_module_desc<'i>(stream: &mut ParseStream<'i>) -> (r: PResult<'i, ProvidedModuleDesc<'i>>)
    requires
        old(stream).wf(),
    ensures
        final(stream).wf(),
        final(stream).same_source(old(stream)),
        outcome_is(final(stream), &r, spec_provided_module_desc(old(stream).input@, old(stream).pos())),
        no_backslash(old(stream).input@) ==> (r matches Ok(v) ==> v.borrowed()),
        r matches Ok(v) ==> v.from_literals(old(stream).input@),
{
    multispace0(stream)?;
    let res = Record { val: ProvidedFields }.parse(stream)?;
    multispace0(stream)?;
    Ok(res)
}

/// Reads a provided module.
pub struct ProvidedModule;

impl<'i> Parser<'i, ProvidedModuleDesc<'i>, ErrorKind> for ProvidedModule {
    open spec fn spec_parse(&self, s: Seq<u8>, p: int) -> SpecOutcome<ProvidedModel> {
        spec_provided_module_desc(s, p)
    }

    proof fn lemma_parse_bounds(&self, s: Seq<u8>, p: int) {
        lemma_ws_run_bounds(s, p);
        let p1 = spec_ws_end(s, p);
        (Record { val: ProvidedFields }).lemma_parse_bounds(s, p1);
        if (Record { val: ProvidedFields }).spec_parse(s, p1) is Ok {
            lemma_ws_run_bounds(s, (Record { val: ProvidedFields }).spec_parse(s, p1)->Ok_0.1);
        }
    }

    fn parse(&mut self, stream: &mut ParseStream<'i>) -> (r: PResult<'i, ProvidedModuleDesc<'i>>) {
        provided_module_desc(stream)
    }
}

/// The fields of a rule read so far.
pub struct DepInfoSeen<'i> {
    pub work_directory: Option<Cow<'i, Utf8Path>>,
    pub primary_output: Option<Cow<'i, Utf8Path>>,
    pub outputs: Option<Vec<Cow<'i, Utf8Path>>>,
    pub provides: Option<Vec<ProvidedModuleDesc<'i>>>,
    pub requires: Option<Vec<RequiredModuleDesc<'i>>>,
}

/// The abstract value of a [`DepInfoSeen`].
pub struct DepInfoSeenModel {
    pub work_directory: Option<Seq<char>>,
    pub primary_output: Option<Seq<char>>,
    pub outputs: Option<Seq<Seq<char>>>,
    pub provides: Option<Seq<ProvidedModel>>,
    pub requires: Option<Seq<RequiredModel>>,
}

impl<'i> Model for DepInfoSeen<'i> {
    type M = DepInfoSeenModel;

    open spec fn model(&self) -> DepInfoSeenModel {
        DepInfoSeenModel {
            work_directory: self.work_directory.model(),
            primary_output: self.primary_output.model(),
            outputs: self.outputs.model(),
            provides: self.provides.model(),
            requires: self.requires.model(),
        }
    }

    open spec fn borrowed(&self) -> bool {
        &&& self.work_directory.borrowed()
        &&& self.primary_output.borrowed()
        &&& self.outputs.borrowed()
        &&& self.provides.borrowed()
        &&& self.requires.borrowed()
    }

    open spec fn from_literals(&self, s: Seq<u8>) -> bool {
        &&& self.work_directory.from_literals(s)
        &&& self.primary_output.from_literals(s)
        &&& self.outputs.from_literals(s)
        &&& self.provides.from_literals(s)
        &&& self.requires.from_literals(s)
    }
}

/// Reading one field of a rule at `p`, after the fields `st`.
#[verifier::opaque]
pub open spec fn spec_dep_info_step(s: Seq<u8>, p: int, st: DepInfoSeenModel) -> StepOutcome<DepInfoSeenModel> {
    match spec_next_byte::<ErrorKind>(s, p) {
        Err(e) => Err(e),
        Ok((b0, p1)) => if b0 != 0x22 {
            Err((other(ErrorKind::DepInfo), p1))
        } else {
            match spec_next_byte::<ErrorKind>(s, p1) {
                Err(e) => Err(e),
                Ok((b1, p2)) => if b1 == 0x6f {
                    if st.outputs is Some {
                        Err((duplicate("outputs"), p2))
                    } else {
                        match spec_field(OUTPUTS_KEY@, Array { val: PathString }, s, p2) {
                            Err(e) => Err(e),
                            Ok((v, q)) => Ok((DepInfoSeenModel { outputs: Some(v), ..st }, q)),
                        }
                    }
                } else if b1 == 0x70 {
                    match spec_next_byte::<ErrorKind>(s, p2) {
                        Err(e) => Err(e),
                        Ok((b2, p3)) => if b2 != 0x72 {
                            Err((other(ErrorKind::DepInfo), p3))
                        } else {
                            match spec_next_byte::<ErrorKind>(s, p3) {
                                Err(e) => Err(e),
                                Ok((b3, p4)) => if b3 == 0x69 {
                                    if st.primary_output is Some {
                                        Err((duplicate("primary_output"), p4))
                                    } else {
                                        match spec_field(PRIMARY_OUTPUT_KEY@, PathString, s, p4) {
                                            Err(e) => Err(e),
                                            Ok((v, q)) => Ok((DepInfoSeenModel { primary_output: Some(v), ..st }, q)),
                                        }
                                    }
                                } else if b3 == 0x6f {
                                    if st.provides is Some {
                                        Err((duplicate("provides"), p4))
                                    } else {
                                        match spec_field(PROVIDES_KEY@, Array { val: ProvidedModule }, s, p4) {
                                            Err(e) => Err(e),
                                            Ok((v, q)) => Ok((DepInfoSeenModel { provides: Some(v), ..st }, q)),
                                        }
                                    }
                                } else {
                                    Err((other(ErrorKind::DepInfo), p4))
                                },
                            }
                        },
                    }
                } else if b1 == 0x72 {
                    if st.requires is Some {
                        Err((duplicate("requires"), p2))
                    } else {
                        match spec_field(REQUIRES_KEY@, Array { val: RequiredModule }, s, p2) {
                            Err(e) => Err(e),
                            Ok((v, q)) => Ok((DepInfoSeenModel { requires: Some(v), ..st }, q)),
                        }
                    }
                } else if b1 == 0x77 {
                    if st.work_directory is Some {
                        Err((duplicate("work-directory"), p2))
                    } else {
                        match spec_field(WORK_DIRECTORY_KEY@, PathString, s, p2) {
                            Err(e) => Err(e),
                            Ok((v, q)) => Ok((DepInfoSeenModel { work_directory: Some(v), ..st }, q)),
                        }
                    }
                } else {
                    Err((other(ErrorKind::DepInfo), p2))
                },
            }
        },
    }
}

/// Reading a field never moves backwards, nor past the end of the input.
pub proof fn lemma_dep_info_step_bounds(s: Seq<u8>, p: int, st: DepInfoSeenModel)
    requires
        0 <= p <= s.len(),
    ensures
        spec_dep_info_step(s, p, st) matches Ok((_, q)) ==> p < q <= s.len(),
{
    reveal(spec_dep_info_step);
    if p + 2 <= s.len() {
        lemma_field_bounds::<Vec<Cow<Utf8Path>>, ErrorKind, Array<PathString>>(OUTPUTS_KEY@, Array { val: PathString }, s, p + 2);
        lemma_field_bounds::<Vec<RequiredModuleDesc>, ErrorKind, Array<RequiredModule>>(REQUIRES_KEY@, Array { val: RequiredModule }, s, p + 2);
        lemma_field_bounds::<Cow<Utf8Path>, ErrorKind, PathString>(WORK_DIRECTORY_KEY@, PathString, s, p + 2);
    }
    if p + 4 <= s.len() {
        lemma_field_bounds::<Cow<Utf8Path>, ErrorKind, PathString>(PRIMARY_OUTPUT_KEY@, PathString, s, p + 4);
        lemma_field_bounds::<Vec<ProvidedModuleDesc>, ErrorKind, Array<ProvidedModule>>(PROVIDES_KEY@, Array { val: ProvidedModule }, s, p + 4);
    }
}

/// What the fields `st` of a rule make: its arrays are empty where absent.
pub open spec fn spec_dep_info_finish(st: DepInfoSeenModel) -> DepInfoModel {
    DepInfoModel {
        work_directory: st.work_directory,
        primary_output: st.primary_output,
        outputs: match st.outputs {
            Some(v) => v,
            None => Seq::empty(),
        },
        provides: match st.provides {
            Some(v) => v,
            None => Seq::empty(),
        },
        requires: match st.requires {
            Some(v) => v,
            None => Seq::empty(),
        },
    }
}

/// Reading the fields of a rule from `p` on, after the fields `st`, up to its
/// closing brace.
pub open spec fn spec_dep_info_fields(s: Seq<u8>, p: int, st: DepInfoSeenModel) -> SpecOutcome<DepInfoModel>
    decreases s.len() - p when 0 <= p <= s.len()
{
    match spec_peek_byte::<ErrorKind>(s, p) {
        Err(e) => Err(e),
        Ok((b, _)) => if b == 0x7d {
            Ok((spec_dep_info_finish(st), p))
        } else {
            match spec_dep_info_step(s, p, st) {
                Err(e) => Err(e),
                Ok((st2, q)) => {
                    proof {
                        lemma_dep_info_step_bounds(s, p, st);
                    }
                    spec_dep_info_fields(s, q, st2)
                },
            }
        },
    }
}

/// No fields read yet.
pub open spec fn dep_info_none() -> DepInfoSeenModel {
    DepInfoSeenModel {
        work_directory: None,
        primary_output: None,
        outputs: None,
        provides: None,
        requires: None,
    }
}

/// Reading a rule at `p`, with the whitespace around it.
pub open spec fn spec_dep_info(s: Seq<u8>, p: int) -> SpecOutcome<DepInfoModel> {
    match (Record { val: DepInfoFields }).spec_parse(s, spec_ws_end(s, p)) {
        Err(e) => Err(e),
        Ok((v, q)) => Ok((v, spec_ws_end(s, q))),
    }
}

/// What the bytes of `{"work-directory":` at `p` and of `,"primary-output":`
/// at `q` are.
proof fn lemma_rule_key_bytes(s: Seq<u8>, p: int, q: int)
    requires
        holds_at(s, p, ascii_bytes("{\"work-directory\":"@)),
        holds_at(s, q, ascii_bytes(",\"primary-output\":"@)),
    ensures
        s[p] == 0x7b,
        s[p + 1] == 0x22,
        s[p + 2] == 0x77,
        s.subrange(p + 3, p + 17) == WORK_DIRECTORY_KEY@,
        s[p + 17] == 0x3a,
        s[q] == 0x2c,
        s[q + 1] == 0x22,
        s[q + 2] == 0x70,
        s[q + 3] == 0x72,
        s[q + 4] == 0x69,
        s.subrange(q + 5, q + 17) == PRIMARY_OUTPUT_KEY@,
        s[q + 17] == 0x3a,
{
    reveal_strlit("{\"work-directory\":");
    reveal_strlit(",\"primary-output\":");
    let a = ascii_bytes("{\"work-directory\":"@);
    let b = ascii_bytes(",\"primary-output\":"@);
    assert(a =~= seq![0x7bu8, 0x22u8, 0x77u8, 0x6fu8, 0x72u8, 0x6bu8, 0x2du8, 0x64u8, 0x69u8, 0x72u8, 0x65u8, 0x63u8, 0x74u8, 0x6fu8, 0x72u8, 0x79u8, 0x22u8, 0x3au8]);
    assert(b =~= seq![0x2cu8, 0x22u8, 0x70u8, 0x72u8, 0x69u8, 0x6du8, 0x61u8, 0x72u8, 0x79u8, 0x2du8, 0x6fu8, 0x75u8, 0x74u8, 0x70u8, 0x75u8, 0x74u8, 0x22u8, 0x3au8]);
    assert forall|i: int| 0 <= i < 18 implies s[p + i] == #[trigger] a[i] by {
        assert(s.subrange(p, p + 18)[i] == s[p + i]);
    }
    assert forall|i: int| 0 <= i < 18 implies s[q + i] == #[trigger] b[i] by {
        assert(s.subrange(q, q + 18)[i] == s[q + i]);
    }
    assert(s.subrange(p + 3, p + 17) =~= WORK_DIRECTORY_KEY@);
    assert(s.subrange(q + 5, q + 17) =~= PRIMARY_OUTPUT_KEY@);
}

/// The field `"work-directory":W,` is read as the rule's work directory.
#[verifier::rlimit(50)]
proof fn lemma_work_directory_step(s: Seq<u8>, p: int, w: Seq<char>, q1: int)
    requires
        0 <= p,
        p + 18 <= s.len(),
        s[p + 1] == 0x22,
        s[p + 2] == 0x77,
        s.subrange(p + 3, p + 17) == WORK_DIRECTORY_KEY@,
        s[p + 17] == 0x3a,
        crate::string::spec_json_string::<ErrorKind>(s, p + 18, false) == Ok::<(Seq<char>, int), (ErrorKindSpec<ErrorKind>, int)>((w, q1)),
        0 <= q1 && q1 + 1 < s.len(),
        s[q1] == 0x2c,
        s[q1 + 1] == 0x22,
    ensures
        spec_dep_info_step(s, p + 1, dep_info_none()) == Ok::<(DepInfoSeenModel, int), (ErrorKindSpec<ErrorKind>, int)>((
            DepInfoSeenModel { work_directory: Some(w), ..dep_info_none() },
            q1 + 1,
        )),
{
    reveal(spec_dep_info_step);
    lemma_json_string_starts_with_quote(s, p + 18);
    lemma_ws_end_at_token(s, p + 17);
    lemma_ws_end_at_token(s, p + 18);
    lemma_ws_end_at_token(s, q1);
    lemma_ws_end_at_token(s, q1 + 1);
}

/// The field `"primary-output":P}`, after a comma, is read as the rule's
/// primary output.
#[verifier::rlimit(50)]
proof fn lemma_primary_output_step(s: Seq<u8>, q: int, st: DepInfoSeenModel, po: Seq<char>, q2: int)
    requires
        0 <= q,
        s[q + 1] == 0x22,
        s[q + 2] == 0x70,
        s[q + 3] == 0x72,
        s[q + 4] == 0x69,
        s.subrange(q + 5, q + 17) == PRIMARY_OUTPUT_KEY@,
        s[q + 17] == 0x3a,
        crate::string::spec_json_string::<ErrorKind>(s, q + 18, false) == Ok::<(Seq<char>, int), (ErrorKindSpec<ErrorKind>, int)>((po, q2)),
        0 <= q2 < s.len(),
        s[q2] == 0x7d,
        st.primary_output is None,
    ensures
        spec_dep_info_step(s, q + 1, st) == Ok::<(DepInfoSeenModel, int), (ErrorKindSpec<ErrorKind>, int)>((
            DepInfoSeenModel { primary_output: Some(po), ..st },
            q2,
        )),
{
    reveal(spec_dep_info_step);
    lemma_json_string_starts_with_quote(s, q + 18);
    lemma_ws_end_at_token(s, q + 17);
    lemma_ws_end_at_token(s, q + 18);
    lemma_ws_end_at_token(s, q2);
}

/// Reading a rule `{"outputs":[A,B]}`, where `A` and `B` are any JSON strings:
/// its outputs are the text of `A` then the text of `B`, in that order; it has
/// no work directory nor primary output, and provides and requires no module.
pub proof fn lemma_rule_outputs_land(s: Seq<u8>, p: int, a: Seq<char>, q1: int, b: Seq<char>, q2: int)
    requires
        holds_at(s, p, ascii_bytes("{\"outputs\":["@)),
        crate::string::spec_json_string::<ErrorKind>(s, p + 12, false) == Ok::<(Seq<char>, int), (ErrorKindSpec<ErrorKind>, int)>((a, q1)),
        holds_at(s, q1, seq![0x2cu8]),
        crate::string::spec_json_string::<ErrorKind>(s, q1 + 1, false) == Ok::<(Seq<char>, int), (ErrorKindSpec<ErrorKind>, int)>((b, q2)),
        holds_at(s, q2, seq![0x5du8, 0x7du8]),
    ensures
        spec_dep_info(s, p) == Ok::<(DepInfoModel, int), (ErrorKindSpec<ErrorKind>, int)>((
            DepInfoModel {
                work_directory: None,
                primary_output: None,
                outputs: seq![a, b],
                provides: Seq::empty(),
                requires: Seq::empty(),
            },
            spec_ws_end(s, q2 + 2),
        )),
{
    reveal_strlit("{\"outputs\":[");
    let k = ascii_bytes("{\"outputs\":["@);
    assert(k =~= seq![0x7bu8, 0x22u8, 0x6fu8, 0x75u8, 0x74u8, 0x70u8, 0x75u8, 0x74u8, 0x73u8, 0x22u8, 0x3au8, 0x5bu8]);
    assert forall|i: int| 0 <= i < 12 implies s[p + i] == #[trigger] k[i] by {
        assert(s.subrange(p, p + 12)[i] == s[p + i]);
    }
    assert(s.subrange(p + 3, p + 10) =~= OUTPUTS_KEY@);
    assert(s[q1] == s.subrange(q1, q1 + 1)[0]);
    assert(s[q2] == s.subrange(q2, q2 + 2)[0]);
    assert(s[q2 + 1] == s.subrange(q2, q2 + 2)[1]);
    lemma_json_string_starts_with_quote(s, p + 12);
    lemma_json_string_starts_with_quote(s, q1 + 1);
    crate::json::lemma_array_keeps_item_order::<Cow<Utf8Path>, ErrorKind, PathString>(PathString, s, p + 11, a, q1, b, q2);
    assert(spec_dep_info_step(s, p + 1, dep_info_none()) == Ok::<(DepInfoSeenModel, int), (ErrorKindSpec<ErrorKind>, int)>((
        DepInfoSeenModel { outputs: Some(seq![a, b]), ..dep_info_none() },
        q2 + 1,
    ))) by {
        reveal(spec_dep_info_step);
        lemma_ws_end_at_token(s, p + 10);
        lemma_ws_end_at_token(s, p + 11);
        lemma_ws_end_at_token(s, q2 + 1);
    }
    lemma_ws_end_at_token(s, p);
    lemma_ws_end_at_token(s, p + 1);
    let st1 = DepInfoSeenModel { outputs: Some(seq![a, b]), ..dep_info_none() };
    assert(spec_dep_info_fields(s, q2 + 1, st1) == Ok::<(DepInfoModel, int), (ErrorKindSpec<ErrorKind>, int)>((spec_dep_info_finish(st1), q2 + 1)));
    assert(spec_dep_info_fields(s, p + 1, dep_info_none()) == spec_dep_info_fields(s, q2 + 1, st1));
}

/// Reading a rule `{"provides":[M1,M2]}`, where `M1` and `M2` are provided
/// modules, each starting with its brace: it provides `M1` then `M2`, in that
/// order, and has nothing else.
pub proof fn lemma_rule_provides_land(s: Seq<u8>, p: int, m1: ProvidedModel, e1: int, m2: ProvidedModel, e2: int)
    requires
        holds_at(s, p, ascii_bytes("{\"provides\":[{"@)),
        spec_provided_module_desc(s, p + 13) == Ok::<(ProvidedModel, int), (ErrorKindSpec<ErrorKind>, int)>((m1, e1)),
        holds_at(s, e1, ascii_bytes(",{"@)),
        spec_provided_module_desc(s, e1 + 1) == Ok::<(ProvidedModel, int), (ErrorKindSpec<ErrorKind>, int)>((m2, e2)),
        holds_at(s, e2, ascii_bytes("]}"@)),
    ensures
        spec_dep_info(s, p) == Ok::<(DepInfoModel, int), (ErrorKindSpec<ErrorKind>, int)>((
            DepInfoModel {
                work_directory: None,
                primary_output: None,
                outputs: Seq::empty(),
                provides: seq![m1, m2],
                requires: Seq::empty(),
            },
            spec_ws_end(s, e2 + 2),
        )),
{
    reveal_strlit("{\"provides\":[{");
    reveal_strlit(",{");
    reveal_strlit("]}");
    let k = ascii_bytes("{\"provides\":[{"@);
    assert(k =~= seq![0x7bu8, 0x22u8, 0x70u8, 0x72u8, 0x6fu8, 0x76u8, 0x69u8, 0x64u8, 0x65u8, 0x73u8, 0x22u8, 0x3au8, 0x5bu8, 0x7bu8]);
    assert(ascii_bytes(",{"@) =~= seq![0x2cu8, 0x7bu8]);
    assert(ascii_bytes("]}"@) =~= seq![0x5du8, 0x7du8]);
    assert forall|i: int| 0 <= i < 14 implies s[p + i] == #[trigger] k[i] by {
        assert(s.subrange(p, p + 14)[i] == s[p + i]);
    }
    assert(s[e1] == s.subrange(e1, e1 + 2)[0]);
    assert(s[e1 + 1] == s.subrange(e1, e1 + 2)[1]);
    assert(s[e2] == s.subrange(e2, e2 + 2)[0]);
    assert(s[e2 + 1] == s.subrange(e2, e2 + 2)[1]);
    assert(s.subrange(p + 5, p + 11) =~= PROVIDES_KEY@);
    crate::json::lemma_array_keeps_item_order::<ProvidedModuleDesc, ErrorKind, ProvidedModule>(ProvidedModule, s, p + 12, m1, e1, m2, e2);
    assert(spec_dep_info_step(s, p + 1, dep_info_none()) == Ok::<(DepInfoSeenModel, int), (ErrorKindSpec<ErrorKind>, int)>((
        DepInfoSeenModel { provides: Some(seq![m1, m2]), ..dep_info_none() },
        e2 + 1,
    ))) by {
        reveal(spec_dep_info_step);
        lemma_ws_end_at_token(s, p + 11);
        lemma_ws_end_at_token(s, p + 12);
        lemma_ws_end_at_token(s, e2 + 1);
    }
    lemma_ws_end_at_token(s, p);
    lemma_ws_end_at_token(s, p + 1);
    let st1 = DepInfoSeenModel { provides: Some(seq![m1, m2]), ..dep_info_none() };
    assert(spec_dep_info_fields(s, e2 + 1, st1) == Ok::<(DepInfoModel, int), (ErrorKindSpec<ErrorKind>, int)>((spec_dep_info_finish(st1), e2 + 1)));
    assert(spec_dep_info_fields(s, p + 1, dep_info_none()) == spec_dep_info_fields(s, e2 + 1, st1));
}

/// Reading a rule `{"requires":[M1,M2]}`, where `M1` and `M2` are required
/// modules, each starting with its brace: it requires `M1` then `M2`, in that
/// order, and has nothing else.
pub proof fn lemma_rule_requires_land(s: Seq<u8>, p: int, m1: RequiredModel, e1: int, m2: RequiredModel, e2: int)
    requires
        holds_at(s, p, ascii_bytes("{\"requires\":[{"@)),
        spec_required_module_desc(s, p + 13) == Ok::<(RequiredModel, int), (ErrorKindSpec<ErrorKind>, int)>((m1, e1)),
        holds_at(s, e1, ascii_bytes(",{"@)),
        spec_required_module_desc(s, e1 + 1) == Ok::<(RequiredModel, int), (ErrorKindSpec<ErrorKind>, int)>((m2, e2)),
        holds_at(s, e2, ascii_bytes("]}"@)),
    ensures
        spec_dep_info(s, p) == Ok::<(DepInfoModel, int), (ErrorKindSpec<ErrorKind>, int)>((
            DepInfoModel {
                work_directory: None,
                primary_output: None,
                outputs: Seq::empty(),
                provides: Seq::empty(),
                requires: seq![m1, m2],
            },
            spec_ws_end(s, e2 + 2),
        )),
{
    reveal_strlit("{\"requires\":[{");
    reveal_strlit(",{");
    reveal_strlit("]}");
    let k = ascii_bytes("{\"requires\":[{"@);
    assert(k =~= seq![0x7bu8, 0x22u8, 0x72u8, 0x65u8, 0x71u8, 0x75u8, 0x69u8, 0x72u8, 0x65u8, 0x73u8, 0x22u8, 0x3au8, 0x5bu8, 0x7bu8]);
    assert(ascii_bytes(",{"@) =~= seq![0x2cu8, 0x7bu8]);
    assert(ascii_bytes("]}"@) =~= seq![0x5du8, 0x7du8]);
    assert forall|i: int| 0 <= i < 14 implies s[p + i] == #[trigger] k[i] by {
        assert(s.subrange(p, p + 14)[i] == s[p + i]);
    }
    assert(s[e1] == s.subrange(e1, e1 + 2)[0]);
    assert(s[e1 + 1] == s.subrange(e1, e1 + 2)[1]);
    assert(s[e2] == s.subrange(e2, e2 + 2)[0]);
    assert(s[e2 + 1] == s.subrange(e2, e2 + 2)[1]);
    assert(s.subrange(p + 3, p + 11) =~= REQUIRES_KEY@);
    crate::json::lemma_array_keeps_item_order::<RequiredModuleDesc, ErrorKind, RequiredModule>(RequiredModule, s, p + 12, m1, e1, m2, e2);
    assert(spec_dep_info_step(s, p + 1, dep_info_none()) == Ok::<(DepInfoSeenModel, int), (ErrorKindSpec<ErrorKind>, int)>((
        DepInfoSeenModel { requires: Some(seq![m1, m2]), ..dep_info_none() },
        e2 + 1,
    ))) by {
        reveal(spec_dep_info_step);
        lemma_ws_end_at_token(s, p + 11);
        lemma_ws_end_at_token(s, p + 12);
        lemma_ws_end_at_token(s, e2 + 1);
    }
    lemma_ws_end_at_token(s, p);
    lemma_ws_end_at_token(s, p + 1);
    let st1 = DepInfoSeenModel { requires: Some(seq![m1, m2]), ..dep_info_none() };
    assert(spec_dep_info_fields(s, e2 + 1, st1) == Ok::<(DepInfoModel, int), (ErrorKindSpec<ErrorKind>, int)>((spec_dep_info_finish(st1), e2 + 1)));
    assert(spec_dep_info_fields(s, p + 1, dep_info_none()) == spec_dep_info_fields(s, e2 + 1, st1));
}

/// Reading a rule `{"work-directory":W,"primary-output":P}`, where `W` and `P`
/// are any JSON strings: its work directory is the text of `W` and its primary
/// output the text of `P`, each in the field of the same name as its key; it
/// has no other outputs and provides and requires no module.
pub proof fn lemma_rule_fields_land(s: Seq<u8>, p: int, w: Seq<char>, q1: int, po: Seq<char>, q2: int)
    requires
        holds_at(s, p, ascii_bytes("{\"work-directory\":"@)),
        crate::string::spec_json_string::<ErrorKind>(s, p + 18, false) == Ok::<(Seq<char>, int), (ErrorKindSpec<ErrorKind>, int)>((w, q1)),
        holds_at(s, q1, ascii_bytes(",\"primary-output\":"@)),
        crate::string::spec_json_string::<ErrorKind>(s, q1 + 18, false) == Ok::<(Seq<char>, int), (ErrorKindSpec<ErrorKind>, int)>((po, q2)),
        holds_at(s, q2, seq![0x7du8]),
    ensures
        spec_dep_info(s, p) == Ok::<(DepInfoModel, int), (ErrorKindSpec<ErrorKind>, int)>((
            DepInfoModel {
                work_directory: Some(w),
                primary_output: Some(po),
                outputs: Seq::empty(),
                provides: Seq::empty(),
                requires: Seq::empty(),
            },
            spec_ws_end(s, q2 + 1),
        )),
{
    reveal_strlit("{\"work-directory\":");
    reveal_strlit(",\"primary-output\":");
    lemma_rule_key_bytes(s, p, q1);
    assert(s.subrange(q2, q2 + 1)[0] == s[q2]);
    lemma_ws_end_at_token(s, p);
    lemma_ws_end_at_token(s, p + 1);
    lemma_work_directory_step(s, p, w, q1);
    let st1 = DepInfoSeenModel { work_directory: Some(w), ..dep_info_none() };
    lemma_primary_output_step(s, q1, st1, po, q2);
    let st2 = DepInfoSeenModel { primary_output: Some(po), ..st1 };
    assert(spec_dep_info_fields(s, q2, st2) == Ok::<(DepInfoModel, int), (ErrorKindSpec<ErrorKind>, int)>((spec_dep_info_finish(st2), q2)));
    assert(spec_dep_info_fields(s, q1 + 1, st1) == spec_dep_info_fields(s, q2, st2));
    assert(spec_dep_info_fields(s, p + 1, dep_info_none()) == spec_dep_info_fields(s, q1 + 1, st1));
}

/// Reads one field of a rule into `seen`.
fn dep_info_field<'i>(stream: &mut ParseStream<'i>, seen: &mut DepInfoSeen<'i>) -> (r: PResult<'i, ()>)
    requires
        old(stream).wf(),
    ensures
        final(stream).wf(),
        final(stream).same_source(old(stream)),
        outcome_is(final(stream), &r, spec_step_unit(spec_dep_info_step(old(stream).input@, old(stream).pos(), old(seen).model()))),
        r is Ok ==> final(seen).model() == spec_dep_info_step(old(stream).input@, old(stream).pos(), old(seen).model())->Ok_0.0,
        no_backslash(old(stream).input@) ==> (old(seen).borrowed() ==> (r is Ok ==> final(seen).borrowed())),
        old(seen).from_literals(old(stream).input@) ==> (r is Ok ==> final(seen).from_literals(old(stream).input@)),
{
    reveal(spec_dep_info_step);
    match stream.next_byte()? {
        0x22 => match stream.next_byte()? {
            0x6f => {
                if seen.outputs.is_some() {
                    let field = "outputs";
                    let error = crate::stream::ErrorKind::DuplicateField { field };
                    return Err(stream.error(error));
                }
                let key = vstd::array::array_as_slice(&OUTPUTS_KEY);
                let val = Field { key, val: Array { val: PathString } }.parse(stream)?;
                seen.outputs = Some(val);
            },
            0x70 => match stream.next_byte()? {
                0x72 => match stream.next_byte()? {
                    0x69 => {
                        if seen.primary_output.is_some() {
                            let field = "primary_output";
                            let error = crate::stream::ErrorKind::DuplicateField { field };
                            return Err(stream.error(error));
                        }
                        let key = vstd::array::array_as_slice(&PRIMARY_OUTPUT_KEY);
                        let val = Field { key, val: PathString }.parse(stream)?;
                        seen.primary_output = Some(val);
                    },
                    0x6f => {
                        if seen.provides.is_some() {
                            let field = "provides";
                            let error = crate::stream::ErrorKind::DuplicateField { field };
                            return Err(stream.error(error));
                        }
                        let key = vstd::array::array_as_slice(&PROVIDES_KEY);
                        let val = Field { key, val: Array { val: ProvidedModule } }.parse(stream)?;
                        seen.provides = Some(val);
                    },
                    _ => return Err(ErrorKind::DepInfo.error(stream)),
                },
                _ => return Err(ErrorKind::DepInfo.error(stream)),
            },
            0x72 => {
                if seen.requires.is_some() {
                    let field = "requires";
                    let error = crate::stream::ErrorKind::DuplicateField { field };
                    return Err(stream.error(error));
                }
                let key = vstd::array::array_as_slice(&REQUIRES_KEY);
                let val = Field { key, val: Array { val: RequiredModule } }.parse(stream)?;
                seen.requires = Some(val);
            },
            0x77 => {
                if seen.work_directory.is_some() {
                    let field = "work-directory";
                    let error = crate::stream::ErrorKind::DuplicateField { field };
                    return Err(stream.error(error));
                }
                let key = vstd::array::array_as_slice(&WORK_DIRECTORY_KEY);
                let val = Field { key, val: PathString }.parse(stream)?;
                seen.work_directory = Some(val);
            },
            _ => return Err(ErrorKind::DepInfo.error(stream)),
        },
        _ => return Err(ErrorKind::DepInfo.error(stream)),
    }
    Ok(())
}

/// Makes a rule of the fields `seen`.
fn dep_info_finish<'i>(seen: DepInfoSeen<'i>) -> (d: DepInfo<'i>)
    ensures
        d.model() == spec_dep_info_finish(seen.model()),
        seen.borrowed() ==> d.borrowed(),
        forall|s: Seq<u8>| seen.from_literals(s) ==> d.from_literals(s),
{
    let ghost m = seen.model();
    let outputs = match seen.outputs {
        Some(v) => v,
        None => Vec::new(),
    };
    let provides = match seen.provides {
        Some(v) => v,
        None => Vec::new(),
    };
    let required = match seen.requires {
        Some(v) => v,
        None => Vec::new(),
    };
    let d = DepInfo {
        work_directory: seen.work_directory,
        primary_output: seen.primary_output,
        outputs,
        provides,
        requires: required,
    };
    assert(d.model().outputs =~= spec_dep_info_finish(m).outputs);
    assert(d.model().provides =~= spec_dep_info_finish(m).provides);
    assert(d.model().requires =~= spec_dep_info_finish(m).requires);
    d
}

/// Reads the fields of a rule, up to its closing brace.
pub struct DepInfoFields;

impl<'i> Parser<'i, DepInfo<'i>, ErrorKind> for DepInfoFields {
    open spec fn spec_parse(&self, s: Seq<u8>, p: int) -> SpecOutcome<DepInfoModel> {
        spec_dep_info_fields(s, p, dep_info_none())
    }

    proof fn lemma_parse_bounds(&self, s: Seq<u8>, p: int) {
        lemma_dep_info_fields_bounds(s, p, dep_info_none());
    }

    fn parse(&mut self, stream: &mut ParseStream<'i>) -> (r: PResult<'i, DepInfo<'i>>) {
        let ghost s = stream.input@;
        let ghost p0 = stream.pos();
        let mut seen = DepInfoSeen {
            work_directory: None,
            primary_output: None,
            outputs: None,
            provides: None,
            requires: None,
        };
        loop
            invariant_except_break
                stream.wf(),
                stream.path == old(stream).path,
                stream.input == old(stream).input,
                s == stream.input@,
                old(stream).input@ == s,
                old(stream).pos() == p0,
                0 <= p0 <= s.len(),
                0 <= stream.pos() <= s.len(),
                spec_dep_info_fields(s, p0, dep_info_none()) == spec_dep_info_fields(s, stream.pos(), seen.model()),
                no_backslash(s) ==> seen.borrowed(),
                seen.from_literals(s),
            ensures
                stream.wf(),
                stream.path == old(stream).path,
                stream.input == old(stream).input,
                old(stream).input@ == s,
                old(stream).pos() == p0,
                spec_dep_info_fields(s, p0, dep_info_none()) == Ok::<(DepInfoModel, int), (ErrorKindSpec<ErrorKind>, int)>((spec_dep_info_finish(seen.model()), stream.pos())),
                no_backslash(s) ==> seen.borrowed(),
                seen.from_literals(s),
            decreases s.len() - stream.pos(),
        {
            if stream.peek_byte()? == 0x7d {
                break;
            }
            proof {
                lemma_dep_info_step_bounds(s, stream.pos(), seen.model());
            }
            dep_info_field(stream, &mut seen)?;
        }
        Ok(dep_info_finish(seen))
    }
}

/// Reading the fields of a rule never moves backwards, nor past the end of the
/// input.
pub proof fn lemma_dep_info_fields_bounds(s: Seq<u8>, p: int, st: DepInfoSeenModel)
    requires
        0 <= p <= s.len(),
    ensures
        spec_dep_info_fields(s, p, st) matches Ok((_, q)) ==> p <= q <= s.len(),
    decreases s.len() - p,
{
    lemma_dep_info_step_bounds(s, p, st);
    if p < s.len() && s[p] != 0x7d {
        if spec_dep_info_step(s, p, st) is Ok {
            let (st2, q) = spec_dep_info_step(s, p, st)->Ok_0;
            lemma_dep_info_fields_bounds(s, q, st2);
        }
    }
}

/// Reads a rule: an object, with the whitespace around it.
pub fn dep_info<'i>(stream: &mut ParseStream<'i>) -> (r: PResult<'i, DepInfo<'i>>)
    requires
        old(stream).wf(),
    ensures
        final(stream).wf(),
        final(stream).same_source(old(stream)),
        outcome_is(final(stream), &r, spec_dep_info(old(stream).input@, old(stream).pos())),
        no_backslash(old(stream).input@) ==> (r matches Ok(v) ==> v.borrowed()),
        r matches Ok(v) ==> v.from_literals(old(stream).input@),
{
    multispace0(stream)?;
    let res = Record { val: DepInfoFields }.parse(stream)?;
    multispace0(stream)?;
    Ok(res)
}

/// Reads a rule.
pub struct Rule;

impl<'i> Parser<'i, DepInfo<'i>, ErrorKind> for Rule {
    open spec fn spec_parse(&self, s: Seq<u8>, p: int) -> SpecOutcome<DepInfoModel> {
        spec_dep_info(s, p)
    }

    proof fn lemma_parse_bounds(&self, s: Seq<u8>, p: int) {
        lemma_ws_run_bounds(s, p);
        let p1 = spec_ws_end(s, p);
        (Record { val: DepInfoFields }).lemma_parse_bounds(s, p1);
        if (Record { val: DepInfoFields }).spec_parse(s, p1) is Ok {
            lemma_ws_run_bounds(s, (Record { val: DepInfoFields }).spec_parse(s, p1)->Ok_0.1);
        }
    }

    fn parse(&mut self, stream: &mut ParseStream<'i>) -> (r: PResult<'i, DepInfo<'i>>) {
        dep_info(stream)
    }
}

/// The fields of a dependency file read so far.
pub struct DepFileSeen<'i> {
    pub rules: Option<Vec<DepInfo<'i>>>,
    pub revision: Option<u32>,
    pub version: Option<u32>,
}

/// The abstract value of a [`DepFileSeen`].
pub struct DepFileSeenModel {
    pub rules: Option<Seq<DepInfoModel>>,
    pub revision: Option<u32>,
    pub version: Option<u32>,
}

impl<'i> Model for DepFileSeen<'i> {
    type M = DepFileSeenModel;

    open spec fn model(&self) -> DepFileSeenModel {
        DepFileSeenModel { rules: self.rules.model(), revision: self.revision, version: self.version }
    }

    open spec fn borrowed(&self) -> bool {
        self.rules.borrowed()
    }

    open spec fn from_literals(&self, s: Seq<u8>) -> bool {
        self.rules.from_literals(s)
    }
}

/// Reading one field of a dependency file at `p`, after the fields `st`.
#[verifier::opaque]
pub open spec fn spec_dep_file_step(s: Seq<u8>, p: int, st: DepFileSeenModel) -> StepOutcome<DepFileSeenModel> {
    match spec_next_byte::<ErrorKind>(s, p) {
        Err(e) => Err(e),
        Ok((b0, p1)) => if b0 != 0x22 {
            Err((other(ErrorKind::DepFile), p1))
        } else {
            match spec_next_byte::<ErrorKind>(s, p1) {
                Err(e) => Err(e),
                Ok((b1, p2)) => if b1 == 0x72 {
                    match spec_next_byte::<ErrorKind>(s, p2) {
                        Err(e) => Err(e),
                        Ok((b2, p3)) => if b2 == 0x65 {
                            if st.revision is Some {
                                Err((duplicate("revision"), p3))
                            } else {
                                match spec_field(REVISION_KEY@, DecUint, s, p3) {
                                    Err(e) => Err(e),
                                    Ok((v, q)) => Ok((DepFileSeenModel { revision: Some(v), ..st }, q)),
                                }
                            }
                        } else if b2 == 0x75 {
                            if st.rules is Some {
                                Err((duplicate("rules"), p3))
                            } else {
                                match spec_field(RULES_KEY@, Array { val: Rule }, s, p3) {
                                    Err(e) => Err(e),
                                    Ok((v, q)) => Ok((DepFileSeenModel { rules: Some(v), ..st }, q)),
                                }
                            }
                        } else {
                            Err((other(ErrorKind::DepFile), p3))
                        },
                    }
                } else if b1 == 0x76 {
                    if st.version is Some {
                        Err((duplicate("version"), p2))
                    } else {
                        match spec_field(VERSION_KEY@, DecUint, s, p2) {
                            Err(e) => Err(e),
                            Ok((v, q)) => Ok((DepFileSeenModel { version: Some(v), ..st }, q)),
                        }
                    }
                } else {
                    Err((other(ErrorKind::DepFile), p2))
                },
            }
        },
    }
}

/// Reading a field never moves backwards, nor past the end of the input.
pub proof fn lemma_dep_file_step_bounds(s: Seq<u8>, p: int, st: DepFileSeenModel)
    requires
        0 <= p <= s.len(),
    ensures
        spec_dep_file_step(s, p, st) matches Ok((_, q)) ==> p < q <= s.len(),
{
    reveal(spec_dep_file_step);
    if p + 2 <= s.len() {
        lemma_field_bounds::<u32, ErrorKind, DecUint>(VERSION_KEY@, DecUint, s, p + 2);
    }
    if p + 3 <= s.len() {
        lemma_field_bounds::<u32, ErrorKind, DecUint>(REVISION_KEY@, DecUint, s, p + 3);
        lemma_field_bounds::<Vec<DepInfo>, ErrorKind, Array<Rule>>(RULES_KEY@, Array { val: Rule }, s, p + 3);
    }
}

/// What the fields `st` of a dependency file, read up to its closing brace at
/// `p`, make; its version and its rules must be there.
pub open spec fn spec_dep_file_finish(st: DepFileSeenModel, p: int) -> SpecOutcome<DepFileModel> {
    if st.version is None {
        Err((missing("version"), p))
    } else if st.rules is None {
        Err((missing("rules"), p))
    } else {
        Ok((DepFileModel { version: st.version->0, revision: st.revision, rules: st.rules->0 }, p))
    }
}

/// Reading the fields of a dependency file from `p` on, after the fields `st`,
/// up to its closing brace.
pub open spec fn spec_dep_file_fields(s: Seq<u8>, p: int, st: DepFileSeenModel) -> SpecOutcome<DepFileModel>
    decreases s.len() - p when 0 <= p <= s.len()
{
    match spec_peek_byte::<ErrorKind>(s, p) {
        Err(e) => Err(e),
        Ok((b, _)) => if b == 0x7d {
            spec_dep_file_finish(st, p)
        } else {
            match spec_dep_file_step(s, p, st) {
                Err(e) => Err(e),
                Ok((st2, q)) => {
                    proof {
                        lemma_dep_file_step_bounds(s, p, st);
                    }
                    spec_dep_file_fields(s, q, st2)
                },
            }
        },
    }
}

/// No fields read yet.
pub open spec fn dep_file_none() -> DepFileSeenModel {
    DepFileSeenModel { rules: None, revision: None, version: None }
}

/// A number read at `x` starts with a digit, which is not whitespace.
proof fn lemma_dec_uint_starts_with_digit(s: Seq<u8>, x: int)
    requires
        0 <= x <= s.len(),
        spec_dec_uint::<ErrorKind>(s, x) is Ok,
    ensures
        x < s.len(),
        !(s[x] == 0x20 || s[x] == 0x09 || s[x] == 0x0a || s[x] == 0x0c || s[x] == 0x0d),
        s[x] != 0x22 && s[x] != 0x2c && s[x] != 0x7d,
{
    let t = s.subrange(x, s.len() as int);
    lemma_digits_end_bounds(false, t, 0);
    assert(t[0] == s[x]);
}

/// What the bytes of `{"version":` at `p`, of `,"revision":` at `q1` and of
/// `,"rules":[]}` at `q2` are.
proof fn lemma_file_key_bytes(s: Seq<u8>, p: int, q1: int, q2: int)
    requires
        holds_at(s, p, ascii_bytes("{\"version\":"@)),
        holds_at(s, q1, ascii_bytes(",\"revision\":"@)),
        holds_at(s, q2, ascii_bytes(",\"rules\":[]}"@)),
    ensures
        s[p] == 0x7b,
        s[p + 1] == 0x22,
        s[p + 2] == 0x76,
        s.subrange(p + 3, p + 10) == VERSION_KEY@,
        s[p + 10] == 0x3a,
        s[q1] == 0x2c,
        s[q1 + 1] == 0x22,
        s[q1 + 2] == 0x72,
        s[q1 + 3] == 0x65,
        s.subrange(q1 + 4, q1 + 11) == REVISION_KEY@,
        s[q1 + 11] == 0x3a,
        q2 + 12 <= s.len(),
        s[q2] == 0x2c,
        s[q2 + 1] == 0x22,
        s[q2 + 2] == 0x72,
        s[q2 + 3] == 0x75,
        s.subrange(q2 + 4, q2 + 8) == RULES_KEY@,
        s[q2 + 8] == 0x3a,
        s[q2 + 9] == 0x5b,
        s[q2 + 10] == 0x5d,
        s[q2 + 11] == 0x7d,
{
    reveal_strlit("{\"version\":");
    reveal_strlit(",\"revision\":");
    reveal_strlit(",\"rules\":[]}");
    let a = ascii_bytes("{\"version\":"@);
    let b = ascii_bytes(",\"revision\":"@);
    let c = ascii_bytes(",\"rules\":[]}"@);
    assert(a =~= seq![0x7bu8, 0x22u8, 0x76u8, 0x65u8, 0x72u8, 0x73u8, 0x69u8, 0x6fu8, 0x6eu8, 0x22u8, 0x3au8]);
    assert(b =~= seq![0x2cu8, 0x22u8, 0x72u8, 0x65u8, 0x76u8, 0x69u8, 0x73u8, 0x69u8, 0x6fu8, 0x6eu8, 0x22u8, 0x3au8]);
    assert(c =~= seq![0x2cu8, 0x22u8, 0x72u8, 0x75u8, 0x6cu8, 0x65u8, 0x73u8, 0x22u8, 0x3au8, 0x5bu8, 0x5du8, 0x7du8]);
    assert forall|i: int| 0 <= i < 11 implies s[p + i] == #[trigger] a[i] by {
        assert(s.subrange(p, p + 11)[i] == s[p + i]);
    }
    assert forall|i: int| 0 <= i < 12 implies s[q1 + i] == #[trigger] b[i] by {
        assert(s.subrange(q1, q1 + 12)[i] == s[q1 + i]);
    }
    assert forall|i: int| 0 <= i < 12 implies s[q2 + i] == #[trigger] c[i] by {
        assert(s.subrange(q2, q2 + 12)[i] == s[q2 + i]);
    }
    assert(s.subrange(p + 3, p + 10) =~= VERSION_KEY@);
    assert(s.subrange(q1 + 4, q1 + 11) =~= REVISION_KEY@);
    assert(s.subrange(q2 + 4, q2 + 8) =~= RULES_KEY@);
}

/// The field `"version":N,` is read as the file's version.
#[verifier::rlimit(50)]
proof fn lemma_version_step(s: Seq<u8>, p: int, n: u32, q1: int)
    requires
        0 <= p,
        p + 11 <= s.len(),
        s[p + 1] == 0x22,
        s[p + 2] == 0x76,
        s.subrange(p + 3, p + 10) == VERSION_KEY@,
        s[p + 10] == 0x3a,
        spec_dec_uint::<ErrorKind>(s, p + 11) == Ok::<(u32, int), (ErrorKindSpec<ErrorKind>, int)>((n, q1)),
        0 <= q1 && q1 + 1 < s.len(),
        s[q1] == 0x2c,
        s[q1 + 1] == 0x22,
    ensures
        spec_dep_file_step(s, p + 1, dep_file_none()) == Ok::<(DepFileSeenModel, int), (ErrorKindSpec<ErrorKind>, int)>((
            DepFileSeenModel { version: Some(n), ..dep_file_none() },
            q1 + 1,
        )),
{
    reveal(spec_dep_file_step);
    lemma_dec_uint_starts_with_digit(s, p + 11);
    lemma_ws_end_at_token(s, p + 10);
    lemma_ws_end_at_token(s, p + 11);
    lemma_ws_end_at_token(s, q1);
    lemma_ws_end_at_token(s, q1 + 1);
}

/// The field `"revision":M,` is read as the file's revision.
#[verifier::rlimit(50)]
proof fn lemma_revision_step(s: Seq<u8>, q1: int, st: DepFileSeenModel, m: u32, q2: int)
    requires
        0 <= q1,
        q1 + 12 <= s.len(),
        s[q1 + 1] == 0x22,
        s[q1 + 2] == 0x72,
        s[q1 + 3] == 0x65,
        s.subrange(q1 + 4, q1 + 11) == REVISION_KEY@,
        s[q1 + 11] == 0x3a,
        spec_dec_uint::<ErrorKind>(s, q1 + 12) == Ok::<(u32, int), (ErrorKindSpec<ErrorKind>, int)>((m, q2)),
        0 <= q2 && q2 + 1 < s.len(),
        s[q2] == 0x2c,
        s[q2 + 1] == 0x22,
        st.revision is None,
    ensures
        spec_dep_file_step(s, q1 + 1, st) == Ok::<(DepFileSeenModel, int), (ErrorKindSpec<ErrorKind>, int)>((
            DepFileSeenModel { revision: Some(m), ..st },
            q2 + 1,
        )),
{
    reveal(spec_dep_file_step);
    lemma_dec_uint_starts_with_digit(s, q1 + 12);
    lemma_ws_end_at_token(s, q1 + 11);
    lemma_ws_end_at_token(s, q1 + 12);
    lemma_ws_end_at_token(s, q2);
    lemma_ws_end_at_token(s, q2 + 1);
}

/// The field `"rules":[]}` is read as no rules.
#[verifier::rlimit(50)]
proof fn lemma_no_rules_step(s: Seq<u8>, q2: int, st: DepFileSeenModel)
    requires
        0 <= q2,
        q2 + 12 <= s.len(),
        s[q2 + 1] == 0x22,
        s[q2 + 2] == 0x72,
        s[q2 + 3] == 0x75,
        s.subrange(q2 + 4, q2 + 8) == RULES_KEY@,
        s[q2 + 8] == 0x3a,
        s[q2 + 9] == 0x5b,
        s[q2 + 10] == 0x5d,
        s[q2 + 11] == 0x7d,
        st.rules is None,
    ensures
        spec_dep_file_step(s, q2 + 1, st) == Ok::<(DepFileSeenModel, int), (ErrorKindSpec<ErrorKind>, int)>((
            DepFileSeenModel { rules: Some(Seq::empty()), ..st },
            q2 + 11,
        )),
{
    reveal(spec_dep_file_step);
    lemma_ws_end_at_token(s, q2 + 8);
    lemma_ws_end_at_token(s, q2 + 9);
    lemma_ws_end_at_token(s, q2 + 10);
    lemma_ws_end_at_token(s, q2 + 11);
}

/// Reading a dependency file `{"version":N,"revision":M,"rules":[]}`, where `N`
/// and `M` are numbers: its version is the number `N` reads as, its revision
/// the number `M` reads as, each in the field of the same name as its key,
/// and it has no rules.
pub proof fn lemma_file_fields_land(s: Seq<u8>, p: int, n: u32, q1: int, m: u32, q2: int)
    requires
        holds_at(s, p, ascii_bytes("{\"version\":"@)),
        spec_dec_uint::<ErrorKind>(s, p + 11) == Ok::<(u32, int), (ErrorKindSpec<ErrorKind>, int)>((n, q1)),
        holds_at(s, q1, ascii_bytes(",\"revision\":"@)),
        spec_dec_uint::<ErrorKind>(s, q1 + 12) == Ok::<(u32, int), (ErrorKindSpec<ErrorKind>, int)>((m, q2)),
        holds_at(s, q2, ascii_bytes(",\"rules\":[]}"@)),
    ensures
        spec_dep_file(s, p) == Ok::<(DepFileModel, int), (ErrorKindSpec<ErrorKind>, int)>((
            DepFileModel { version: n, revision: Some(m), rules: Seq::empty() },
            spec_ws_end(s, q2 + 12),
        )),
{
    reveal_strlit("{\"version\":");
    reveal_strlit(",\"revision\":");
    lemma_file_key_bytes(s, p, q1, q2);
    lemma_ws_end_at_token(s, p);
    lemma_ws_end_at_token(s, p + 1);
    lemma_version_step(s, p, n, q1);
    let st1 = DepFileSeenModel { version: Some(n), ..dep_file_none() };
    lemma_revision_step(s, q1, st1, m, q2);
    let st2 = DepFileSeenModel { revision: Some(m), ..st1 };
    lemma_no_rules_step(s, q2, st2);
    let st3 = DepFileSeenModel { rules: Some(Seq::empty()), ..st2 };
    assert(spec_dep_file_fields(s, q2 + 11, st3) == spec_dep_file_finish(st3, q2 + 11));
    assert(spec_dep_file_fields(s, q2 + 1, st2) == spec_dep_file_fields(s, q2 + 11, st3));
    assert(spec_dep_file_fields(s, q1 + 1, st1) == spec_dep_file_fields(s, q2 + 1, st2));
    assert(spec_dep_file_fields(s, p + 1, dep_file_none()) == spec_dep_file_fields(s, q1 + 1, st1));
}

/// Reading a dependency file `{"version":N,"rules":[R1,R2]}`, where `N` is a
/// number and `R1` and `R2` are rules, each starting with its brace: its
/// version is the number `N` reads as, it has no revision, and its rules are
/// `R1` then `R2`, in that order.
pub proof fn lemma_file_rules_keep_order(
    s: Seq<u8>,
    p: int,
    n: u32,
    q1: int,
    r1: DepInfoModel,
    e1: int,
    r2: DepInfoModel,
    e2: int,
)
    requires
        holds_at(s, p, ascii_bytes("{\"version\":"@)),
        spec_dec_uint::<ErrorKind>(s, p + 11) == Ok::<(u32, int), (ErrorKindSpec<ErrorKind>, int)>((n, q1)),
        holds_at(s, q1, ascii_bytes(",\"rules\":[{"@)),
        spec_dep_info(s, q1 + 10) == Ok::<(DepInfoModel, int), (ErrorKindSpec<ErrorKind>, int)>((r1, e1)),
        holds_at(s, e1, ascii_bytes(",{"@)),
        spec_dep_info(s, e1 + 1) == Ok::<(DepInfoModel, int), (ErrorKindSpec<ErrorKind>, int)>((r2, e2)),
        holds_at(s, e2, ascii_bytes("]}"@)),
    ensures
        spec_dep_file(s, p) == Ok::<(DepFileModel, int), (ErrorKindSpec<ErrorKind>, int)>((
            DepFileModel { version: n, revision: None, rules: seq![r1, r2] },
            spec_ws_end(s, e2 + 2),
        )),
{
    reveal_strlit("{\"version\":");
    reveal_strlit(",\"rules\":[{");
    reveal_strlit(",{");
    reveal_strlit("]}");
    let a = ascii_bytes("{\"version\":"@);
    let b = ascii_bytes(",\"rules\":[{"@);
    assert(a =~= seq![0x7bu8, 0x22u8, 0x76u8, 0x65u8, 0x72u8, 0x73u8, 0x69u8, 0x6fu8, 0x6eu8, 0x22u8, 0x3au8]);
    assert(b =~= seq![0x2cu8, 0x22u8, 0x72u8, 0x75u8, 0x6cu8, 0x65u8, 0x73u8, 0x22u8, 0x3au8, 0x5bu8, 0x7bu8]);
    assert(ascii_bytes(",{"@) =~= seq![0x2cu8, 0x7bu8]);
    assert(ascii_bytes("]}"@) =~= seq![0x5du8, 0x7du8]);
    assert forall|i: int| 0 <= i < 11 implies s[p + i] == #[trigger] a[i] by {
        assert(s.subrange(p, p + 11)[i] == s[p + i]);
    }
    assert forall|i: int| 0 <= i < 11 implies s[q1 + i] == #[trigger] b[i] by {
        assert(s.subrange(q1, q1 + 11)[i] == s[q1 + i]);
    }
    assert(s[e1] == s.subrange(e1, e1 + 2)[0]);
    assert(s[e1 + 1] == s.subrange(e1, e1 + 2)[1]);
    assert(s[e2] == s.subrange(e2, e2 + 2)[0]);
    assert(s[e2 + 1] == s.subrange(e2, e2 + 2)[1]);
    assert(s.subrange(p + 3, p + 10) =~= VERSION_KEY@);
    assert(s.subrange(q1 + 4, q1 + 8) =~= RULES_KEY@);
    lemma_ws_end_at_token(s, p);
    lemma_ws_end_at_token(s, p + 1);
    lemma_version_step(s, p, n, q1);
    let st1 = DepFileSeenModel { version: Some(n), ..dep_file_none() };
    crate::json::lemma_array_keeps_item_order::<DepInfo, ErrorKind, Rule>(Rule, s, q1 + 9, r1, e1, r2, e2);
    assert(spec_dep_file_step(s, q1 + 1, st1) == Ok::<(DepFileSeenModel, int), (ErrorKindSpec<ErrorKind>, int)>((
        DepFileSeenModel { rules: Some(seq![r1, r2]), ..st1 },
        e2 + 1,
    ))) by {
        reveal(spec_dep_file_step);
        lemma_ws_end_at_token(s, q1 + 8);
        lemma_ws_end_at_token(s, q1 + 9);
        lemma_ws_end_at_token(s, e2 + 1);
    }
    let st2 = DepFileSeenModel { rules: Some(seq![r1, r2]), ..st1 };
    assert(spec_dep_file_fields(s, e2 + 1, st2) == spec_dep_file_finish(st2, e2 + 1));
    assert(spec_dep_file_fields(s, q1 + 1, st1) == spec_dep_file_fields(s, e2 + 1, st2));
    assert(spec_dep_file_fields(s, p + 1, dep_file_none()) == spec_dep_file_fields(s, q1 + 1, st1));
}

/// A dependency file may give its version once: in `{"version":N,"version":`,
/// where `N` is a number, the second key is refused as a duplicate field, just
/// after its `"v` was read.
pub proof fn lemma_file_version_twice_refused(s: Seq<u8>, p: int, n: u32, q1: int)
    requires
        holds_at(s, p, ascii_bytes("{\"version\":"@)),
        spec_dec_uint::<ErrorKind>(s, p + 11) == Ok::<(u32, int), (ErrorKindSpec<ErrorKind>, int)>((n, q1)),
        holds_at(s, q1, ascii_bytes(",\"version\":"@)),
    ensures
        spec_dep_file(s, p) == Err::<(DepFileModel, int), (ErrorKindSpec<ErrorKind>, int)>(
            (duplicate("version"), q1 + 3),
        ),
{
    reveal_strlit("{\"version\":");
    reveal_strlit(",\"version\":");
    let a = ascii_bytes("{\"version\":"@);
    let b = ascii_bytes(",\"version\":"@);
    assert(a =~= seq![0x7bu8, 0x22u8, 0x76u8, 0x65u8, 0x72u8, 0x73u8, 0x69u8, 0x6fu8, 0x6eu8, 0x22u8, 0x3au8]);
    assert(b =~= seq![0x2cu8, 0x22u8, 0x76u8, 0x65u8, 0x72u8, 0x73u8, 0x69u8, 0x6fu8, 0x6eu8, 0x22u8, 0x3au8]);
    assert forall|i: int| 0 <= i < 11 implies s[p + i] == #[trigger] a[i] by {
        assert(s.subrange(p, p + 11)[i] == s[p + i]);
    }
    assert forall|i: int| 0 <= i < 11 implies s[q1 + i] == #[trigger] b[i] by {
        assert(s.subrange(q1, q1 + 11)[i] == s[q1 + i]);
    }
    assert(s.subrange(p + 3, p + 10) =~= VERSION_KEY@);
    lemma_ws_end_at_token(s, p);
    lemma_ws_end_at_token(s, p + 1);
    lemma_version_step(s, p, n, q1);
    let st1 = DepFileSeenModel { version: Some(n), ..dep_file_none() };
    assert(spec_dep_file_step(s, q1 + 1, st1) == Err::<(DepFileSeenModel, int), (ErrorKindSpec<ErrorKind>, int)>(
        (duplicate("version"), q1 + 3),
    )) by {
        reveal(spec_dep_file_step);
    }
    assert(spec_dep_file_fields(s, q1 + 1, st1) == Err::<(DepFileModel, int), (ErrorKindSpec<ErrorKind>, int)>(
        (duplicate("version"), q1 + 3),
    ));
    assert(spec_dep_file_fields(s, p + 1, dep_file_none()) == spec_dep_file_fields(s, q1 + 1, st1));
}

/// A dependency file must give its version: `{"rules":[]}` is refused for the
/// missing field `version`, at its closing brace.
pub proof fn lemma_file_without_version_refused(s: Seq<u8>, p: int)
    requires
        holds_at(s, p, ascii_bytes("{\"rules\":[]}"@)),
    ensures
        spec_dep_file(s, p) == Err::<(DepFileModel, int), (ErrorKindSpec<ErrorKind>, int)>(
            (missing("version"), p + 11),
        ),
{
    reveal_strlit("{\"rules\":[]}");
    let c = ascii_bytes("{\"rules\":[]}"@);
    assert(c =~= seq![0x7bu8, 0x22u8, 0x72u8, 0x75u8, 0x6cu8, 0x65u8, 0x73u8, 0x22u8, 0x3au8, 0x5bu8, 0x5du8, 0x7du8]);
    assert forall|i: int| 0 <= i < 12 implies s[p + i] == #[trigger] c[i] by {
        assert(s.subrange(p, p + 12)[i] == s[p + i]);
    }
    assert(s.subrange(p + 4, p + 8) =~= RULES_KEY@);
    lemma_ws_end_at_token(s, p);
    lemma_ws_end_at_token(s, p + 1);
    lemma_no_rules_step(s, p, dep_file_none());
    let st = DepFileSeenModel { rules: Some(Seq::empty()), ..dep_file_none() };
    assert(spec_dep_file_fields(s, p + 11, st) == spec_dep_file_finish(st, p + 11));
    assert(spec_dep_file_fields(s, p + 1, dep_file_none()) == spec_dep_file_fields(s, p + 11, st));
}

/// Reading a dependency file at `p`: an object, with the whitespace around it.
pub open spec fn spec_dep_file(s: Seq<u8>, p: int) -> SpecOutcome<DepFileModel> {
    match (Record { val: DepFileFields }).spec_parse(s, spec_ws_end(s, p)) {
        Err(e) => Err(e),
        Ok((v, q)) => Ok((v, spec_ws_end(s, q))),
    }
}

/// Reads one field of a dependency file into `seen`.
fn dep_file_field<'i>(stream: &mut ParseStream<'i>, seen: &mut DepFileSeen<'i>) -> (r: PResult<'i, ()>)
    requires
        old(stream).wf(),
    ensures
        final(stream).wf(),
        final(stream).same_source(old(stream)),
        outcome_is(final(stream), &r, spec_step_unit(spec_dep_file_step(old(stream).input@, old(stream).pos(), old(seen).model()))),
        r is Ok ==> final(seen).model() == spec_dep_file_step(old(stream).input@, old(stream).pos(), old(seen).model())->Ok_0.0,
        no_backslash(old(stream).input@) ==> (old(seen).borrowed() ==> (r is Ok ==> final(seen).borrowed())),
        old(seen).from_literals(old(stream).input@) ==> (r is Ok ==> final(seen).from_literals(old(stream).input@)),
{
    reveal(spec_dep_file_step);
    match stream.next_byte()? {
        0x22 => match stream.next_byte()? {
            0x72 => match stream.next_byte()? {
                0x65 => {
                    if seen.revision.is_some() {
                        let field = "revision";
                        let error = crate::stream::ErrorKind::DuplicateField { field };
                        return Err(stream.error(error));
                    }
                    let key = vstd::array::array_as_slice(&REVISION_KEY);
                    let val = Field { key, val: DecUint }.parse(stream)?;
                    seen.revision = Some(val);
                },
                0x75 => {
                    if seen.rules.is_some() {
                        let field = "rules";
                        let error = crate::stream::ErrorKind::DuplicateField { field };
                        return Err(stream.error(error));
                    }
                    let key = vstd::array::array_as_slice(&RULES_KEY);
                    let val = Field { key, val: Array { val: Rule } }.parse(stream)?;
                    seen.rules = Some(val);
                },
                _ => return Err(ErrorKind::DepFile.error(stream)),
            },
            0x76 => {
                if seen.version.is_some() {
                    let field = "version";
                    let error = crate::stream::ErrorKind::DuplicateField { field };
                    return Err(stream.error(error));
                }
                let key = vstd::array::array_as_slice(&VERSION_KEY);
                let val = Field { key, val: DecUint }.parse(stream)?;
                seen.version = Some(val);
            },
            _ => return Err(ErrorKind::DepFile.error(stream)),
        },
        _ => return Err(ErrorKind::DepFile.error(stream)),
    }
    Ok(())
}

/// Makes a dependency file of the fields `seen`, read up to its closing brace.
fn dep_file_finish<'i>(stream: &ParseStream<'i>, seen: DepFileSeen<'i>) -> (r: PResult<'i, DepFile<'i>>)
    requires
        stream.wf(),
    ensures
        outcome_is(stream, &r, spec_dep_file_finish(seen.model(), stream.pos())),
        seen.borrowed() ==> (r matches Ok(v) ==> v.borrowed()),
        seen.from_literals(stream.input@) ==> (r matches Ok(v) ==> v.from_literals(stream.input@)),
{
    let DepFileSeen { rules, revision, version } = seen;
    let version = match version {
        Some(v) => v,
        None => {
            let field = "version";
            let error = crate::stream::ErrorKind::MissingField { field };
            return Err(stream.error(error));
        },
    };
    let rules = match rules {
        Some(v) => v,
        None => {
            let field = "rules";
            let error = crate::stream::ErrorKind::MissingField { field };
            return Err(stream.error(error));
        },
    };
    Ok(DepFile { version, revision, rules })
}

/// Reads the fields of a dependency file, up to its closing brace.
pub struct DepFileFields;

impl<'i> Parser<'i, DepFile<'i>, ErrorKind> for DepFileFields {
    open spec fn spec_parse(&self, s: Seq<u8>, p: int) -> SpecOutcome<DepFileModel> {
        spec_dep_file_fields(s, p, dep_file_none())
    }

    proof fn lemma_parse_bounds(&self, s: Seq<u8>, p: int) {
        lemma_dep_file_fields_bounds(s, p, dep_file_none());
    }

    fn parse(&mut self, stream: &mut ParseStream<'i>) -> (r: PResult<'i, DepFile<'i>>) {
        let ghost s = stream.input@;
        let ghost p0 = stream.pos();
        let mut seen = DepFileSeen { rules: None, revision: None, version: None };
        loop
            invariant_except_break
                stream.wf(),
                stream.path == old(stream).path,
                stream.input == old(stream).input,
                s == stream.input@,
                old(stream).input@ == s,
                old(stream).pos() == p0,
                0 <= p0 <= s.len(),
                0 <= stream.pos() <= s.len(),
                spec_dep_file_fields(s, p0, dep_file_none()) == spec_dep_file_fields(s, stream.pos(), seen.model()),
                no_backslash(s) ==> seen.borrowed(),
                seen.from_literals(s),
            ensures
                stream.wf(),
                stream.path == old(stream).path,
                stream.input == old(stream).input,
                old(stream).input@ == s,
                old(stream).pos() == p0,
                spec_dep_file_fields(s, p0, dep_file_none()) == spec_dep_file_finish(seen.model(), stream.pos()),
                no_backslash(s) ==> seen.borrowed(),
                seen.from_literals(s),
            decreases s.len() - stream.pos(),
        {
            if stream.peek_byte()? == 0x7d {
                break;
            }
            proof {
                lemma_dep_file_step_bounds(s, stream.pos(), seen.model());
            }
            dep_file_field(stream, &mut seen)?;
        }
        dep_file_finish(stream, seen)
    }
}

/// Reading the fields of a dependency file never moves backwards, nor past the
/// end of the input.
pub proof fn lemma_dep_file_fields_bounds(s: Seq<u8>, p: int, st: DepFileSeenModel)
    requires
        0 <= p <= s.len(),
    ensures
        spec_dep_file_fields(s, p, st) matches Ok((_, q)) ==> p <= q <= s.len(),
    decreases s.len() - p,
{
    lemma_dep_file_step_bounds(s, p, st);
    if p < s.len() && s[p] != 0x7d {
        if spec_dep_file_step(s, p, st) is Ok {
            let (st2, q) = spec_dep_file_step(s, p, st)->Ok_0;
            lemma_dep_file_fields_bounds(s, q, st2);
        }
    }
}

/// Reads a dependency file: an object, with the whitespace around it. Each text
/// of the file read is the text of a string literal of the input, and is a
/// copy exactly when that literal holds an escape; otherwise it borrows.
pub fn dep_file<'i>(stream: &mut ParseStream<'i>) -> (r: PResult<'i, DepFile<'i>>)
    requires
        old(stream).wf(),
    ensures
        final(stream).wf(),
        final(stream).same_source(old(stream)),
        outcome_is(final(stream), &r, spec_dep_file(old(stream).input@, old(stream).pos())),
        no_backslash(old(stream).input@) ==> (r matches Ok(v) ==> v.borrowed()),
        r matches Ok(v) ==> v.from_literals(old(stream).input@),
{
    multispace0(stream)?;
    let res = Record { val: DepFileFields }.parse(stream)?;
    multispace0(stream)?;
    Ok(res)
}

} // verus!
