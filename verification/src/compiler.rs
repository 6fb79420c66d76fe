//! The compiler that scans sources for their module dependencies: its family,
//! and the file extensions that follow from it.

use std::sync::Arc;
use vstd::prelude::*;
use crate::string::Utf8PathBuf;

verus! {

/// Verus's view of `cc::Tool`, a compiler as `cc` configured it.
#[verifier::external_type_specification]
#[verifier::external_body]
pub struct ExTool(cc::Tool);

/// Whether `cc` places `tool` in the GNU family (its `family` field is `Gnu`).
pub uninterp spec fn tool_gnu_of(tool: cc::Tool) -> bool;

/// Whether `cc` places `tool` in the Clang family.
pub uninterp spec fn tool_clang_of(tool: cc::Tool) -> bool;

/// Whether `cc` places `tool` in the MSVC family.
pub uninterp spec fn tool_msvc_of(tool: cc::Tool) -> bool;

/// `cc::Tool::is_like_gnu`: whether the tool belongs to the GNU family, a
/// test of the tool's `family` field alone, named by [`tool_gnu_of`].
#[verifier::external_body]
fn tool_is_like_gnu(tool: &cc::Tool) -> (r: bool)
    ensures
        r == tool_gnu_of(*tool),
{
    tool.is_like_gnu()
}

/// `cc::Tool::is_like_clang`: whether the tool belongs to the Clang family, a
/// test of the tool's `family` field alone, named by [`tool_clang_of`].
#[verifier::external_body]
fn tool_is_like_clang(tool: &cc::Tool) -> (r: bool)
    ensures
        r == tool_clang_of(*tool),
{
    tool.is_like_clang()
}

/// `cc::Tool::is_like_msvc`: whether the tool belongs to the MSVC family, a
/// test of the tool's `family` field alone, named by [`tool_msvc_of`].
#[verifier::external_body]
fn tool_is_like_msvc(tool: &cc::Tool) -> (r: bool)
    ensures
        r == tool_msvc_of(*tool),
{
    tool.is_like_msvc()
}

/// Why an environment variable could not be read.
#[derive(Clone, Debug, PartialEq, Eq)]
pub enum EnvVarError {
    /// The variable is not set.
    NotPresent,
    /// The variable is set, to these bytes, which are not valid Unicode.
    NotUnicode(Vec<u8>),
}

/// Why a [`Compiler`] could not be set up.
#[non_exhaustive]
#[derive(Clone, Debug, PartialEq, Eq)]
pub enum CompilerError {
    /// The compiler belongs to none of the known families.
    UnknownFamily,
    /// The variable `var` of the environment could not be read.
    VarError { var: String, err: EnvVarError },
}

impl CompilerError {
    /// The message that describes the error.
    pub fn message(&self) -> (s: String)
        ensures
            s@ == "Could not detect compiler family"@,
    {
        "Could not detect compiler family".to_owned()
    }
}

/// The families of compilers whose dependency scanning is known.
#[derive(Clone, Copy, Debug, PartialEq, Eq)]
pub enum CompilerFamily {
    Clang,
    Gnu,
    Msvc,
}

/// The family that the answers of the three family tests give: GNU is tested
/// first, then Clang, then MSVC; with none of them the family is unknown.
pub open spec fn spec_family_of(is_gnu: bool, is_clang: bool, is_msvc: bool) -> Result<
    CompilerFamily,
    CompilerError,
> {
    if is_gnu {
        Ok(CompilerFamily::Gnu)
    } else if is_clang {
        Ok(CompilerFamily::Clang)
    } else if is_msvc {
        Ok(CompilerFamily::Msvc)
    } else {
        Err(CompilerError::UnknownFamily)
    }
}

impl CompilerFamily {
    /// The family that the answers of the three family tests give.
    pub fn from_family_tests(is_gnu: bool, is_clang: bool, is_msvc: bool) -> (r: Result<
        CompilerFamily,
        CompilerError,
    >)
        ensures
            r == spec_family_of(is_gnu, is_clang, is_msvc),
    {
        if is_gnu {
            return Ok(CompilerFamily::Gnu);
        }
        if is_clang {
            return Ok(CompilerFamily::Clang);
        }
        if is_msvc {
            return Ok(CompilerFamily::Msvc);
        }
        Err(CompilerError::UnknownFamily)
    }

    /// The family of `tool`, as `cc` reports it.
    pub fn try_from_tool(tool: &cc::Tool) -> (r: Result<CompilerFamily, CompilerError>)
        ensures
            r == spec_tool_family(*tool),
    {
        let is_gnu = tool_is_like_gnu(tool);
        let is_clang = tool_is_like_clang(tool);
        let is_msvc = tool_is_like_msvc(tool);
        let r = Self::from_family_tests(is_gnu, is_clang, is_msvc);
        assert(r == spec_family_of(is_gnu, is_clang, is_msvc));
        r
    }
}

/// The family of `tool`: its answers to the three family tests, in turn.
pub open spec fn spec_tool_family(tool: cc::Tool) -> Result<CompilerFamily, CompilerError> {
    spec_family_of(tool_gnu_of(tool), tool_clang_of(tool), tool_msvc_of(tool))
}

/// The name of the environment variable that holds the directory of outputs.
pub open spec fn spec_out_dir_var() -> Seq<char> {
    "OUT_DIR"@
}

/// A compiler, its family and the directory where its outputs go.
#[non_exhaustive]
pub struct Compiler {
    pub tool: cc::Tool,
    pub family: CompilerFamily,
    pub out_dir: Arc<Utf8PathBuf>,
}

/// What [`Compiler::from_parts`] gives for a family detection result and the
/// value of the variable `OUT_DIR`: the family's error first, then the
/// variable's.
pub open spec fn spec_from_parts(
    tool: cc::Tool,
    family: Result<CompilerFamily, CompilerError>,
    out_dir: Result<Seq<char>, EnvVarError>,
    r: Result<Compiler, CompilerError>,
) -> bool {
    match family {
        Err(e) => r == Err::<Compiler, CompilerError>(e),
        Ok(f) => match out_dir {
            Err(e) => r matches Err(CompilerError::VarError { var, err }) && var@ == spec_out_dir_var()
                && err == e,
            Ok(dir) => r matches Ok(c) && c.tool == tool && c.family == f && c.out_dir@ == dir,
        },
    }
}

/// The view of a result that holds a string.
pub open spec fn spec_out_dir_view(out_dir: Result<String, EnvVarError>) -> Result<
    Seq<char>,
    EnvVarError,
> {
    match out_dir {
        Ok(s) => Ok(s@),
        Err(e) => Err(e),
    }
}

impl Compiler {
    /// Sets up the compiler `tool`, whose outputs go to the directory that the
    /// environment variable `OUT_DIR` names (`out_dir` is what reading it gave).
    pub fn new(tool: cc::Tool, out_dir: Result<String, EnvVarError>) -> (r: Result<Self, CompilerError>)
        ensures
            spec_from_parts(tool, spec_tool_family(tool), spec_out_dir_view(out_dir), r),
    {
        let family = CompilerFamily::try_from_tool(&tool);
        let ghost fam = family;
        let r = Self::from_parts(tool, family, out_dir);
        assert(spec_from_parts(tool, fam, spec_out_dir_view(out_dir), r));
        r
    }

    /// Sets up the compiler `tool` from the result of its family detection and
    /// of reading the variable `OUT_DIR`.
    pub fn from_parts(
        tool: cc::Tool,
        family: Result<CompilerFamily, CompilerError>,
        out_dir: Result<String, EnvVarError>,
    ) -> (r: Result<Self, CompilerError>)
        ensures
            spec_from_parts(tool, family, spec_out_dir_view(out_dir), r),
    {
        let family = match family {
            Ok(f) => f,
            Err(e) => return Err(e),
        };
        let out_dir = match out_dir {
            Ok(dir) => dir,
            Err(err) => {
                let var = "OUT_DIR".to_owned();
                return Err(CompilerError::VarError { var, err });
            },
        };
        Ok(Compiler { tool, family, out_dir: Arc::new(out_dir) })
    }

    /// The extension of the dependency files that the compiler writes.
    pub fn dep_file_ext(&self) -> (ext: &str)
        requires
            self.family != CompilerFamily::Msvc,
        ensures
            ext@ == "ddi"@,
    {
        "ddi"
    }

    /// The extension of the object files that the compiler writes.
    pub fn obj_file_ext(&self) -> (ext: &str)
        requires
            self.family != CompilerFamily::Msvc,
        ensures
            ext@ == "o"@,
    {
        "o"
    }
}

} // verus!
