//! The P1689 revision 5 dependency file format: what a file holds, and the
//! abstract values that the parser specifications speak of.

use std::borrow::Cow;
use vstd::prelude::*;
use crate::stream::Model;
use crate::string::Utf8Path;
use crate::util::{count_escapes, cow_is_owned, spec_count_escapes};
use vstd::utf8::encode_utf8;

/// The values of defaults that a field takes when it is absent.
pub mod defaults;
/// The parsers of the format.
pub mod parsers;
/// Builders of the values of the format.
pub mod builders;

verus! {

/// Verus's view of `monostate::MustBeBool`, a value that stands for the boolean
/// `V` and holds nothing else.
#[verifier::external_type_specification]
#[verifier::external_body]
pub struct ExMustBeBool<const V: bool>(monostate::MustBeBool<V>);

/// The marker of the value `false` (`monostate::MustBeBool::<false>`).
#[verifier::external_body]
pub(crate) fn must_be_false() -> monostate::MustBeBool<false> {
    monostate::MustBeBool::<false>
}

/// The marker of the value `true` (`monostate::MustBeBool::<true>`).
#[verifier::external_body]
pub(crate) fn must_be_true() -> monostate::MustBeBool<true> {
    monostate::MustBeBool::<true>
}

/// A dependency file.
#[derive(Debug)]
pub struct DepFile<'i> {
    pub version: u32,
    pub revision: Option<u32>,
    pub rules: Vec<DepInfo<'i>>,
}

/// Dependency information for a compilation rule.
#[derive(Debug)]
pub struct DepInfo<'i> {
    pub work_directory: Option<Cow<'i, Utf8Path>>,
    /// The primary output for the compilation.
    pub primary_output: Option<Cow<'i, Utf8Path>>,
    /// Other files output by a compiling this source using the same flags.
    pub outputs: Vec<Cow<'i, Utf8Path>>,
    pub provides: Vec<ProvidedModuleDesc<'i>>,
    pub requires: Vec<RequiredModuleDesc<'i>>,
}

/// A module, named uniquely either by its logical name or by its source path.
#[derive(Debug)]
pub enum ModuleDesc<'i> {
    ByLogicalName {
        logical_name: Cow<'i, str>,
        source_path: Option<Cow<'i, Utf8Path>>,
        compiled_module_path: Option<Cow<'i, Utf8Path>>,
        /// Whether the module name is unique on `logical-name` or `source-path`.
        unique_on_source_path: Option<monostate::MustBeBool<false>>,
    },
    BySourcePath {
        logical_name: Cow<'i, str>,
        source_path: Cow<'i, Utf8Path>,
        compiled_module_path: Option<Cow<'i, Utf8Path>>,
        /// Whether the module name is unique on `logical-name` or `source-path`.
        unique_on_source_path: monostate::MustBeBool<true>,
    },
}

/// Borrowed view of the common fields between the unique-by `ModuleDesc` variants.
#[derive(Debug)]
pub struct ModuleDescView<'i> {
    pub key: &'i str,
    pub unique_by: UniqueBy,
    pub logical_name: &'i str,
    pub source_path: Option<&'i Utf8Path>,
    pub compiled_module_path: Option<&'i Utf8Path>,
}

/// Which field names a module uniquely.
#[derive(Clone, Copy, Debug, PartialEq, Eq, Structural)]
pub enum UniqueBy {
    LogicalName,
    SourcePath,
}

/// A module that a rule provides.
#[derive(Debug)]
pub struct ProvidedModuleDesc<'i> {
    pub desc: ModuleDesc<'i>,
    pub is_interface: bool,
}

/// A module that a rule requires.
#[derive(Debug)]
pub struct RequiredModuleDesc<'i> {
    pub desc: ModuleDesc<'i>,
    pub lookup_method: RequiredModuleDescLookupMethod,
}

/// How a required module is looked up.
#[derive(Clone, Copy, Debug, PartialEq, Eq, Structural)]
pub enum RequiredModuleDescLookupMethod {
    ByName,
    IncludeAngle,
    IncludeQuote,
}

impl Default for RequiredModuleDescLookupMethod {
    fn default() -> (m: Self)
        ensures
            m == RequiredModuleDescLookupMethod::ByName,
    {
        RequiredModuleDescLookupMethod::ByName
    }
}

impl RequiredModuleDescLookupMethod {
    /// How the method is written in a dependency file, quotes included.
    pub open spec fn spec_repr(&self) -> Seq<char> {
        match self {
            RequiredModuleDescLookupMethod::ByName => "\"by-name\""@,
            RequiredModuleDescLookupMethod::IncludeAngle => "\"include-angle\""@,
            RequiredModuleDescLookupMethod::IncludeQuote => "\"include-quote\""@,
        }
    }

    /// The method as a dependency file writes it, quotes included.
    pub fn to_string(&self) -> (s: String)
        ensures
            s@ == self.spec_repr(),
    {
        let repr = match self {
            RequiredModuleDescLookupMethod::ByName => "\"by-name\"",
            RequiredModuleDescLookupMethod::IncludeAngle => "\"include-angle\"",
            RequiredModuleDescLookupMethod::IncludeQuote => "\"include-quote\"",
        };
        repr.to_owned()
    }
}

/// The abstract value of a [`DepFile`].
pub struct DepFileModel {
    pub version: u32,
    pub revision: Option<u32>,
    pub rules: Seq<DepInfoModel>,
}

/// The abstract value of a [`DepInfo`]: its paths as text.
pub struct DepInfoModel {
    pub work_directory: Option<Seq<char>>,
    pub primary_output: Option<Seq<char>>,
    pub outputs: Seq<Seq<char>>,
    pub provides: Seq<ProvidedModel>,
    pub requires: Seq<RequiredModel>,
}

/// The abstract value of a [`ModuleDesc`]; of a module named by its logical
/// name, also whether its `unique-on-source-path` field was given.
pub enum ModuleDescModel {
    ByLogicalName {
        logical_name: Seq<char>,
        source_path: Option<Seq<char>>,
        compiled_module_path: Option<Seq<char>>,
        unique_on_source_path: bool,
    },
    BySourcePath {
        logical_name: Seq<char>,
        source_path: Seq<char>,
        compiled_module_path: Option<Seq<char>>,
    },
}

/// The abstract value of a [`ProvidedModuleDesc`].
pub struct ProvidedModel {
    pub desc: ModuleDescModel,
    pub is_interface: bool,
}

/// The abstract value of a [`RequiredModuleDesc`].
pub struct RequiredModel {
    pub desc: ModuleDescModel,
    pub lookup_method: RequiredModuleDescLookupMethod,
}

impl<'i> Model for DepFile<'i> {
    type M = DepFileModel;

    open spec fn model(&self) -> DepFileModel {
        DepFileModel { version: self.version, revision: self.revision, rules: self.rules.model() }
    }

    open spec fn borrowed(&self) -> bool {
        self.rules.borrowed()
    }

    open spec fn from_literals(&self, s: Seq<u8>) -> bool {
        self.rules.from_literals(s)
    }
}

impl<'i> Model for DepInfo<'i> {
    type M = DepInfoModel;

    open spec fn model(&self) -> DepInfoModel {
        DepInfoModel {
            work_directory: self.work_directory.model(),
            primary_output: self.primary_output.model(),
            outputs: self.outputs.model(),
            provides: self.provides.model(),
            requires: self.requires.model(),
        }
    }

    open spec fn borrowed(&self) -> bool {
        &&& self.work_directory.borrowed()
        &&& self.primary_output.borrowed()
        &&& self.outputs.borrowed()
        &&& self.provides.borrowed()
        &&& self.requires.borrowed()
    }

    open spec fn from_literals(&self, s: Seq<u8>) -> bool {
        &&& self.work_directory.from_literals(s)
        &&& self.primary_output.from_literals(s)
        &&& self.outputs.from_literals(s)
        &&& self.provides.from_literals(s)
        &&& self.requires.from_literals(s)
    }
}

impl<'i> Model for ModuleDesc<'i> {
    type M = ModuleDescModel;

    open spec fn model(&self) -> ModuleDescModel {
        match self {
            ModuleDesc::ByLogicalName { logical_name, source_path, compiled_module_path, unique_on_source_path } => {
                ModuleDescModel::ByLogicalName {
                    logical_name: logical_name@,
                    source_path: source_path.model(),
                    compiled_module_path: compiled_module_path.model(),
                    unique_on_source_path: unique_on_source_path is Some,
                }
            },
            ModuleDesc::BySourcePath { logical_name, source_path, compiled_module_path, .. } => {
                ModuleDescModel::BySourcePath {
                    logical_name: logical_name@,
                    source_path: source_path@,
                    compiled_module_path: compiled_module_path.model(),
                }
            },
        }
    }

    open spec fn borrowed(&self) -> bool {
        match self {
            ModuleDesc::ByLogicalName { logical_name, source_path, compiled_module_path, .. } => {
                &&& logical_name.borrowed()
                &&& source_path.borrowed()
                &&& compiled_module_path.borrowed()
            },
            ModuleDesc::BySourcePath { logical_name, source_path, compiled_module_path, .. } => {
                &&& logical_name.borrowed()
                &&& source_path.borrowed()
                &&& compiled_module_path.borrowed()
            },
        }
    }

    open spec fn from_literals(&self, s: Seq<u8>) -> bool {
        match self {
            ModuleDesc::ByLogicalName { logical_name, source_path, compiled_module_path, .. } => {
                &&& logical_name.from_literals(s)
                &&& source_path.from_literals(s)
                &&& compiled_module_path.from_literals(s)
            },
            ModuleDesc::BySourcePath { logical_name, source_path, compiled_module_path, .. } => {
                &&& logical_name.from_literals(s)
                &&& source_path.from_literals(s)
                &&& compiled_module_path.from_literals(s)
            },
        }
    }
}

impl<'i> Model for ProvidedModuleDesc<'i> {
    type M = ProvidedModel;

    open spec fn model(&self) -> ProvidedModel {
        ProvidedModel { desc: self.desc.model(), is_interface: self.is_interface }
    }

    open spec fn borrowed(&self) -> bool {
        self.desc.borrowed()
    }

    open spec fn from_literals(&self, s: Seq<u8>) -> bool {
        self.desc.from_literals(s)
    }
}

impl<'i> Model for RequiredModuleDesc<'i> {
    type M = RequiredModel;

    open spec fn model(&self) -> RequiredModel {
        RequiredModel { desc: self.desc.model(), lookup_method: self.lookup_method }
    }

    open spec fn borrowed(&self) -> bool {
        self.desc.borrowed()
    }

    open spec fn from_literals(&self, s: Seq<u8>) -> bool {
        self.desc.from_literals(s)
    }
}

impl Model for RequiredModuleDescLookupMethod {
    type M = RequiredModuleDescLookupMethod;

    open spec fn model(&self) -> RequiredModuleDescLookupMethod {
        *self
    }

    open spec fn borrowed(&self) -> bool {
        true
    }

    open spec fn from_literals(&self, s: Seq<u8>) -> bool {
        true
    }
}

impl ModuleDescModel {
    /// The logical name, which both kinds of module have.
    pub open spec fn logical_name(self) -> Seq<char> {
        match self {
            ModuleDescModel::ByLogicalName { logical_name, .. } => logical_name,
            ModuleDescModel::BySourcePath { logical_name, .. } => logical_name,
        }
    }

    /// The name that identifies the module: its logical name, or its source path
    /// when it is unique on that.
    pub open spec fn key(self) -> Seq<char> {
        match self {
            ModuleDescModel::ByLogicalName { logical_name, .. } => logical_name,
            ModuleDescModel::BySourcePath { source_path, .. } => source_path,
        }
    }
}

/// A copy of `cow` that borrows where it borrows.
pub fn clone_cow_str<'i>(cow: &Cow<'i, str>) -> (c: Cow<'i, str>)
    ensures
        c@ == cow@,
        (c is Owned) == (cow is Owned),
{
    match cow {
        Cow::Borrowed(s) => Cow::Borrowed(s),
        Cow::Owned(s) => Cow::Owned(s.clone()),
    }
}

/// The text of `cow`.
pub fn cow_as_str<'a, 'i>(cow: &'a Cow<'i, str>) -> (s: &'a str)
    ensures
        s@ == cow@,
{
    match cow {
        Cow::Borrowed(s) => s,
        Cow::Owned(s) => s.as_str(),
    }
}

/// The text of `cow`, if there is one.
pub fn option_cow_as_str<'a, 'i>(cow: &'a Option<Cow<'i, str>>) -> (s: Option<&'a str>)
    ensures
        s.model() == cow.model(),
{
    match cow {
        Some(c) => Some(cow_as_str(c)),
        None => None,
    }
}

impl<'i> ModuleDesc<'i> {
    /// The logical name of the module.
    pub fn logical_name(&self) -> (name: Cow<'i, str>)
        ensures
            name@ == self.model().logical_name(),
    {
        match self {
            ModuleDesc::BySourcePath { logical_name, .. } => clone_cow_str(logical_name),
            ModuleDesc::ByLogicalName { logical_name, .. } => clone_cow_str(logical_name),
        }
    }

    /// A borrowed view of the fields that both kinds of module have, and of the
    /// name that identifies the module.
    pub fn view(&self) -> (v: ModuleDescView)
        ensures
            v.key@ == self.model().key(),
            v.logical_name@ == self.model().logical_name(),
            v.unique_by == (if self is BySourcePath { UniqueBy::SourcePath } else { UniqueBy::LogicalName }),
            match self.model() {
                ModuleDescModel::ByLogicalName { source_path, compiled_module_path, .. } => {
                    &&& v.source_path.model() == source_path
                    &&& v.compiled_module_path.model() == compiled_module_path
                },
                ModuleDescModel::BySourcePath { source_path, compiled_module_path, .. } => {
                    &&& v.source_path.model() == Some(source_path)
                    &&& v.compiled_module_path.model() == compiled_module_path
                },
            },
    {
        match self {
            ModuleDesc::ByLogicalName { logical_name, source_path, compiled_module_path, .. } => ModuleDescView {
                key: cow_as_str(logical_name),
                unique_by: UniqueBy::LogicalName,
                source_path: option_cow_as_str(source_path),
                compiled_module_path: option_cow_as_str(compiled_module_path),
                logical_name: cow_as_str(logical_name),
            },
            ModuleDesc::BySourcePath { logical_name, source_path, compiled_module_path, .. } => ModuleDescView {
                key: cow_as_str(source_path),
                unique_by: UniqueBy::SourcePath,
                source_path: Some(cow_as_str(source_path)),
                compiled_module_path: option_cow_as_str(compiled_module_path),
                logical_name: cow_as_str(logical_name),
            },
        }
    }
}

/// 1 when `c` holds a copy of its text rather than borrowing it.
pub open spec fn copied(c: Cow<str>) -> nat {
    if c is Owned {
        1
    } else {
        0
    }
}

/// 1 when `c` is a copy.
pub open spec fn copied_opt(c: Option<Cow<str>>) -> nat {
    match c {
        Some(c) => copied(c),
        None => 0,
    }
}

/// The escapes that [`count_escapes`](crate::util::count_escapes) counts in the
/// text of `c`.
pub open spec fn escapes(c: Cow<str>) -> nat {
    spec_count_escapes(encode_utf8(c@))
}

/// The escapes in the text of `c`, if there is one.
pub open spec fn escapes_opt(c: Option<Cow<str>>) -> nat {
    match c {
        Some(c) => escapes(c),
        None => 0,
    }
}

/// The sum of `f` over `s`.
pub open spec fn sum_of<A>(s: Seq<A>, f: spec_fn(A) -> nat) -> nat
    decreases s.len(),
{
    if s.len() == 0 {
        0
    } else {
        sum_of(s.drop_last(), f) + f(s.last())
    }
}

/// A sum of zeros is zero.
proof fn lemma_sum_of_zero<A>(s: Seq<A>, f: spec_fn(A) -> nat)
    requires
        forall|i: int| 0 <= i < s.len() ==> f(#[trigger] s[i]) == 0,
    ensures
        sum_of(s, f) == 0,
    decreases s.len(),
{
    if s.len() > 0 {
        assert forall|i: int| 0 <= i < s.drop_last().len() implies f(#[trigger] s.drop_last()[i]) == 0 by {
            assert(s.drop_last()[i] == s[i]);
        }
        lemma_sum_of_zero(s.drop_last(), f);
        assert(f(s[s.len() - 1]) == 0);
    }
}

/// A dependency file whose texts all borrow from its input holds no copies.
pub proof fn lemma_borrowed_file_has_no_copies<'i>(f: DepFile<'i>)
    requires
        f.borrowed(),
    ensures
        f.spec_copies() == 0,
{
    assert forall|i: int| 0 <= i < f.rules@.len() implies (|r: DepInfo<'i>| r.spec_copies())(#[trigger] f.rules@[i]) == 0 by {
        let r = f.rules@[i];
        assert(r.borrowed());
        assert forall|j: int| 0 <= j < r.outputs@.len() implies (|c: Cow<'i, Utf8Path>| copied(c))(#[trigger] r.outputs@[j]) == 0 by {
            assert(r.outputs@[j].borrowed());
        }
        lemma_sum_of_zero(r.outputs@, |c: Cow<'i, Utf8Path>| copied(c));
        assert forall|j: int| 0 <= j < r.provides@.len() implies (|p: ProvidedModuleDesc<'i>| p.desc.spec_copies())(#[trigger] r.provides@[j]) == 0 by {
            assert(r.provides@[j].borrowed());
        }
        lemma_sum_of_zero(r.provides@, |p: ProvidedModuleDesc<'i>| p.desc.spec_copies());
        assert forall|j: int| 0 <= j < r.requires@.len() implies (|q: RequiredModuleDesc<'i>| q.desc.spec_copies())(#[trigger] r.requires@[j]) == 0 by {
            assert(r.requires@[j].borrowed());
        }
        lemma_sum_of_zero(r.requires@, |q: RequiredModuleDesc<'i>| q.desc.spec_copies());
    }
    lemma_sum_of_zero(f.rules@, |r: DepInfo<'i>| r.spec_copies());
}

/// The sum over a prefix grows by the next element, and stays within the sum
/// over the whole.
pub proof fn lemma_sum_of_prefix<A>(s: Seq<A>, f: spec_fn(A) -> nat, i: int)
    requires
        0 <= i < s.len(),
    ensures
        sum_of(s.subrange(0, i + 1), f) == sum_of(s.subrange(0, i), f) + f(s[i]),
        sum_of(s.subrange(0, i + 1), f) <= sum_of(s, f),
    decreases s.len() - i,
{
    assert(s.subrange(0, i + 1).drop_last() =~= s.subrange(0, i));
    if i + 1 < s.len() {
        lemma_sum_of_prefix(s, f, i + 1);
    } else {
        assert(s.subrange(0, i + 1) =~= s);
    }
}

impl<'i> ModuleDesc<'i> {
    /// How many of the module's texts are copies.
    pub open spec fn spec_copies(&self) -> nat {
        match self {
            ModuleDesc::ByLogicalName { logical_name, source_path, compiled_module_path, .. } => copied(*logical_name)
                + copied_opt(*source_path) + copied_opt(*compiled_module_path),
            ModuleDesc::BySourcePath { logical_name, source_path, compiled_module_path, .. } => copied(*logical_name)
                + copied(*source_path) + copied_opt(*compiled_module_path),
        }
    }

    /// How many escapes the module's texts hold.
    pub open spec fn spec_escapes(&self) -> nat {
        match self {
            ModuleDesc::ByLogicalName { logical_name, source_path, compiled_module_path, .. } => escapes(*logical_name)
                + escapes_opt(*source_path) + escapes_opt(*compiled_module_path),
            ModuleDesc::BySourcePath { logical_name, source_path, compiled_module_path, .. } => escapes(*logical_name)
                + escapes(*source_path) + escapes_opt(*compiled_module_path),
        }
    }

    /// Counts the module's texts that are copies.
    pub fn count_copies(&self) -> (n: u64)
        ensures
            n == self.spec_copies(),
    {
        match self {
            ModuleDesc::ByLogicalName { logical_name, source_path, compiled_module_path, .. } => {
                count_copy(logical_name) + count_copy_opt(source_path) + count_copy_opt(compiled_module_path)
            },
            ModuleDesc::BySourcePath { logical_name, source_path, compiled_module_path, .. } => {
                count_copy(logical_name) + count_copy(source_path) + count_copy_opt(compiled_module_path)
            },
        }
    }

    /// Counts the escapes that the module's texts hold.
    pub fn count_escapes(&self) -> (n: u64)
        requires
            self.spec_escapes() <= u64::MAX,
        ensures
            n == self.spec_escapes(),
    {
        match self {
            ModuleDesc::ByLogicalName { logical_name, source_path, compiled_module_path, .. } => {
                count_escapes_cow(logical_name) + count_escapes_opt(source_path) + count_escapes_opt(compiled_module_path)
            },
            ModuleDesc::BySourcePath { logical_name, source_path, compiled_module_path, .. } => {
                count_escapes_cow(logical_name) + count_escapes_cow(source_path) + count_escapes_opt(compiled_module_path)
            },
        }
    }
}

/// 1 when `c` is a copy.
fn count_copy(c: &Cow<str>) -> (n: u64)
    ensures
        n == copied(*c),
{
    if cow_is_owned(c) {
        1
    } else {
        0
    }
}

/// 1 when `c` is a copy.
fn count_copy_opt(c: &Option<Cow<str>>) -> (n: u64)
    ensures
        n == copied_opt(*c),
{
    match c {
        Some(c) => count_copy(c),
        None => 0,
    }
}

/// The escapes in the text of `c`.
fn count_escapes_cow(c: &Cow<str>) -> (n: u64)
    ensures
        n == escapes(*c),
{
    let s = cow_as_str(c);
    count_escapes(s)
}

/// The escapes in the text of `c`, if there is one.
fn count_escapes_opt(c: &Option<Cow<str>>) -> (n: u64)
    ensures
        n == escapes_opt(*c),
{
    match c {
        Some(c) => count_escapes_cow(c),
        None => 0,
    }
}

impl<'i> DepInfo<'i> {
    /// How many of the rule's texts are copies.
    pub open spec fn spec_copies(&self) -> nat {
        copied_opt(self.work_directory) + copied_opt(self.primary_output)
            + sum_of(self.outputs@, |c: Cow<'i, Utf8Path>| copied(c))
            + sum_of(self.provides@, |p: ProvidedModuleDesc<'i>| p.desc.spec_copies())
            + sum_of(self.requires@, |r: RequiredModuleDesc<'i>| r.desc.spec_copies())
    }

    /// How many escapes the rule's texts hold.
    pub open spec fn spec_escapes(&self) -> nat {
        escapes_opt(self.work_directory) + escapes_opt(self.primary_output)
            + sum_of(self.outputs@, |c: Cow<'i, Utf8Path>| escapes(c))
            + sum_of(self.provides@, |p: ProvidedModuleDesc<'i>| p.desc.spec_escapes())
            + sum_of(self.requires@, |r: RequiredModuleDesc<'i>| r.desc.spec_escapes())
    }

    /// Counts the rule's texts that are copies.
    pub fn count_copies(&self) -> (n: u64)
        requires
            self.spec_copies() <= u64::MAX,
        ensures
            n == self.spec_copies(),
    {
        let mut n: u64 = count_copy_opt(&self.work_directory) + count_copy_opt(&self.primary_output);
        let ghost base = n as nat;
        let ghost f = |c: Cow<'i, Utf8Path>| copied(c);
        let mut i: usize = 0;
        while i < self.outputs.len()
            invariant
                i <= self.outputs@.len(),
                f == (|c: Cow<'i, Utf8Path>| copied(c)),
                n == base + sum_of(self.outputs@.subrange(0, i as int), f),
                base + sum_of(self.outputs@, f) <= self.spec_copies(),
                self.spec_copies() <= u64::MAX,
            decreases self.outputs@.len() - i,
        {
            proof {
                lemma_sum_of_prefix(self.outputs@, f, i as int);
            }
            n = n + count_copy(&self.outputs[i]);
            i = i + 1;
        }
        assert(self.outputs@.subrange(0, i as int) =~= self.outputs@);
        let ghost base = n as nat;
        let ghost f = |p: ProvidedModuleDesc<'i>| p.desc.spec_copies();
        let mut i: usize = 0;
        while i < self.provides.len()
            invariant
                i <= self.provides@.len(),
                f == (|p: ProvidedModuleDesc<'i>| p.desc.spec_copies()),
                n == base + sum_of(self.provides@.subrange(0, i as int), f),
                base + sum_of(self.provides@, f) <= self.spec_copies(),
                self.spec_copies() <= u64::MAX,
            decreases self.provides@.len() - i,
        {
            proof {
                lemma_sum_of_prefix(self.provides@, f, i as int);
            }
            n = n + self.provides[i].desc.count_copies();
            i = i + 1;
        }
        assert(self.provides@.subrange(0, i as int) =~= self.provides@);
        let ghost base = n as nat;
        let ghost f = |r: RequiredModuleDesc<'i>| r.desc.spec_copies();
        let mut i: usize = 0;
        while i < self.requires.len()
            invariant
                i <= self.requires@.len(),
                f == (|r: RequiredModuleDesc<'i>| r.desc.spec_copies()),
                n == base + sum_of(self.requires@.subrange(0, i as int), f),
                base + sum_of(self.requires@, f) == self.spec_copies(),
                self.spec_copies() <= u64::MAX,
            decreases self.requires@.len() - i,
        {
            proof {
                lemma_sum_of_prefix(self.requires@, f, i as int);
            }
            n = n + self.requires[i].desc.count_copies();
            i = i + 1;
        }
        assert(self.requires@.subrange(0, i as int) =~= self.requires@);
        n
    }

    /// Counts the escapes that the rule's texts hold.
    pub fn count_escapes(&self) -> (n: u64)
        requires
            self.spec_escapes() <= u64::MAX,
        ensures
            n == self.spec_escapes(),
    {
        let mut n: u64 = count_escapes_opt(&self.work_directory) + count_escapes_opt(&self.primary_output);
        let ghost base = n as nat;
        let ghost f = |c: Cow<'i, Utf8Path>| escapes(c);
        let mut i: usize = 0;
        while i < self.outputs.len()
            invariant
                i <= self.outputs@.len(),
                f == (|c: Cow<'i, Utf8Path>| escapes(c)),
                n == base + sum_of(self.outputs@.subrange(0, i as int), f),
                base + sum_of(self.outputs@, f) <= self.spec_escapes(),
                self.spec_escapes() <= u64::MAX,
            decreases self.outputs@.len() - i,
        {
            proof {
                lemma_sum_of_prefix(self.outputs@, f, i as int);
            }
            n = n + count_escapes_cow(&self.outputs[i]);
            i = i + 1;
        }
        assert(self.outputs@.subrange(0, i as int) =~= self.outputs@);
        let ghost base = n as nat;
        let ghost f = |p: ProvidedModuleDesc<'i>| p.desc.spec_escapes();
        let mut i: usize = 0;
        while i < self.provides.len()
            invariant
                i <= self.provides@.len(),
                f == (|p: ProvidedModuleDesc<'i>| p.desc.spec_escapes()),
                n == base + sum_of(self.provides@.subrange(0, i as int), f),
                base + sum_of(self.provides@, f) <= self.spec_escapes(),
                self.spec_escapes() <= u64::MAX,
            decreases self.provides@.len() - i,
        {
            proof {
                lemma_sum_of_prefix(self.provides@, f, i as int);
            }
            assert(self.provides@[i as int].desc.spec_escapes() <= u64::MAX);
            n = n + self.provides[i].desc.count_escapes();
            i = i + 1;
        }
        assert(self.provides@.subrange(0, i as int) =~= self.provides@);
        let ghost base = n as nat;
        let ghost f = |r: RequiredModuleDesc<'i>| r.desc.spec_escapes();
        let mut i: usize = 0;
        while i < self.requires.len()
            invariant
                i <= self.requires@.len(),
                f == (|r: RequiredModuleDesc<'i>| r.desc.spec_escapes()),
                n == base + sum_of(self.requires@.subrange(0, i as int), f),
                base + sum_of(self.requires@, f) == self.spec_escapes(),
                self.spec_escapes() <= u64::MAX,
            decreases self.requires@.len() - i,
        {
            proof {
                lemma_sum_of_prefix(self.requires@, f, i as int);
            }
            assert(self.requires@[i as int].desc.spec_escapes() <= u64::MAX);
            n = n + self.requires[i].desc.count_escapes();
            i = i + 1;
        }
        assert(self.requires@.subrange(0, i as int) =~= self.requires@);
        n
    }
}

impl<'i> DepFile<'i> {
    /// How many of the texts of the rules are copies.
    pub open spec fn spec_copies(&self) -> nat {
        sum_of(self.rules@, |r: DepInfo<'i>| r.spec_copies())
    }

    /// How many escapes the texts of the rules hold.
    pub open spec fn spec_escapes(&self) -> nat {
        sum_of(self.rules@, |r: DepInfo<'i>| r.spec_escapes())
    }

    /// Counts the texts of the rules that are copies.
    pub fn count_copies(&self) -> (n: u64)
        requires
            self.spec_copies() <= u64::MAX,
        ensures
            n == self.spec_copies(),
    {
        let ghost f = |r: DepInfo<'i>| r.spec_copies();
        let mut n: u64 = 0;
        let mut i: usize = 0;
        while i < self.rules.len()
            invariant
                i <= self.rules@.len(),
                f == (|r: DepInfo<'i>| r.spec_copies()),
                n == sum_of(self.rules@.subrange(0, i as int), f),
                sum_of(self.rules@, f) <= u64::MAX,
            decreases self.rules@.len() - i,
        {
            proof {
                lemma_sum_of_prefix(self.rules@, f, i as int);
            }
            assert(self.rules@[i as int].spec_copies() <= u64::MAX);
            n = n + self.rules[i].count_copies();
            i = i + 1;
        }
        assert(self.rules@.subrange(0, i as int) =~= self.rules@);
        n
    }

    /// Counts the escapes that the texts of the rules hold.
    pub fn count_escapes_total(&self) -> (n: u64)
        requires
            self.spec_escapes() <= u64::MAX,
        ensures
            n == self.spec_escapes(),
    {
        let ghost f = |r: DepInfo<'i>| r.spec_escapes();
        let mut n: u64 = 0;
        let mut i: usize = 0;
        while i < self.rules.len()
            invariant
                i <= self.rules@.len(),
                f == (|r: DepInfo<'i>| r.spec_escapes()),
                n == sum_of(self.rules@.subrange(0, i as int), f),
                sum_of(self.rules@, f) <= u64::MAX,
            decreases self.rules@.len() - i,
        {
            proof {
                lemma_sum_of_prefix(self.rules@, f, i as int);
            }
            assert(self.rules@[i as int].spec_escapes() <= u64::MAX);
            n = n + self.rules[i].count_escapes();
            i = i + 1;
        }
        assert(self.rules@.subrange(0, i as int) =~= self.rules@);
        n
    }
}

} // verus!
