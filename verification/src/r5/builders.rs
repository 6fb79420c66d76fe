//! Builders of the values of the format, with the defaults of absent fields.

use std::borrow::Cow;
use vstd::prelude::*;
use crate::r5::{self, must_be_false, must_be_true, RequiredModuleDescLookupMethod};
use crate::string::Utf8Path;

verus! {

/// Builds a [`r5::DepFile`]; the version defaults to 1 and the rules to none.
pub struct DepFile<'a> {
    version: Option<u32>,
    revision: Option<u32>,
    rules: Option<Vec<r5::DepInfo<'a>>>,
}

impl<'a> DepFile<'a> {
    /// The version set so far.
    pub closed spec fn spec_version(&self) -> Option<u32> {
        self.version
    }

    /// The revision set so far.
    pub closed spec fn spec_revision(&self) -> Option<u32> {
        self.revision
    }

    /// The rules set so far.
    pub closed spec fn spec_rules(&self) -> Option<Vec<r5::DepInfo<'a>>> {
        self.rules
    }

    /// A builder with nothing set.
    pub fn new() -> (b: Self)
        ensures
            b.spec_version() is None,
            b.spec_revision() is None,
            b.spec_rules() is None,
    {
        DepFile { version: None, revision: None, rules: None }
    }

    /// The dependency file.
    pub fn build(self) -> (d: r5::DepFile<'a>)
        ensures
            d.version == match self.spec_version() {
                Some(v) => v,
                None => 1,
            },
            d.revision == self.spec_revision(),
            d.rules@ == match self.spec_rules() {
                Some(r) => r@,
                None => Seq::empty(),
            },
    {
        let version = match self.version {
            Some(v) => v,
            None => 1,
        };
        let rules = match self.rules {
            Some(r) => r,
            None => Vec::new(),
        };
        r5::DepFile { version, revision: self.revision, rules }
    }

    /// Sets the version.
    pub fn version(self, version: u32) -> (b: Self)
        ensures
            b.spec_version() == Some(version),
            b.spec_revision() == self.spec_revision(),
            b.spec_rules() == self.spec_rules(),
    {
        let mut b = self;
        b.version = Some(version);
        b
    }

    /// Sets the revision.
    pub fn revision(self, revision: u32) -> (b: Self)
        ensures
            b.spec_version() == self.spec_version(),
            b.spec_revision() == Some(revision),
            b.spec_rules() == self.spec_rules(),
    {
        let mut b = self;
        b.revision = Some(revision);
        b
    }

    /// Sets the rules.
    pub fn rules(self, rules: Vec<r5::DepInfo<'a>>) -> (b: Self)
        ensures
            b.spec_version() == self.spec_version(),
            b.spec_revision() == self.spec_revision(),
            b.spec_rules() == Some(rules),
    {
        let mut b = self;
        b.rules = Some(rules);
        b
    }
}

impl<'a> Default for DepFile<'a> {
    fn default() -> (b: Self)
        ensures
            b.spec_version() is None,
            b.spec_revision() is None,
            b.spec_rules() is None,
    {
        DepFile::new()
    }
}

/// Builds a [`r5::DepInfo`]; absent lists default to empty ones.
pub struct DepInfo<'a> {
    work_directory: Option<Cow<'a, Utf8Path>>,
    primary_output: Option<Cow<'a, Utf8Path>>,
    outputs: Option<Vec<Cow<'a, Utf8Path>>>,
    provides: Option<Vec<r5::ProvidedModuleDesc<'a>>>,
    requires: Option<Vec<r5::RequiredModuleDesc<'a>>>,
}

impl<'a> DepInfo<'a> {
    /// The work directory set so far.
    pub closed spec fn spec_work_directory(&self) -> Option<Cow<'a, Utf8Path>> {
        self.work_directory
    }

    /// The primary output set so far.
    pub closed spec fn spec_primary_output(&self) -> Option<Cow<'a, Utf8Path>> {
        self.primary_output
    }

    /// The outputs set so far.
    pub closed spec fn spec_outputs(&self) -> Option<Vec<Cow<'a, Utf8Path>>> {
        self.outputs
    }

    /// The provided modules set so far.
    pub closed spec fn spec_provides(&self) -> Option<Vec<r5::ProvidedModuleDesc<'a>>> {
        self.provides
    }

    /// The required modules set so far.
    pub closed spec fn spec_requires(&self) -> Option<Vec<r5::RequiredModuleDesc<'a>>> {
        self.requires
    }

    /// A builder with nothing set.
    pub fn new() -> (b: Self)
        ensures
            b.spec_work_directory() is None,
            b.spec_primary_output() is None,
            b.spec_outputs() is None,
            b.spec_provides() is None,
            b.spec_requires() is None,
    {
        DepInfo { work_directory: None, primary_output: None, outputs: None, provides: None, requires: None }
    }

    /// The rule.
    pub fn build(self) -> (d: r5::DepInfo<'a>)
        ensures
            d.work_directory == self.spec_work_directory(),
            d.primary_output == self.spec_primary_output(),
            d.outputs@ == match self.spec_outputs() {
                Some(v) => v@,
                None => Seq::empty(),
            },
            d.provides@ == match self.spec_provides() {
                Some(v) => v@,
                None => Seq::empty(),
            },
            d.requires@ == match self.spec_requires() {
                Some(v) => v@,
                None => Seq::empty(),
            },
    {
        let outputs = match self.outputs {
            Some(v) => v,
            None => Vec::new(),
        };
        let provides = match self.provides {
            Some(v) => v,
            None => Vec::new(),
        };
        let required = match self.requires {
            Some(v) => v,
            None => Vec::new(),
        };
        r5::DepInfo {
            work_directory: self.work_directory,
            primary_output: self.primary_output,
            outputs,
            provides,
            requires: required,
        }
    }

    /// Sets the work directory.
    pub fn work_directory(self, work_directory: Cow<'a, Utf8Path>) -> (b: Self)
        ensures
            b.spec_work_directory() == Some(work_directory),
            b.spec_primary_output() == self.spec_primary_output(),
            b.spec_outputs() == self.spec_outputs(),
            b.spec_provides() == self.spec_provides(),
            b.spec_requires() == self.spec_requires(),
    {
        let mut b = self;
        b.work_directory = Some(work_directory);
        b
    }

    /// Sets the primary output; this builder records it as the work directory.
    pub fn primary_output(self, primary_output: Cow<'a, Utf8Path>) -> (b: Self)
        ensures
            b.spec_work_directory() == Some(primary_output),
            b.spec_primary_output() == self.spec_primary_output(),
            b.spec_outputs() == self.spec_outputs(),
            b.spec_provides() == self.spec_provides(),
            b.spec_requires() == self.spec_requires(),
    {
        let mut b = self;
        b.work_directory = Some(primary_output);
        b
    }

    /// Sets the outputs.
    pub fn outputs(self, outputs: Vec<Cow<'a, Utf8Path>>) -> (b: Self)
        ensures
            b.spec_work_directory() == self.spec_work_directory(),
            b.spec_primary_output() == self.spec_primary_output(),
            b.spec_outputs() == Some(outputs),
            b.spec_provides() == self.spec_provides(),
            b.spec_requires() == self.spec_requires(),
    {
        let mut b = self;
        b.outputs = Some(outputs);
        b
    }

    /// Sets the provided modules.
    pub fn provides(self, provides: Vec<r5::ProvidedModuleDesc<'a>>) -> (b: Self)
        ensures
            b.spec_work_directory() == self.spec_work_directory(),
            b.spec_primary_output() == self.spec_primary_output(),
            b.spec_outputs() == self.spec_outputs(),
            b.spec_provides() == Some(provides),
            b.spec_requires() == self.spec_requires(),
    {
        let mut b = self;
        b.provides = Some(provides);
        b
    }

    /// Sets the required modules.
    pub fn requires_modules(self, required: Vec<r5::RequiredModuleDesc<'a>>) -> (b: Self)
        ensures
            b.spec_work_directory() == self.spec_work_directory(),
            b.spec_primary_output() == self.spec_primary_output(),
            b.spec_outputs() == self.spec_outputs(),
            b.spec_provides() == self.spec_provides(),
            b.spec_requires() == Some(required),
    {
        let mut b = self;
        b.requires = Some(required);
        b
    }
}

impl<'a> Default for DepInfo<'a> {
    fn default() -> (b: Self)
        ensures
            b.spec_work_directory() is None,
            b.spec_primary_output() is None,
            b.spec_outputs() is None,
            b.spec_provides() is None,
            b.spec_requires() is None,
    {
        DepInfo::new()
    }
}

/// What names a module uniquely: its logical name, with an optional source
/// path, or its source path.
pub enum UniqueBy<'a> {
    LogicalName { source_path: Option<Cow<'a, Utf8Path>> },
    SourcePath { source_path: Cow<'a, Utf8Path> },
}

/// The fields that both kinds of module have.
struct ModuleDesc<'a> {
    unique_by: UniqueBy<'a>,
    logical_name: Cow<'a, str>,
    compiled_module_path: Option<Cow<'a, Utf8Path>>,
}

/// The module of the fields `unique_by`, `logical_name` and
/// `compiled_module_path`; one named by its logical name says so in its
/// `unique-on-source-path` field.
pub open spec fn spec_module(
    unique_by: UniqueBy,
    logical_name: Cow<str>,
    compiled_module_path: Option<Cow<Utf8Path>>,
    d: r5::ModuleDesc,
) -> bool {
    match unique_by {
        UniqueBy::LogicalName { source_path } => d matches r5::ModuleDesc::ByLogicalName {
            logical_name: l,
            source_path: s,
            compiled_module_path: c,
            unique_on_source_path: u,
        } && l == logical_name && s == source_path && c == compiled_module_path && u is Some,
        UniqueBy::SourcePath { source_path } => d matches r5::ModuleDesc::BySourcePath {
            logical_name: l,
            source_path: s,
            compiled_module_path: c,
            ..
        } && l == logical_name && s == source_path && c == compiled_module_path,
    }
}

impl<'a> ModuleDesc<'a> {
    fn build(self) -> (d: r5::ModuleDesc<'a>)
        ensures
            spec_module(self.unique_by, self.logical_name, self.compiled_module_path, d),
    {
        match self.unique_by {
            UniqueBy::LogicalName { source_path } => r5::ModuleDesc::ByLogicalName {
                source_path,
                compiled_module_path: self.compiled_module_path,
                logical_name: self.logical_name,
                unique_on_source_path: Some(must_be_false()),
            },
            UniqueBy::SourcePath { source_path } => r5::ModuleDesc::BySourcePath {
                source_path,
                compiled_module_path: self.compiled_module_path,
                logical_name: self.logical_name,
                unique_on_source_path: must_be_true(),
            },
        }
    }
}

/// Builds a [`r5::ProvidedModuleDesc`]; a module is an interface unless set
/// otherwise.
pub struct ProvidedModuleDesc<'a> {
    unique_by: UniqueBy<'a>,
    logical_name: Cow<'a, str>,
    compiled_module_path: Option<Cow<'a, Utf8Path>>,
    is_interface: Option<bool>,
}

impl<'a> ProvidedModuleDesc<'a> {
    /// What names the module.
    pub closed spec fn spec_unique_by(&self) -> UniqueBy<'a> {
        self.unique_by
    }

    /// The logical name.
    pub closed spec fn spec_logical_name(&self) -> Cow<'a, str> {
        self.logical_name
    }

    /// The compiled module path set so far.
    pub closed spec fn spec_compiled_module_path(&self) -> Option<Cow<'a, Utf8Path>> {
        self.compiled_module_path
    }

    /// Whether the module is an interface, if set.
    pub closed spec fn spec_is_interface(&self) -> Option<bool> {
        self.is_interface
    }

    /// A builder of the module named `logical_name`, named uniquely as
    /// `unique_by` says.
    pub fn new(unique_by: UniqueBy<'a>, logical_name: Cow<'a, str>) -> (b: Self)
        ensures
            b.spec_unique_by() == unique_by,
            b.spec_logical_name() == logical_name,
            b.spec_compiled_module_path() is None,
            b.spec_is_interface() is None,
    {
        ProvidedModuleDesc { unique_by, logical_name, compiled_module_path: None, is_interface: None }
    }

    /// The provided module.
    pub fn build(self) -> (d: r5::ProvidedModuleDesc<'a>)
        ensures
            spec_module(self.spec_unique_by(), self.spec_logical_name(), self.spec_compiled_module_path(), d.desc),
            d.is_interface == match self.spec_is_interface() {
                Some(b) => b,
                None => true,
            },
    {
        let desc = ModuleDesc {
            unique_by: self.unique_by,
            logical_name: self.logical_name,
            compiled_module_path: self.compiled_module_path,
        };
        let is_interface = match self.is_interface {
            Some(b) => b,
            None => true,
        };
        r5::ProvidedModuleDesc { desc: desc.build(), is_interface }
    }

    /// Sets the compiled module path.
    pub fn compiled_module_path(self, compiled_module_path: Cow<'a, Utf8Path>) -> (b: Self)
        ensures
            b.spec_unique_by() == self.spec_unique_by(),
            b.spec_logical_name() == self.spec_logical_name(),
            b.spec_compiled_module_path() == Some(compiled_module_path),
            b.spec_is_interface() == self.spec_is_interface(),
    {
        let mut b = self;
        b.compiled_module_path = Some(compiled_module_path);
        b
    }

    /// Sets whether the module is an interface.
    pub fn is_interface(self, is_interface: bool) -> (b: Self)
        ensures
            b.spec_unique_by() == self.spec_unique_by(),
            b.spec_logical_name() == self.spec_logical_name(),
            b.spec_compiled_module_path() == self.spec_compiled_module_path(),
            b.spec_is_interface() == Some(is_interface),
    {
        let mut b = self;
        b.is_interface = Some(is_interface);
        b
    }
}

/// Builds a [`r5::RequiredModuleDesc`]; the lookup method defaults to by name.
pub struct RequiredModuleDesc<'a> {
    unique_by: UniqueBy<'a>,
    logical_name: Cow<'a, str>,
    compiled_module_path: Option<Cow<'a, Utf8Path>>,
    lookup_method: Option<RequiredModuleDescLookupMethod>,
}

impl<'a> RequiredModuleDesc<'a> {
    /// What names the module.
    pub closed spec fn spec_unique_by(&self) -> UniqueBy<'a> {
        self.unique_by
    }

    /// The logical name.
    pub closed spec fn spec_logical_name(&self) -> Cow<'a, str> {
        self.logical_name
    }

    /// The compiled module path set so far.
    pub closed spec fn spec_compiled_module_path(&self) -> Option<Cow<'a, Utf8Path>> {
        self.compiled_module_path
    }

    /// The lookup method set so far.
    pub closed spec fn spec_lookup_method(&self) -> Option<RequiredModuleDescLookupMethod> {
        self.lookup_method
    }

    /// A builder of the module named `logical_name`, named uniquely as
    /// `unique_by` says.
    pub fn new(unique_by: UniqueBy<'a>, logical_name: Cow<'a, str>) -> (b: Self)
        ensures
            b.spec_unique_by() == unique_by,
            b.spec_logical_name() == logical_name,
            b.spec_compiled_module_path() is None,
            b.spec_lookup_method() is None,
    {
        RequiredModuleDesc { unique_by, logical_name, compiled_module_path: None, lookup_method: None }
    }

    /// The required module.
    pub fn build(self) -> (d: r5::RequiredModuleDesc<'a>)
        ensures
            spec_module(self.spec_unique_by(), self.spec_logical_name(), self.spec_compiled_module_path(), d.desc),
            d.lookup_method == match self.spec_lookup_method() {
                Some(m) => m,
                None => RequiredModuleDescLookupMethod::ByName,
            },
    {
        let desc = ModuleDesc {
            unique_by: self.unique_by,
            logical_name: self.logical_name,
            compiled_module_path: self.compiled_module_path,
        };
        let lookup_method = match self.lookup_method {
            Some(m) => m,
            None => RequiredModuleDescLookupMethod::default(),
        };
        r5::RequiredModuleDesc { desc: desc.build(), lookup_method }
    }

    /// Sets the compiled module path.
    pub fn compiled_module_path(self, compiled_module_path: Cow<'a, Utf8Path>) -> (b: Self)
        ensures
            b.spec_unique_by() == self.spec_unique_by(),
            b.spec_logical_name() == self.spec_logical_name(),
            b.spec_compiled_module_path() == Some(compiled_module_path),
            b.spec_lookup_method() == self.spec_lookup_method(),
    {
        let mut b = self;
        b.compiled_module_path = Some(compiled_module_path);
        b
    }

    /// Sets the lookup method.
    pub fn lookup_method(self, lookup_method: RequiredModuleDescLookupMethod) -> (b: Self)
        ensures
            b.spec_unique_by() == self.spec_unique_by(),
            b.spec_logical_name() == self.spec_logical_name(),
            b.spec_compiled_module_path() == self.spec_compiled_module_path(),
            b.spec_lookup_method() == Some(lookup_method),
    {
        let mut b = self;
        b.lookup_method = Some(lookup_method);
        b
    }
}

} // verus!
