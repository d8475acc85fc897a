//! The order that a manifest gives to its sections, and to the keys of its
//! `package` section.

use vstd::prelude::*;
use vstd::string::StringExecFns;
use crate::text::{same_chars, to_chars};

verus! {

/// The views of a sequence of strings.
pub open spec fn texts(v: Seq<String>) -> Seq<Seq<char>> {
    Seq::new(v.len(), |i: int| v[i]@)
}

/// Whether `chars` spells `name`.
pub fn is_text(chars: &Vec<char>, name: &str) -> (r: bool)
    ensures
        r == (chars@ == name@),
{
    let other = to_chars(name);
    same_chars(chars, &other)
}

/// How the entries of a dependency table are sorted.
#[derive(Clone, Copy, Debug, PartialEq, Eq, Structural, Hash)]
pub enum TomlSort {
    Alphabetical,
    Length,
}

/// The sections of a manifest, in the order in which a manifest lists them.
#[derive(Clone, Copy, Debug, PartialEq, Eq, Structural, Hash)]
pub enum TomlSection {
    Package,
    Lib,
    Bins,
    Example,
    Test,
    Bench,
    Dependencies,
    DevDependencies,
    BuildDependencies,
    Target,
    Badges,
    Features,
    Patch,
    Replace,
    Profile,
    Workspace,
    CargoFeatures,
}

impl TomlSection {
    /// The name as it is written in a manifest.
    pub open spec fn name_spec(self) -> Seq<char> {
        match self {
            TomlSection::Package => "package"@,
            TomlSection::Lib => "lib"@,
            TomlSection::Bins => "bin"@,
            TomlSection::Example => "example"@,
            TomlSection::Test => "test"@,
            TomlSection::Bench => "bench"@,
            TomlSection::Dependencies => "dependencies"@,
            TomlSection::DevDependencies => "dev-dependencies"@,
            TomlSection::BuildDependencies => "build-dependencies"@,
            TomlSection::Target => "target"@,
            TomlSection::Badges => "badges"@,
            TomlSection::Features => "features"@,
            TomlSection::Patch => "patch"@,
            TomlSection::Replace => "replace"@,
            TomlSection::Profile => "profile"@,
            TomlSection::Workspace => "workspace"@,
            TomlSection::CargoFeatures => "cargo-features"@,
        }
    }

    /// The name as it is written in a manifest.
    pub fn name(&self) -> (r: &'static str)
        ensures
            r@ == self.name_spec(),
    {
        match self {
            TomlSection::Package => "package",
            TomlSection::Lib => "lib",
            TomlSection::Bins => "bin",
            TomlSection::Example => "example",
            TomlSection::Test => "test",
            TomlSection::Bench => "bench",
            TomlSection::Dependencies => "dependencies",
            TomlSection::DevDependencies => "dev-dependencies",
            TomlSection::BuildDependencies => "build-dependencies",
            TomlSection::Target => "target",
            TomlSection::Badges => "badges",
            TomlSection::Features => "features",
            TomlSection::Patch => "patch",
            TomlSection::Replace => "replace",
            TomlSection::Profile => "profile",
            TomlSection::Workspace => "workspace",
            TomlSection::CargoFeatures => "cargo-features",
        }
    }

    /// The place in the order of a manifest, counted from 0.
    pub open spec fn order_spec(self) -> nat {
        match self {
            TomlSection::Package => 0,
            TomlSection::Lib => 1,
            TomlSection::Bins => 2,
            TomlSection::Example => 3,
            TomlSection::Test => 4,
            TomlSection::Bench => 5,
            TomlSection::Dependencies => 6,
            TomlSection::DevDependencies => 7,
            TomlSection::BuildDependencies => 8,
            TomlSection::Target => 9,
            TomlSection::Badges => 10,
            TomlSection::Features => 11,
            TomlSection::Patch => 12,
            TomlSection::Replace => 13,
            TomlSection::Profile => 14,
            TomlSection::Workspace => 15,
            TomlSection::CargoFeatures => 16,
        }
    }

    /// The place in the order of a manifest, counted from 0.
    pub fn order(&self) -> (r: u8)
        ensures
            r == self.order_spec(),
    {
        match self {
            TomlSection::Package => 0,
            TomlSection::Lib => 1,
            TomlSection::Bins => 2,
            TomlSection::Example => 3,
            TomlSection::Test => 4,
            TomlSection::Bench => 5,
            TomlSection::Dependencies => 6,
            TomlSection::DevDependencies => 7,
            TomlSection::BuildDependencies => 8,
            TomlSection::Target => 9,
            TomlSection::Badges => 10,
            TomlSection::Features => 11,
            TomlSection::Patch => 12,
            TomlSection::Replace => 13,
            TomlSection::Profile => 14,
            TomlSection::Workspace => 15,
            TomlSection::CargoFeatures => 16,
        }
    }

    /// The variants in the order of a manifest.
    pub open spec fn in_order() -> Seq<TomlSection> {
        seq![
            TomlSection::Package,
            TomlSection::Lib,
            TomlSection::Bins,
            TomlSection::Example,
            TomlSection::Test,
            TomlSection::Bench,
            TomlSection::Dependencies,
            TomlSection::DevDependencies,
            TomlSection::BuildDependencies,
            TomlSection::Target,
            TomlSection::Badges,
            TomlSection::Features,
            TomlSection::Patch,
            TomlSection::Replace,
            TomlSection::Profile,
            TomlSection::Workspace,
            TomlSection::CargoFeatures,
        ]
    }

    /// The variant that `name` names: the first in the order of a manifest
    /// whose name it is.
    pub open spec fn named(name: Seq<char>) -> Option<TomlSection> {
        if name == TomlSection::Package.name_spec() {
            Some(TomlSection::Package)
        } else if name == TomlSection::Lib.name_spec() {
            Some(TomlSection::Lib)
        } else if name == TomlSection::Bins.name_spec() {
            Some(TomlSection::Bins)
        } else if name == TomlSection::Example.name_spec() {
            Some(TomlSection::Example)
        } else if name == TomlSection::Test.name_spec() {
            Some(TomlSection::Test)
        } else if name == TomlSection::Bench.name_spec() {
            Some(TomlSection::Bench)
        } else if name == TomlSection::Dependencies.name_spec() {
            Some(TomlSection::Dependencies)
        } else if name == TomlSection::DevDependencies.name_spec() {
            Some(TomlSection::DevDependencies)
        } else if name == TomlSection::BuildDependencies.name_spec() {
            Some(TomlSection::BuildDependencies)
        } else if name == TomlSection::Target.name_spec() {
            Some(TomlSection::Target)
        } else if name == TomlSection::Badges.name_spec() {
            Some(TomlSection::Badges)
        } else if name == TomlSection::Features.name_spec() {
            Some(TomlSection::Features)
        } else if name == TomlSection::Patch.name_spec() {
            Some(TomlSection::Patch)
        } else if name == TomlSection::Replace.name_spec() {
            Some(TomlSection::Replace)
        } else if name == TomlSection::Profile.name_spec() {
            Some(TomlSection::Profile)
        } else if name == TomlSection::Workspace.name_spec() {
            Some(TomlSection::Workspace)
        } else if name == TomlSection::CargoFeatures.name_spec() {
            Some(TomlSection::CargoFeatures)
        } else {
            None
        }
    }

    /// The variant that `name` names, if it names one.
    pub fn from_name(name: &str) -> (r: Option<TomlSection>)
        ensures
            r == Self::named(name@),
    {
        let chars = to_chars(name);
        if is_text(&chars, TomlSection::Package.name()) {
            Some(TomlSection::Package)
        } else if is_text(&chars, TomlSection::Lib.name()) {
            Some(TomlSection::Lib)
        } else if is_text(&chars, TomlSection::Bins.name()) {
            Some(TomlSection::Bins)
        } else if is_text(&chars, TomlSection::Example.name()) {
            Some(TomlSection::Example)
        } else if is_text(&chars, TomlSection::Test.name()) {
            Some(TomlSection::Test)
        } else if is_text(&chars, TomlSection::Bench.name()) {
            Some(TomlSection::Bench)
        } else if is_text(&chars, TomlSection::Dependencies.name()) {
            Some(TomlSection::Dependencies)
        } else if is_text(&chars, TomlSection::DevDependencies.name()) {
            Some(TomlSection::DevDependencies)
        } else if is_text(&chars, TomlSection::BuildDependencies.name()) {
            Some(TomlSection::BuildDependencies)
        } else if is_text(&chars, TomlSection::Target.name()) {
            Some(TomlSection::Target)
        } else if is_text(&chars, TomlSection::Badges.name()) {
            Some(TomlSection::Badges)
        } else if is_text(&chars, TomlSection::Features.name()) {
            Some(TomlSection::Features)
        } else if is_text(&chars, TomlSection::Patch.name()) {
            Some(TomlSection::Patch)
        } else if is_text(&chars, TomlSection::Replace.name()) {
            Some(TomlSection::Replace)
        } else if is_text(&chars, TomlSection::Profile.name()) {
            Some(TomlSection::Profile)
        } else if is_text(&chars, TomlSection::Workspace.name()) {
            Some(TomlSection::Workspace)
        } else if is_text(&chars, TomlSection::CargoFeatures.name()) {
            Some(TomlSection::CargoFeatures)
        } else {
            None
        }
    }

    /// The names in the order of a manifest.
    pub open spec fn manifest_names() -> Seq<Seq<char>> {
        Self::in_order().map_values(|v: TomlSection| v.name_spec())
    }

    /// The names in the order of a manifest.
    pub fn manifest_spec() -> (r: Vec<String>)
        ensures
            texts(r@) == Self::manifest_names(),
    {
        let mut out: Vec<String> = Vec::new();
        out.push(String::from_str(TomlSection::Package.name()));
        out.push(String::from_str(TomlSection::Lib.name()));
        out.push(String::from_str(TomlSection::Bins.name()));
        out.push(String::from_str(TomlSection::Example.name()));
        out.push(String::from_str(TomlSection::Test.name()));
        out.push(String::from_str(TomlSection::Bench.name()));
        out.push(String::from_str(TomlSection::Dependencies.name()));
        out.push(String::from_str(TomlSection::DevDependencies.name()));
        out.push(String::from_str(TomlSection::BuildDependencies.name()));
        out.push(String::from_str(TomlSection::Target.name()));
        out.push(String::from_str(TomlSection::Badges.name()));
        out.push(String::from_str(TomlSection::Features.name()));
        out.push(String::from_str(TomlSection::Patch.name()));
        out.push(String::from_str(TomlSection::Replace.name()));
        out.push(String::from_str(TomlSection::Profile.name()));
        out.push(String::from_str(TomlSection::Workspace.name()));
        out.push(String::from_str(TomlSection::CargoFeatures.name()));
        proof {
            assert(texts(out@) =~= Self::manifest_names());
        }
        out
    }
}

/// The keys of the `package` section, in the order in which a manifest lists them.
#[derive(Clone, Copy, Debug, PartialEq, Eq, Structural, Hash)]
pub enum PackageOrder {
    Name,
    Version,
    Authors,
    Edition,
    RustVersion,
    Description,
    Documentation,
    Readme,
    Homepage,
    Repository,
    License,
    LicenseFile,
    Keywords,
    Categories,
    Workspace,
    Build,
    Links,
    Exclude,
    Include,
    Publish,
    Metadata,
    DefaultRun,
    AutoBins,
    AutoExamples,
    AutoTests,
    AutoBenchmarks,
    Resolver,
}

impl PackageOrder {
    /// The name as it is written in a manifest.
    pub open spec fn name_spec(self) -> Seq<char> {
        match self {
            PackageOrder::Name => "name"@,
            PackageOrder::Version => "version"@,
            PackageOrder::Authors => "authors"@,
            PackageOrder::Edition => "edition"@,
            PackageOrder::RustVersion => "rust-version"@,
            PackageOrder::Description => "description"@,
            PackageOrder::Documentation => "documentation"@,
            PackageOrder::Readme => "readme"@,
            PackageOrder::Homepage => "homepage"@,
            PackageOrder::Repository => "repository"@,
            PackageOrder::License => "license"@,
            PackageOrder::LicenseFile => "license-file"@,
            PackageOrder::Keywords => "keywords"@,
            PackageOrder::Categories => "categories"@,
            PackageOrder::Workspace => "workspace"@,
            PackageOrder::Build => "build"@,
            PackageOrder::Links => "links"@,
            PackageOrder::Exclude => "exclude"@,
            PackageOrder::Include => "include"@,
            PackageOrder::Publish => "publish"@,
            PackageOrder::Metadata => "metadata"@,
            PackageOrder::DefaultRun => "default-run"@,
            PackageOrder::AutoBins => "autobins"@,
            PackageOrder::AutoExamples => "autoexamples"@,
            PackageOrder::AutoTests => "autotests"@,
            PackageOrder::AutoBenchmarks => "autobenches"@,
            PackageOrder::Resolver => "resolver"@,
        }
    }

    /// The name as it is written in a manifest.
    pub fn name(&self) -> (r: &'static str)
        ensures
            r@ == self.name_spec(),
    {
        match self {
            PackageOrder::Name => "name",
            PackageOrder::Version => "version",
            PackageOrder::Authors => "authors",
            PackageOrder::Edition => "edition",
            PackageOrder::RustVersion => "rust-version",
            PackageOrder::Description => "description",
            PackageOrder::Documentation => "documentation",
            PackageOrder::Readme => "readme",
            PackageOrder::Homepage => "homepage",
            PackageOrder::Repository => "repository",
            PackageOrder::License => "license",
            PackageOrder::LicenseFile => "license-file",
            PackageOrder::Keywords => "keywords",
            PackageOrder::Categories => "categories",
            PackageOrder::Workspace => "workspace",
            PackageOrder::Build => "build",
            PackageOrder::Links => "links",
            PackageOrder::Exclude => "exclude",
            PackageOrder::Include => "include",
            PackageOrder::Publish => "publish",
            PackageOrder::Metadata => "metadata",
            PackageOrder::DefaultRun => "default-run",
            PackageOrder::AutoBins => "autobins",
            PackageOrder::AutoExamples => "autoexamples",
            PackageOrder::AutoTests => "autotests",
            PackageOrder::AutoBenchmarks => "autobenches",
            PackageOrder::Resolver => "resolver",
        }
    }

    /// The place in the order of a manifest, counted from 0.
    pub open spec fn order_spec(self) -> nat {
        match self {
            PackageOrder::Name => 0,
            PackageOrder::Version => 1,
            PackageOrder::Authors => 2,
            PackageOrder::Edition => 3,
            PackageOrder::RustVersion => 4,
            PackageOrder::Description => 5,
            PackageOrder::Documentation => 6,
            PackageOrder::Readme => 7,
            PackageOrder::Homepage => 8,
            PackageOrder::Repository => 9,
            PackageOrder::License => 10,
            PackageOrder::LicenseFile => 11,
            PackageOrder::Keywords => 12,
            PackageOrder::Categories => 13,
            PackageOrder::Workspace => 14,
            PackageOrder::Build => 15,
            PackageOrder::Links => 16,
            PackageOrder::Exclude => 17,
            PackageOrder::Include => 18,
            PackageOrder::Publish => 19,
            PackageOrder::Metadata => 20,
            PackageOrder::DefaultRun => 21,
            PackageOrder::AutoBins => 22,
            PackageOrder::AutoExamples => 23,
            PackageOrder::AutoTests => 24,
            PackageOrder::AutoBenchmarks => 25,
            PackageOrder::Resolver => 26,
        }
    }

    /// The place in the order of a manifest, counted from 0.
    pub fn order(&self) -> (r: u8)
        ensures
            r == self.order_spec(),
    {
        match self {
            PackageOrder::Name => 0,
            PackageOrder::Version => 1,
            PackageOrder::Authors => 2,
            PackageOrder::Edition => 3,
            PackageOrder::RustVersion => 4,
            PackageOrder::Description => 5,
            PackageOrder::Documentation => 6,
            PackageOrder::Readme => 7,
            PackageOrder::Homepage => 8,
            PackageOrder::Repository => 9,
            PackageOrder::License => 10,
            PackageOrder::LicenseFile => 11,
            PackageOrder::Keywords => 12,
            PackageOrder::Categories => 13,
            PackageOrder::Workspace => 14,
            PackageOrder::Build => 15,
            PackageOrder::Links => 16,
            PackageOrder::Exclude => 17,
            PackageOrder::Include => 18,
            PackageOrder::Publish => 19,
            PackageOrder::Metadata => 20,
            PackageOrder::DefaultRun => 21,
            PackageOrder::AutoBins => 22,
            PackageOrder::AutoExamples => 23,
            PackageOrder::AutoTests => 24,
            PackageOrder::AutoBenchmarks => 25,
            PackageOrder::Resolver => 26,
        }
    }

    /// The variants in the order of a manifest.
    pub open spec fn in_order() -> Seq<PackageOrder> {
        seq![
            PackageOrder::Name,
            PackageOrder::Version,
            PackageOrder::Authors,
            PackageOrder::Edition,
            PackageOrder::RustVersion,
            PackageOrder::Description,
            PackageOrder::Documentation,
            PackageOrder::Readme,
            PackageOrder::Homepage,
            PackageOrder::Repository,
            PackageOrder::License,
            PackageOrder::LicenseFile,
            PackageOrder::Keywords,
            PackageOrder::Categories,
            PackageOrder::Workspace,
            PackageOrder::Build,
            PackageOrder::Links,
            PackageOrder::Exclude,
            PackageOrder::Include,
            PackageOrder::Publish,
            PackageOrder::Metadata,
            PackageOrder::DefaultRun,
            PackageOrder::AutoBins,
            PackageOrder::AutoExamples,
            PackageOrder::AutoTests,
            PackageOrder::AutoBenchmarks,
            PackageOrder::Resolver,
        ]
    }

    /// The variant that `name` names: the first in the order of a manifest
    /// whose name it is.
    pub open spec fn named(name: Seq<char>) -> Option<PackageOrder> {
        if name == PackageOrder::Name.name_spec() {
            Some(PackageOrder::Name)
        } else if name == PackageOrder::Version.name_spec() {
            Some(PackageOrder::Version)
        } else if name == PackageOrder::Authors.name_spec() {
            Some(PackageOrder::Authors)
        } else if name == PackageOrder::Edition.name_spec() {
            Some(PackageOrder::Edition)
        } else if name == PackageOrder::RustVersion.name_spec() {
            Some(PackageOrder::RustVersion)
        } else if name == PackageOrder::Description.name_spec() {
            Some(PackageOrder::Description)
        } else if name == PackageOrder::Documentation.name_spec() {
            Some(PackageOrder::Documentation)
        } else if name == PackageOrder::Readme.name_spec() {
            Some(PackageOrder::Readme)
        } else if name == PackageOrder::Homepage.name_spec() {
            Some(PackageOrder::Homepage)
        } else if name == PackageOrder::Repository.name_spec() {
            Some(PackageOrder::Repository)
        } else if name == PackageOrder::License.name_spec() {
            Some(PackageOrder::License)
        } else if name == PackageOrder::LicenseFile.name_spec() {
            Some(PackageOrder::LicenseFile)
        } else if name == PackageOrder::Keywords.name_spec() {
            Some(PackageOrder::Keywords)
        } else if name == PackageOrder::Categories.name_spec() {
            Some(PackageOrder::Categories)
        } else if name == PackageOrder::Workspace.name_spec() {
            Some(PackageOrder::Workspace)
        } else if name == PackageOrder::Build.name_spec() {
            Some(PackageOrder::Build)
        } else if name == PackageOrder::Links.name_spec() {
            Some(PackageOrder::Links)
        } else if name == PackageOrder::Exclude.name_spec() {
            Some(PackageOrder::Exclude)
        } else if name == PackageOrder::Include.name_spec() {
            Some(PackageOrder::Include)
        } else if name == PackageOrder::Publish.name_spec() {
            Some(PackageOrder::Publish)
        } else if name == PackageOrder::Metadata.name_spec() {
            Some(PackageOrder::Metadata)
        } else if name == PackageOrder::DefaultRun.name_spec() {
            Some(PackageOrder::DefaultRun)
        } else if name == PackageOrder::AutoBins.name_spec() {
            Some(PackageOrder::AutoBins)
        } else if name == PackageOrder::AutoExamples.name_spec() {
            Some(PackageOrder::AutoExamples)
        } else if name == PackageOrder::AutoTests.name_spec() {
            Some(PackageOrder::AutoTests)
        } else if name == PackageOrder::AutoBenchmarks.name_spec() {
            Some(PackageOrder::AutoBenchmarks)
        } else if name == PackageOrder::Resolver.name_spec() {
            Some(PackageOrder::Resolver)
        } else {
            None
        }
    }

    /// The variant that `name` names, if it names one.
    pub fn from_name(name: &str) -> (r: Option<PackageOrder>)
        ensures
            r == Self::named(name@),
    {
        let chars = to_chars(name);
        if is_text(&chars, PackageOrder::Name.name()) {
            Some(PackageOrder::Name)
        } else if is_text(&chars, PackageOrder::Version.name()) {
            Some(PackageOrder::Version)
        } else if is_text(&chars, PackageOrder::Authors.name()) {
            Some(PackageOrder::Authors)
        } else if is_text(&chars, PackageOrder::Edition.name()) {
            Some(PackageOrder::Edition)
        } else if is_text(&chars, PackageOrder::RustVersion.name()) {
            Some(PackageOrder::RustVersion)
        } else if is_text(&chars, PackageOrder::Description.name()) {
            Some(PackageOrder::Description)
        } else if is_text(&chars, PackageOrder::Documentation.name()) {
            Some(PackageOrder::Documentation)
        } else if is_text(&chars, PackageOrder::Readme.name()) {
            Some(PackageOrder::Readme)
        } else if is_text(&chars, PackageOrder::Homepage.name()) {
            Some(PackageOrder::Homepage)
        } else if is_text(&chars, PackageOrder::Repository.name()) {
            Some(PackageOrder::Repository)
        } else if is_text(&chars, PackageOrder::License.name()) {
            Some(PackageOrder::License)
        } else if is_text(&chars, PackageOrder::LicenseFile.name()) {
            Some(PackageOrder::LicenseFile)
        } else if is_text(&chars, PackageOrder::Keywords.name()) {
            Some(PackageOrder::Keywords)
        } else if is_text(&chars, PackageOrder::Categories.name()) {
            Some(PackageOrder::Categories)
        } else if is_text(&chars, PackageOrder::Workspace.name()) {
            Some(PackageOrder::Workspace)
        } else if is_text(&chars, PackageOrder::Build.name()) {
            Some(PackageOrder::Build)
        } else if is_text(&chars, PackageOrder::Links.name()) {
            Some(PackageOrder::Links)
        } else if is_text(&chars, PackageOrder::Exclude.name()) {
            Some(PackageOrder::Exclude)
        } else if is_text(&chars, PackageOrder::Include.name()) {
            Some(PackageOrder::Include)
        } else if is_text(&chars, PackageOrder::Publish.name()) {
            Some(PackageOrder::Publish)
        } else if is_text(&chars, PackageOrder::Metadata.name()) {
            Some(PackageOrder::Metadata)
        } else if is_text(&chars, PackageOrder::DefaultRun.name()) {
            Some(PackageOrder::DefaultRun)
        } else if is_text(&chars, PackageOrder::AutoBins.name()) {
            Some(PackageOrder::AutoBins)
        } else if is_text(&chars, PackageOrder::AutoExamples.name()) {
            Some(PackageOrder::AutoExamples)
        } else if is_text(&chars, PackageOrder::AutoTests.name()) {
            Some(PackageOrder::AutoTests)
        } else if is_text(&chars, PackageOrder::AutoBenchmarks.name()) {
            Some(PackageOrder::AutoBenchmarks)
        } else if is_text(&chars, PackageOrder::Resolver.name()) {
            Some(PackageOrder::Resolver)
        } else {
            None
        }
    }

    /// The names in the order of a manifest.
    pub open spec fn manifest_names() -> Seq<Seq<char>> {
        Self::in_order().map_values(|v: PackageOrder| v.name_spec())
    }

    /// The names in the order of a manifest.
    pub fn manifest_spec() -> (r: Vec<String>)
        ensures
            texts(r@) == Self::manifest_names(),
    {
        let mut out: Vec<String> = Vec::new();
        out.push(String::from_str(PackageOrder::Name.name()));
        out.push(String::from_str(PackageOrder::Version.name()));
        out.push(String::from_str(PackageOrder::Authors.name()));
        out.push(String::from_str(PackageOrder::Edition.name()));
        out.push(String::from_str(PackageOrder::RustVersion.name()));
        out.push(String::from_str(PackageOrder::Description.name()));
        out.push(String::from_str(PackageOrder::Documentation.name()));
        out.push(String::from_str(PackageOrder::Readme.name()));
        out.push(String::from_str(PackageOrder::Homepage.name()));
        out.push(String::from_str(PackageOrder::Repository.name()));
        out.push(String::from_str(PackageOrder::License.name()));
        out.push(String::from_str(PackageOrder::LicenseFile.name()));
        out.push(String::from_str(PackageOrder::Keywords.name()));
        out.push(String::from_str(PackageOrder::Categories.name()));
        out.push(String::from_str(PackageOrder::Workspace.name()));
        out.push(String::from_str(PackageOrder::Build.name()));
        out.push(String::from_str(PackageOrder::Links.name()));
        out.push(String::from_str(PackageOrder::Exclude.name()));
        out.push(String::from_str(PackageOrder::Include.name()));
        out.push(String::from_str(PackageOrder::Publish.name()));
        out.push(String::from_str(PackageOrder::Metadata.name()));
        out.push(String::from_str(PackageOrder::DefaultRun.name()));
        out.push(String::from_str(PackageOrder::AutoBins.name()));
        out.push(String::from_str(PackageOrder::AutoExamples.name()));
        out.push(String::from_str(PackageOrder::AutoTests.name()));
        out.push(String::from_str(PackageOrder::AutoBenchmarks.name()));
        out.push(String::from_str(PackageOrder::Resolver.name()));
        proof {
            assert(texts(out@) =~= Self::manifest_names());
        }
        out
    }
}

} // verus!
