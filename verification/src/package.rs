//! Packages, the sources they come from, and the dependencies they declare.

use vstd::prelude::*;

use crate::version::{semver_matches, version_req_matches};

verus! {

/// Where packages come from.
#[derive(Debug)]
pub struct SourceId {
    /// What tells the source from every other.
    pub key: String,
    /// How the source is written in messages.
    pub display: String,
}

/// What a [`SourceId`] stands for.
pub struct SourceIdView {
    pub key: Seq<char>,
    pub display: Seq<char>,
}

impl View for SourceId {
    type V = SourceIdView;

    open spec fn view(&self) -> SourceIdView {
        SourceIdView { key: self.key@, display: self.display@ }
    }
}

impl PartialEq for SourceId {
    fn eq(&self, other: &Self) -> (r: bool) {
        self.key == other.key && self.display == other.display
    }
}

impl vstd::std_specs::cmp::PartialEqSpecImpl for SourceId {
    open spec fn obeys_eq_spec() -> bool {
        true
    }

    open spec fn eq_spec(&self, other: &Self) -> bool {
        self@ == other@
    }
}

impl Clone for SourceId {
    fn clone(&self) -> (r: Self)
        ensures
            r@ == self@,
    {
        SourceId { key: self.key.clone(), display: self.display.clone() }
    }
}

/// A package in one version, from one source.
#[derive(Debug)]
pub struct PackageId {
    /// The name of the package.
    pub name: String,
    /// The version, as `semver::Version` writes it.
    pub version: String,
    /// Where the package comes from.
    pub source_id: SourceId,
}

/// What a [`PackageId`] stands for.
pub struct PackageIdView {
    pub name: Seq<char>,
    pub version: Seq<char>,
    pub source_id: SourceIdView,
}

impl PackageIdView {
    /// How the package is written in messages: name, version and source.
    pub open spec fn text(self) -> Seq<char> {
        self.name + " v"@ + self.version + " ("@ + self.source_id.display + ")"@
    }
}

impl View for PackageId {
    type V = PackageIdView;

    open spec fn view(&self) -> PackageIdView {
        PackageIdView {
            name: self.name@,
            version: self.version@,
            source_id: self.source_id@,
        }
    }
}

impl PartialEq for PackageId {
    fn eq(&self, other: &Self) -> (r: bool) {
        self.name == other.name && self.version == other.version && self.source_id
            == other.source_id
    }
}

impl vstd::std_specs::cmp::PartialEqSpecImpl for PackageId {
    open spec fn obeys_eq_spec() -> bool {
        true
    }

    open spec fn eq_spec(&self, other: &Self) -> bool {
        self@ == other@
    }
}

impl Clone for PackageId {
    fn clone(&self) -> (r: Self)
        ensures
            r@ == self@,
    {
        PackageId {
            name: self.name.clone(),
            version: self.version.clone(),
            source_id: self.source_id.clone(),
        }
    }
}

impl PackageId {
    /// How the package is written in messages.
    pub fn to_text(&self) -> (text: String)
        ensures
            text@ == self@.text(),
    {
        let mut text: String = self.name.clone();
        text.append(" v");
        text.append(self.version.as_str());
        text.append(" (");
        text.append(self.source_id.display.as_str());
        text.append(")");
        text
    }
}

/// A dependency that a package declares.
#[derive(Debug)]
pub struct ManifestDependency {
    /// The name of the package depended on.
    pub name: String,
    /// The versions that will do, as `semver::VersionReq` writes them.
    pub version_req: String,
    /// Where the package has to come from.
    pub source_id: SourceId,
}

/// What a [`ManifestDependency`] stands for.
pub struct ManifestDependencyView {
    pub name: Seq<char>,
    pub version_req: Seq<char>,
    pub source_id: SourceIdView,
}

impl ManifestDependencyView {
    /// Whether a package will do, where `version_matches` says whether its version satisfies the
    /// version requirement.
    pub open spec fn accepts(self, package_id: PackageIdView, version_matches: bool) -> bool {
        &&& package_id.name == self.name
        &&& package_id.source_id == self.source_id
        &&& version_matches
    }

    /// Whether a package will do.
    pub open spec fn matches_package_id(self, package_id: PackageIdView) -> bool {
        self.accepts(
            package_id,
            crate::version::semver_matches(self.version_req, package_id.version),
        )
    }
}

impl View for ManifestDependency {
    type V = ManifestDependencyView;

    open spec fn view(&self) -> ManifestDependencyView {
        ManifestDependencyView {
            name: self.name@,
            version_req: self.version_req@,
            source_id: self.source_id@,
        }
    }
}

impl Clone for ManifestDependency {
    fn clone(&self) -> (r: Self)
        ensures
            r@ == self@,
    {
        ManifestDependency {
            name: self.name.clone(),
            version_req: self.version_req.clone(),
            source_id: self.source_id.clone(),
        }
    }
}

impl ManifestDependency {
    /// Whether a package will do, where `version_matches` says whether its version satisfies the
    /// version requirement: name and source have to be those of the dependency.
    pub fn accepts(&self, package_id: &PackageId, version_matches: bool) -> (r: bool)
        ensures
            r == self@.accepts(package_id@, version_matches),
    {
        package_id.name == self.name && package_id.source_id == self.source_id && version_matches
    }

    /// Whether a package will do: name and source are those of the dependency, and the version
    /// satisfies the version requirement.
    pub fn matches_package_id(&self, package_id: &PackageId) -> (r: bool)
        ensures
            r == self@.matches_package_id(package_id@),
    {
        let version_matches: bool = version_req_matches(
            self.version_req.as_str(),
            package_id.version.as_str(),
        );
        self.accepts(package_id, version_matches)
    }
}

/// A package will do for a dependency exactly if it has the name and the source that the dependency
/// asks for and its version satisfies the version requirement, whatever else the two hold.
pub proof fn law_package_will_do(
    dependency: ManifestDependencyView,
    id: PackageIdView,
    version_matches: bool,
)
    ensures
        dependency.matches_package_id(id) <==> {
            &&& id.name == dependency.name
            &&& id.source_id == dependency.source_id
            &&& semver_matches(dependency.version_req, id.version)
        },
        dependency.accepts(id, version_matches) <==> {
            &&& id.name == dependency.name
            &&& id.source_id == dependency.source_id
            &&& version_matches
        },
{
}

/// A package is written with its name, version and source.
pub proof fn law_package_text(id: PackageIdView)
    ensures
        id.text() == id.name + " v"@ + id.version + " ("@ + id.source_id.display + ")"@,
{
}

/// The views of dependencies, one by one.
pub open spec fn dependency_views(
    dependencies: Seq<ManifestDependency>,
) -> Seq<ManifestDependencyView> {
    dependencies.map_values(|d: ManifestDependency| d@)
}

/// Copies dependencies, one by one.
pub fn clone_dependencies(dependencies: &Vec<ManifestDependency>) -> (copy: Vec<
    ManifestDependency,
>)
    ensures
        dependency_views(copy@) == dependency_views(dependencies@),
{
    let mut copy: Vec<ManifestDependency> = Vec::new();
    let mut i: usize = 0;
    while i < dependencies.len()
        invariant
            i <= dependencies.len(),
            copy.len() == i,
            forall|k: int| 0 <= k < i ==> (#[trigger] copy@[k])@ == dependencies@[k]@,
        decreases dependencies.len() - i,
    {
        copy.push(dependencies[i].clone());
        i = i + 1;
    }
    assert(dependency_views(copy@) =~= dependency_views(dependencies@));
    copy
}

/// A package together with the dependencies it declares, in the order in which it declares them.
#[derive(Debug)]
pub struct Summary {
    /// The package.
    pub package_id: PackageId,
    /// The dependencies that the package declares.
    pub dependencies: Vec<ManifestDependency>,
}

/// What a [`Summary`] stands for.
pub struct SummaryView {
    pub package_id: PackageIdView,
    pub dependencies: Seq<ManifestDependencyView>,
}

impl View for Summary {
    type V = SummaryView;

    open spec fn view(&self) -> SummaryView {
        SummaryView {
            package_id: self.package_id@,
            dependencies: dependency_views(self.dependencies@),
        }
    }
}

impl Clone for Summary {
    fn clone(&self) -> (r: Self)
        ensures
            r@ == self@,
    {
        Summary {
            package_id: self.package_id.clone(),
            dependencies: clone_dependencies(&self.dependencies),
        }
    }
}

/// The views of summaries, one by one.
pub open spec fn summary_views(summaries: Seq<Summary>) -> Seq<SummaryView> {
    summaries.map_values(|s: Summary| s@)
}

} // verus!
