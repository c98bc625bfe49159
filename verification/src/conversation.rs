//! Conversations between a resolution and the registry, and what can be said of them.

use vstd::prelude::*;

use crate::exploration::State;
use crate::package::{ManifestDependencyView, PackageIdView, SummaryView};
use crate::version::semver_matches;

verus! {

/// The state of an exploration of `roots`, taken in the given order, once the registry has
/// answered its queries with the given packages.
pub open spec fn explored(
    roots: Seq<SummaryView>,
    order: Seq<PackageIdView>,
    answers: Seq<SummaryView>,
) -> State
    decreases answers.len(),
{
    if answers.len() == 0 {
        State::start(roots, order).scan()
    } else {
        explored(roots, order, answers.drop_last()).accept(answers.last()).scan()
    }
}

/// Whether a package is a top-level package.
pub open spec fn is_root(roots: Seq<SummaryView>, id: PackageIdView) -> bool {
    exists|i: int| 0 <= i < roots.len() && (#[trigger] roots[i]).package_id == id
}

/// Whether `order` lists the packages of `roots`, each once.
pub open spec fn lists_roots(roots: Seq<SummaryView>, order: Seq<PackageIdView>) -> bool {
    &&& order.no_duplicates()
    &&& forall|id: PackageIdView| #[trigger] order.contains(id) <==> is_root(roots, id)
}

/// Whether there is a pending dependency whose name no package has been chosen for.
pub open spec fn waits(s: State) -> bool {
    s.pending.len() > 0 && !s.chosen.contains_key(s.pending[0].name)
}

/// Whether the package chosen for the name of a dependency comes from the source that the
/// dependency asks for.
pub open spec fn provided(s: State, dependency: ManifestDependencyView) -> bool {
    s.chosen.contains_key(dependency.name) && s.chosen[dependency.name].source_id
        == dependency.source_id
}

/// Whether a resolution of `roots`, taken in the given order, asks for each of the given answers:
/// each was given when there was a pending dependency whose name no package had been chosen for.
pub open spec fn conversation(
    roots: Seq<SummaryView>,
    order: Seq<PackageIdView>,
    answers: Seq<SummaryView>,
) -> bool {
    &&& lists_roots(roots, order)
    &&& forall|i: int|
        0 <= i < answers.len() ==> waits(#[trigger] explored(roots, order, answers.take(i)))
}

/// Whether the registry answers every query with a package of the name asked for.
pub open spec fn by_name(
    roots: Seq<SummaryView>,
    order: Seq<PackageIdView>,
    answers: Seq<SummaryView>,
) -> bool {
    forall|i: int|
        0 <= i < answers.len() ==> answers[i].package_id.name == (#[trigger] explored(
            roots,
            order,
            answers.take(i),
        )).pending[0].name
}

/// Whether a sequence of packages begins with a top-level package and follows the edges.
pub open spec fn is_path(
    roots: Seq<SummaryView>,
    edges: Set<(PackageIdView, PackageIdView)>,
    path: Seq<PackageIdView>,
) -> bool {
    &&& path.len() > 0
    &&& is_root(roots, path[0])
    &&& forall|i: int, j: int|
        #![trigger path[i], path[j]]
        0 <= i && j == i + 1 && j < path.len() ==> edges.contains((path[i], path[j]))
}

/// Whether a package can be reached from a top-level package along the edges.
#[verifier::opaque]
pub open spec fn reached(
    roots: Seq<SummaryView>,
    edges: Set<(PackageIdView, PackageIdView)>,
    id: PackageIdView,
) -> bool {
    exists|path: Seq<PackageIdView>| #[trigger] is_path(roots, edges, path) && path.last() == id
}

/// Whether a package has been chosen for the name of every dependency of the packages in the graph.
pub open spec fn all_chosen(s: State) -> bool {
    forall|n: int, d: int|
        #![trigger s.summaries[s.nodes[n]].dependencies[d]]
        0 <= n < s.nodes.len() && 0 <= d < s.summaries[s.nodes[n]].dependencies.len()
            ==> s.chosen.contains_key(s.summaries[s.nodes[n]].dependencies[d].name)
}

/// Whether the package chosen for a dependency will do: it has the name and the source that the
/// dependency asks for, and a version that satisfies the version requirement.
pub open spec fn satisfied(s: State, dependency: ManifestDependencyView) -> bool {
    let to = s.chosen[dependency.name];
    to.name == dependency.name && to.source_id == dependency.source_id && semver_matches(
        dependency.version_req,
        to.version,
    )
}

/// The complaint of a package about the package chosen for a dependency of its: the line names the
/// two packages, each with version and source, and the version requirement.
#[verifier::opaque]
pub open spec fn complaint_of(
    s: State,
    id: PackageIdView,
    dependency: ManifestDependencyView,
) -> Seq<char> {
    let to = s.chosen[dependency.name];
    "- "@ + id.name + " v"@ + id.version + " ("@ + id.source_id.display + ")"@ + " cannot use "@
        + to.name + " v"@ + to.version + " ("@ + to.source_id.display + ")"@ + ", because "@
        + id.name + " requires "@ + to.name + " "@ + dependency.version_req
}

/// The dependencies of packages, package by package.
pub open spec fn declared(s: State, ids: Seq<PackageIdView>) -> Seq<ManifestDependencyView>
    decreases ids.len(),
{
    if ids.len() == 0 {
        Seq::empty()
    } else {
        s.summaries[ids[0]].dependencies + declared(s, ids.drop_first())
    }
}

/// The dependencies still to be looked at, in order.
pub open spec fn ahead(s: State) -> Seq<ManifestDependencyView> {
    s.pending + declared(s, s.queue)
}

/// Whether a registry holds packages of the given names only, and answers a query with packages of
/// the name asked for.
pub open spec fn answers_by_name(
    registry: spec_fn(ManifestDependencyView) -> Seq<SummaryView>,
    names: Set<Seq<char>>,
) -> bool {
    forall|dependency: ManifestDependencyView, i: int|
        #![trigger registry(dependency)[i]]
        0 <= i < registry(dependency).len() ==> registry(dependency)[i].package_id.name
            == dependency.name && names.contains(dependency.name)
}

/// Whether the given answers are those of a registry.
pub open spec fn answers_of(
    roots: Seq<SummaryView>,
    order: Seq<PackageIdView>,
    answers: Seq<SummaryView>,
    registry: spec_fn(ManifestDependencyView) -> Seq<SummaryView>,
) -> bool {
    forall|i: int|
        0 <= i < answers.len() ==> {
            let results = registry(
                (#[trigger] explored(roots, order, answers.take(i))).pending[0],
            );
            results.len() > 0 && results[0] == answers[i]
        }
}

/// Whether no two different top-level packages have one name.
pub open spec fn distinct_names(roots: Seq<SummaryView>) -> bool {
    forall|i: int, j: int|
        #![trigger roots[i], roots[j]]
        0 <= i < roots.len() && 0 <= j < roots.len() && roots[i].package_id.name
            == roots[j].package_id.name ==> roots[i].package_id == roots[j].package_id
}

} // verus!
