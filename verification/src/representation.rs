//! What values stand for: how the views of packages, failures and results are read off their
//! fields.

use vstd::prelude::*;
use vstd::std_specs::cmp::PartialEqSpec;

use crate::exploration::StepView;
use crate::failure::{Failure, FailureView, ResolveError, ResolveErrorView};
use crate::graph::{graph_edges, graph_nodes};
use crate::package::{
    dependency_views, summary_views, ManifestDependency, PackageId, PackageIdView, SourceId,
    Summary, SummaryView,
};
use crate::requirement::{requirement_views, Requirement};
use crate::resolver::{package_ids, reply_view, Pending, Resolve, Step};
use crate::text::join_lines;

verus! {

/// Two sources are equal exactly if both the key and the way they are written are.
pub proof fn law_sources_are_told_apart(a: SourceId, b: SourceId)
    ensures
        a@.key == a.key@,
        a@.display == a.display@,
        a.eq_spec(&b) <==> a.key@ == b.key@ && a.display@ == b.display@,
        a@ == b@ <==> a.key@ == b.key@ && a.display@ == b.display@,
{
}

/// Two packages are equal exactly if name, version and source are.
pub proof fn law_packages_are_told_apart(a: PackageId, b: PackageId)
    ensures
        a@.name == a.name@,
        a@.version == a.version@,
        a@.source_id == a.source_id@,
        a.eq_spec(&b) <==> a.name@ == b.name@ && a.version@ == b.version@ && a.source_id.key@
            == b.source_id.key@ && a.source_id.display@ == b.source_id.display@,
        a@ == b@ <==> a.name@ == b.name@ && a.version@ == b.version@ && a.source_id.key@
            == b.source_id.key@ && a.source_id.display@ == b.source_id.display@,
{
}

/// A dependency stands for its name, version requirement and source.
pub proof fn law_dependency_stands_for_its_fields(dependency: ManifestDependency)
    ensures
        dependency@.name == dependency.name@,
        dependency@.version_req == dependency.version_req@,
        dependency@.source_id == dependency.source_id@,
{
}

/// Dependencies stand for what each stands for, in order.
pub proof fn law_dependencies_one_by_one(dependencies: Seq<ManifestDependency>, i: int)
    requires
        0 <= i < dependencies.len(),
    ensures
        dependency_views(dependencies).len() == dependencies.len(),
        dependency_views(dependencies)[i] == dependencies[i]@,
{
}

/// A summary stands for its package and its dependencies, in order.
pub proof fn law_summary_stands_for_its_fields(summary: Summary)
    ensures
        summary@.package_id == summary.package_id@,
        summary@.dependencies.len() == summary.dependencies.len(),
        forall|i: int|
            0 <= i < summary.dependencies.len() ==> #[trigger] summary@.dependencies[i]
                == summary.dependencies@[i]@,
{
}

/// Summaries stand for what each stands for, in order.
pub proof fn law_summaries_one_by_one(summaries: Seq<Summary>, i: int)
    requires
        0 <= i < summaries.len(),
    ensures
        summary_views(summaries).len() == summaries.len(),
        summary_views(summaries)[i] == summaries[i]@,
        package_ids(summaries).len() == summaries.len(),
        package_ids(summaries)[i] == summaries[i].package_id@,
{
}

/// Requirements stand for what each stands for, in order: who declares the dependency, the
/// dependency, and the package chosen for it.
pub proof fn law_requirements_one_by_one(requirements: Seq<Requirement>, i: int)
    requires
        0 <= i < requirements.len(),
    ensures
        requirement_views(requirements).len() == requirements.len(),
        requirement_views(requirements)[i].from == requirements[i].from@,
        requirement_views(requirements)[i].dependency == requirements[i].dependency@,
        requirement_views(requirements)[i].to == requirements[i].to@,
{
}

/// A failure stands for what it tells.
pub proof fn law_failure_stands_for_its_fields(failure: Failure)
    ensures
        failure matches Failure::IncompatibleSources { name, existing, requested } ==> failure@
            == (FailureView::IncompatibleSources {
            name: name@,
            existing: existing@,
            requested: requested@,
        }),
        failure matches Failure::PackageNotFound { name } ==> failure@
            == (FailureView::PackageNotFound { name: name@ }),
        failure matches Failure::VersionSolving { incompatibilities } ==> {
            &&& failure@ is VersionSolving
            &&& failure@->incompatibilities.len() == incompatibilities.len()
            &&& forall|i: int|
                0 <= i < incompatibilities.len() ==> #[trigger] failure@->incompatibilities[i]
                    == incompatibilities@[i]@
        },
{
}

/// The message for a failure on sources tells the name and the two sources; that for a package that
/// was not found tells the name; and that for a failure on versions tells all complaints, one to a
/// line.
pub proof fn law_message_tells_all(failure: FailureView)
    ensures
        failure matches FailureView::IncompatibleSources { name, existing, requested }
            ==> failure.message() == "found dependencies on the same package `"@ + name
            + "` coming from incompatible sources:\nsource 1: "@ + existing.display
            + "\nsource 2: "@ + requested.display + "\n"@,
        failure matches FailureView::PackageNotFound { name } ==> failure.message()
            == "cannot find package "@ + name,
        failure matches FailureView::VersionSolving { incompatibilities } ==> failure.message()
            == "Version solving failed:\n"@ + join_lines(incompatibilities)
            + "\n\nScarb does not have real version solving algorithm yet.\n"@
            + "Perhaps in the future this conflict could be resolved, but currently,\n"@
            + "please upgrade your dependencies to use latest versions of their dependencies.\n"@,
{
}

/// An error stands for the error of the registry that it holds, or for the failure that it holds.
pub proof fn law_error_stands_for_what_it_holds<E>(error: E, failure: Failure)
    ensures
        ResolveError::Registry(error)@ == ResolveErrorView::Registry(error),
        ResolveError::<E>::Failure(failure)@ == ResolveErrorView::<E>::Failure(failure@),
{
}

/// A reply stands for the packages that it holds, in order, or for the error that it holds.
pub proof fn law_reply_stands_for_what_it_holds<E>(results: Vec<Summary>, error: E)
    ensures
        reply_view::<E>(Err(error)) == Err::<Seq<SummaryView>, E>(error),
        reply_view::<E>(Ok(results)) matches Ok(views) && views.len() == results.len() && forall|
            i: int,
        |
            0 <= i < results.len() ==> #[trigger] views[i] == results@[i]@,
{
}

/// A step stands for what it holds.
pub proof fn law_step_stands_for_what_it_holds<E>(
    pending: Pending,
    resolve: Resolve,
    error: ResolveError<E>,
)
    ensures
        Step::<E>::Query(pending)@ == StepView::<E>::Query(pending@),
        Step::<E>::Done(Ok(resolve))@ == StepView::<E>::Done(Ok(resolve@)),
        Step::<E>::Done(Err(error))@ == StepView::<E>::Done(Err(error@)),
        Step::<E>::Stuck@ == StepView::<E>::Stuck,
{
}

/// The packages that come out of a resolution are those that the nodes of the graph are the
/// positions of, in the order of the nodes, and an edge leads from one package to another exactly
/// if an edge of the graph leads from a position of the one to a position of the other.
pub proof fn law_resolve_stands_for_its_graph(
    resolve: Resolve,
    from: PackageIdView,
    to: PackageIdView,
)
    ensures
        resolve@.nodes.len() == graph_nodes(resolve.graph).len(),
        forall|i: int|
            0 <= i < resolve@.nodes.len() && graph_nodes(resolve.graph)[i] < resolve.packages.len()
                ==> #[trigger] resolve@.nodes[i] == resolve.packages@[graph_nodes(
                resolve.graph,
            )[i] as int]@,
        resolve.wf() ==> (resolve@.edges.contains((from, to)) <==> exists|a: usize, b: usize|
            #[trigger]
            graph_edges(resolve.graph).contains((a, b)) && resolve.packages@[a as int]@ == from
                && resolve.packages@[b as int]@ == to),
{
    let ids = resolve.ids();
    let edges = graph_edges(resolve.graph);
    let f = |e: (usize, usize)| (ids[e.0 as int], ids[e.1 as int]);
    if resolve.wf() {
        if resolve@.edges.contains((from, to)) {
            let e = choose|x: (usize, usize)| edges.contains(x) && (from, to) == f(x);
            assert(edges.contains((e.0, e.1)) && resolve.packages@[e.0 as int]@ == from
                && resolve.packages@[e.1 as int]@ == to);
        }
        if exists|a: usize, b: usize| #[trigger]
            edges.contains((a, b)) && resolve.packages@[a as int]@ == from
                && resolve.packages@[b as int]@ == to {
            let (a, b) = choose|a: usize, b: usize| #[trigger]
                edges.contains((a, b)) && resolve.packages@[a as int]@ == from
                    && resolve.packages@[b as int]@ == to;
            assert(f((a, b)) == (from, to));
            assert(edges.contains((a, b)));
        }
    }
}

/// Where packages come out of a resolution, every node of the graph and both ends of every edge are
/// positions of packages, and the packages listed are those in the graph, each listed once.
pub proof fn law_resolved_packages_are_listed_once<E>(step: Step<E>, resolve: Resolve)
    requires
        step.wf(),
        step == Step::<E>::Done(Ok(resolve)),
    ensures
        forall|i: int|
            0 <= i < graph_nodes(resolve.graph).len() ==> #[trigger] graph_nodes(resolve.graph)[i]
                < resolve.packages.len(),
        forall|a: usize, b: usize| #[trigger]
            graph_edges(resolve.graph).contains((a, b)) ==> a < resolve.packages.len() && b
                < resolve.packages.len(),
        forall|i: int, j: int|
            0 <= i < j < resolve.packages.len() ==> (#[trigger] resolve.packages@[i])@ != (
            #[trigger] resolve.packages@[j])@,
        forall|i: int|
            0 <= i < resolve.packages.len() ==> resolve@.nodes.contains(
                (#[trigger] resolve.packages@[i])@,
            ),
{
    let ids = resolve.ids();
    let nodes = graph_nodes(resolve.graph);
    assert forall|i: int| 0 <= i < resolve.packages.len() implies resolve@.nodes.contains(
        (#[trigger] resolve.packages@[i])@,
    ) by {
        let n = i as usize;
        assert(nodes.contains(n));
        assert(resolve@.nodes[nodes.index_of(n)] == ids[i]);
    }
    assert forall|i: int, j: int| 0 <= i < j < resolve.packages.len() implies (
    #[trigger] resolve.packages@[i])@ != (#[trigger] resolve.packages@[j])@ by {
        assert(ids[i] != ids[j]);
    }
}

} // verus!
