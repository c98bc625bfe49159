//! What holds of every resolution.
//!
//! The laws speak of the state that a resolution has come to after a conversation with the
//! registry (see [`crate::conversation`]), in whatever order the top-level packages are taken.
//! Several of them hold only if the registry answers every query with a package of the name asked
//! for.

use vstd::prelude::*;

use crate::conversation::{
    ahead, all_chosen, answers_by_name, answers_of, by_name, complaint_of, conversation,
    distinct_names, explored, is_root, lists_roots, provided, reached, satisfied, waits,
};
use crate::exploration::{root_order, root_summaries, ResolveView, State, StepView};
use crate::failure::{FailureView, ResolveErrorView};
use crate::graph::with_node;
use crate::upkeep::{
    lemma_accept_kept, lemma_complaint_of, lemma_complaints, lemma_conversation_shorter,
    lemma_declared_depends_on_summaries, lemma_explored_stops, lemma_kept, lemma_last_answer,
    lemma_provenance, lemma_requirements, lemma_root_maps, lemma_scan, lemma_sound,
    lemma_unique_by_name, lemma_with_node,
};
use crate::package::{ManifestDependencyView, PackageIdView, SourceIdView, SummaryView};
use crate::requirement::verdicts;
use crate::version::semver_matches;
use crate::text::{ascending, law_text_order_is_total, text_order};

verus! {

/// The resolver takes the top-level packages in an order that lists each of them once.
pub proof fn law_root_order_lists_roots(roots: Seq<SummaryView>)
    ensures
        lists_roots(roots, root_order(roots)),
    decreases roots.len(),
{
    if roots.len() > 0 {
        let earlier = roots.drop_last();
        let last = roots.last().package_id;
        law_root_order_lists_roots(earlier);
        lemma_with_node(root_order(earlier), last);
        lemma_root_maps(roots);
        lemma_root_maps(earlier);
        assert(root_summaries(roots) == root_summaries(earlier).insert(last, roots.last()));
        assert forall|id: PackageIdView| #[trigger] root_order(roots).contains(id) <==> is_root(
            roots,
            id,
        ) by {
            assert(root_summaries(roots).contains_key(id) <==> is_root(roots, id));
            assert(root_summaries(earlier).contains_key(id) <==> is_root(earlier, id));
            assert(root_order(earlier).contains(id) <==> is_root(earlier, id));
        }
    }
}

/// A reply that holds packages takes a conversation on by one answer, the first package of the
/// reply.
pub proof fn law_reply_goes_on<E>(
    roots: Seq<SummaryView>,
    order: Seq<PackageIdView>,
    answers: Seq<SummaryView>,
    results: Seq<SummaryView>,
)
    requires
        conversation(roots, order, answers),
        waits(explored(roots, order, answers)),
        results.len() > 0,
    ensures
        conversation(roots, order, answers.push(results[0])),
        explored(roots, order, answers).resume::<E>(Ok(results)) == explored(
            roots,
            order,
            answers.push(results[0]),
        ).outcome::<E>(),
{
    let longer = answers.push(results[0]);
    assert(longer.drop_last() =~= answers);
    assert forall|i: int| 0 <= i < longer.len() implies (#[trigger] explored(
        roots,
        order,
        longer.take(i),
    )).asks() by {
        if i < answers.len() {
            assert(longer.take(i) =~= answers.take(i));
        } else {
            assert(longer.take(i) =~= answers);
        }
    }
}

/// By itself, an exploration leaves behind the dependencies ahead that are settled, up to the first
/// that is not: that one it asks for, or fails on. If all are settled it comes to its end. The
/// result is the number of dependencies left behind.
pub proof fn law_stops_at_first_unsettled(s: State) -> (k: int)
    ensures
        0 <= k <= ahead(s).len(),
        ahead(s.scan()) == ahead(s).skip(k),
        forall|i: int|
            0 <= i < k ==> s.chosen.contains_key((#[trigger] ahead(s)[i]).name)
                && s.chosen[ahead(s)[i].name].source_id == ahead(s)[i].source_id,
        k < ahead(s).len() ==> s.scan().pending.len() > 0 && s.scan().pending[0] == ahead(s)[k] && (
        s.chosen.contains_key(ahead(s)[k].name) ==> s.chosen[ahead(s)[k].name].source_id
            != ahead(s)[k].source_id),
        k == ahead(s).len() ==> s.scan().pending.len() == 0 && s.scan().queue.len() == 0,
    decreases s.queue.len(), s.pending.len(),
{
    if s.pending.len() > 0 {
        if s.settles(s.pending[0]) {
            let t = s.skip();
            lemma_declared_depends_on_summaries(s, t, s.queue);
            let k = law_stops_at_first_unsettled(t);
            assert(ahead(t) =~= ahead(s).skip(1));
            assert(ahead(t).skip(k) =~= ahead(s).skip(k + 1));
            assert forall|i: int| 0 <= i < k + 1 implies provided(s, #[trigger] ahead(s)[i]) by {
                if i > 0 {
                    assert(ahead(t)[i - 1] == ahead(s)[i]);
                    assert(provided(t, ahead(t)[i - 1]));
                }
            }
            if k < ahead(t).len() {
                assert(ahead(t)[k] == ahead(s)[k + 1]);
            }
            k + 1
        } else {
            assert(ahead(s).skip(0) =~= ahead(s));
            0
        }
    } else if s.queue.len() > 0 {
        let t = s.visit();
        lemma_declared_depends_on_summaries(s, t, t.queue);
        let k = law_stops_at_first_unsettled(t);
        assert(ahead(t) =~= ahead(s));
        assert forall|i: int| 0 <= i < k implies provided(s, #[trigger] ahead(s)[i]) by {
            assert(provided(t, ahead(t)[i]));
        }
        k
    } else {
        assert(ahead(s).skip(0) =~= ahead(s));
        0
    }
}

/// In the graph that a resolution comes out with, a package has been chosen for every dependency of
/// every package, it is in the graph, and it will do: name and source are as the dependency asks,
/// and the version satisfies the version requirement.
pub proof fn law_every_dependency_is_met<E>(
    roots: Seq<SummaryView>,
    order: Seq<PackageIdView>,
    answers: Seq<SummaryView>,
    graph: ResolveView,
)
    requires
        conversation(roots, order, answers),
        explored(roots, order, answers).outcome::<E>() == StepView::<E>::Done(Ok(graph)),
    ensures
        ({
            let s = explored(roots, order, answers);
            forall|n: int, d: int|
                #![trigger s.summaries[graph.nodes[n]].dependencies[d]]
                0 <= n < graph.nodes.len() && 0 <= d
                    < s.summaries[graph.nodes[n]].dependencies.len() ==> {
                    let dependency = s.summaries[graph.nodes[n]].dependencies[d];
                    &&& s.chosen.contains_key(dependency.name)
                    &&& graph.nodes.contains(s.chosen[dependency.name])
                    &&& s.chosen[dependency.name].name == dependency.name
                    &&& s.chosen[dependency.name].source_id == dependency.source_id
                    &&& semver_matches(
                        dependency.version_req,
                        s.chosen[dependency.name].version,
                    )
                }
        }),
{
    let s = explored(roots, order, answers);
    lemma_sound(roots, order, answers);
    lemma_explored_stops(roots, order, answers);
    law_conflicts_are_unmet_requirements(s);
    assert forall|n: int, d: int|
        #![trigger s.summaries[graph.nodes[n]].dependencies[d]]
        0 <= n < graph.nodes.len() && 0 <= d
            < s.summaries[graph.nodes[n]].dependencies.len() implies ({
        let dependency = s.summaries[graph.nodes[n]].dependencies[d];
        &&& s.chosen.contains_key(dependency.name)
        &&& graph.nodes.contains(s.chosen[dependency.name])
        &&& satisfied(s, dependency)
    }) by {
        let dependency = s.summaries[s.nodes[n]].dependencies[d];
        assert(s.chosen.contains_key(dependency.name));
        if !satisfied(s, dependency) {
            assert(s.conflicts().contains(complaint_of(s, s.nodes[n], dependency)));
        }
        assert(s.summaries.contains_key(s.chosen[dependency.name]));
    }
}

/// A reply ends a resolution with a graph only if it holds a package, and only if for every
/// dependency of every package in the graph a package has been chosen that is in the graph and has
/// the name and the source that the dependency asks for and a version that satisfies the version
/// requirement.
pub proof fn law_graph_comes_out_of_a_package<E>(
    roots: Seq<SummaryView>,
    order: Seq<PackageIdView>,
    answers: Seq<SummaryView>,
    reply: Result<Seq<SummaryView>, E>,
    graph: ResolveView,
)
    requires
        conversation(roots, order, answers),
        waits(explored(roots, order, answers)),
        explored(roots, order, answers).resume::<E>(reply) == StepView::<E>::Done(Ok(graph)),
    ensures
        reply is Ok,
        reply->Ok_0.len() > 0,
        graph.nodes.contains(reply->Ok_0[0].package_id),
        ({
            let s = explored(roots, order, answers.push(reply->Ok_0[0]));
            forall|n: int, d: int|
                #![trigger s.summaries[graph.nodes[n]].dependencies[d]]
                0 <= n < graph.nodes.len() && 0 <= d
                    < s.summaries[graph.nodes[n]].dependencies.len() ==> {
                    let dependency = s.summaries[graph.nodes[n]].dependencies[d];
                    &&& s.chosen.contains_key(dependency.name)
                    &&& graph.nodes.contains(s.chosen[dependency.name])
                    &&& s.chosen[dependency.name].name == dependency.name
                    &&& s.chosen[dependency.name].source_id == dependency.source_id
                    &&& semver_matches(
                        dependency.version_req,
                        s.chosen[dependency.name].version,
                    )
                }
        }),
{
    let results = reply->Ok_0;
    let longer = answers.push(results[0]);
    law_reply_goes_on::<E>(roots, order, answers, results);
    law_every_dependency_is_met::<E>(roots, order, longer, graph);
    lemma_sound(roots, order, longer);
    lemma_explored_stops(roots, order, longer);
    assert(longer.drop_last() =~= answers);
    lemma_scan(explored(roots, order, answers).accept(results[0]));
    assert(explored(roots, order, longer).summaries.contains_key(results[0].package_id));
}

/// The graph that a resolution comes out with holds all top-level packages.
pub proof fn law_roots_are_resolved<E>(
    roots: Seq<SummaryView>,
    order: Seq<PackageIdView>,
    answers: Seq<SummaryView>,
    graph: ResolveView,
)
    requires
        conversation(roots, order, answers),
        explored(roots, order, answers).outcome::<E>() == StepView::<E>::Done(Ok(graph)),
    ensures
        forall|i: int| 0 <= i < roots.len() ==> graph.nodes.contains(
            (#[trigger] roots[i]).package_id,
        ),
{
    lemma_sound(roots, order, answers);
    lemma_explored_stops(roots, order, answers);
    let s = explored(roots, order, answers);
    assert forall|i: int| 0 <= i < roots.len() implies graph.nodes.contains(
        (#[trigger] roots[i]).package_id,
    ) by {
        assert(is_root(roots, roots[i].package_id));
        assert(s.summaries.contains_key(roots[i].package_id));
    }
}

/// The graph that a resolution comes out with holds nothing that is not needed: every package can
/// be reached from a top-level package along the edges. No package is in it twice, and every edge
/// joins two of its packages.
pub proof fn law_every_package_is_needed<E>(
    roots: Seq<SummaryView>,
    order: Seq<PackageIdView>,
    answers: Seq<SummaryView>,
    graph: ResolveView,
)
    requires
        conversation(roots, order, answers),
        explored(roots, order, answers).outcome::<E>() == StepView::<E>::Done(Ok(graph)),
    ensures
        forall|id: PackageIdView| #[trigger]
            graph.nodes.contains(id) ==> reached(roots, graph.edges, id),
        graph.nodes.no_duplicates(),
        forall|e: (PackageIdView, PackageIdView)| #[trigger]
            graph.edges.contains(e) ==> graph.nodes.contains(e.0) && graph.nodes.contains(e.1),
{
    lemma_sound(roots, order, answers);
    let s = explored(roots, order, answers);
    assert forall|id: PackageIdView| #[trigger] graph.nodes.contains(id) implies reached(
        roots,
        graph.edges,
        id,
    ) by {
        assert(s.summaries.contains_key(id));
    }
}

/// The summary of every package found is one of a top-level package or an answer of the registry.
pub proof fn law_nothing_is_invented(
    roots: Seq<SummaryView>,
    order: Seq<PackageIdView>,
    answers: Seq<SummaryView>,
    id: PackageIdView,
)
    requires
        conversation(roots, order, answers),
        explored(roots, order, answers).nodes.contains(id),
    ensures
        explored(roots, order, answers).summaries[id].package_id == id,
        roots.contains(explored(roots, order, answers).summaries[id]) || answers.contains(
            explored(roots, order, answers).summaries[id],
        ),
{
    lemma_sound(roots, order, answers);
    lemma_provenance(roots, order, answers, id);
}

/// The complaints are exactly those of the packages in the graph about the dependencies for which
/// a package was chosen that will not do.
pub proof fn law_conflicts_are_unmet_requirements(s: State)
    ensures
        forall|n: int, d: int|
            #![trigger s.summaries[s.nodes[n]].dependencies[d]]
            0 <= n < s.nodes.len() && 0 <= d < s.summaries[s.nodes[n]].dependencies.len()
                && !satisfied(s, s.summaries[s.nodes[n]].dependencies[d])
                ==> s.conflicts().contains(
                complaint_of(s, s.nodes[n], s.summaries[s.nodes[n]].dependencies[d]),
            ),
        forall|line: Seq<char>| #[trigger]
            s.conflicts().contains(line) ==> exists|n: int, d: int|
                #![trigger s.summaries[s.nodes[n]].dependencies[d]]
                0 <= n < s.nodes.len() && 0 <= d < s.summaries[s.nodes[n]].dependencies.len()
                    && !satisfied(s, s.summaries[s.nodes[n]].dependencies[d]) && line
                    == complaint_of(s, s.nodes[n], s.summaries[s.nodes[n]].dependencies[d]),
{
    let requirements = s.requirements(s.nodes);
    let met = verdicts(requirements);
    lemma_requirements(s, s.nodes);
    lemma_complaints(requirements, met);
    assert forall|n: int, d: int|
        #![trigger s.summaries[s.nodes[n]].dependencies[d]]
        0 <= n < s.nodes.len() && 0 <= d < s.summaries[s.nodes[n]].dependencies.len()
            && !satisfied(s, s.summaries[s.nodes[n]].dependencies[d]) implies s.conflicts().contains(
        complaint_of(s, s.nodes[n], s.summaries[s.nodes[n]].dependencies[d]),
    ) by {
        let r = s.requirements_of(s.nodes[n])[d];
        lemma_complaint_of(s, s.nodes[n], s.summaries[s.nodes[n]].dependencies[d]);
        let i = requirements.index_of(r);
        assert(requirements.contains(r));
        assert(!met[i]);
        assert(requirements[i].complaint() == r.complaint());
    }
    assert forall|line: Seq<char>| #[trigger] s.conflicts().contains(line) implies exists|
        n: int,
        d: int,
    |
        #![trigger s.summaries[s.nodes[n]].dependencies[d]]
        0 <= n < s.nodes.len() && 0 <= d < s.summaries[s.nodes[n]].dependencies.len() && !satisfied(
            s,
            s.summaries[s.nodes[n]].dependencies[d],
        ) && line == complaint_of(s, s.nodes[n], s.summaries[s.nodes[n]].dependencies[d]) by {
        let i = choose|i: int|
            0 <= i < met.len() && !met[i] && line == #[trigger] requirements[i].complaint();
        let r = requirements[i];
        assert(requirements.contains(r));
        let (n, d) = choose|n: int, d: int|
            #![trigger s.requirements_of(s.nodes[n])[d]]
            0 <= n < s.nodes.len() && 0 <= d < s.summaries[s.nodes[n]].dependencies.len() && r
                == s.requirements_of(s.nodes[n])[d];
        lemma_complaint_of(s, s.nodes[n], s.summaries[s.nodes[n]].dependencies[d]);
        assert(!satisfied(s, s.summaries[s.nodes[n]].dependencies[d]));
    }
}

/// Once everything has been looked at and a package has been chosen for every dependency of the
/// packages in the graph, the graph comes out if all these will do; if one of them will not do, the
/// resolution fails on version requirements, and reports all complaints.
pub proof fn law_version_solving_is_decided_by_requirements<E>(
    roots: Seq<SummaryView>,
    order: Seq<PackageIdView>,
    answers: Seq<SummaryView>,
)
    requires
        explored(roots, order, answers).pending.len() == 0,
        all_chosen(explored(roots, order, answers)),
    ensures
        ({
            let s = explored(roots, order, answers);
            let all_satisfied = forall|n: int, d: int|
                #![trigger s.summaries[s.nodes[n]].dependencies[d]]
                0 <= n < s.nodes.len() && 0 <= d < s.summaries[s.nodes[n]].dependencies.len()
                    ==> satisfied(s, s.summaries[s.nodes[n]].dependencies[d]);
            &&& all_satisfied ==> s.outcome::<E>() == StepView::<E>::Done(Ok(s.graph()))
            &&& !all_satisfied ==> s.outcome::<E>() == StepView::<E>::Done(
                Err(
                    ResolveErrorView::Failure(
                        FailureView::VersionSolving {
                            incompatibilities: ascending(s.conflicts()),
                        },
                    ),
                ),
            )
        }),
{
    let s = explored(roots, order, answers);
    law_conflicts_are_unmet_requirements(s);
    if s.conflicts().len() > 0 {
        assert(s.conflicts().contains(s.conflicts()[0]));
    }
}

/// The report of incompatibilities does not depend on the order in which they were found.
pub proof fn law_report_ignores_order(a: Seq<Seq<char>>, b: Seq<Seq<char>>)
    requires
        a.to_multiset() == b.to_multiset(),
    ensures
        ascending(a) == ascending(b),
{
    law_text_order_is_total();
    a.lemma_sort_by_ensures(text_order());
    b.lemma_sort_by_ensures(text_order());
    vstd::seq_lib::lemma_sorted_unique(ascending(a), ascending(b), text_order());
}

/// If the registry answers every query with a package of the name asked for, a resolution fails on
/// incompatible sources only where two sources are indeed asked for: a package found has the name
/// and comes from the one, and a package in the graph declares a dependency of that name on the
/// other.
pub proof fn law_source_failure_is_justified<E>(
    roots: Seq<SummaryView>,
    order: Seq<PackageIdView>,
    answers: Seq<SummaryView>,
    name: Seq<char>,
    existing: SourceIdView,
    requested: SourceIdView,
)
    requires
        conversation(roots, order, answers),
        by_name(roots, order, answers),
        explored(roots, order, answers).outcome::<E>() == StepView::<E>::Done(
            Err(
                ResolveErrorView::Failure(
                    FailureView::IncompatibleSources { name, existing, requested },
                ),
            ),
        ),
    ensures
        existing != requested,
        exists|id: PackageIdView| #[trigger]
            explored(roots, order, answers).summaries.contains_key(id) && id.name == name
                && id.source_id == existing,
        exists|id: PackageIdView, d: int|
            #![trigger explored(roots, order, answers).summaries[id].dependencies[d]]
            explored(roots, order, answers).nodes.contains(id) && 0 <= d < explored(
                roots,
                order,
                answers,
            ).summaries[id].dependencies.len() && {
                let dependency = explored(roots, order, answers).summaries[id].dependencies[d];
                dependency.name == name && dependency.source_id == requested
            },
{
    let s = explored(roots, order, answers);
    lemma_sound(roots, order, answers);
    lemma_kept(roots, order, answers);
    lemma_explored_stops(roots, order, answers);
    assert(s.summaries.contains_key(s.chosen[name]));
    let id = s.current->0;
    let dependencies = s.summaries[id].dependencies;
    assert(dependencies.contains(s.pending[0]));
    let d = dependencies.index_of(s.pending[0]);
    assert(s.nodes.contains(id) && dependencies[d].name == name && dependencies[d].source_id
        == requested);
}

/// Packages and edges, once in the graph, stay in it, and the packages keep their places.
pub proof fn law_graph_only_grows(
    roots: Seq<SummaryView>,
    order: Seq<PackageIdView>,
    answers: Seq<SummaryView>,
    k: int,
)
    requires
        conversation(roots, order, answers),
        0 <= k <= answers.len(),
    ensures
        explored(roots, order, answers.take(k)).nodes.is_prefix_of(
            explored(roots, order, answers).nodes,
        ),
        explored(roots, order, answers.take(k)).edges.subset_of(
            explored(roots, order, answers).edges,
        ),
    decreases answers.len(),
{
    if k == answers.len() {
        assert(answers.take(k) =~= answers);
    } else {
        let earlier = answers.drop_last();
        lemma_last_answer(roots, order, answers);
        law_graph_only_grows(roots, order, earlier, k);
        assert(earlier.take(k) =~= answers.take(k));
        let s = explored(roots, order, earlier);
        let t = s.accept(answers.last());
        lemma_with_node(s.nodes, s.current->0);
        lemma_with_node(with_node(s.nodes, s.current->0), answers.last().package_id);
        lemma_scan(t);
    }
}

/// An edge is in the graph exactly if it leads from a package to the answer to a query that was
/// made while that package was looked at.
pub proof fn law_edges_are_answered_queries(
    roots: Seq<SummaryView>,
    order: Seq<PackageIdView>,
    answers: Seq<SummaryView>,
    from: PackageIdView,
    to: PackageIdView,
)
    requires
        conversation(roots, order, answers),
    ensures
        explored(roots, order, answers).edges.contains((from, to)) <==> exists|i: int|
            0 <= i < answers.len() && (#[trigger] explored(roots, order, answers.take(i))).current
                == Some(from) && answers[i].package_id == to,
    decreases answers.len(),
{
    if answers.len() == 0 {
        lemma_scan(State::start(roots, order));
    } else {
        let n = answers.len() - 1;
        let earlier = answers.drop_last();
        let s = explored(roots, order, earlier);
        lemma_last_answer(roots, order, answers);
        lemma_sound(roots, order, earlier);
        law_edges_are_answered_queries(roots, order, earlier, from, to);
        lemma_scan(s.accept(answers.last()));
        assert(answers.take(n) =~= earlier);
        if s.edges.contains((from, to)) {
            let i = choose|i: int|
                0 <= i < earlier.len() && (#[trigger] explored(
                    roots,
                    order,
                    earlier.take(i),
                )).current == Some(from) && earlier[i].package_id == to;
            assert(earlier.take(i) =~= answers.take(i));
            assert(explored(roots, order, answers.take(i)).current == Some(from));
        } else if explored(roots, order, answers).edges.contains((from, to)) {
            assert(explored(roots, order, answers.take(n)).current == Some(from));
        }
        if exists|i: int|
            0 <= i < answers.len() && (#[trigger] explored(roots, order, answers.take(i))).current
                == Some(from) && answers[i].package_id == to {
            let i = choose|i: int|
                0 <= i < answers.len() && (#[trigger] explored(
                    roots,
                    order,
                    answers.take(i),
                )).current == Some(from) && answers[i].package_id == to;
            if i < n {
                assert(earlier.take(i) =~= answers.take(i));
                assert(explored(roots, order, earlier.take(i)).current == Some(from));
            }
        }
    }
}

/// If the registry answers every query with a package of the name asked for, at most one edge leads
/// to a package, and none to a top-level package.
pub proof fn law_one_edge_to_each_package(
    roots: Seq<SummaryView>,
    order: Seq<PackageIdView>,
    answers: Seq<SummaryView>,
    a: PackageIdView,
    b: PackageIdView,
    to: PackageIdView,
)
    requires
        conversation(roots, order, answers),
        by_name(roots, order, answers),
        explored(roots, order, answers).edges.contains((a, to)),
    ensures
        explored(roots, order, answers).edges.contains((b, to)) ==> a == b,
        !is_root(roots, to),
    decreases answers.len(),
{
    if answers.len() == 0 {
        lemma_scan(State::start(roots, order));
    } else {
        let earlier = answers.drop_last();
        let s = explored(roots, order, earlier);
        let last = answers.last();
        lemma_last_answer(roots, order, answers);
        lemma_sound(roots, order, earlier);
        lemma_kept(roots, order, earlier);
        lemma_accept_kept(roots, s, last);
        lemma_scan(s.accept(last));
        if to == last.package_id {
            assert(!s.edges.contains((a, to)));
            assert(!s.edges.contains((b, to)));
        } else {
            law_one_edge_to_each_package(roots, order, earlier, a, b, to);
        }
    }
}

/// If the registry answers every query with a package of the name asked for, and no two top-level
/// packages have one name, then the graph holds no two packages of one name.
pub proof fn law_one_package_for_each_name(
    roots: Seq<SummaryView>,
    order: Seq<PackageIdView>,
    answers: Seq<SummaryView>,
    a: PackageIdView,
    b: PackageIdView,
)
    requires
        conversation(roots, order, answers),
        by_name(roots, order, answers),
        distinct_names(roots),
        explored(roots, order, answers).nodes.contains(a),
        explored(roots, order, answers).nodes.contains(b),
        a.name == b.name,
    ensures
        a == b,
{
    lemma_sound(roots, order, answers);
    lemma_unique_by_name(roots, order, answers);
    let s = explored(roots, order, answers);
    assert(s.summaries.contains_key(a));
    assert(s.summaries.contains_key(b));
}

/// If the registry answers every query with a package of the name asked for, the first choice for
/// a name stands: no later answer changes it.
pub proof fn law_first_choice_stands(
    roots: Seq<SummaryView>,
    order: Seq<PackageIdView>,
    answers: Seq<SummaryView>,
    k: int,
    name: Seq<char>,
)
    requires
        conversation(roots, order, answers),
        by_name(roots, order, answers),
        0 <= k <= answers.len(),
        explored(roots, order, answers.take(k)).chosen.contains_key(name),
    ensures
        explored(roots, order, answers).chosen.contains_key(name),
        explored(roots, order, answers).chosen[name] == explored(
            roots,
            order,
            answers.take(k),
        ).chosen[name],
    decreases answers.len(),
{
    if k == answers.len() {
        assert(answers.take(k) =~= answers);
    } else {
        let earlier = answers.drop_last();
        lemma_last_answer(roots, order, answers);
        assert(earlier.take(k) =~= answers.take(k));
        law_first_choice_stands(roots, order, earlier, k, name);
        lemma_scan(explored(roots, order, earlier).accept(answers.last()));
    }
}

/// If the registry answers every query with a package of the name asked for, each answer is chosen
/// for the name asked for.
pub proof fn law_answer_is_chosen(
    roots: Seq<SummaryView>,
    order: Seq<PackageIdView>,
    answers: Seq<SummaryView>,
    i: int,
)
    requires
        conversation(roots, order, answers),
        by_name(roots, order, answers),
        0 <= i < answers.len(),
    ensures
        ({
            let name = explored(roots, order, answers.take(i)).pending[0].name;
            let s = explored(roots, order, answers);
            s.chosen.contains_key(name) && s.chosen[name] == answers[i].package_id
        }),
{
    let next = answers.take(i + 1);
    let s = explored(roots, order, answers.take(i));
    assert(next.drop_last() =~= answers.take(i));
    assert(next.last() == answers[i]);
    assert(answers[i].package_id.name == s.pending[0].name);
    lemma_scan(s.accept(answers[i]));
    law_first_choice_stands(roots, order, answers, i + 1, s.pending[0].name);
}

/// The name of a top-level package is never asked for, if the registry answers every query with a
/// package of the name asked for.
pub proof fn law_roots_are_not_asked_for(
    roots: Seq<SummaryView>,
    order: Seq<PackageIdView>,
    answers: Seq<SummaryView>,
    r: int,
    i: int,
)
    requires
        conversation(roots, order, answers),
        by_name(roots, order, answers),
        0 <= r < roots.len(),
        0 <= i < answers.len(),
    ensures
        explored(roots, order, answers.take(i)).pending[0].name != roots[r].package_id.name,
{
    lemma_conversation_shorter(roots, order, answers, i);
    lemma_sound(roots, order, answers.take(i));
    let s = explored(roots, order, answers.take(i));
    assert(is_root(roots, roots[r].package_id));
    assert(s.summaries.contains_key(roots[r].package_id));
    assert(s.asks());
}

/// If the registry answers every query with a package of the name asked for, no name is asked for
/// twice.
pub proof fn law_no_name_is_asked_for_twice(
    roots: Seq<SummaryView>,
    order: Seq<PackageIdView>,
    answers: Seq<SummaryView>,
    i: int,
    j: int,
)
    requires
        conversation(roots, order, answers),
        by_name(roots, order, answers),
        0 <= i < j < answers.len(),
    ensures
        explored(roots, order, answers.take(i)).pending[0].name != explored(
            roots,
            order,
            answers.take(j),
        ).pending[0].name,
{
    let until = answers.take(j);
    lemma_conversation_shorter(roots, order, answers, j);
    assert(until.take(i) =~= answers.take(i));
    law_answer_is_chosen(roots, order, until, i);
    assert(explored(roots, order, until).asks());
}

/// If the registry answers every query with a package of the name asked for, and there are only so
/// many names, then there are no more queries than names.
pub proof fn law_queries_are_bounded(
    roots: Seq<SummaryView>,
    order: Seq<PackageIdView>,
    answers: Seq<SummaryView>,
    names: Set<Seq<char>>,
)
    requires
        conversation(roots, order, answers),
        by_name(roots, order, answers),
        names.finite(),
        forall|i: int|
            0 <= i < answers.len() ==> names.contains((#[trigger] answers[i]).package_id.name),
    ensures
        answers.len() <= names.len(),
{
    let asked = answers.map_values(|a: SummaryView| a.package_id.name);
    assert forall|i: int, j: int| 0 <= i < j < asked.len() implies asked[i] != asked[j] by {
        law_no_name_is_asked_for_twice(roots, order, answers, i, j);
        assert(answers[i].package_id.name == explored(
            roots,
            order,
            answers.take(i),
        ).pending[0].name);
        assert(answers[j].package_id.name == explored(
            roots,
            order,
            answers.take(j),
        ).pending[0].name);
    }
    assert(asked.no_duplicates());
    asked.unique_seq_to_set();
    assert(asked.to_set().subset_of(names)) by {
        assert forall|name: Seq<char>| #[trigger] asked.to_set().contains(name) implies
            names.contains(name) by {
            let i = asked.index_of(name);
            assert(names.contains(answers[i].package_id.name));
        }
    }
    vstd::set_lib::lemma_len_subset(asked.to_set(), names);
}

/// Every resolution comes to an end: with a registry that answers by name and holds packages of
/// finitely many names, there are answers of the registry after which the resolution asks for
/// nothing, or for something that the registry does not have.
pub proof fn law_every_resolution_ends(
    roots: Seq<SummaryView>,
    order: Seq<PackageIdView>,
    registry: spec_fn(ManifestDependencyView) -> Seq<SummaryView>,
    names: Set<Seq<char>>,
) -> (answers: Seq<SummaryView>)
    requires
        lists_roots(roots, order),
        answers_by_name(registry, names),
        names.finite(),
    ensures
        conversation(roots, order, answers),
        answers_of(roots, order, answers, registry),
        answers.len() <= names.len(),
        waits(explored(roots, order, answers)) ==> registry(
            explored(roots, order, answers).pending[0],
        ).len() == 0,
{
    lemma_resolution_ends(roots, order, registry, names, Seq::empty())
}

proof fn lemma_resolution_ends(
    roots: Seq<SummaryView>,
    order: Seq<PackageIdView>,
    registry: spec_fn(ManifestDependencyView) -> Seq<SummaryView>,
    names: Set<Seq<char>>,
    so_far: Seq<SummaryView>,
) -> (answers: Seq<SummaryView>)
    requires
        conversation(roots, order, so_far),
        by_name(roots, order, so_far),
        answers_of(roots, order, so_far, registry),
        answers_by_name(registry, names),
        names.finite(),
        so_far.len() <= names.len(),
    ensures
        conversation(roots, order, answers),
        answers_of(roots, order, answers, registry),
        answers.len() <= names.len(),
        waits(explored(roots, order, answers)) ==> registry(
            explored(roots, order, answers).pending[0],
        ).len() == 0,
    decreases names.len() - so_far.len(),
{
    let s = explored(roots, order, so_far);
    if s.asks() && registry(s.pending[0]).len() > 0 {
        let results = registry(s.pending[0]);
        let longer = so_far.push(results[0]);
        law_reply_goes_on::<()>(roots, order, so_far, results);
        assert forall|i: int| 0 <= i < longer.len() implies ({
            let e = #[trigger] explored(roots, order, longer.take(i));
            &&& registry(e.pending[0]).len() > 0
            &&& registry(e.pending[0])[0] == longer[i]
            &&& longer[i].package_id.name == e.pending[0].name
            &&& names.contains(longer[i].package_id.name)
        }) by {
            if i < so_far.len() {
                assert(longer.take(i) =~= so_far.take(i));
                let e = explored(roots, order, so_far.take(i));
                assert(registry(e.pending[0])[0] == so_far[i]);
            } else {
                assert(longer.take(i) =~= so_far);
            }
        }
        assert(by_name(roots, order, longer));
        assert forall|i: int| 0 <= i < longer.len() implies names.contains(
            (#[trigger] longer[i]).package_id.name,
        ) by {
            let e = explored(roots, order, longer.take(i));
            assert(registry(e.pending[0])[0] == longer[i]);
        }
        law_queries_are_bounded(roots, order, longer, names);
        lemma_resolution_ends(roots, order, registry, names, longer)
    } else {
        so_far
    }
}

/// If the registry answers every query with a package of the name asked for, a resolution never
/// gets stuck.
pub proof fn law_never_stuck<E>(
    roots: Seq<SummaryView>,
    order: Seq<PackageIdView>,
    answers: Seq<SummaryView>,
)
    requires
        conversation(roots, order, answers),
        by_name(roots, order, answers),
    ensures
        explored(roots, order, answers).outcome::<E>() !is Stuck,
{
    let s = explored(roots, order, answers);
    lemma_kept(roots, order, answers);
    lemma_explored_stops(roots, order, answers);
    if s.pending.len() == 0 {
        assert forall|n: int, d: int|
            #![trigger s.summaries[s.nodes[n]].dependencies[d]]
            0 <= n < s.nodes.len() && 0 <= d
                < s.summaries[s.nodes[n]].dependencies.len() implies s.chosen.contains_key(
            s.summaries[s.nodes[n]].dependencies[d].name,
        ) by {
            assert(s.nodes.contains(s.nodes[n]));
            assert(!s.queue.contains(s.nodes[n]));
            assert(!s.pending.contains(s.summaries[s.nodes[n]].dependencies[d]));
        }
        assert(s.answered());
    }
}

} // verus!
