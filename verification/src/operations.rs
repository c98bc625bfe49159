//! What each step of a resolution does to the packages found, the choices made and the
//! dependencies still ahead.

use vstd::prelude::*;

use crate::conversation::{ahead, complaint_of, declared, is_root, satisfied, waits};
use crate::exploration::{root_choice, root_order, root_summaries, ResolveView, State, StepView};
use crate::failure::{FailureView, ResolveErrorView};
use crate::graph::with_node;
use crate::laws::{
    law_conflicts_are_unmet_requirements, law_root_order_lists_roots, law_stops_at_first_unsettled,
};
use crate::package::{ManifestDependencyView, PackageIdView, SummaryView};
use crate::requirement::{complaints, verdicts, RequirementView};
use crate::text::{ascending, law_ascending_is_sorted, text_le};
use crate::upkeep::{lemma_complaint_of, lemma_queue_first, lemma_scan, lemma_with_node};
use crate::version::semver_matches;

verus! {

/// A node is added behind the others, and only if it is not there already.
pub proof fn law_node_is_added_once(nodes: Seq<PackageIdView>, node: PackageIdView)
    ensures
        nodes.contains(node) ==> with_node(nodes, node) == nodes,
        !nodes.contains(node) ==> with_node(nodes, node).len() == nodes.len() + 1
            && with_node(nodes, node).drop_last() == nodes && with_node(nodes, node).last() == node,
{
    if !nodes.contains(node) {
        assert(with_node(nodes, node).drop_last() =~= nodes);
    }
}

/// The given nodes, and then the packages of `ids` that are not among them, each once, in order.
pub open spec fn joined(nodes: Seq<PackageIdView>, ids: Seq<PackageIdView>) -> Seq<PackageIdView>
    decreases ids.len(),
{
    if ids.len() == 0 {
        nodes
    } else if nodes.contains(ids[0]) {
        joined(nodes, ids.drop_first())
    } else {
        joined(nodes.push(ids[0]), ids.drop_first())
    }
}

/// What a package declares comes behind what the packages before it declare.
pub(crate) proof fn lemma_declared_push(s: State, ids: Seq<PackageIdView>, last: PackageIdView)
    ensures
        declared(s, ids.push(last)) == declared(s, ids) + s.summaries[last].dependencies,
    decreases ids.len(),
{
    let longer = ids.push(last);
    if ids.len() == 0 {
        assert(longer.drop_first() =~= ids);
        assert(declared(s, longer) =~= declared(s, ids) + s.summaries[last].dependencies);
    } else {
        lemma_declared_push(s, ids.drop_first(), last);
        assert(longer.drop_first() =~= ids.drop_first().push(last));
        assert(declared(s, longer) =~= declared(s, ids) + s.summaries[last].dependencies);
    }
}

/// What packages declare does not depend on the summaries of others.
pub(crate) proof fn lemma_declared_elsewhere(s: State, t: State, ids: Seq<PackageIdView>)
    requires
        forall|id: PackageIdView| #[trigger] ids.contains(id) ==> s.summaries[id] == t.summaries[id],
    ensures
        declared(s, ids) == declared(t, ids),
    decreases ids.len(),
{
    if ids.len() > 0 {
        lemma_queue_first(ids);
        lemma_declared_elsewhere(s, t, ids.drop_first());
    }
}

/// First found, first looked at: the dependencies of a package found anew come behind everything
/// that was ahead, and the dependency that it answers is ahead no more.
pub proof fn law_answer_comes_behind_what_is_ahead(s: State, answer: SummaryView)
    requires
        s.pending.len() > 0,
        !s.summaries.contains_key(answer.package_id),
        forall|id: PackageIdView| #[trigger] s.queue.contains(id) ==> s.summaries.contains_key(id),
    ensures
        ahead(s.accept(answer)) == ahead(s).drop_first() + answer.dependencies,
{
    let t = s.accept(answer);
    lemma_declared_push(t, s.queue, answer.package_id);
    lemma_declared_elsewhere(s, t, s.queue);
    assert(t.queue =~= s.queue.push(answer.package_id));
    assert(ahead(t) =~= ahead(s).drop_first() + answer.dependencies);
}

/// Whatever package answers a dependency, found before or not: it is looked at after all others
/// that wait, of the pending dependencies just the first is done with, and the package being looked
/// at stays the same.
pub proof fn law_answer_waits_its_turn(s: State, answer: SummaryView)
    requires
        s.pending.len() > 0,
    ensures
        s.accept(answer).queue.len() == s.queue.len() + 1,
        s.accept(answer).queue.drop_last() == s.queue,
        s.accept(answer).queue.last() == answer.package_id,
        s.accept(answer).pending == s.pending.drop_first(),
        s.accept(answer).current == s.current,
{
    assert(s.accept(answer).queue.drop_last() =~= s.queue);
}

/// An answer is chosen for its own name, and its summary recorded for its package; the choices for
/// all other names and the summaries of all other packages stay.
pub proof fn law_answer_is_recorded(
    s: State,
    answer: SummaryView,
    name: Seq<char>,
    id: PackageIdView,
)
    ensures
        s.accept(answer).chosen.contains_key(answer.package_id.name),
        s.accept(answer).chosen[answer.package_id.name] == answer.package_id,
        name != answer.package_id.name ==> (s.accept(answer).chosen.contains_key(name)
            <==> s.chosen.contains_key(name)) && s.accept(answer).chosen[name] == s.chosen[name],
        s.accept(answer).summaries.contains_key(answer.package_id),
        s.accept(answer).summaries[answer.package_id] == answer,
        id != answer.package_id ==> (s.accept(answer).summaries.contains_key(id)
            <==> s.summaries.contains_key(id)) && s.accept(answer).summaries[id] == s.summaries[id],
{
}

/// An answer joins the graph by one edge, from the package being looked at; no other edge and no
/// other package joins it.
pub proof fn law_answer_joins_the_graph(
    s: State,
    answer: SummaryView,
    from: PackageIdView,
    id: PackageIdView,
    edge: (PackageIdView, PackageIdView),
)
    requires
        s.current == Some(from),
    ensures
        s.accept(answer).edges.contains(edge) <==> s.edges.contains(edge) || edge == (
            from,
            answer.package_id,
        ),
        s.accept(answer).nodes.contains(id) <==> s.nodes.contains(id) || id == from || id
            == answer.package_id,
        s.accept(answer).nodes == joined(s.nodes, seq![from, answer.package_id]),
        s.nodes.is_prefix_of(s.accept(answer).nodes),
        s.nodes.no_duplicates() ==> s.accept(answer).nodes.no_duplicates(),
{
    reveal_with_fuel(joined, 3);
    assert(seq![from, answer.package_id].drop_first() =~= seq![answer.package_id]);
    lemma_with_node(s.nodes, from);
    lemma_with_node(with_node(s.nodes, from), answer.package_id);
}

/// By itself, an exploration turns to the packages of the queue one after the other, first come
/// first. Those it has turned to, and no others, have become part of the graph. It looks at the
/// dependencies of the last of them, in order; before it turns to another it has looked at all.
/// Choices, summaries and edges stay. The result is the number of packages turned to, and the
/// number of dependencies of the last of them that are left behind.
pub proof fn law_turns_to_packages_in_order(s: State) -> (r: (int, int))
    ensures
        0 <= r.0 <= s.queue.len(),
        s.scan().queue == s.queue.skip(r.0),
        r.0 == 0 ==> s.scan().current == s.current && 0 <= r.1 <= s.pending.len()
            && s.scan().pending == s.pending.skip(r.1),
        r.0 > 0 ==> s.scan().current == Some(s.queue[r.0 - 1]) && 0 <= r.1
            <= s.summaries[s.queue[r.0 - 1]].dependencies.len() && s.scan().pending
            == s.summaries[s.queue[r.0 - 1]].dependencies.skip(r.1),
        s.scan().pending.len() > 0 && s.chosen.contains_key(s.scan().pending[0].name)
            ==> s.chosen[s.scan().pending[0].name].source_id != s.scan().pending[0].source_id,
        s.scan().pending.len() == 0 ==> r.0 == s.queue.len(),
        s.scan().exhausted() <==> s.scan().pending.len() == 0 && s.scan().queue.len() == 0,
        s.scan().chosen == s.chosen,
        s.scan().summaries == s.summaries,
        s.scan().edges == s.edges,
        s.scan().nodes == joined(s.nodes, s.queue.take(r.0)),
        s.nodes.is_prefix_of(s.scan().nodes),
        s.nodes.no_duplicates() ==> s.scan().nodes.no_duplicates(),
        forall|id: PackageIdView| #[trigger]
            s.scan().nodes.contains(id) <==> s.nodes.contains(id) || s.queue.take(r.0).contains(id),
    decreases s.queue.len(), s.pending.len(),
{
    if s.pending.len() > 0 {
        if s.settles(s.pending[0]) {
            let t = s.skip();
            let r = law_turns_to_packages_in_order(t);
            if r.0 == 0 {
                assert(t.pending.skip(r.1) =~= s.pending.skip(r.1 + 1));
                (0, r.1 + 1)
            } else {
                r
            }
        } else {
            assert(s.queue.skip(0) =~= s.queue);
            assert(s.pending.skip(0) =~= s.pending);
            (0, 0)
        }
    } else if s.queue.len() > 0 {
        let t = s.visit();
        let r = law_turns_to_packages_in_order(t);
        let id = s.queue[0];
        lemma_with_node(s.nodes, id);
        assert(t.queue.skip(r.0) =~= s.queue.skip(r.0 + 1));
        assert(s.queue.take(r.0 + 1).drop_first() =~= t.queue.take(r.0));
        assert forall|x: PackageIdView| #[trigger] s.scan().nodes.contains(x) <==> s.nodes.contains(
            x,
        ) || s.queue.take(r.0 + 1).contains(x) by {
            let front = s.queue.take(r.0 + 1);
            assert(front[0] == id);
            lemma_queue_first(front);
            assert(t.scan().nodes.contains(x) <==> t.nodes.contains(x) || t.queue.take(
                r.0,
            ).contains(x));
        }
        (r.0 + 1, r.1)
    } else {
        assert(s.queue.skip(0) =~= s.queue);
        assert(s.pending.skip(0) =~= s.pending);
        (0, 0)
    }
}

/// The first dependency ahead for which no package of its source has been chosen decides what the
/// resolution comes to by itself: if no package of its name has been chosen it is asked for, and if
/// one from another source has been chosen the resolution fails on the two sources.
pub proof fn law_first_unprovided_decides<E>(s: State, k: int)
    requires
        0 <= k < ahead(s).len(),
        forall|i: int|
            0 <= i < k ==> s.chosen.contains_key((#[trigger] ahead(s)[i]).name)
                && s.chosen[ahead(s)[i].name].source_id == ahead(s)[i].source_id,
        s.chosen.contains_key(ahead(s)[k].name) ==> s.chosen[ahead(s)[k].name].source_id
            != ahead(s)[k].source_id,
    ensures
        ({
            let dependency = ahead(s)[k];
            let t = s.scan();
            &&& !s.chosen.contains_key(dependency.name) ==> {
                &&& t.outcome::<E>() == StepView::<E>::Query(t)
                &&& t.pending.len() > 0
                &&& t.pending[0] == dependency
                &&& ahead(t) == ahead(s).skip(k)
            }
            &&& s.chosen.contains_key(dependency.name) ==> t.outcome::<E>() == StepView::<E>::Done(
                Err(
                    ResolveErrorView::Failure(
                        FailureView::IncompatibleSources {
                            name: dependency.name,
                            existing: s.chosen[dependency.name].source_id,
                            requested: dependency.source_id,
                        },
                    ),
                ),
            )
        }),
{
    let at = law_stops_at_first_unsettled(s);
    lemma_scan(s);
    if at < k {
        assert(s.chosen.contains_key(ahead(s)[at].name));
    }
    if k < at {
        assert(s.chosen.contains_key(ahead(s)[k].name));
    }
}

/// A resolution waits for the registry exactly if there is a pending dependency whose name no
/// package has been chosen for.
pub proof fn law_query_means_waiting<E>(s: State)
    ensures
        s.outcome::<E>() is Query <==> s.pending.len() > 0 && !s.chosen.contains_key(
            s.pending[0].name,
        ),
        s.asks() <==> s.pending.len() > 0 && !s.chosen.contains_key(s.pending[0].name),
        waits(s) <==> s.pending.len() > 0 && !s.chosen.contains_key(s.pending[0].name),
        s.outcome::<E>() matches StepView::Query(t) ==> t == s,
{
}

/// A resolution fails on sources exactly if a package has been chosen for the name of the first
/// pending dependency; the failure tells the name, the source of that package, and the source that
/// the dependency asks for.
pub proof fn law_failure_on_sources<E>(s: State)
    ensures
        s.outcome::<E>() matches StepView::Done(
            Err(
                ResolveErrorView::Failure(
                    FailureView::IncompatibleSources { name, existing, requested },
                ),
            ),
        ) ==> s.pending.len() > 0 && s.chosen.contains_key(name) && name == s.pending[0].name
            && existing == s.chosen[name].source_id && requested == s.pending[0].source_id,
        s.pending.len() > 0 && s.chosen.contains_key(s.pending[0].name) ==> s.outcome::<E>()
            == StepView::<E>::Done(
            Err(
                ResolveErrorView::Failure(
                    FailureView::IncompatibleSources {
                        name: s.pending[0].name,
                        existing: s.chosen[s.pending[0].name].source_id,
                        requested: s.pending[0].source_id,
                    },
                ),
            ),
        ),
{
}

/// Where nothing is pending, a resolution is stuck exactly if no package has been chosen for the
/// name of some dependency of the packages in the graph. Otherwise it comes out with the graph, all
/// of it and nothing else, exactly if every package chosen has the name and the source that the
/// dependency asks for and a version that satisfies the version requirement; and if not, it fails on
/// versions.
pub proof fn law_end_of_resolution<E>(s: State)
    requires
        s.pending.len() == 0,
    ensures
        ({
            let chosen = forall|n: int, d: int|
                #![trigger s.summaries[s.nodes[n]].dependencies[d]]
                0 <= n < s.nodes.len() && 0 <= d < s.summaries[s.nodes[n]].dependencies.len()
                    ==> s.chosen.contains_key(s.summaries[s.nodes[n]].dependencies[d].name);
            let will_do = forall|n: int, d: int|
                #![trigger s.summaries[s.nodes[n]].dependencies[d]]
                0 <= n < s.nodes.len() && 0 <= d < s.summaries[s.nodes[n]].dependencies.len() ==> {
                    let dependency = s.summaries[s.nodes[n]].dependencies[d];
                    let to = s.chosen[dependency.name];
                    &&& to.name == dependency.name
                    &&& to.source_id == dependency.source_id
                    &&& semver_matches(dependency.version_req, to.version)
                };
            &&& s.outcome::<E>() is Stuck <==> !chosen
            &&& chosen && will_do ==> s.outcome::<E>() == StepView::<E>::Done(
                Ok(ResolveView { nodes: s.nodes, edges: s.edges }),
            )
            &&& chosen && !will_do ==> (s.outcome::<E>() matches StepView::Done(
                Err(ResolveErrorView::Failure(FailureView::VersionSolving { incompatibilities })),
            ) && incompatibilities.len() > 0)
        }),
{
    let will_do = forall|n: int, d: int|
        #![trigger s.summaries[s.nodes[n]].dependencies[d]]
        0 <= n < s.nodes.len() && 0 <= d < s.summaries[s.nodes[n]].dependencies.len() ==> satisfied(
            s,
            s.summaries[s.nodes[n]].dependencies[d],
        );
    law_conflicts_are_unmet_requirements(s);
    law_ascending_is_sorted(s.conflicts());
    if s.conflicts().len() > 0 {
        assert(s.conflicts().contains(s.conflicts()[0]));
    }
    if s.answered() && will_do {
        assert(s.conflicts().len() == 0);
    }
    if s.answered() && !will_do {
        assert(s.conflicts().len() > 0);
        broadcast use vstd::seq_lib::group_to_multiset_ensures;

        assert(ascending(s.conflicts()).to_multiset().len() == s.conflicts().to_multiset().len());
    }
}

/// The dependencies, by package and position, that call for the given line in a report.
pub open spec fn calling_for(s: State, line: Seq<char>) -> Set<(int, int)> {
    Set::new(
        |p: (int, int)|
            {
                &&& 0 <= p.0 < s.nodes.len()
                &&& 0 <= p.1 < s.summaries[s.nodes[p.0]].dependencies.len()
                &&& !satisfied(s, s.summaries[s.nodes[p.0]].dependencies[p.1])
                &&& line == complaint_of(
                    s,
                    s.nodes[p.0],
                    s.summaries[s.nodes[p.0]].dependencies[p.1],
                )
            },
    )
}

/// The complaints of the first `k` of some packages, and of the first `m` dependencies of the next.
spec fn partial_conflicts(s: State, k: int, m: int) -> Seq<Seq<char>> {
    let requirements = s.requirements(s.nodes.take(k)) + (if m > 0 {
        s.requirements_of(s.nodes[k]).take(m)
    } else {
        Seq::empty()
    });
    complaints(requirements, verdicts(requirements))
}

/// The dependencies among them that call for the given line.
spec fn partly_calling_for(s: State, line: Seq<char>, k: int, m: int) -> Set<(int, int)> {
    calling_for(s, line).filter(|p: (int, int)| p.0 < k || p.0 == k && p.1 < m)
}

proof fn lemma_count(s: State, line: Seq<char>, k: int, m: int)
    requires
        0 <= k <= s.nodes.len(),
        0 <= m,
        m > 0 ==> k < s.nodes.len() && m <= s.summaries[s.nodes[k]].dependencies.len(),
    ensures
        partly_calling_for(s, line, k, m).finite(),
        partial_conflicts(s, k, m).to_multiset().count(line) == partly_calling_for(
            s,
            line,
            k,
            m,
        ).len(),
    decreases k, m,
{
    broadcast use vstd::seq_lib::group_to_multiset_ensures;

    let calling = partly_calling_for(s, line, k, m);
    if m > 0 {
        let id = s.nodes[k];
        let dependency = s.summaries[id].dependencies[m - 1];
        let before = s.requirements(s.nodes.take(k)) + (if m - 1 > 0 {
            s.requirements_of(id).take(m - 1)
        } else {
            Seq::empty()
        });
        let after = s.requirements(s.nodes.take(k)) + s.requirements_of(id).take(m);
        let earlier = partly_calling_for(s, line, k, m - 1);
        lemma_count(s, line, k, m - 1);
        lemma_complaint_of(s, id, dependency);
        assert(after =~= before.push(s.requirements_of(id)[m - 1]));
        assert(after.drop_last() =~= before);
        assert(verdicts(after).drop_last() =~= verdicts(before));
        assert(after.last().complaint() == complaint_of(s, id, dependency));
        assert(verdicts(after).last() == satisfied(s, dependency));
        if !satisfied(s, dependency) && line == complaint_of(s, id, dependency) {
            assert(calling =~= earlier.insert((k, m - 1)));
            assert(!earlier.contains((k, m - 1)));
        } else {
            assert(calling =~= earlier);
        }
    } else if k > 0 {
        let id = s.nodes[k - 1];
        let all = s.summaries[id].dependencies.len() as int;
        lemma_count(s, line, k - 1, all);
        assert(s.nodes.take(k).drop_last() =~= s.nodes.take(k - 1));
        assert(s.requirements_of(id).take(all) =~= s.requirements_of(id));
        assert(partial_conflicts(s, k, 0) == partial_conflicts(s, k - 1, all)) by {
            let own = s.requirements(s.nodes.take(k));
            assert(own + Seq::empty() =~= own);
            if all == 0 {
                assert(s.requirements_of(id) =~= Seq::empty());
            }
        }
        assert(calling =~= partly_calling_for(s, line, k - 1, all));
    } else {
        assert(calling =~= Set::empty());
        let none = s.requirements(s.nodes.take(0)) + Seq::<RequirementView>::empty();
        assert(none.len() == 0);
        assert(partial_conflicts(s, 0, 0) =~= Seq::empty());
    }
}

/// A failure on versions reports one line for each dependency that the package chosen for it will
/// not do for, no more and no less, and the lines stand in ascending order.
pub proof fn law_report_counts_every_dependency<E>(
    s: State,
    incompatibilities: Seq<Seq<char>>,
    line: Seq<char>,
)
    requires
        s.outcome::<E>() == StepView::<E>::Done(
            Err(ResolveErrorView::Failure(FailureView::VersionSolving { incompatibilities })),
        ),
    ensures
        calling_for(s, line).finite(),
        incompatibilities.to_multiset().count(line) == calling_for(s, line).len(),
        forall|i: int, j: int|
            0 <= i < j < incompatibilities.len() ==> text_le(
                #[trigger] incompatibilities[i],
                #[trigger] incompatibilities[j],
            ),
{
    let all = s.nodes.len() as int;
    law_ascending_is_sorted(s.conflicts());
    lemma_count(s, line, all, 0);
    assert(s.nodes.take(all) =~= s.nodes);
    assert(s.requirements(s.nodes) + Seq::empty() =~= s.requirements(s.nodes));
    assert(partly_calling_for(s, line, all, 0) =~= calling_for(s, line));
}

/// An error of the registry ends the resolution with that error, however far it has come.
pub proof fn law_registry_error_ends_resolution<E>(s: State, error: E)
    ensures
        s.resume::<E>(Err(error)) == StepView::<E>::Done(Err(ResolveErrorView::Registry(error))),
{
}

/// If the registry has no package for the dependency asked for, the resolution ends, however far it
/// has come, and the failure tells the name of that dependency.
pub proof fn law_empty_reply_ends_resolution<E>(s: State, results: Seq<SummaryView>)
    requires
        s.pending.len() > 0,
        results.len() == 0,
    ensures
        s.resume::<E>(Ok(results)) == StepView::<E>::Done(
            Err(
                ResolveErrorView::Failure(FailureView::PackageNotFound { name: s.pending[0].name }),
            ),
        ),
{
}

/// A resolution that waits for the registry goes on, comes out with a graph, or fails on sources or
/// versions only if the registry replies with a package.
pub proof fn law_only_packages_lead_on<E>(s: State, reply: Result<Seq<SummaryView>, E>)
    requires
        match s.resume::<E>(reply) {
            StepView::Done(Err(ResolveErrorView::Registry(_))) => false,
            StepView::Done(
                Err(ResolveErrorView::Failure(FailureView::PackageNotFound { .. })),
            ) => false,
            _ => true,
        },
    ensures
        reply matches Ok(results) && results.len() > 0,
{
}

/// A reply with packages is no failure of the registry: the resolution neither reports that a
/// package was not found nor an error of the registry.
pub proof fn law_packages_are_no_registry_failure<E>(s: State, results: Seq<SummaryView>)
    requires
        results.len() > 0,
    ensures
        match s.resume::<E>(Ok(results)) {
            StepView::Done(Err(ResolveErrorView::Registry(_))) => false,
            StepView::Done(
                Err(ResolveErrorView::Failure(FailureView::PackageNotFound { .. })),
            ) => false,
            _ => true,
        },
{
}

/// Of a reply only the first package counts.
pub proof fn law_first_result_counts<E>(s: State, a: Seq<SummaryView>, b: Seq<SummaryView>)
    requires
        a.len() > 0,
        b.len() > 0,
        a[0] == b[0],
    ensures
        s.resume::<E>(Ok(a)) == s.resume::<E>(Ok(b)),
{
}

/// Whether, once `answer` has been taken in, the package chosen for the name of a dependency comes
/// from the source that the dependency asks for.
pub open spec fn provided_after(
    s: State,
    answer: SummaryView,
    dependency: ManifestDependencyView,
) -> bool {
    if dependency.name == answer.package_id.name {
        answer.package_id.source_id == dependency.source_id
    } else {
        s.chosen.contains_key(dependency.name) && s.chosen[dependency.name].source_id
            == dependency.source_id
    }
}

/// What a resolution comes to by the answer of a package found anew: the dependencies ahead are
/// looked at in order, and those of the package behind them all. The first for which no package of
/// its source has been chosen is asked for if no package of its name has been chosen, and the
/// resolution fails on it if one of another source has been chosen.
pub proof fn law_answer_leads_to_next_query<E>(s: State, results: Seq<SummaryView>, k: int)
    requires
        s.pending.len() > 0,
        results.len() > 0,
        !s.summaries.contains_key(results[0].package_id),
        forall|id: PackageIdView| #[trigger] s.queue.contains(id) ==> s.summaries.contains_key(id),
        ({
            let rest = ahead(s).drop_first() + results[0].dependencies;
            &&& 0 <= k < rest.len()
            &&& forall|i: int| 0 <= i < k ==> provided_after(s, results[0], #[trigger] rest[i])
            &&& !provided_after(s, results[0], rest[k])
        }),
    ensures
        ({
            let answer = results[0];
            let dependency = (ahead(s).drop_first() + answer.dependencies)[k];
            let step = s.resume::<E>(Ok(results));
            if dependency.name == answer.package_id.name {
                step == StepView::<E>::Done(
                    Err(
                        ResolveErrorView::Failure(
                            FailureView::IncompatibleSources {
                                name: dependency.name,
                                existing: answer.package_id.source_id,
                                requested: dependency.source_id,
                            },
                        ),
                    ),
                )
            } else if s.chosen.contains_key(dependency.name) {
                step == StepView::<E>::Done(
                    Err(
                        ResolveErrorView::Failure(
                            FailureView::IncompatibleSources {
                                name: dependency.name,
                                existing: s.chosen[dependency.name].source_id,
                                requested: dependency.source_id,
                            },
                        ),
                    ),
                )
            } else {
                &&& step is Query
                &&& step->Query_0.pending.len() > 0
                &&& step->Query_0.pending[0] == dependency
                &&& ahead(step->Query_0) == (ahead(s).drop_first() + answer.dependencies).skip(k)
            }
        }),
{
    let answer = results[0];
    let t = s.accept(answer);
    let rest = ahead(s).drop_first() + answer.dependencies;
    law_answer_comes_behind_what_is_ahead(s, answer);
    assert forall|i: int| 0 <= i < k implies t.chosen.contains_key((#[trigger] ahead(t)[i]).name)
        && t.chosen[ahead(t)[i].name].source_id == ahead(t)[i].source_id by {
        assert(provided_after(s, answer, rest[i]));
    }
    law_first_unprovided_decides::<E>(t, k);
}

/// If, once an answer has been taken in, no dependency ahead is left to be asked for and none asks
/// for another source, the resolution is over: it neither waits nor fails on sources.
pub proof fn law_answer_leads_to_end<E>(s: State, results: Seq<SummaryView>)
    requires
        s.pending.len() > 0,
        results.len() > 0,
        !s.summaries.contains_key(results[0].package_id),
        forall|id: PackageIdView| #[trigger] s.queue.contains(id) ==> s.summaries.contains_key(id),
        ({
            let rest = ahead(s).drop_first() + results[0].dependencies;
            forall|i: int|
                0 <= i < rest.len() ==> provided_after(s, results[0], #[trigger] rest[i])
        }),
    ensures
        ({
            let t = s.accept(results[0]).scan();
            &&& t.pending.len() == 0
            &&& t.queue.len() == 0
            &&& s.resume::<E>(Ok(results)) == t.outcome::<E>()
        }),
{
    let answer = results[0];
    let t = s.accept(answer);
    let rest = ahead(s).drop_first() + answer.dependencies;
    law_answer_comes_behind_what_is_ahead(s, answer);
    let k = law_stops_at_first_unsettled(t);
    if k < ahead(t).len() {
        assert(provided_after(s, answer, rest[k]));
    }
}

/// What packages require of each other is told package by package, and of each package dependency
/// by dependency: who declares it, what it asks for, and which package was chosen for its name.
pub proof fn law_requirements_add_up(
    s: State,
    a: Seq<PackageIdView>,
    b: Seq<PackageIdView>,
    id: PackageIdView,
    d: int,
)
    requires
        0 <= d < s.summaries[id].dependencies.len(),
    ensures
        s.requirements(a + b) == s.requirements(a) + s.requirements(b),
        s.requirements(seq![id]).len() == s.summaries[id].dependencies.len(),
        s.requirements(seq![id])[d].from == id,
        s.requirements(seq![id])[d].dependency == s.summaries[id].dependencies[d],
        s.requirements(seq![id])[d].to == s.chosen[s.summaries[id].dependencies[d].name],
        s.requirements_of(id) == s.requirements(seq![id]),
    decreases b.len(),
{
    reveal_with_fuel(State::requirements, 2);
    assert(seq![id].drop_last() =~= Seq::empty());
    assert(s.requirements(seq![id]) =~= s.requirements_of(id));
    if b.len() == 0 {
        assert(a + b =~= a);
        assert(s.requirements(a) + s.requirements(b) =~= s.requirements(a));
    } else {
        law_requirements_add_up(s, a, b.drop_last(), id, d);
        assert((a + b).drop_last() =~= a + b.drop_last());
        assert(s.requirements(a + b) =~= s.requirements(a) + s.requirements(b));
    }
}

/// Of the top-level packages of one name the last is chosen for it.
pub proof fn law_last_root_is_chosen(roots: Seq<SummaryView>, i: int)
    requires
        0 <= i < roots.len(),
        forall|j: int|
            i < j < roots.len() ==> (#[trigger] roots[j]).package_id.name
                != roots[i].package_id.name,
    ensures
        root_choice(roots).contains_key(roots[i].package_id.name),
        root_choice(roots)[roots[i].package_id.name] == roots[i].package_id,
    decreases roots.len(),
{
    if i < roots.len() - 1 {
        law_last_root_is_chosen(roots.drop_last(), i);
        assert(roots[roots.len() - 1].package_id.name != roots[i].package_id.name);
    }
}

/// To begin with, no package is chosen for a name that no top-level package has.
pub proof fn law_only_roots_are_chosen(roots: Seq<SummaryView>, name: Seq<char>)
    requires
        forall|j: int| 0 <= j < roots.len() ==> (#[trigger] roots[j]).package_id.name != name,
    ensures
        !root_choice(roots).contains_key(name),
    decreases roots.len(),
{
    if roots.len() > 0 {
        assert(roots[roots.len() - 1].package_id.name != name);
        law_only_roots_are_chosen(roots.drop_last(), name);
    }
}

/// Of several summaries of one top-level package the last one counts.
pub proof fn law_last_summary_counts(roots: Seq<SummaryView>, i: int)
    requires
        0 <= i < roots.len(),
        forall|j: int|
            i < j < roots.len() ==> (#[trigger] roots[j]).package_id != roots[i].package_id,
    ensures
        root_summaries(roots).contains_key(roots[i].package_id),
        root_summaries(roots)[roots[i].package_id] == roots[i],
    decreases roots.len(),
{
    if i < roots.len() - 1 {
        law_last_summary_counts(roots.drop_last(), i);
        assert(roots[roots.len() - 1].package_id != roots[i].package_id);
    }
}

/// To begin with, there are summaries of top-level packages only.
pub proof fn law_only_roots_have_summaries(roots: Seq<SummaryView>, id: PackageIdView)
    requires
        forall|j: int| 0 <= j < roots.len() ==> (#[trigger] roots[j]).package_id != id,
    ensures
        !root_summaries(roots).contains_key(id),
    decreases roots.len(),
{
    if roots.len() > 0 {
        assert(roots[roots.len() - 1].package_id != id);
        law_only_roots_have_summaries(roots.drop_last(), id);
    }
}

/// The top-level packages are taken in the order in which they are first given: more of them at the
/// end change nothing about the order of those before.
pub proof fn law_roots_are_taken_in_order(roots: Seq<SummaryView>, k: int)
    requires
        0 <= k <= roots.len(),
    ensures
        root_order(roots.take(k)).is_prefix_of(root_order(roots)),
    decreases roots.len(),
{
    if k == roots.len() {
        assert(roots.take(k) =~= roots);
    } else {
        law_roots_are_taken_in_order(roots.drop_last(), k);
        assert(roots.drop_last().take(k) =~= roots.take(k));
        lemma_with_node(root_order(roots.drop_last()), roots.last().package_id);
    }
}

/// A top-level package that no earlier one equals comes behind all earlier ones, and one that
/// equals an earlier one has no place of its own.
pub proof fn law_root_takes_its_place(earlier: Seq<SummaryView>, root: SummaryView)
    ensures
        is_root(earlier, root.package_id) ==> root_order(earlier.push(root)) == root_order(earlier),
        !is_root(earlier, root.package_id) ==> root_order(earlier.push(root)) == root_order(
            earlier,
        ).push(root.package_id),
{
    law_root_order_lists_roots(earlier);
    assert(earlier.push(root).drop_last() =~= earlier);
    assert(root_order(earlier).contains(root.package_id) <==> is_root(earlier, root.package_id));
}

/// To begin with, the top-level packages wait to be looked at, in the given order, and nothing has
/// been looked at: there is no graph yet.
pub proof fn law_beginning(roots: Seq<SummaryView>, order: Seq<PackageIdView>)
    ensures
        State::start(roots, order).queue == order,
        State::start(roots, order).pending.len() == 0,
        State::start(roots, order).current is None,
        State::start(roots, order).nodes.len() == 0,
        State::start(roots, order).edges.is_empty(),
        State::start(roots, order).chosen == root_choice(roots),
        State::start(roots, order).summaries == root_summaries(roots),
        ahead(State::start(roots, order)) == declared(State::start(roots, order), order),
{
    let s = State::start(roots, order);
    assert(ahead(s) =~= declared(s, order));
}

} // verus!
