//! What a resolution has come to, told by the top-level packages and the answers of the registry.

use vstd::prelude::*;

use crate::conversation::{ahead, by_name, conversation, declared, explored, is_root, lists_roots};
use crate::exploration::{root_choice, root_summaries, ResolveView, State, StepView};
use crate::failure::{FailureView, ResolveErrorView};
use crate::graph::with_node;
use crate::laws::law_stops_at_first_unsettled;
use crate::operations::{
    joined, law_answer_comes_behind_what_is_ahead, law_beginning, law_end_of_resolution,
    law_first_unprovided_decides, law_turns_to_packages_in_order, lemma_declared_elsewhere,
    lemma_declared_push,
};
use crate::package::{PackageIdView, SummaryView};
use crate::upkeep::{
    lemma_accept_kept, lemma_declared_depends_on_summaries, lemma_kept, lemma_last_answer,
    lemma_queue_first, lemma_queue_push, lemma_root_maps, lemma_root_provenance, lemma_scan,
    lemma_sound, lemma_with_node,
};

verus! {

/// The packages of summaries.
pub open spec fn packages_of(summaries: Seq<SummaryView>) -> Seq<PackageIdView> {
    summaries.map_values(|s: SummaryView| s.package_id)
}

/// The packages found, in order: the top-level packages, then the answers of the registry.
pub open spec fn found(order: Seq<PackageIdView>, answers: Seq<SummaryView>) -> Seq<PackageIdView> {
    order + packages_of(answers)
}

proof fn lemma_found_push(order: Seq<PackageIdView>, answers: Seq<SummaryView>)
    requires
        answers.len() > 0,
    ensures
        found(order, answers) == found(order, answers.drop_last()).push(answers.last().package_id),
        packages_of(answers) == packages_of(answers.drop_last()).push(answers.last().package_id),
{
    assert(packages_of(answers) =~= packages_of(answers.drop_last()).push(
        answers.last().package_id,
    ));
    assert(found(order, answers) =~= found(order, answers.drop_last()).push(
        answers.last().package_id,
    ));
}

proof fn lemma_take_further(all: Seq<PackageIdView>, m: int, n: int)
    requires
        0 <= m <= n <= all.len(),
    ensures
        all.skip(m).skip(n - m) == all.skip(n),
        forall|id: PackageIdView| #[trigger]
            all.take(n).contains(id) <==> all.take(m).contains(id) || all.skip(m).take(
                n - m,
            ).contains(id),
{
    assert(all.skip(m).skip(n - m) =~= all.skip(n));
    assert forall|id: PackageIdView| #[trigger] all.take(n).contains(id) <==> all.take(m).contains(
        id,
    ) || all.skip(m).take(n - m).contains(id) by {
        let near = all.take(m);
        let far = all.skip(m).take(n - m);
        if all.take(n).contains(id) {
            let i = all.take(n).index_of(id);
            if i < m {
                assert(near[i] == id);
            } else {
                assert(far[i - m] == id);
            }
        }
        if near.contains(id) {
            assert(all.take(n)[near.index_of(id)] == id);
        }
        if far.contains(id) {
            assert(all.take(n)[far.index_of(id) + m] == id);
        }
    }
}

/// Packages are looked at in the order in which they were found, the top-level packages first and
/// then the answers of the registry, whoever asked for them. The packages in the graph are those
/// turned to, and the answers. The result is the number of packages turned to.
pub proof fn law_looks_at_packages_in_order_found(
    roots: Seq<SummaryView>,
    order: Seq<PackageIdView>,
    answers: Seq<SummaryView>,
) -> (m: int)
    requires
        conversation(roots, order, answers),
    ensures
        0 <= m <= found(order, answers).len(),
        explored(roots, order, answers).queue == found(order, answers).skip(m),
        m > 0 ==> explored(roots, order, answers).current == Some(found(order, answers)[m - 1]),
        m == 0 ==> explored(roots, order, answers).current is None,
        explored(roots, order, answers).pending.len() == 0 ==> m == found(order, answers).len(),
        forall|id: PackageIdView| #[trigger]
            explored(roots, order, answers).nodes.contains(id) <==> found(order, answers).take(
                m,
            ).contains(id) || packages_of(answers).contains(id),
    decreases answers.len(),
{
    let all = found(order, answers);
    let s = explored(roots, order, answers);
    if answers.len() == 0 {
        let start = State::start(roots, order);
        assert(all =~= order);
        let r = law_turns_to_packages_in_order(start);
        r.0
    } else {
        let earlier = answers.drop_last();
        let before = explored(roots, order, earlier);
        let some = found(order, earlier);
        let answer = answers.last();
        lemma_found_push(order, answers);
        lemma_last_answer(roots, order, answers);
        lemma_sound(roots, order, earlier);
        let m = law_looks_at_packages_in_order_found(roots, order, earlier);
        let t = before.accept(answer);
        assert(t.queue =~= all.skip(m));
        let r = law_turns_to_packages_in_order(t);
        let n = m + r.0;
        lemma_take_further(all, m, n);
        assert(all.take(m) =~= some.take(m));
        let from = before.current->0;
        lemma_with_node(before.nodes, from);
        lemma_with_node(with_node(before.nodes, from), answer.package_id);
        lemma_queue_push(packages_of(earlier), answer.package_id);
        assert(before.nodes.contains(from));
        assert forall|id: PackageIdView| #[trigger] s.nodes.contains(id) <==> all.take(n).contains(
            id,
        ) || packages_of(answers).contains(id) by {
            assert(t.nodes.contains(id) <==> before.nodes.contains(id) || id == answer.package_id);
            assert(before.nodes.contains(id) <==> some.take(m).contains(id) || packages_of(
                earlier,
            ).contains(id));
        }
        n
    }
}

/// The graph that a resolution comes out with holds exactly the top-level packages and the answers
/// of the registry.
pub proof fn law_graph_holds_what_was_found<E>(
    roots: Seq<SummaryView>,
    order: Seq<PackageIdView>,
    answers: Seq<SummaryView>,
    graph: ResolveView,
    id: PackageIdView,
)
    requires
        conversation(roots, order, answers),
        explored(roots, order, answers).outcome::<E>() == StepView::<E>::Done(Ok(graph)),
    ensures
        graph.nodes.contains(id) <==> is_root(roots, id) || packages_of(answers).contains(id),
{
    let all = found(order, answers);
    let m = law_looks_at_packages_in_order_found(roots, order, answers);
    assert(all.take(m) =~= all);
    assert(order.contains(id) <==> is_root(roots, id));
    if all.contains(id) {
        let i = all.index_of(id);
        if i < order.len() {
            assert(order[i] == id);
        } else {
            assert(packages_of(answers)[i - order.len()] == id);
        }
    }
    if order.contains(id) {
        assert(all[order.index_of(id)] == id);
    }
}

/// The last answer of a name is chosen for it.
pub proof fn law_last_answer_is_chosen(
    roots: Seq<SummaryView>,
    order: Seq<PackageIdView>,
    answers: Seq<SummaryView>,
    i: int,
)
    requires
        0 <= i < answers.len(),
        forall|j: int|
            i < j < answers.len() ==> (#[trigger] answers[j]).package_id.name
                != answers[i].package_id.name,
    ensures
        explored(roots, order, answers).chosen.contains_key(answers[i].package_id.name),
        explored(roots, order, answers).chosen[answers[i].package_id.name] == answers[i].package_id,
    decreases answers.len(),
{
    let earlier = answers.drop_last();
    lemma_scan(explored(roots, order, earlier).accept(answers.last()));
    if i < answers.len() - 1 {
        law_last_answer_is_chosen(roots, order, earlier, i);
        assert(answers[answers.len() - 1].package_id.name != answers[i].package_id.name);
    }
}

/// Where no answer has a name, what was chosen for the name to begin with stands.
pub proof fn law_other_choices_stand(
    roots: Seq<SummaryView>,
    order: Seq<PackageIdView>,
    answers: Seq<SummaryView>,
    name: Seq<char>,
)
    requires
        forall|j: int| 0 <= j < answers.len() ==> (#[trigger] answers[j]).package_id.name != name,
    ensures
        explored(roots, order, answers).chosen.contains_key(name) <==> root_choice(
            roots,
        ).contains_key(name),
        explored(roots, order, answers).chosen[name] == root_choice(roots)[name],
    decreases answers.len(),
{
    if answers.len() == 0 {
        lemma_scan(State::start(roots, order));
    } else {
        let earlier = answers.drop_last();
        assert(answers[answers.len() - 1].package_id.name != name);
        lemma_scan(explored(roots, order, earlier).accept(answers.last()));
        law_other_choices_stand(roots, order, earlier, name);
    }
}

/// The last answer that is a package gives its summary.
pub proof fn law_last_answer_gives_summary(
    roots: Seq<SummaryView>,
    order: Seq<PackageIdView>,
    answers: Seq<SummaryView>,
    i: int,
)
    requires
        0 <= i < answers.len(),
        forall|j: int|
            i < j < answers.len() ==> (#[trigger] answers[j]).package_id != answers[i].package_id,
    ensures
        explored(roots, order, answers).summaries.contains_key(answers[i].package_id),
        explored(roots, order, answers).summaries[answers[i].package_id] == answers[i],
    decreases answers.len(),
{
    let earlier = answers.drop_last();
    lemma_scan(explored(roots, order, earlier).accept(answers.last()));
    if i < answers.len() - 1 {
        law_last_answer_gives_summary(roots, order, earlier, i);
        assert(answers[answers.len() - 1].package_id != answers[i].package_id);
    }
}

/// Where no answer is a package, the summary given for it to begin with stands.
pub proof fn law_other_summaries_stand(
    roots: Seq<SummaryView>,
    order: Seq<PackageIdView>,
    answers: Seq<SummaryView>,
    id: PackageIdView,
)
    requires
        forall|j: int| 0 <= j < answers.len() ==> (#[trigger] answers[j]).package_id != id,
    ensures
        explored(roots, order, answers).summaries.contains_key(id) <==> root_summaries(
            roots,
        ).contains_key(id),
        explored(roots, order, answers).summaries[id] == root_summaries(roots)[id],
    decreases answers.len(),
{
    if answers.len() == 0 {
        lemma_scan(State::start(roots, order));
    } else {
        let earlier = answers.drop_last();
        assert(answers[answers.len() - 1].package_id != id);
        lemma_scan(explored(roots, order, earlier).accept(answers.last()));
        law_other_summaries_stand(roots, order, earlier, id);
    }
}

proof fn lemma_found_have_summaries(
    roots: Seq<SummaryView>,
    order: Seq<PackageIdView>,
    answers: Seq<SummaryView>,
)
    requires
        conversation(roots, order, answers),
    ensures
        forall|id: PackageIdView| #[trigger]
            found(order, answers).contains(id) ==> explored(
                roots,
                order,
                answers,
            ).summaries.contains_key(id),
    decreases answers.len(),
{
    let s = explored(roots, order, answers);
    if answers.len() == 0 {
        lemma_sound(roots, order, answers);
        assert(found(order, answers) =~= order);
        assert forall|id: PackageIdView| #[trigger] order.contains(id) implies
            s.summaries.contains_key(id) by {
            assert(is_root(roots, id));
        }
    } else {
        let earlier = answers.drop_last();
        lemma_found_push(order, answers);
        lemma_last_answer(roots, order, answers);
        lemma_found_have_summaries(roots, order, earlier);
        lemma_queue_push(found(order, earlier), answers.last().package_id);
        lemma_scan(explored(roots, order, earlier).accept(answers.last()));
    }
}

/// If the registry answers every query with a package of the name asked for, a resolution asks for
/// the first dependency whose name no package has been chosen for, of all that the packages found
/// declare, in the order in which these were found; and it comes to its end only once a package has
/// been chosen for the name of every one of them. The result is the number of dependencies left
/// behind.
pub proof fn law_asks_for_first_unchosen(
    roots: Seq<SummaryView>,
    order: Seq<PackageIdView>,
    answers: Seq<SummaryView>,
) -> (c: int)
    requires
        conversation(roots, order, answers),
        by_name(roots, order, answers),
    ensures
        ({
            let s = explored(roots, order, answers);
            let all = declared(s, found(order, answers));
            &&& 0 <= c <= all.len()
            &&& ahead(s) == all.skip(c)
            &&& forall|i: int| 0 <= i < c ==> s.chosen.contains_key((#[trigger] all[i]).name)
            &&& c < all.len() ==> s.pending.len() > 0 && s.pending[0] == all[c] && (
            s.chosen.contains_key(all[c].name) ==> s.chosen[all[c].name].source_id
                != all[c].source_id)
            &&& s.pending.len() > 0 ==> c < all.len()
            &&& s.pending.len() == 0 ==> c == all.len()
        }),
    decreases answers.len(),
{
    let s = explored(roots, order, answers);
    let all = declared(s, found(order, answers));
    if answers.len() == 0 {
        let start = State::start(roots, order);
        assert(found(order, answers) =~= order);
        lemma_scan(start);
        lemma_declared_depends_on_summaries(start, s, order);
        assert(ahead(start) =~= all);
        law_stops_at_first_unsettled(start)
    } else {
        let earlier = answers.drop_last();
        let answer = answers.last();
        let before = explored(roots, order, earlier);
        let some = declared(before, found(order, earlier));
        lemma_found_push(order, answers);
        lemma_last_answer(roots, order, answers);
        lemma_sound(roots, order, earlier);
        lemma_kept(roots, order, earlier);
        lemma_accept_kept(roots, before, answer);
        lemma_found_have_summaries(roots, order, earlier);
        let c = law_asks_for_first_unchosen(roots, order, earlier);
        let t = before.accept(answer);
        law_answer_comes_behind_what_is_ahead(before, answer);
        lemma_declared_elsewhere(before, t, found(order, earlier));
        lemma_declared_push(t, found(order, earlier), answer.package_id);
        lemma_scan(t);
        lemma_declared_depends_on_summaries(t, s, found(order, answers));
        assert(all == some + answer.dependencies);
        assert(ahead(t) =~= all.skip(c + 1));
        let k = law_stops_at_first_unsettled(t);
        assert(all.skip(c + 1).skip(k) =~= all.skip(c + 1 + k));
        assert forall|i: int| 0 <= i < c + 1 + k implies s.chosen.contains_key(
            (#[trigger] all[i]).name,
        ) by {
            if i < c {
                assert(before.chosen.contains_key(some[i].name));
            } else if i == c {
                assert(all[i] == before.pending[0]);
            } else {
                assert(ahead(t)[i - c - 1] == all[i]);
                assert(t.chosen.contains_key(ahead(t)[i - c - 1].name));
            }
        }
        c + 1 + k
    }
}

proof fn lemma_joined_to_nothing(nodes: Seq<PackageIdView>, ids: Seq<PackageIdView>)
    requires
        (nodes + ids).no_duplicates(),
    ensures
        joined(nodes, ids) == nodes + ids,
    decreases ids.len(),
{
    let all = nodes + ids;
    if ids.len() == 0 {
        assert(all =~= nodes);
    } else {
        assert(!nodes.contains(ids[0])) by {
            if nodes.contains(ids[0]) {
                let i = nodes.index_of(ids[0]);
                assert(all[i] == all[nodes.len() as int]);
            }
        }
        assert(nodes.push(ids[0]) + ids.drop_first() =~= all);
        lemma_joined_to_nothing(nodes.push(ids[0]), ids.drop_first());
    }
}

proof fn lemma_nothing_declared(s: State, ids: Seq<PackageIdView>)
    requires
        forall|id: PackageIdView| #[trigger]
            ids.contains(id) ==> s.summaries[id].dependencies.len() == 0,
    ensures
        declared(s, ids).len() == 0,
    decreases ids.len(),
{
    if ids.len() > 0 {
        lemma_queue_first(ids);
        lemma_nothing_declared(s, ids.drop_first());
    }
}

/// If no top-level package depends on anything, the registry is not asked, and the top-level
/// packages come out, in order, with no edge between them.
pub proof fn law_roots_without_dependencies<E>(roots: Seq<SummaryView>, order: Seq<PackageIdView>)
    requires
        lists_roots(roots, order),
        forall|i: int| 0 <= i < roots.len() ==> (#[trigger] roots[i]).dependencies.len() == 0,
    ensures
        explored(roots, order, Seq::empty()).outcome::<E>() == StepView::<E>::Done(
            Ok(ResolveView { nodes: order, edges: Set::empty() }),
        ),
{
    let start = State::start(roots, order);
    let s = explored(roots, order, Seq::empty());
    assert forall|id: PackageIdView| #[trigger]
        start.summaries.contains_key(id) implies start.summaries[id].dependencies.len() == 0 by {
        lemma_root_provenance(roots, id);
        let i = roots.index_of(root_summaries(roots)[id]);
        assert(roots[i].dependencies.len() == 0);
    }
    lemma_root_maps(roots);
    assert forall|id: PackageIdView| #[trigger]
        order.contains(id) implies start.summaries[id].dependencies.len() == 0 by {
        assert(is_root(roots, id));
        assert(start.summaries.contains_key(id));
    }
    lemma_nothing_declared(start, order);
    let r = law_turns_to_packages_in_order(start);
    let k = law_stops_at_first_unsettled(start);
    assert(s == start.scan());
    assert(order.take(r.0) =~= order);
    assert(Seq::<PackageIdView>::empty() + order =~= order);
    lemma_joined_to_nothing(Seq::empty(), order);
    assert forall|n: int| 0 <= n < s.nodes.len() implies s.summaries[
        #[trigger] s.nodes[n]
    ].dependencies.len() == 0 by {
        assert(order.contains(order[n]));
    }
    law_end_of_resolution::<E>(s);
}

/// What a resolution comes to before the registry has been asked: the dependencies that the
/// top-level packages declare are looked at in order. The first for which no top-level package of its source
/// has been chosen is asked for if none of its name has been chosen, and the resolution fails on it
/// if one of another source has been chosen.
pub proof fn law_beginning_leads_to_first_query<E>(
    roots: Seq<SummaryView>,
    order: Seq<PackageIdView>,
    k: int,
)
    requires
        ({
            let all = declared(State::start(roots, order), order);
            let choice = root_choice(roots);
            &&& 0 <= k < all.len()
            &&& forall|i: int|
                0 <= i < k ==> choice.contains_key((#[trigger] all[i]).name)
                    && choice[all[i].name].source_id == all[i].source_id
            &&& !(choice.contains_key(all[k].name) && choice[all[k].name].source_id
                == all[k].source_id)
        }),
    ensures
        ({
            let all = declared(State::start(roots, order), order);
            let choice = root_choice(roots);
            let step = explored(roots, order, Seq::empty()).outcome::<E>();
            if choice.contains_key(all[k].name) {
                step == StepView::<E>::Done(
                    Err(
                        ResolveErrorView::Failure(
                            FailureView::IncompatibleSources {
                                name: all[k].name,
                                existing: choice[all[k].name].source_id,
                                requested: all[k].source_id,
                            },
                        ),
                    ),
                )
            } else {
                &&& step is Query
                &&& step->Query_0.pending.len() > 0
                &&& step->Query_0.pending[0] == all[k]
                &&& ahead(step->Query_0) == all.skip(k)
            }
        }),
{
    let start = State::start(roots, order);
    law_beginning(roots, order);
    law_first_unprovided_decides::<E>(start, k);
}

} // verus!
