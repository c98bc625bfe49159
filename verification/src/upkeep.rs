//! What every state of an exploration keeps, on the way to the laws.

use vstd::prelude::*;

use crate::conversation::{
    by_name, complaint_of, conversation, declared, distinct_names, explored, is_path, is_root,
    lists_roots, reached, waits,
};
use crate::exploration::{root_choice, root_summaries, State};
use crate::graph::with_node;
use crate::package::{ManifestDependencyView, PackageIdView, SummaryView};
use crate::requirement::{complaints, RequirementView};

verus! {

/// What holds of every state of an exploration.
pub(crate) open spec fn sound(roots: Seq<SummaryView>, s: State) -> bool {
    &&& forall|id: PackageIdView| #[trigger]
        s.summaries.contains_key(id) ==> s.summaries[id].package_id == id
            && s.chosen.contains_key(id.name)
    &&& forall|name: Seq<char>| #[trigger]
        s.chosen.contains_key(name) ==> s.chosen[name].name == name && s.summaries.contains_key(
            s.chosen[name],
        )
    &&& forall|id: PackageIdView| #[trigger]
        s.summaries.contains_key(id) ==> s.nodes.contains(id) || s.queue.contains(id)
    &&& forall|id: PackageIdView|
        (#[trigger] s.nodes.contains(id) ==> s.summaries.contains_key(id))
    &&& forall|id: PackageIdView|
        (#[trigger] s.queue.contains(id) ==> s.summaries.contains_key(id))
    &&& forall|e: (PackageIdView, PackageIdView)| #[trigger]
        s.edges.contains(e) ==> s.nodes.contains(e.0) && s.nodes.contains(e.1)
    &&& s.current matches Some(id) ==> s.nodes.contains(id)
    &&& s.current is None ==> s.pending.len() == 0
    &&& s.nodes.no_duplicates()
    &&& forall|id: PackageIdView| #[trigger] is_root(roots, id) ==> s.summaries.contains_key(id)
    &&& forall|id: PackageIdView| #[trigger]
        s.summaries.contains_key(id) ==> reached(roots, s.edges, id)
}

pub(crate) proof fn lemma_with_node(nodes: Seq<PackageIdView>, node: PackageIdView)
    ensures
        forall|id: PackageIdView| #[trigger]
            with_node(nodes, node).contains(id) <==> nodes.contains(id) || id == node,
        nodes.no_duplicates() ==> with_node(nodes, node).no_duplicates(),
        nodes.is_prefix_of(with_node(nodes, node)),
{
    let after = with_node(nodes, node);
    if !nodes.contains(node) {
        assert(after[nodes.len() as int] == node);
        assert forall|id: PackageIdView| #[trigger] after.contains(id) <==> nodes.contains(id) || id
            == node by {
            if nodes.contains(id) {
                assert(after[nodes.index_of(id)] == id);
            }
            if after.contains(id) && id != node {
                let i = after.index_of(id);
                assert(nodes[i] == id);
            }
        }
    }
}

pub(crate) proof fn lemma_queue_first(queue: Seq<PackageIdView>)
    requires
        queue.len() > 0,
    ensures
        queue.contains(queue[0]),
        forall|id: PackageIdView| #[trigger]
            queue.contains(id) ==> id == queue[0] || queue.drop_first().contains(id),
        forall|id: PackageIdView| #[trigger]
            queue.drop_first().contains(id) ==> queue.contains(id),
{
    assert forall|id: PackageIdView| #[trigger] queue.contains(id) implies id == queue[0]
        || queue.drop_first().contains(id) by {
        let i = queue.index_of(id);
        if i > 0 {
            assert(queue.drop_first()[i - 1] == id);
        }
    }
    assert forall|id: PackageIdView| #[trigger] queue.drop_first().contains(id) implies
        queue.contains(id) by {
        let i = queue.drop_first().index_of(id);
        assert(queue[i + 1] == id);
    }
}

pub(crate) proof fn lemma_queue_push(queue: Seq<PackageIdView>, last: PackageIdView)
    ensures
        forall|id: PackageIdView| #[trigger]
            queue.push(last).contains(id) <==> queue.contains(id) || id == last,
{
    let after = queue.push(last);
    assert(after[queue.len() as int] == last);
    assert forall|id: PackageIdView| #[trigger] after.contains(id) <==> queue.contains(id) || id
        == last by {
        if queue.contains(id) {
            assert(after[queue.index_of(id)] == id);
        }
        if after.contains(id) && id != last {
            assert(queue[after.index_of(id)] == id);
        }
    }
}

/// More edges reach no fewer packages.
pub(crate) proof fn lemma_reached_grows(
    roots: Seq<SummaryView>,
    edges: Set<(PackageIdView, PackageIdView)>,
    more: Set<(PackageIdView, PackageIdView)>,
    id: PackageIdView,
)
    requires
        edges.subset_of(more),
        reached(roots, edges, id),
    ensures
        reached(roots, more, id),
{
    reveal(reached);
    let path = choose|path: Seq<PackageIdView>| #[trigger]
        is_path(roots, edges, path) && path.last() == id;
    assert(is_path(roots, more, path));
}

/// An edge reaches its end from its beginning.
pub(crate) proof fn lemma_reached_along(
    roots: Seq<SummaryView>,
    edges: Set<(PackageIdView, PackageIdView)>,
    from: PackageIdView,
    to: PackageIdView,
)
    requires
        reached(roots, edges, from),
        edges.contains((from, to)),
    ensures
        reached(roots, edges, to),
{
    reveal(reached);
    let path = choose|path: Seq<PackageIdView>| #[trigger]
        is_path(roots, edges, path) && path.last() == from;
    let longer = path.push(to);
    assert forall|i: int, j: int|
        #![trigger longer[i], longer[j]]
        0 <= i && j == i + 1 && j < longer.len() implies edges.contains((longer[i], longer[j])) by {
        assert(longer[i] == path[i]);
        if j < path.len() {
            assert(longer[j] == path[j]);
        }
    }
    assert(is_path(roots, edges, longer));
    assert(longer.last() == to);
}

pub(crate) proof fn lemma_root_maps(roots: Seq<SummaryView>)
    ensures
        forall|id: PackageIdView| #[trigger]
            root_summaries(roots).contains_key(id) <==> is_root(roots, id),
        forall|id: PackageIdView| #[trigger]
            root_summaries(roots).contains_key(id) ==> root_summaries(roots)[id].package_id == id
                && root_choice(roots).contains_key(id.name),
        forall|name: Seq<char>| #[trigger]
            root_choice(roots).contains_key(name) ==> root_choice(roots)[name].name == name
                && root_summaries(roots).contains_key(root_choice(roots)[name]),
    decreases roots.len(),
{
    if roots.len() > 0 {
        let earlier = roots.drop_last();
        let last = roots.last().package_id;
        lemma_root_maps(earlier);
        assert(root_summaries(roots) == root_summaries(earlier).insert(last, roots.last()));
        assert(root_choice(roots) == root_choice(earlier).insert(last.name, last));
        assert(roots[roots.len() - 1].package_id == last);
        assert forall|id: PackageIdView| #[trigger] is_root(roots, id) <==> is_root(earlier, id)
            || id == last by {
            if is_root(earlier, id) {
                let i = choose|i: int|
                    0 <= i < earlier.len() && (#[trigger] earlier[i]).package_id == id;
                assert(roots[i].package_id == id);
            }
            if is_root(roots, id) && id != last {
                let i = choose|i: int|
                    0 <= i < roots.len() && (#[trigger] roots[i]).package_id == id;
                assert(earlier[i].package_id == id);
            }
        }
    }
}

pub(crate) proof fn lemma_start_sound(roots: Seq<SummaryView>, order: Seq<PackageIdView>)
    requires
        lists_roots(roots, order),
    ensures
        sound(roots, State::start(roots, order)),
{
    lemma_root_maps(roots);
    let s = State::start(roots, order);
    assert forall|id: PackageIdView| #[trigger] s.summaries.contains_key(id) implies reached(
        roots,
        s.edges,
        id,
    ) by {
        reveal(reached);
        let path = seq![id];
        assert(is_path(roots, s.edges, path));
        assert(path.last() == id);
    }
}

pub(crate) proof fn lemma_visit_sound(roots: Seq<SummaryView>, s: State)
    requires
        sound(roots, s),
        s.queue.len() > 0,
    ensures
        sound(roots, s.visit()),
{
    lemma_queue_first(s.queue);
    lemma_with_node(s.nodes, s.queue[0]);
}

pub(crate) proof fn lemma_scan_sound(roots: Seq<SummaryView>, s: State)
    requires
        sound(roots, s),
    ensures
        sound(roots, s.scan()),
    decreases s.queue.len(), s.pending.len(),
{
    if s.pending.len() > 0 {
        if s.settles(s.pending[0]) {
            lemma_scan_sound(roots, s.skip());
        }
    } else if s.queue.len() > 0 {
        lemma_visit_sound(roots, s);
        lemma_scan_sound(roots, s.visit());
    }
}

pub(crate) proof fn lemma_accept_sound(roots: Seq<SummaryView>, s: State, answer: SummaryView)
    requires
        sound(roots, s),
        s.asks(),
    ensures
        sound(roots, s.accept(answer)),
{
    let from = s.current->0;
    let to = answer.package_id;
    let after = s.accept(answer);
    lemma_with_node(s.nodes, from);
    lemma_with_node(with_node(s.nodes, from), to);
    lemma_queue_push(s.queue, to);
    assert forall|id: PackageIdView| #[trigger] after.summaries.contains_key(id) implies reached(
        roots,
        after.edges,
        id,
    ) by {
        assert(s.nodes.contains(from));
        lemma_reached_grows(roots, s.edges, after.edges, from);
        if id == to {
            lemma_reached_along(roots, after.edges, from, to);
        } else {
            assert(s.summaries.contains_key(id));
            lemma_reached_grows(roots, s.edges, after.edges, id);
        }
    }
}

pub(crate) proof fn lemma_sound(
    roots: Seq<SummaryView>,
    order: Seq<PackageIdView>,
    answers: Seq<SummaryView>,
)
    requires
        conversation(roots, order, answers),
    ensures
        sound(roots, explored(roots, order, answers)),
    decreases answers.len(),
{
    if answers.len() == 0 {
        lemma_start_sound(roots, order);
        lemma_scan_sound(roots, State::start(roots, order));
    } else {
        let earlier = answers.drop_last();
        lemma_conversation_shorter(roots, order, answers, earlier.len() as int);
        assert(answers.take(earlier.len() as int) =~= earlier);
        lemma_sound(roots, order, earlier);
        let s = explored(roots, order, earlier);
        assert(explored(roots, order, answers.take(earlier.len() as int)).asks());
        lemma_accept_sound(roots, s, answers.last());
        lemma_scan_sound(roots, s.accept(answers.last()));
    }
}

/// The beginning of a conversation is a conversation.
pub(crate) proof fn lemma_conversation_shorter(
    roots: Seq<SummaryView>,
    order: Seq<PackageIdView>,
    answers: Seq<SummaryView>,
    length: int,
)
    requires
        conversation(roots, order, answers),
        0 <= length <= answers.len(),
    ensures
        conversation(roots, order, answers.take(length)),
        by_name(roots, order, answers) ==> by_name(roots, order, answers.take(length)),
{
    let shorter = answers.take(length);
    assert forall|i: int| 0 <= i < shorter.len() implies (#[trigger] explored(
        roots,
        order,
        shorter.take(i),
    )).asks() by {
        assert(shorter.take(i) =~= answers.take(i));
    }
    if by_name(roots, order, answers) {
        assert forall|i: int| 0 <= i < shorter.len() implies shorter[i].package_id.name
            == (#[trigger] explored(roots, order, shorter.take(i))).pending[0].name by {
            assert(shorter.take(i) =~= answers.take(i));
        }
    }
}

/// Where an exploration goes on by itself it chooses and finds nothing, and it stops at a dependency
/// that is not settled or at the end.
pub(crate) proof fn lemma_scan(s: State)
    ensures
        s.scan().pending.len() > 0 ==> !s.scan().settles(s.scan().pending[0]),
        s.scan().pending.len() == 0 ==> s.scan().queue.len() == 0,
        s.scan().chosen == s.chosen,
        s.scan().summaries == s.summaries,
        s.scan().edges == s.edges,
        s.nodes.is_prefix_of(s.scan().nodes),
    decreases s.queue.len(), s.pending.len(),
{
    if s.pending.len() > 0 {
        if s.settles(s.pending[0]) {
            lemma_scan(s.skip());
        }
    } else if s.queue.len() > 0 {
        lemma_with_node(s.nodes, s.queue[0]);
        lemma_scan(s.visit());
    }
}

/// What has been explored goes no further by itself.
pub(crate) proof fn lemma_explored_stops(
    roots: Seq<SummaryView>,
    order: Seq<PackageIdView>,
    answers: Seq<SummaryView>,
)
    ensures
        ({
            let s = explored(roots, order, answers);
            &&& s.pending.len() > 0 ==> !s.settles(s.pending[0])
            &&& s.pending.len() == 0 ==> s.queue.len() == 0
        }),
{
    if answers.len() == 0 {
        lemma_scan(State::start(roots, order));
    } else {
        lemma_scan(explored(roots, order, answers.drop_last()).accept(answers.last()));
    }
}

pub(crate) proof fn lemma_complaints(requirements: Seq<RequirementView>, met: Seq<bool>)
    requires
        met.len() == requirements.len(),
    ensures
        forall|i: int|
            0 <= i < met.len() && !met[i] ==> complaints(requirements, met).contains(
                #[trigger] requirements[i].complaint(),
            ),
        forall|line: Seq<char>| #[trigger]
            complaints(requirements, met).contains(line) ==> exists|i: int|
                0 <= i < met.len() && !met[i] && line == #[trigger] requirements[i].complaint(),
    decreases requirements.len(),
{
    if requirements.len() > 0 {
        let n = requirements.len() - 1;
        let earlier = complaints(requirements.drop_last(), met.drop_last());
        let all = complaints(requirements, met);
        lemma_complaints(requirements.drop_last(), met.drop_last());
        assert forall|i: int| 0 <= i < met.len() && !met[i] implies all.contains(
            #[trigger] requirements[i].complaint(),
        ) by {
            if i < n {
                assert(requirements.drop_last()[i].complaint() == requirements[i].complaint());
                assert(earlier.contains(requirements[i].complaint()));
                assert(all[earlier.index_of(requirements[i].complaint())]
                    == requirements[i].complaint());
            } else {
                assert(all.last() == requirements[i].complaint());
            }
        }
        assert forall|line: Seq<char>| #[trigger] all.contains(line) implies exists|i: int|
            0 <= i < met.len() && !met[i] && line == #[trigger] requirements[i].complaint() by {
            let k = all.index_of(line);
            if k < earlier.len() {
                assert(earlier[k] == line);
                assert(earlier.contains(line));
                let i = choose|i: int|
                    0 <= i < met.drop_last().len() && !met.drop_last()[i] && line
                        == #[trigger] requirements.drop_last()[i].complaint();
                assert(!met[i] && line == requirements[i].complaint());
            } else {
                assert(!met[n] && line == requirements[n].complaint());
            }
        }
    }
}

pub(crate) proof fn lemma_requirements(s: State, ids: Seq<PackageIdView>)
    ensures
        forall|n: int, d: int|
            #![trigger s.requirements_of(ids[n])[d]]
            0 <= n < ids.len() && 0 <= d < s.summaries[ids[n]].dependencies.len()
                ==> s.requirements(ids).contains(s.requirements_of(ids[n])[d]),
        forall|r: RequirementView| #[trigger]
            s.requirements(ids).contains(r) ==> exists|n: int, d: int|
                #![trigger s.requirements_of(ids[n])[d]]
                0 <= n < ids.len() && 0 <= d < s.summaries[ids[n]].dependencies.len() && r
                    == s.requirements_of(ids[n])[d],
    decreases ids.len(),
{
    if ids.len() > 0 {
        let last = ids.len() - 1;
        let earlier = s.requirements(ids.drop_last());
        let own = s.requirements_of(ids.last());
        let all = s.requirements(ids);
        lemma_requirements(s, ids.drop_last());
        assert forall|n: int, d: int|
            #![trigger s.requirements_of(ids[n])[d]]
            0 <= n < ids.len() && 0 <= d < s.summaries[ids[n]].dependencies.len() implies
            all.contains(s.requirements_of(ids[n])[d]) by {
            let r = s.requirements_of(ids[n])[d];
            if n < last {
                assert(r == s.requirements_of(ids.drop_last()[n])[d]);
                assert(earlier.contains(r));
                assert(all[earlier.index_of(r)] == r);
            } else {
                assert(all[earlier.len() + d] == r);
            }
        }
        assert forall|r: RequirementView| #[trigger] all.contains(r) implies exists|n: int, d: int|
            #![trigger s.requirements_of(ids[n])[d]]
            0 <= n < ids.len() && 0 <= d < s.summaries[ids[n]].dependencies.len() && r
                == s.requirements_of(ids[n])[d] by {
            let k = all.index_of(r);
            if k < earlier.len() {
                assert(earlier[k] == r);
                assert(earlier.contains(r));
                let (n, d) = choose|n: int, d: int|
                    #![trigger s.requirements_of(ids.drop_last()[n])[d]]
                    0 <= n < ids.drop_last().len() && 0 <= d
                        < s.summaries[ids.drop_last()[n]].dependencies.len() && r
                        == s.requirements_of(ids.drop_last()[n])[d];
                assert(r == s.requirements_of(ids[n])[d]);
            } else {
                assert(r == s.requirements_of(ids[last])[k - earlier.len()]);
            }
        }
    }
}

/// The last answer of a conversation was given to a query.
pub(crate) proof fn lemma_last_answer(
    roots: Seq<SummaryView>,
    order: Seq<PackageIdView>,
    answers: Seq<SummaryView>,
)
    requires
        conversation(roots, order, answers),
        answers.len() > 0,
    ensures
        conversation(roots, order, answers.drop_last()),
        explored(roots, order, answers.drop_last()).asks(),
        by_name(roots, order, answers) ==> by_name(roots, order, answers.drop_last())
            && answers.last().package_id.name == explored(
            roots,
            order,
            answers.drop_last(),
        ).pending[0].name,
{
    let n = answers.len() - 1;
    lemma_conversation_shorter(roots, order, answers, n);
    assert(answers.take(n) =~= answers.drop_last());
    assert(explored(roots, order, answers.take(n)).asks());
}

pub(crate) proof fn lemma_declared_depends_on_summaries(s: State, t: State, ids: Seq<PackageIdView>)
    requires
        s.summaries == t.summaries,
    ensures
        declared(s, ids) == declared(t, ids),
    decreases ids.len(),
{
    if ids.len() > 0 {
        lemma_declared_depends_on_summaries(s, t, ids.drop_first());
    }
}

pub(crate) proof fn lemma_provenance(
    roots: Seq<SummaryView>,
    order: Seq<PackageIdView>,
    answers: Seq<SummaryView>,
    id: PackageIdView,
)
    requires
        explored(roots, order, answers).summaries.contains_key(id),
    ensures
        roots.contains(explored(roots, order, answers).summaries[id]) || answers.contains(
            explored(roots, order, answers).summaries[id],
        ),
    decreases answers.len(),
{
    if answers.len() == 0 {
        lemma_scan(State::start(roots, order));
        lemma_root_provenance(roots, id);
    } else {
        let s = explored(roots, order, answers.drop_last());
        lemma_scan(s.accept(answers.last()));
        if id == answers.last().package_id {
            assert(answers.contains(answers.last()));
        } else {
            lemma_provenance(roots, order, answers.drop_last(), id);
            let summary = s.summaries[id];
            if answers.drop_last().contains(summary) {
                assert(answers[answers.drop_last().index_of(summary)] == summary);
            }
        }
    }
}

pub(crate) proof fn lemma_root_provenance(roots: Seq<SummaryView>, id: PackageIdView)
    requires
        root_summaries(roots).contains_key(id),
    ensures
        roots.contains(root_summaries(roots)[id]),
    decreases roots.len(),
{
    if roots.len() > 0 {
        if id == roots.last().package_id {
            assert(roots[roots.len() - 1] == roots.last());
        } else {
            lemma_root_provenance(roots.drop_last(), id);
            let summary = root_summaries(roots.drop_last())[id];
            assert(roots[roots.drop_last().index_of(summary)] == summary);
        }
    }
}

/// What holds besides of every state of an exploration whose answers are of the names asked for.
pub(crate) open spec fn kept(s: State) -> bool {
    &&& forall|id: PackageIdView, d: int|
        #![trigger s.summaries[id].dependencies[d]]
        s.nodes.contains(id) && !s.queue.contains(id) && 0 <= d
            < s.summaries[id].dependencies.len() ==> {
            ||| s.chosen.contains_key(s.summaries[id].dependencies[d].name)
            ||| s.current == Some(id) && s.pending.contains(s.summaries[id].dependencies[d])
        }
    &&& forall|i: int|
        0 <= i < s.pending.len() ==> s.summaries[s.current->0].dependencies.contains(
            #[trigger] s.pending[i],
        )
}

/// What is left of a sequence without its first element.
pub(crate) proof fn lemma_pending_first(pending: Seq<ManifestDependencyView>)
    requires
        pending.len() > 0,
    ensures
        forall|d: ManifestDependencyView| #[trigger]
            pending.contains(d) ==> d == pending[0] || pending.drop_first().contains(d),
        forall|i: int|
            0 <= i < pending.drop_first().len() ==> #[trigger] pending.drop_first()[i] == pending[i
                + 1],
{
    assert forall|d: ManifestDependencyView| #[trigger] pending.contains(d) implies d == pending[0]
        || pending.drop_first().contains(d) by {
        let i = pending.index_of(d);
        if i > 0 {
            assert(pending.drop_first()[i - 1] == d);
        }
    }
}

pub(crate) proof fn lemma_scan_kept(roots: Seq<SummaryView>, s: State)
    requires
        sound(roots, s),
        kept(s),
    ensures
        kept(s.scan()),
    decreases s.queue.len(), s.pending.len(),
{
    if s.pending.len() > 0 {
        if s.settles(s.pending[0]) {
            lemma_pending_first(s.pending);
            assert(kept(s.skip()));
            lemma_scan_kept(roots, s.skip());
        }
    } else if s.queue.len() > 0 {
        let t = s.visit();
        lemma_visit_sound(roots, s);
        lemma_queue_first(s.queue);
        lemma_with_node(s.nodes, s.queue[0]);
        assert forall|id: PackageIdView, d: int|
            #![trigger t.summaries[id].dependencies[d]]
            t.nodes.contains(id) && !t.queue.contains(id) && 0 <= d
                < t.summaries[id].dependencies.len() implies ({
            ||| t.chosen.contains_key(t.summaries[id].dependencies[d].name)
            ||| t.current == Some(id) && t.pending.contains(t.summaries[id].dependencies[d])
        }) by {
            if id != s.queue[0] {
                assert(s.nodes.contains(id));
                let dependency = s.summaries[id].dependencies[d];
                assert(s.pending.len() == 0);
                assert(s.chosen.contains_key(dependency.name));
            }
        }
        assert(kept(t));
        lemma_scan_kept(roots, t);
    }
}

pub(crate) proof fn lemma_accept_kept(roots: Seq<SummaryView>, s: State, answer: SummaryView)
    requires
        sound(roots, s),
        kept(s),
        s.asks(),
        answer.package_id.name == s.pending[0].name,
    ensures
        kept(s.accept(answer)),
        !s.summaries.contains_key(answer.package_id),
{
    let from = s.current->0;
    let to = answer.package_id;
    let t = s.accept(answer);
    assert(!s.summaries.contains_key(to));
    assert(s.nodes.contains(from));
    lemma_with_node(s.nodes, from);
    lemma_with_node(with_node(s.nodes, from), to);
    lemma_queue_push(s.queue, to);
    lemma_pending_first(s.pending);
    assert forall|id: PackageIdView, d: int|
        #![trigger t.summaries[id].dependencies[d]]
        t.nodes.contains(id) && !t.queue.contains(id) && 0 <= d
            < t.summaries[id].dependencies.len() implies ({
        ||| t.chosen.contains_key(t.summaries[id].dependencies[d].name)
        ||| t.current == Some(id) && t.pending.contains(t.summaries[id].dependencies[d])
    }) by {
        assert(id != to);
        assert(s.nodes.contains(id));
        let dependency = s.summaries[id].dependencies[d];
        assert(t.summaries[id] == s.summaries[id]);
    }
    assert forall|i: int| 0 <= i < t.pending.len() implies t.summaries[from].dependencies.contains(
        #[trigger] t.pending[i],
    ) by {
        assert(t.pending[i] == s.pending[i + 1]);
        assert(t.summaries[from] == s.summaries[from]);
    }
}

pub(crate) proof fn lemma_kept(
    roots: Seq<SummaryView>,
    order: Seq<PackageIdView>,
    answers: Seq<SummaryView>,
)
    requires
        conversation(roots, order, answers),
        by_name(roots, order, answers),
    ensures
        kept(explored(roots, order, answers)),
    decreases answers.len(),
{
    if answers.len() == 0 {
        lemma_start_sound(roots, order);
        lemma_scan_kept(roots, State::start(roots, order));
    } else {
        let earlier = answers.drop_last();
        let s = explored(roots, order, earlier);
        lemma_last_answer(roots, order, answers);
        lemma_kept(roots, order, earlier);
        lemma_sound(roots, order, earlier);
        lemma_accept_sound(roots, s, answers.last());
        lemma_accept_kept(roots, s, answers.last());
        lemma_scan_kept(roots, s.accept(answers.last()));
    }
}

/// Whether every package found is the one chosen for its name.
pub(crate) open spec fn unique_by_name(s: State) -> bool {
    forall|id: PackageIdView| #[trigger]
        s.summaries.contains_key(id) ==> s.chosen.contains_key(id.name) && s.chosen[id.name] == id
}

pub(crate) proof fn lemma_unique_by_name(
    roots: Seq<SummaryView>,
    order: Seq<PackageIdView>,
    answers: Seq<SummaryView>,
)
    requires
        conversation(roots, order, answers),
        by_name(roots, order, answers),
        distinct_names(roots),
    ensures
        unique_by_name(explored(roots, order, answers)),
    decreases answers.len(),
{
    if answers.len() == 0 {
        let s = State::start(roots, order);
        lemma_scan(s);
        lemma_root_maps(roots);
        assert forall|id: PackageIdView| #[trigger] s.summaries.contains_key(id) implies
            s.chosen.contains_key(id.name) && s.chosen[id.name] == id by {
            let other = s.chosen[id.name];
            assert(s.chosen.contains_key(id.name));
            assert(is_root(roots, id));
            assert(s.summaries.contains_key(other));
            assert(is_root(roots, other));
        }
    } else {
        let earlier = answers.drop_last();
        let s = explored(roots, order, earlier);
        lemma_last_answer(roots, order, answers);
        lemma_unique_by_name(roots, order, earlier);
        lemma_sound(roots, order, earlier);
        lemma_scan(s.accept(answers.last()));
    }
}

/// The complaint of a package is that of the requirement that its dependency amounts to.
pub(crate) proof fn lemma_complaint_of(
    s: State,
    id: PackageIdView,
    dependency: ManifestDependencyView,
)
    ensures
        complaint_of(s, id, dependency) == (RequirementView {
            from: id,
            dependency,
            to: s.chosen[dependency.name],
        }).complaint(),
{
    reveal(complaint_of);
    let r = RequirementView { from: id, dependency, to: s.chosen[dependency.name] };
    assert(complaint_of(s, id, dependency) =~= r.complaint());
}

/// Whether every package found is in the graph or waits to be looked at.
pub(crate) open spec fn listed(s: State) -> bool {
    forall|id: PackageIdView| #[trigger]
        s.summaries.contains_key(id) ==> s.nodes.contains(id) || s.queue.contains(id)
}

pub(crate) proof fn lemma_start_listed(roots: Seq<SummaryView>, order: Seq<PackageIdView>)
    requires
        lists_roots(roots, order),
    ensures
        listed(State::start(roots, order)),
{
    let s = State::start(roots, order);
    lemma_root_maps(roots);
    assert forall|id: PackageIdView| #[trigger] s.summaries.contains_key(id) implies
        s.queue.contains(id) by {
        assert(is_root(roots, id));
    }
}

pub(crate) proof fn lemma_scan_listed(s: State)
    requires
        listed(s),
    ensures
        listed(s.scan()),
    decreases s.queue.len(), s.pending.len(),
{
    if s.pending.len() > 0 {
        if s.settles(s.pending[0]) {
            lemma_scan_listed(s.skip());
        }
    } else if s.queue.len() > 0 {
        let t = s.visit();
        lemma_queue_first(s.queue);
        lemma_with_node(s.nodes, s.queue[0]);
        assert forall|id: PackageIdView| #[trigger] t.summaries.contains_key(id) implies
            t.nodes.contains(id) || t.queue.contains(id) by {
            assert(s.summaries.contains_key(id));
        }
        lemma_scan_listed(t);
    }
}

pub(crate) proof fn lemma_accept_listed(s: State, answer: SummaryView)
    requires
        listed(s),
    ensures
        listed(s.accept(answer)),
{
    let t = s.accept(answer);
    lemma_with_node(s.nodes, s.current->0);
    lemma_with_node(with_node(s.nodes, s.current->0), answer.package_id);
    lemma_queue_push(s.queue, answer.package_id);
    assert forall|id: PackageIdView| #[trigger] t.summaries.contains_key(id) implies
        t.nodes.contains(id) || t.queue.contains(id) by {
        if id != answer.package_id {
            assert(s.summaries.contains_key(id));
        }
    }
}

} // verus!
