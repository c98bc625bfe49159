//! Resolution of the packages that top-level packages depend on, step by step.
//!
//! [`resolve`] begins a resolution. Whenever the registry has to be asked, the resolution stops and
//! hands out a [`Pending`]; the caller puts the query to the registry and goes on with the reply,
//! by [`Pending::resume`]. What holds of a resolution as a whole stands in [`crate::laws`].

use petgraph::graphmap::DiGraphMap;
use vstd::prelude::*;

use crate::conversation::explored;
use crate::exploration::{root_order, ResolveView, State, StepView};
use crate::failure::{Failure, ResolveError};
use crate::graph::{add_edge, add_node, graph_edges, graph_nodes, new_graph, nodes, with_node};
use crate::laws::law_root_order_lists_roots;
use crate::package::{
    clone_dependencies, dependency_views, summary_views, ManifestDependency, PackageId,
    PackageIdView, Summary, SummaryView,
};
use crate::requirement::{check_requirements, judge, requirement_views, Requirement};
use crate::upkeep::{
    lemma_accept_listed, lemma_scan, lemma_scan_listed, lemma_start_listed, listed,
};

verus! {

/// The packages of summaries, one by one.
pub open spec fn package_ids(summaries: Seq<Summary>) -> Seq<PackageIdView> {
    summaries.map_values(|s: Summary| s.package_id@)
}

/// The packages that nodes stand for: node `n` stands for the package at position `n`.
pub open spec fn named_nodes(ids: Seq<PackageIdView>, nodes: Seq<usize>) -> Seq<PackageIdView> {
    nodes.map_values(|n: usize| ids[n as int])
}

/// The edges between the packages that nodes stand for.
pub open spec fn named_edges(ids: Seq<PackageIdView>, edges: Set<(usize, usize)>) -> Set<
    (PackageIdView, PackageIdView),
> {
    edges.map(|e: (usize, usize)| (ids[e.0 as int], ids[e.1 as int]))
}

/// Whether every node, and both ends of every edge, are positions in a sequence of that length.
pub open spec fn within(length: nat, nodes: Seq<usize>, edges: Set<(usize, usize)>) -> bool {
    &&& forall|i: int| 0 <= i < nodes.len() ==> #[trigger] nodes[i] < length
    &&& forall|e: (usize, usize)| #[trigger]
        edges.contains(e) ==> e.0 < length && e.1 < length
}

proof fn lemma_named_with_node(ids: Seq<PackageIdView>, nodes: Seq<usize>, node: usize)
    requires
        ids.no_duplicates(),
        node < ids.len(),
        forall|i: int| 0 <= i < nodes.len() ==> #[trigger] nodes[i] < ids.len(),
    ensures
        named_nodes(ids, with_node(nodes, node)) == with_node(
            named_nodes(ids, nodes),
            ids[node as int],
        ),
        forall|i: int|
            0 <= i < with_node(nodes, node).len() ==> #[trigger] with_node(nodes, node)[i]
                < ids.len(),
        with_node(nodes, node).contains(node),
        forall|n: usize| nodes.contains(n) ==> #[trigger] with_node(nodes, node).contains(n),
{
    let named = named_nodes(ids, nodes);
    let after = with_node(nodes, node);
    if nodes.contains(node) {
        let i = nodes.index_of(node);
        assert(named[i] == ids[node as int]);
    } else {
        assert(!named.contains(ids[node as int])) by {
            if named.contains(ids[node as int]) {
                let i = named.index_of(ids[node as int]);
                assert(nodes[i] == node);
            }
        }
        assert(named_nodes(ids, after) =~= named.push(ids[node as int]));
        assert(after[nodes.len() as int] == node);
        assert forall|n: usize| nodes.contains(n) implies #[trigger] after.contains(n) by {
            let i = nodes.index_of(n);
            assert(after[i] == n);
        }
    }
}

proof fn lemma_named_edge(ids: Seq<PackageIdView>, edges: Set<(usize, usize)>, edge: (usize, usize))
    ensures
        named_edges(ids, edges.insert(edge)) == named_edges(ids, edges).insert(
            (ids[edge.0 as int], ids[edge.1 as int]),
        ),
{
    let f = |e: (usize, usize)| (ids[e.0 as int], ids[e.1 as int]);
    let named = named_edges(ids, edges.insert(edge));
    let expected = named_edges(ids, edges).insert(f(edge));
    assert forall|p: (PackageIdView, PackageIdView)| #[trigger]
        expected.contains(p) implies named.contains(p) by {
        let e = if p == f(edge) {
            edge
        } else {
            choose|x: (usize, usize)| edges.contains(x) && p == f(x)
        };
        assert(edges.insert(edge).contains(e));
    }
    assert forall|p: (PackageIdView, PackageIdView)| #[trigger]
        named.contains(p) implies expected.contains(p) by {
        let e = choose|x: (usize, usize)| edges.insert(edge).contains(x) && p == f(x);
        if e != edge {
            assert(edges.contains(e));
        }
    }
    assert(named =~= expected);
}

/// More packages at the end do not change what nodes and edges stand for.
proof fn lemma_named_extended(
    ids: Seq<PackageIdView>,
    more: Seq<PackageIdView>,
    nodes: Seq<usize>,
    edges: Set<(usize, usize)>,
)
    requires
        ids.is_prefix_of(more),
        within(ids.len(), nodes, edges),
    ensures
        named_nodes(more, nodes) == named_nodes(ids, nodes),
        named_edges(more, edges) == named_edges(ids, edges),
        within(more.len(), nodes, edges),
{
    assert(named_nodes(more, nodes) =~= named_nodes(ids, nodes));
    let f = |e: (usize, usize)| (ids[e.0 as int], ids[e.1 as int]);
    let g = |e: (usize, usize)| (more[e.0 as int], more[e.1 as int]);
    assert forall|p: (PackageIdView, PackageIdView)| #[trigger]
        named_edges(ids, edges).contains(p) <==> named_edges(more, edges).contains(p) by {
        if named_edges(ids, edges).contains(p) {
            let e = choose|x: (usize, usize)| edges.contains(x) && p == f(x);
            assert(edges.contains(e) && p == g(e));
        }
        if named_edges(more, edges).contains(p) {
            let e = choose|x: (usize, usize)| edges.contains(x) && p == g(x);
            assert(edges.contains(e) && p == f(e));
        }
    }
    assert(named_edges(more, edges) =~= named_edges(ids, edges));
}

/// The packages that a resolution comes out with.
pub struct Resolve {
    /// The graph. Its nodes are positions in `packages`.
    pub graph: DiGraphMap<usize, ()>,
    /// The packages that the nodes stand for.
    pub packages: Vec<PackageId>,
}

impl Resolve {
    /// The package at each position.
    pub open spec fn ids(self) -> Seq<PackageIdView> {
        self.packages@.map_values(|p: PackageId| p@)
    }

    /// Whether the nodes of the graph stand for packages, each for one of its own, and every package
    /// has a node.
    pub open spec fn wf(self) -> bool {
        &&& self.ids().no_duplicates()
        &&& within(self.ids().len(), graph_nodes(self.graph), graph_edges(self.graph))
        &&& forall|n: usize|
            n < self.ids().len() ==> #[trigger] graph_nodes(self.graph).contains(n)
    }
}

impl View for Resolve {
    type V = ResolveView;

    open spec fn view(&self) -> ResolveView {
        ResolveView {
            nodes: named_nodes(self.ids(), graph_nodes(self.graph)),
            edges: named_edges(self.ids(), graph_edges(self.graph)),
        }
    }
}

/// Whether a sequence of summaries, of each package one, stands for the given map.
spec fn summaries_agree(
    summaries: Seq<Summary>,
    model: Map<PackageIdView, SummaryView>,
) -> bool {
    let ids = package_ids(summaries);
    &&& ids.no_duplicates()
    &&& forall|i: int|
        0 <= i < ids.len() ==> model.contains_key(#[trigger] ids[i]) && model[ids[i]]
            == summaries[i]@
    &&& forall|id: PackageIdView| #[trigger] model.contains_key(id) ==> ids.contains(id)
}

/// Whether a sequence of packages, of each name one, stands for the given map.
spec fn chosen_agree(
    ids: Seq<PackageIdView>,
    chosen: Seq<usize>,
    model: Map<Seq<char>, PackageIdView>,
) -> bool {
    &&& forall|k: int|
        0 <= k < chosen.len() ==> {
            let id = ids[#[trigger] chosen[k] as int];
            &&& chosen[k] < ids.len()
            &&& model.contains_key(id.name)
            &&& model[id.name] == id
        }
    &&& forall|name: Seq<char>| #[trigger]
        model.contains_key(name) ==> exists|k: int|
            0 <= k < chosen.len() && ids[#[trigger] chosen[k] as int].name == name
    &&& forall|j: int, k: int|
        0 <= j < k < chosen.len() ==> ids[#[trigger] chosen[j] as int].name
            != ids[#[trigger] chosen[k] as int].name
}

/// An exploration under way. Packages are known by their position in `summaries`.
struct Explorer {
    /// The summary of each package found, each package once.
    summaries: Vec<Summary>,
    /// The packages chosen, no two of one name.
    chosen: Vec<usize>,
    /// The graph.
    graph: DiGraphMap<usize, ()>,
    /// The packages found, in the order in which they are looked at.
    queue: Vec<usize>,
    /// How many packages of the queue have been turned to.
    visited: usize,
    /// The package being looked at, once there is one.
    current: usize,
    /// The dependencies of that package.
    pending: Vec<ManifestDependency>,
    /// How many of these have been left behind.
    skipped: usize,
    /// The state of the exploration that all this stands for.
    state: Ghost<State>,
}

impl Explorer {
    /// The package at each position.
    spec fn ids(self) -> Seq<PackageIdView> {
        package_ids(self.summaries@)
    }

    /// Whether the graph is that of the state.
    spec fn graph_agrees(self) -> bool {
        let ids = self.ids();
        &&& within(ids.len(), graph_nodes(self.graph), graph_edges(self.graph))
        &&& self.state@.nodes == named_nodes(ids, graph_nodes(self.graph))
        &&& self.state@.edges == named_edges(ids, graph_edges(self.graph))
    }

    /// Whether what is left to be looked at is what the state says.
    spec fn rest_agrees(self) -> bool {
        let ids = self.ids();
        &&& self.visited <= self.queue.len()
        &&& forall|i: int| 0 <= i < self.queue@.len() ==> #[trigger] self.queue@[i] < ids.len()
        &&& self.state@.queue == named_nodes(ids, self.queue@.skip(self.visited as int))
        &&& self.skipped <= self.pending.len()
        &&& self.state@.pending == dependency_views(self.pending@.skip(self.skipped as int))
        &&& match self.state@.current {
            Some(id) => self.current < ids.len() && ids[self.current as int] == id,
            None => self.skipped == self.pending.len(),
        }
    }

    /// Whether the exploration stands for its state.
    spec fn wf(self) -> bool {
        &&& summaries_agree(self.summaries@, self.state@.summaries)
        &&& chosen_agree(self.ids(), self.chosen@, self.state@.chosen)
        &&& self.graph_agrees()
        &&& self.rest_agrees()
    }
}

impl Explorer {
    /// The position of a package.
    fn find(&self, id: &PackageId) -> (position: Option<usize>)
        ensures
            match position {
                Some(at) => at < self.ids().len() && self.ids()[at as int] == id@,
                None => !self.ids().contains(id@),
            },
    {
        let mut i: usize = 0;
        while i < self.summaries.len()
            invariant
                i <= self.summaries.len(),
                forall|k: int| 0 <= k < i ==> #[trigger] self.ids()[k] != id@,
            decreases self.summaries.len() - i,
        {
            if self.summaries[i].package_id == *id {
                return Some(i);
            }
            i = i + 1;
        }
        None
    }

    /// Where among the packages chosen the one of the given name is.
    fn find_chosen(&self, name: &String) -> (position: Option<usize>)
        requires
            self.wf(),
        ensures
            match position {
                Some(k) => {
                    &&& k < self.chosen.len()
                    &&& self.ids()[self.chosen@[k as int] as int].name == name@
                    &&& self.state@.chosen.contains_key(name@)
                    &&& self.state@.chosen[name@] == self.ids()[self.chosen@[k as int] as int]
                },
                None => !self.state@.chosen.contains_key(name@),
            },
    {
        let mut k: usize = 0;
        while k < self.chosen.len()
            invariant
                k <= self.chosen.len(),
                self.wf(),
                forall|j: int|
                    0 <= j < k ==> self.ids()[#[trigger] self.chosen@[j] as int].name != name@,
            decreases self.chosen.len() - k,
        {
            let at: usize = self.chosen[k];
            if self.summaries[at].package_id.name == *name {
                return Some(k);
            }
            k = k + 1;
        }
        None
    }

    /// Records the summary of a package, in place of the one recorded before, and gives the
    /// position of the package.
    fn put(&mut self, summary: Summary) -> (at: usize)
        requires
            old(self).wf(),
        ensures
            final(self).wf(),
            at < final(self).ids().len(),
            final(self).ids()[at as int] == summary@.package_id,
            final(self).ids() == with_node(old(self).ids(), summary@.package_id),
            at == old(self).ids().len() <==> !old(self).ids().contains(summary@.package_id),
            final(self).queue == old(self).queue,
            final(self).visited == old(self).visited,
            final(self).current == old(self).current,
            final(self).pending == old(self).pending,
            final(self).skipped == old(self).skipped,
            final(self).graph == old(self).graph,
            final(self).state@ == (State {
                summaries: old(self).state@.summaries.insert(summary@.package_id, summary@),
                ..old(self).state@
            }),
    {
        let ghost id = summary@.package_id;
        let ghost view = summary@;
        let ghost before = *self;
        let found: Option<usize> = self.find(&summary.package_id);
        let at: usize = match found {
            Some(at) => {
                self.summaries.set(at, summary);
                at
            },
            None => {
                let at: usize = self.summaries.len();
                self.summaries.push(summary);
                at
            },
        };
        self.state = Ghost(
            State { summaries: before.state@.summaries.insert(id, view), ..before.state@ },
        );
        proof {
            let ids = before.ids();
            let more = self.ids();
            if found is Some {
                assert(more =~= ids);
                assert(ids[at as int] == id);
                assert(ids.contains(id));
            } else {
                assert(more =~= ids.push(id));
            }
            assert(summaries_agree(self.summaries@, self.state@.summaries)) by {
                assert forall|key: PackageIdView| #[trigger]
                    self.state@.summaries.contains_key(key) implies more.contains(key) by {
                    if key == id {
                        assert(more[at as int] == id);
                    } else {
                        let i = ids.index_of(key);
                        assert(ids.contains(key));
                        assert(more[i] == key);
                    }
                }
            }
            assert(chosen_agree(more, self.chosen@, self.state@.chosen)) by {
                assert forall|name: Seq<char>| #[trigger]
                    self.state@.chosen.contains_key(name) implies exists|k: int|
                    0 <= k < self.chosen@.len() && more[#[trigger] self.chosen@[k] as int].name
                        == name by {
                    assert(before.state@.chosen.contains_key(name));
                    let k = choose|k: int|
                        0 <= k < before.chosen@.len() && ids[#[trigger] before.chosen@[k] as int].name
                            == name;
                    assert(more[self.chosen@[k] as int].name == name);
                }
            }
            lemma_named_extended(
                ids,
                more,
                graph_nodes(self.graph),
                graph_edges(self.graph),
            );
            lemma_named_extended(
                ids,
                more,
                self.queue@.skip(self.visited as int),
                Set::empty(),
            );
        }
        at
    }

    /// Chooses a package for its name, in place of the one chosen before.
    fn select(&mut self, at: usize)
        requires
            old(self).wf(),
            at < old(self).ids().len(),
        ensures
            final(self).wf(),
            final(self).summaries == old(self).summaries,
            final(self).queue == old(self).queue,
            final(self).visited == old(self).visited,
            final(self).current == old(self).current,
            final(self).graph == old(self).graph,
            final(self).state@ == (State {
                chosen: old(self).state@.chosen.insert(
                    old(self).ids()[at as int].name,
                    old(self).ids()[at as int],
                ),
                ..old(self).state@
            }),
    {
        let ghost before = *self;
        let ghost id = self.ids()[at as int];
        let found: Option<usize> = self.find_chosen(&self.summaries[at].package_id.name);
        let place: usize = match found {
            Some(k) => {
                self.chosen.set(k, at);
                k
            },
            None => {
                let k: usize = self.chosen.len();
                self.chosen.push(at);
                k
            },
        };
        self.state = Ghost(
            State { chosen: before.state@.chosen.insert(id.name, id), ..before.state@ },
        );
        proof {
            let ids = self.ids();
            assert(ids =~= before.ids());
            assert forall|name: Seq<char>| #[trigger]
                self.state@.chosen.contains_key(name) implies exists|k: int|
                0 <= k < self.chosen@.len() && ids[#[trigger] self.chosen@[k] as int].name
                    == name by {
                if name == id.name {
                    assert(ids[self.chosen@[place as int] as int].name == name);
                } else {
                    assert(before.state@.chosen.contains_key(name));
                    let k = choose|k: int|
                        0 <= k < before.chosen@.len() && ids[#[trigger] before.chosen@[k] as int].name
                            == name;
                    assert(self.chosen@[k] == before.chosen@[k]);
                    assert(ids[self.chosen@[k] as int].name == name);
                }
            }
        }
    }

    /// Begins an exploration of the given top-level packages, in the order in which they are given.
    fn begin(roots: &[Summary]) -> (explorer: Explorer)
        ensures
            explorer.wf(),
            explorer.state@ == State::start(
                summary_views(roots@),
                root_order(summary_views(roots@)),
            ),
    {
        let ghost views = summary_views(roots@);
        let mut explorer = Explorer {
            summaries: Vec::new(),
            chosen: Vec::new(),
            graph: new_graph(),
            queue: Vec::new(),
            visited: 0,
            current: 0,
            pending: Vec::new(),
            skipped: 0,
            state: Ghost(State::start(Seq::empty(), Seq::empty())),
        };
        proof {
            assert(views.take(0) =~= Seq::empty());
            assert(explorer.queue@.skip(0) =~= Seq::empty());
            assert(named_nodes(explorer.ids(), Seq::empty()) =~= Seq::empty());
            assert(named_edges(explorer.ids(), Set::empty()) =~= Set::empty());
            assert(dependency_views(explorer.pending@.skip(0)) =~= Seq::empty());
        }
        let mut i: usize = 0;
        while i < roots.len()
            invariant
                i <= roots.len(),
                views == summary_views(roots@),
                explorer.wf(),
                explorer.visited == 0,
                explorer.state@ == State::start(
                    views.take(i as int),
                    root_order(views.take(i as int)),
                ),
                explorer.state@.queue == explorer.ids(),
            decreases roots.len() - i,
        {
            let ghost before = explorer;
            let known: usize = explorer.summaries.len();
            let at: usize = explorer.put(roots[i].clone());
            explorer.select(at);
            if at == known {
                explorer.queue.push(at);
            }
            explorer.state = Ghost(
                State {
                    queue: with_node(before.state@.queue, roots@[i as int]@.package_id),
                    ..explorer.state@
                },
            );
            proof {
                let id = roots@[i as int]@.package_id;
                assert(views.take(i + 1).drop_last() =~= views.take(i as int));
                assert(views.take(i + 1).last() == roots@[i as int]@);
                assert(before.queue@.skip(0) =~= before.queue@);
                assert(explorer.queue@.skip(0) =~= explorer.queue@);
                let ids = explorer.ids();
                if at == known {
                    assert(ids =~= before.ids().push(id));
                    assert(named_nodes(ids, explorer.queue@) =~= named_nodes(
                        ids,
                        before.queue@,
                    ).push(id));
                }
                assert(explorer.wf());
            }
            i = i + 1;
        }
        proof {
            assert(views.take(views.len() as int) =~= views);
        }
        explorer
    }

    /// Turns to the next package of the queue.
    fn visit(&mut self)
        requires
            old(self).wf(),
            old(self).state@.queue.len() > 0,
        ensures
            final(self).wf(),
            final(self).state@ == old(self).state@.visit(),
            final(self).queue == old(self).queue,
            final(self).visited == old(self).visited + 1,
    {
        let ghost before = *self;
        let at: usize = self.queue[self.visited];
        add_node(&mut self.graph, at);
        self.visited = self.visited + 1;
        self.current = at;
        self.pending = clone_dependencies(&self.summaries[at].dependencies);
        self.skipped = 0;
        self.state = Ghost(before.state@.visit());
        proof {
            let ids = self.ids();
            let rest = before.queue@.skip(before.visited as int);
            assert(rest[0] == at);
            assert(before.state@.queue[0] == ids[at as int]);
            assert(self.queue@.skip(self.visited as int) =~= rest.drop_first());
            assert(named_nodes(ids, rest.drop_first()) =~= named_nodes(ids, rest).drop_first());
            assert(self.pending@.skip(0) =~= self.pending@);
            lemma_named_with_node(ids, graph_nodes(before.graph), at);
        }
    }

    /// Goes on up to the first dependency that is not settled, or else up to the end.
    fn scan(&mut self)
        requires
            old(self).wf(),
        ensures
            final(self).wf(),
            final(self).state@ == old(self).state@.scan(),
    {
        let ghost goal = self.state@.scan();
        loop
            invariant
                self.wf(),
                self.state@.scan() == goal,
            ensures
                self.wf(),
                self.state@ == goal,
            decreases self.queue.len() - self.visited, self.pending.len() - self.skipped,
        {
            if self.skipped < self.pending.len() {
                proof {
                    let rest = self.pending@.skip(self.skipped as int);
                    assert(rest[0] == self.pending@[self.skipped as int]);
                    assert(self.state@.pending[0] == rest[0]@);
                }
                let found: Option<usize> = self.find_chosen(&self.pending[self.skipped].name);
                let settled: bool = match found {
                    Some(k) => {
                        let at: usize = self.chosen[k];
                        self.summaries[at].package_id.source_id
                            == self.pending[self.skipped].source_id
                    },
                    None => false,
                };
                if !settled {
                    break;
                }
                let ghost before = *self;
                self.skipped = self.skipped + 1;
                self.state = Ghost(before.state@.skip());
                proof {
                    let rest = before.pending@.skip(before.skipped as int);
                    assert(self.pending@.skip(self.skipped as int) =~= rest.drop_first());
                    assert(dependency_views(rest.drop_first()) =~= dependency_views(
                        rest,
                    ).drop_first());
                }
            } else if self.visited < self.queue.len() {
                self.visit();
            } else {
                break;
            }
        }
    }

    /// Takes a package as the answer for the first pending dependency.
    fn accept(&mut self, answer: Summary)
        requires
            old(self).wf(),
            old(self).state@.asks(),
        ensures
            final(self).wf(),
            final(self).state@ == old(self).state@.accept(answer@),
    {
        let ghost before = *self;
        let ghost view = answer@;
        let at: usize = self.put(answer);
        let ghost middle = *self;
        add_edge(&mut self.graph, self.current, at);
        self.queue.push(at);
        self.skipped = self.skipped + 1;
        self.state = Ghost(
            State { chosen: before.state@.chosen, ..before.state@.accept(view) },
        );
        proof {
            let ids = self.ids();
            let nodes = graph_nodes(middle.graph);
            lemma_named_with_node(ids, nodes, self.current);
            lemma_named_with_node(ids, with_node(nodes, self.current), at);
            lemma_named_edge(ids, graph_edges(middle.graph), (self.current, at));
            let rest = middle.queue@.skip(self.visited as int);
            assert(self.queue@.skip(self.visited as int) =~= rest.push(at));
            assert(named_nodes(ids, rest.push(at)) =~= named_nodes(ids, rest).push(ids[at as int]));
            let pending = before.pending@.skip(before.skipped as int);
            assert(self.pending@.skip(self.skipped as int) =~= pending.drop_first());
            assert(dependency_views(pending.drop_first()) =~= dependency_views(
                pending,
            ).drop_first());
        }
        self.select(at);
    }

    /// What the packages in the graph require of each other, or nothing if there is a dependency
    /// whose name no package has been chosen for.
    fn requirements(&self) -> (requirements: Option<Vec<Requirement>>)
        requires
            self.wf(),
        ensures
            match requirements {
                Some(all) => {
                    &&& self.state@.answered()
                    &&& requirement_views(all@) == self.state@.requirements(self.state@.nodes)
                },
                None => !self.state@.answered(),
            },
    {
        let nodes: Vec<usize> = nodes(&self.graph);
        let ghost state = self.state@;
        let mut all: Vec<Requirement> = Vec::new();
        let mut n: usize = 0;
        assert(requirement_views(all@) =~= state.requirements(state.nodes.take(0)));
        while n < nodes.len()
            invariant
                n <= nodes.len(),
                self.wf(),
                state == self.state@,
                nodes@ == graph_nodes(self.graph),
                requirement_views(all@) == state.requirements(state.nodes.take(n as int)),
                forall|m: int, d: int|
                    #![trigger state.summaries[state.nodes[m]].dependencies[d]]
                    0 <= m < n && 0 <= d < state.summaries[state.nodes[m]].dependencies.len()
                        ==> state.chosen.contains_key(
                        state.summaries[state.nodes[m]].dependencies[d].name,
                    ),
            decreases nodes.len() - n,
        {
            let from: usize = nodes[n];
            let ghost id = state.nodes[n as int];
            let ghost earlier = requirement_views(all@);
            let ghost own = state.requirements_of(id);
            let summary: &Summary = &self.summaries[from];
            assert(state.summaries[self.ids()[from as int]] == summary@);
            let mut d: usize = 0;
            assert(earlier + own.take(0) =~= earlier);
            while d < summary.dependencies.len()
                invariant
                    d <= summary.dependencies.len(),
                    n < nodes.len(),
                    self.wf(),
                    state == self.state@,
                    nodes@ == graph_nodes(self.graph),
                    from == nodes@[n as int],
                    id == state.nodes[n as int],
                    id == summary@.package_id,
                    state.summaries[id] == summary@,
                    own == state.requirements_of(id),
                    requirement_views(all@) == earlier + own.take(d as int),
                    forall|e: int|
                        0 <= e < d ==> state.chosen.contains_key(
                            (#[trigger] state.summaries[id].dependencies[e]).name,
                        ),
                decreases summary.dependencies.len() - d,
            {
                let dependency: &ManifestDependency = &summary.dependencies[d];
                assert(dependency@ == state.summaries[state.nodes[n as int]].dependencies[d as int]);
                match self.find_chosen(&dependency.name) {
                    Some(k) => {
                        let to: usize = self.chosen[k];
                        let requirement = Requirement {
                            from: summary.package_id.clone(),
                            dependency: dependency.clone(),
                            to: self.summaries[to].package_id.clone(),
                        };
                        let ghost before = requirement_views(all@);
                        all.push(requirement);
                        proof {
                            assert(requirement@ == own[d as int]);
                            assert(requirement_views(all@) =~= before.push(requirement@));
                            assert(own.take(d + 1) =~= own.take(d as int).push(own[d as int]));
                        }
                    },
                    None => {
                        return None;
                    },
                }
                d = d + 1;
            }
            proof {
                assert(own.take(own.len() as int) =~= own);
                assert(state.nodes.take(n + 1).drop_last() =~= state.nodes.take(n as int));
            }
            n = n + 1;
        }
        assert(state.nodes.take(state.nodes.len() as int) =~= state.nodes);
        Some(all)
    }

    /// The package at each position.
    fn packages(&self) -> (packages: Vec<PackageId>)
        ensures
            packages@.map_values(|p: PackageId| p@) == self.ids(),
    {
        let mut packages: Vec<PackageId> = Vec::new();
        let mut i: usize = 0;
        while i < self.summaries.len()
            invariant
                i <= self.summaries.len(),
                packages.len() == i,
                forall|k: int| 0 <= k < i ==> (#[trigger] packages@[k])@ == self.ids()[k],
            decreases self.summaries.len() - i,
        {
            packages.push(self.summaries[i].package_id.clone());
            i = i + 1;
        }
        assert(packages@.map_values(|p: PackageId| p@) =~= self.ids());
        packages
    }

    /// Once everything has been looked at, every package found has a node in the graph.
    proof fn lemma_every_package_has_a_node(self)
        requires
            self.wf(),
            listed(self.state@),
            self.state@.queue.len() == 0,
        ensures
            forall|n: usize|
                n < self.ids().len() ==> #[trigger] graph_nodes(self.graph).contains(n),
    {
        let ids = self.ids();
        let nodes = graph_nodes(self.graph);
        assert forall|n: usize| n < ids.len() implies #[trigger] nodes.contains(n) by {
            let id = ids[n as int];
            assert(self.state@.summaries.contains_key(id));
            assert(self.state@.nodes.contains(id));
            let i = self.state@.nodes.index_of(id);
            assert(ids[nodes[i] as int] == ids[n as int]);
            assert(nodes[i] == n);
        }
    }

    /// What the resolution comes to once everything has been looked at.
    fn conclude<E>(self) -> (step: Step<E>)
        requires
            self.wf(),
            listed(self.state@),
            self.state@.queue.len() == 0,
        ensures
            step@ == self.state@.conclusion::<E>(),
            step.wf(),
    {
        match self.requirements() {
            None => Step::Stuck,
            Some(requirements) => {
                let met: Vec<bool> = check_requirements(&requirements);
                match judge(&requirements, &met) {
                    None => {
                        let packages: Vec<PackageId> = self.packages();
                        proof {
                            self.lemma_every_package_has_a_node();
                        }
                        Step::Done(Ok(Resolve { graph: self.graph, packages }))
                    },
                    Some(failure) => Step::Done(Err(ResolveError::Failure(failure))),
                }
            },
        }
    }

    /// What the resolution has come to when the exploration can go no further by itself.
    fn outcome<E>(self) -> (step: Step<E>)
        requires
            self.wf(),
            listed(self.state@),
            self.state@.pending.len() == 0 ==> self.state@.queue.len() == 0,
        ensures
            step@ == self.state@.outcome::<E>(),
            step.wf(),
    {
        if self.skipped == self.pending.len() {
            return self.conclude();
        }
        proof {
            let rest = self.pending@.skip(self.skipped as int);
            assert(rest[0] == self.pending@[self.skipped as int]);
            assert(self.state@.pending[0] == rest[0]@);
        }
        match self.find_chosen(&self.pending[self.skipped].name) {
            None => Step::Query(Pending { explorer: self }),
            Some(k) => {
                let at: usize = self.chosen[k];
                let dependency: &ManifestDependency = &self.pending[self.skipped];
                Step::Done(
                    Err(
                        ResolveError::Failure(
                            Failure::IncompatibleSources {
                                name: dependency.name.clone(),
                                existing: self.summaries[at].package_id.source_id.clone(),
                                requested: dependency.source_id.clone(),
                            },
                        ),
                    ),
                )
            },
        }
    }
}

/// A resolution that waits for the registry to reply to a query.
pub struct Pending {
    explorer: Explorer,
}

impl View for Pending {
    type V = State;

    closed spec fn view(&self) -> State {
        self.explorer.state@
    }
}

/// What a resolution has come to, where the registry reports errors of type `E`.
pub enum Step<E> {
    /// The registry has to be asked.
    Query(Pending),
    /// The resolution is over.
    Done(Result<Resolve, ResolveError<E>>),
    /// Everything has been looked at, yet there is a dependency whose name no package was chosen
    /// for: the registry answered the query for it with a package of another name.
    Stuck,
}

impl<E> View for Step<E> {
    type V = StepView<E>;

    open spec fn view(&self) -> StepView<E> {
        match *self {
            Step::Query(pending) => StepView::Query(pending@),
            Step::Done(Ok(resolve)) => StepView::Done(Ok(resolve@)),
            Step::Done(Err(error)) => StepView::Done(Err(error@)),
            Step::Stuck => StepView::Stuck,
        }
    }
}

impl<E> Step<E> {
    /// Whether the packages that have come out, if any, are well formed.
    pub open spec fn wf(self) -> bool {
        self matches Step::Done(Ok(resolve)) ==> resolve.wf()
    }
}

/// What a reply of the registry stands for.
pub open spec fn reply_view<E>(reply: Result<Vec<Summary>, E>) -> Result<Seq<SummaryView>, E> {
    match reply {
        Ok(results) => Ok(summary_views(results@)),
        Err(error) => Err(error),
    }
}

impl Pending {
    /// Whether the exploration stands for its state, and has come to a dependency to be asked for.
    #[verifier::type_invariant]
    spec fn wf(self) -> bool {
        self.explorer.wf() && self.explorer.state@.asks() && listed(self.explorer.state@)
    }

    /// The dependency that the registry is to be asked for.
    pub fn dependency(&self) -> (dependency: &ManifestDependency)
        ensures
            self@.asks(),
            self@.pending.len() > 0,
            !self@.chosen.contains_key(self@.pending[0].name),
            dependency@ == self@.pending[0],
    {
        proof {
            use_type_invariant(self);
            let rest = self.explorer.pending@.skip(self.explorer.skipped as int);
            assert(rest[0] == self.explorer.pending@[self.explorer.skipped as int]);
            assert(self@.pending[0] == rest[0]@);
        }
        &self.explorer.pending[self.explorer.skipped]
    }

    /// Goes on with the reply of the registry: the packages that will do for the dependency, best
    /// first, or an error.
    pub fn resume<E>(self, reply: Result<Vec<Summary>, E>) -> (step: Step<E>)
        ensures
            step@ == self@.resume(reply_view(reply)),
            step.wf(),
            self@.pending.len() > 0,
            !self@.chosen.contains_key(self@.pending[0].name),
            reply matches Err(error) ==> step == Step::<E>::Done(
                Err(ResolveError::Registry(error)),
            ),
            reply matches Ok(results) && results.len() == 0 ==> (step matches Step::Done(
                Err(ResolveError::Failure(Failure::PackageNotFound { name })),
            ) && name@ == self@.pending[0].name),
    {
        proof {
            use_type_invariant(&self);
        }
        let results: Vec<Summary> = match reply {
            Ok(results) => results,
            Err(error) => {
                return Step::Done(Err(ResolveError::Registry(error)));
            },
        };
        if results.len() == 0 {
            let name: String = self.dependency().name.clone();
            return Step::Done(Err(ResolveError::Failure(Failure::PackageNotFound { name })));
        }
        let mut explorer: Explorer = self.explorer;
        proof {
            let accepted = explorer.state@.accept(results@[0]@);
            lemma_accept_listed(explorer.state@, results@[0]@);
            lemma_scan_listed(accepted);
            lemma_scan(accepted);
        }
        explorer.accept(results[0].clone());
        explorer.scan();
        explorer.outcome()
    }
}

/// Begins to resolve the packages that the given top-level packages depend on: builds the list of
/// all packages required to build them.
///
/// `summaries` are the top-level packages, typically all members of a workspace. They are taken in
/// the order in which they are given. Of several of one name the last is chosen for that name, and
/// of several summaries of one package the last one counts.
///
/// The registry that the queries are put to is expected to give the same reply to the same query
/// every time.
pub fn resolve<E>(summaries: &[Summary]) -> (step: Step<E>)
    ensures
        step@ == explored(
            summary_views(summaries@),
            root_order(summary_views(summaries@)),
            Seq::empty(),
        ).outcome::<E>(),
        step.wf(),
{
    let mut explorer: Explorer = Explorer::begin(summaries);
    proof {
        let roots = summary_views(summaries@);
        law_root_order_lists_roots(roots);
        lemma_start_listed(roots, root_order(roots));
        lemma_scan_listed(explorer.state@);
        lemma_scan(explorer.state@);
    }
    explorer.scan();
    explorer.outcome()
}

} // verus!
