//! The exploration of the packages that others depend on, as a mathematical model.
//!
//! An exploration starts from top-level packages and looks at packages one after the other, first
//! found first, and at the dependencies of each in turn. A dependency is settled when a package of
//! its name has been chosen, and that package comes from the source that the dependency asks for.
//! A dependency whose name no package has been chosen for becomes a query to the registry, and the
//! package that answers it is chosen for its own name.

use vstd::prelude::*;

use crate::failure::{FailureView, ResolveErrorView};
use crate::graph::with_node;
use crate::package::{ManifestDependencyView, PackageIdView, SummaryView};
use crate::requirement::{complaints, verdicts, version_failure, RequirementView};

verus! {

/// How far an exploration has come.
pub struct State {
    /// The package chosen for each name.
    pub chosen: Map<Seq<char>, PackageIdView>,
    /// The summary of each package found.
    pub summaries: Map<PackageIdView, SummaryView>,
    /// The nodes of the graph, in the order in which they were added.
    pub nodes: Seq<PackageIdView>,
    /// The edges of the graph: each leads from a package to one that answered a query for it.
    pub edges: Set<(PackageIdView, PackageIdView)>,
    /// The packages still to be looked at, in order.
    pub queue: Seq<PackageIdView>,
    /// The package being looked at.
    pub current: Option<PackageIdView>,
    /// The dependencies of that package that are still to be looked at, in order.
    pub pending: Seq<ManifestDependencyView>,
}

/// The graph that a resolution comes out with.
pub struct ResolveView {
    /// The packages, in the order in which they became part of the graph.
    pub nodes: Seq<PackageIdView>,
    /// The edges, each from a package to one that was asked for on its behalf.
    pub edges: Set<(PackageIdView, PackageIdView)>,
}

/// What a resolution has come to, where the registry reports errors of type `E`.
pub enum StepView<E> {
    /// The first pending dependency of the state has to be asked for.
    Query(State),
    /// The resolution is over.
    Done(Result<ResolveView, ResolveErrorView<E>>),
    /// Everything has been looked at, yet there is a dependency whose name no package was chosen
    /// for.
    Stuck,
}

/// The package chosen for each name to begin with: of the top-level packages of that name, the
/// last one.
pub open spec fn root_choice(roots: Seq<SummaryView>) -> Map<Seq<char>, PackageIdView>
    decreases roots.len(),
{
    if roots.len() == 0 {
        Map::empty()
    } else {
        let id = roots.last().package_id;
        root_choice(roots.drop_last()).insert(id.name, id)
    }
}

/// The summary of each top-level package: of those given for it, the last one.
pub open spec fn root_summaries(roots: Seq<SummaryView>) -> Map<PackageIdView, SummaryView>
    decreases roots.len(),
{
    if roots.len() == 0 {
        Map::empty()
    } else {
        root_summaries(roots.drop_last()).insert(roots.last().package_id, roots.last())
    }
}

/// The top-level packages, each once, in the order in which they are first given.
pub open spec fn root_order(roots: Seq<SummaryView>) -> Seq<PackageIdView>
    decreases roots.len(),
{
    if roots.len() == 0 {
        Seq::empty()
    } else {
        with_node(root_order(roots.drop_last()), roots.last().package_id)
    }
}

impl State {
    /// The beginning of an exploration that takes the top-level packages in the given order.
    pub open spec fn start(roots: Seq<SummaryView>, order: Seq<PackageIdView>) -> State {
        State {
            chosen: root_choice(roots),
            summaries: root_summaries(roots),
            nodes: Seq::empty(),
            edges: Set::empty(),
            queue: order,
            current: None,
            pending: Seq::empty(),
        }
    }

    /// Whether nothing is left to be done for a dependency: the package chosen for its name comes
    /// from the source that it asks for.
    pub open spec fn settles(self, dependency: ManifestDependencyView) -> bool {
        &&& self.chosen.contains_key(dependency.name)
        &&& self.chosen[dependency.name].source_id == dependency.source_id
    }

    /// Turns to the first package of the queue.
    pub open spec fn visit(self) -> State {
        let id = self.queue[0];
        State {
            nodes: with_node(self.nodes, id),
            queue: self.queue.drop_first(),
            current: Some(id),
            pending: self.summaries[id].dependencies,
            ..self
        }
    }

    /// Leaves the first pending dependency behind.
    pub open spec fn skip(self) -> State {
        State { pending: self.pending.drop_first(), ..self }
    }

    /// Goes on up to the first dependency that is not settled, or else up to the end.
    pub open spec fn scan(self) -> State
        decreases self.queue.len(), self.pending.len(),
    {
        if self.pending.len() > 0 {
            if self.settles(self.pending[0]) {
                self.skip().scan()
            } else {
                self
            }
        } else if self.queue.len() > 0 {
            self.visit().scan()
        } else {
            self
        }
    }

    /// Whether the first pending dependency has to be asked for.
    pub open spec fn asks(self) -> bool {
        &&& self.pending.len() > 0
        &&& !self.chosen.contains_key(self.pending[0].name)
    }

    /// Takes a package as the answer for the first pending dependency: it is chosen for its name,
    /// joined to the package being looked at by an edge, and queued.
    pub open spec fn accept(self, answer: SummaryView) -> State {
        let from = self.current->0;
        let to = answer.package_id;
        State {
            chosen: self.chosen.insert(to.name, to),
            summaries: self.summaries.insert(to, answer),
            nodes: with_node(with_node(self.nodes, from), to),
            edges: self.edges.insert((from, to)),
            queue: self.queue.push(to),
            current: self.current,
            pending: self.pending.drop_first(),
        }
    }

    /// Whether nothing is left to be looked at.
    pub open spec fn exhausted(self) -> bool {
        self.pending.len() == 0 && self.queue.len() == 0
    }

    /// Whether a package has been chosen for every dependency of the packages in the graph.
    pub open spec fn answered(self) -> bool {
        forall|n: int, d: int|
            #![trigger self.summaries[self.nodes[n]].dependencies[d]]
            0 <= n < self.nodes.len() && 0 <= d
                < self.summaries[self.nodes[n]].dependencies.len() ==> self.chosen.contains_key(
                self.summaries[self.nodes[n]].dependencies[d].name,
            )
    }

    /// What a package requires, dependency by dependency.
    pub open spec fn requirements_of(self, id: PackageIdView) -> Seq<RequirementView> {
        self.summaries[id].dependencies.map_values(
            |d: ManifestDependencyView|
                RequirementView { from: id, dependency: d, to: self.chosen[d.name] },
        )
    }

    /// What the given packages require, package by package.
    pub open spec fn requirements(self, ids: Seq<PackageIdView>) -> Seq<RequirementView>
        decreases ids.len(),
    {
        if ids.len() == 0 {
            Seq::empty()
        } else {
            self.requirements(ids.drop_last()) + self.requirements_of(ids.last())
        }
    }

    /// The complaints about the requirements between the packages in the graph that are not met.
    pub open spec fn conflicts(self) -> Seq<Seq<char>> {
        let requirements = self.requirements(self.nodes);
        complaints(requirements, verdicts(requirements))
    }

    /// The graph.
    pub open spec fn graph(self) -> ResolveView {
        ResolveView { nodes: self.nodes, edges: self.edges }
    }

    /// What a resolution comes to once everything has been looked at.
    pub open spec fn conclusion<E>(self) -> StepView<E> {
        let requirements = self.requirements(self.nodes);
        if !self.answered() {
            StepView::Stuck
        } else {
            match version_failure(requirements, verdicts(requirements)) {
                None => StepView::Done(Ok(self.graph())),
                Some(failure) => StepView::Done(Err(ResolveErrorView::Failure(failure))),
            }
        }
    }

    /// What a resolution has come to when its exploration can go no further by itself.
    pub open spec fn outcome<E>(self) -> StepView<E> {
        if self.pending.len() == 0 {
            self.conclusion()
        } else if self.asks() {
            StepView::Query(self)
        } else {
            let dependency = self.pending[0];
            StepView::Done(
                Err(
                    ResolveErrorView::Failure(
                        FailureView::IncompatibleSources {
                            name: dependency.name,
                            existing: self.chosen[dependency.name].source_id,
                            requested: dependency.source_id,
                        },
                    ),
                ),
            )
        }
    }

    /// What a resolution comes to when the registry has replied to its query: an error of the
    /// registry ends it, and so does a reply without packages; otherwise the first package of the
    /// reply is the answer.
    pub open spec fn resume<E>(self, reply: Result<Seq<SummaryView>, E>) -> StepView<E> {
        match reply {
            Err(error) => StepView::Done(Err(ResolveErrorView::Registry(error))),
            Ok(results) => if results.len() == 0 {
                StepView::Done(
                    Err(
                        ResolveErrorView::Failure(
                            FailureView::PackageNotFound { name: self.pending[0].name },
                        ),
                    ),
                )
            } else {
                self.accept(results[0]).scan().outcome()
            },
        }
    }
}

} // verus!
