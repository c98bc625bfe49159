//! Why a resolution fails.

use vstd::prelude::*;

use crate::package::{SourceId, SourceIdView};
use crate::text::{join, join_lines, texts};

verus! {

/// A reason for which packages cannot be resolved.
#[derive(Debug)]
pub enum Failure {
    /// A dependency asks for a package that has been chosen from another source.
    IncompatibleSources {
        /// The name of the package.
        name: String,
        /// The source of the package that has been chosen.
        existing: SourceId,
        /// The source that the dependency asks for.
        requested: SourceId,
    },
    /// The registry has no package that will do for a dependency.
    PackageNotFound {
        /// The name of the package that the dependency asks for.
        name: String,
    },
    /// The chosen packages do not satisfy every version requirement.
    VersionSolving {
        /// One line for each requirement that is not met, in ascending order.
        incompatibilities: Vec<String>,
    },
}

/// What a [`Failure`] stands for.
pub enum FailureView {
    IncompatibleSources { name: Seq<char>, existing: SourceIdView, requested: SourceIdView },
    PackageNotFound { name: Seq<char> },
    VersionSolving { incompatibilities: Seq<Seq<char>> },
}

impl FailureView {
    /// The message for the failure.
    pub open spec fn message(self) -> Seq<char> {
        match self {
            FailureView::IncompatibleSources { name, existing, requested } => {
                "found dependencies on the same package `"@ + name
                    + "` coming from incompatible sources:\nsource 1: "@ + existing.display
                    + "\nsource 2: "@ + requested.display + "\n"@
            },
            FailureView::PackageNotFound { name } => "cannot find package "@ + name,
            FailureView::VersionSolving { incompatibilities } => {
                "Version solving failed:\n"@ + join_lines(incompatibilities)
                    + "\n\nScarb does not have real version solving algorithm yet.\n"@
                    + "Perhaps in the future this conflict could be resolved, but currently,\n"@
                    + "please upgrade your dependencies to use latest versions of their dependencies.\n"@
            },
        }
    }
}

impl View for Failure {
    type V = FailureView;

    open spec fn view(&self) -> FailureView {
        match self {
            Failure::IncompatibleSources { name, existing, requested } => {
                FailureView::IncompatibleSources {
                    name: name@,
                    existing: existing@,
                    requested: requested@,
                }
            },
            Failure::PackageNotFound { name } => FailureView::PackageNotFound { name: name@ },
            Failure::VersionSolving { incompatibilities } => FailureView::VersionSolving {
                incompatibilities: texts(incompatibilities@),
            },
        }
    }
}

impl Failure {
    /// The message for the failure.
    pub fn message(&self) -> (text: String)
        ensures
            text@ == self@.message(),
    {
        let mut text: String = String::new();
        match self {
            Failure::IncompatibleSources { name, existing, requested } => {
                text.append("found dependencies on the same package `");
                text.append(name.as_str());
                text.append("` coming from incompatible sources:\nsource 1: ");
                text.append(existing.display.as_str());
                text.append("\nsource 2: ");
                text.append(requested.display.as_str());
                text.append("\n");
            },
            Failure::PackageNotFound { name } => {
                text.append("cannot find package ");
                text.append(name.as_str());
            },
            Failure::VersionSolving { incompatibilities } => {
                let lines: String = join(incompatibilities);
                text.append("Version solving failed:\n");
                text.append(lines.as_str());
                text.append("\n\nScarb does not have real version solving algorithm yet.\n");
                text.append(
                    "Perhaps in the future this conflict could be resolved, but currently,\n",
                );
                text.append(
                    "please upgrade your dependencies to use latest versions of their dependencies.\n",
                );
            },
        }
        assert(text@ =~= self@.message());
        text
    }
}

/// Why no packages come out of a resolution, where the registry reports errors of type `E`.
#[derive(Debug)]
pub enum ResolveError<E> {
    /// The registry failed to answer a query.
    Registry(E),
    /// The packages cannot be resolved.
    Failure(Failure),
}

/// What a [`ResolveError`] stands for.
pub enum ResolveErrorView<E> {
    Registry(E),
    Failure(FailureView),
}

impl<E> View for ResolveError<E> {
    type V = ResolveErrorView<E>;

    open spec fn view(&self) -> ResolveErrorView<E> {
        match *self {
            ResolveError::Registry(error) => ResolveErrorView::Registry(error),
            ResolveError::Failure(failure) => ResolveErrorView::Failure(failure@),
        }
    }
}

} // verus!
