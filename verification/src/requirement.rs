//! What resolved packages require of each other.

use vstd::prelude::*;
use vstd::relations::sorted_by;

use crate::failure::{Failure, FailureView};
use crate::package::{ManifestDependency, ManifestDependencyView, PackageId, PackageIdView};
use crate::text::{ascending, law_ascending_is_sorted, sort, text_le, text_order, texts};
use crate::version::semver_matches;

verus! {

/// A dependency that a package declares, and the package that was chosen for it.
#[derive(Debug)]
pub struct Requirement {
    /// The package that declares the dependency.
    pub from: PackageId,
    /// The dependency.
    pub dependency: ManifestDependency,
    /// The package that was chosen.
    pub to: PackageId,
}

/// What a [`Requirement`] stands for.
pub struct RequirementView {
    pub from: PackageIdView,
    pub dependency: ManifestDependencyView,
    pub to: PackageIdView,
}

impl RequirementView {
    /// Whether the chosen package will do.
    pub open spec fn is_met(self) -> bool {
        self.dependency.matches_package_id(self.to)
    }

    /// The line that reports that the chosen package will not do.
    pub open spec fn complaint(self) -> Seq<char> {
        "- "@ + self.from.text() + " cannot use "@ + self.to.text() + ", because "@
            + self.from.name + " requires "@ + self.to.name + " "@ + self.dependency.version_req
    }
}

impl View for Requirement {
    type V = RequirementView;

    open spec fn view(&self) -> RequirementView {
        RequirementView { from: self.from@, dependency: self.dependency@, to: self.to@ }
    }
}

/// The views of requirements, one by one.
pub open spec fn requirement_views(requirements: Seq<Requirement>) -> Seq<RequirementView> {
    requirements.map_values(|r: Requirement| r@)
}

/// Of each requirement in turn, whether it is met.
pub open spec fn verdicts(requirements: Seq<RequirementView>) -> Seq<bool> {
    requirements.map_values(|r: RequirementView| r.is_met())
}

/// The complaints about the requirements that are not met, in the order of the requirements.
pub open spec fn complaints(requirements: Seq<RequirementView>, met: Seq<bool>) -> Seq<Seq<char>>
    decreases requirements.len(),
{
    if requirements.len() == 0 {
        Seq::empty()
    } else {
        let earlier = complaints(requirements.drop_last(), met.drop_last());
        if met.last() {
            earlier
        } else {
            earlier.push(requirements.last().complaint())
        }
    }
}

/// A requirement is met exactly if the chosen package has the name and the source that the
/// dependency asks for, and a version that satisfies the version requirement. The verdicts say so
/// of each requirement in turn.
pub proof fn law_verdicts(requirements: Seq<RequirementView>, i: int)
    requires
        0 <= i < requirements.len(),
    ensures
        verdicts(requirements).len() == requirements.len(),
        verdicts(requirements)[i] <==> {
            &&& requirements[i].to.name == requirements[i].dependency.name
            &&& requirements[i].to.source_id == requirements[i].dependency.source_id
            &&& semver_matches(requirements[i].dependency.version_req, requirements[i].to.version)
        },
{
}

/// A requirement that is met calls for no complaint, and one that is not met calls for one.
pub proof fn law_complaint_about_one(r: RequirementView, met: bool)
    ensures
        met ==> complaints(seq![r], seq![met]).len() == 0,
        !met ==> complaints(seq![r], seq![met]) == seq![r.complaint()],
{
    reveal_with_fuel(complaints, 2);
    assert(seq![r].drop_last() =~= Seq::empty());
}

/// The complaints about two runs of requirements, one behind the other, are the complaints about
/// the one and then those about the other.
pub proof fn law_complaints_add_up(
    a: Seq<RequirementView>,
    met_a: Seq<bool>,
    b: Seq<RequirementView>,
    met_b: Seq<bool>,
)
    requires
        a.len() == met_a.len(),
        b.len() == met_b.len(),
    ensures
        complaints(a + b, met_a + met_b) == complaints(a, met_a) + complaints(b, met_b),
    decreases b.len(),
{
    if b.len() == 0 {
        assert(a + b =~= a);
        assert(met_a + met_b =~= met_a);
        assert(complaints(a, met_a) + complaints(b, met_b) =~= complaints(a, met_a));
    } else {
        law_complaints_add_up(a, met_a, b.drop_last(), met_b.drop_last());
        assert((a + b).drop_last() =~= a + b.drop_last());
        assert((met_a + met_b).drop_last() =~= met_a + met_b.drop_last());
        assert(complaints(a + b, met_a + met_b) =~= complaints(a, met_a) + complaints(b, met_b));
    }
}

/// A complaint names the package that complains, the package it cannot use, each with version and
/// source, and the version requirement.
pub proof fn law_complaint_text(r: RequirementView)
    ensures
        r.complaint() == "- "@ + r.from.name + " v"@ + r.from.version + " ("@
            + r.from.source_id.display + ")"@ + " cannot use "@ + r.to.name + " v"@ + r.to.version
            + " ("@ + r.to.source_id.display + ")"@ + ", because "@ + r.from.name + " requires "@
            + r.to.name + " "@ + r.dependency.version_req,
{
    assert(r.complaint() =~= "- "@ + r.from.name + " v"@ + r.from.version + " ("@
        + r.from.source_id.display + ")"@ + " cannot use "@ + r.to.name + " v"@ + r.to.version
        + " ("@ + r.to.source_id.display + ")"@ + ", because "@ + r.from.name + " requires "@
        + r.to.name + " "@ + r.dependency.version_req);
}

impl Requirement {
    /// Whether the chosen package will do.
    pub fn is_met(&self) -> (r: bool)
        ensures
            r == self@.is_met(),
    {
        self.dependency.matches_package_id(&self.to)
    }

    /// The line that reports that the chosen package will not do.
    pub fn complaint(&self) -> (line: String)
        ensures
            line@ == self@.complaint(),
    {
        let from: String = self.from.to_text();
        let to: String = self.to.to_text();
        let mut line: String = String::new();
        line.append("- ");
        line.append(from.as_str());
        line.append(" cannot use ");
        line.append(to.as_str());
        line.append(", because ");
        line.append(self.from.name.as_str());
        line.append(" requires ");
        line.append(self.to.name.as_str());
        line.append(" ");
        line.append(self.dependency.version_req.as_str());
        assert(line@ =~= self@.complaint());
        line
    }
}

/// Finds out of each requirement whether it is met.
pub fn check_requirements(requirements: &Vec<Requirement>) -> (met: Vec<bool>)
    ensures
        met@ == verdicts(requirement_views(requirements@)),
{
    let mut met: Vec<bool> = Vec::new();
    let mut i: usize = 0;
    while i < requirements.len()
        invariant
            i <= requirements.len(),
            met.len() == i,
            forall|k: int| 0 <= k < i ==> #[trigger] met@[k] == requirements@[k]@.is_met(),
        decreases requirements.len() - i,
    {
        met.push(requirements[i].is_met());
        i = i + 1;
    }
    assert(met@ =~= verdicts(requirement_views(requirements@)));
    met
}

/// The complaints about the requirements that are not met, in ascending order. `met` says of each
/// requirement in turn whether it is met.
pub fn incompatibilities(requirements: &Vec<Requirement>, met: &Vec<bool>) -> (lines: Vec<String>)
    requires
        met.len() == requirements.len(),
    ensures
        texts(lines@) == ascending(complaints(requirement_views(requirements@), met@)),
        texts(lines@).to_multiset() == complaints(
            requirement_views(requirements@),
            met@,
        ).to_multiset(),
        sorted_by(texts(lines@), text_order()),
        lines.len() == 0 <==> forall|i: int| 0 <= i < met.len() ==> met@[i],
{
    let ghost all = requirement_views(requirements@);
    let mut lines: Vec<String> = Vec::new();
    let mut i: usize = 0;
    assert(texts(lines@) =~= complaints(all.take(0), met@.take(0)));
    while i < requirements.len()
        invariant
            i <= requirements.len(),
            met.len() == requirements.len(),
            all == requirement_views(requirements@),
            texts(lines@) == complaints(all.take(i as int), met@.take(i as int)),
            lines.len() == 0 <==> forall|k: int| 0 <= k < i ==> met@[k],
        decreases requirements.len() - i,
    {
        let ghost before = texts(lines@);
        if !met[i] {
            lines.push(requirements[i].complaint());
            assert(texts(lines@) =~= before.push(all[i as int].complaint()));
        }
        proof {
            assert(all.take(i + 1).drop_last() =~= all.take(i as int));
            assert(met@.take(i + 1).drop_last() =~= met@.take(i as int));
        }
        i = i + 1;
    }
    proof {
        assert(all.take(all.len() as int) =~= all);
        assert(met@.take(met@.len() as int) =~= met@);
    }
    let ghost unsorted = texts(lines@);
    let sorted: Vec<String> = sort(lines);
    proof {
        broadcast use vstd::seq_lib::group_to_multiset_ensures;

        assert(texts(sorted@).to_multiset().len() == unsorted.to_multiset().len());
    }
    sorted
}

/// The failure that the requirements which are not met amount to, if there are any.
pub open spec fn version_failure(
    requirements: Seq<RequirementView>,
    met: Seq<bool>,
) -> Option<FailureView> {
    let lines = complaints(requirements, met);
    if lines.len() == 0 {
        None
    } else {
        Some(FailureView::VersionSolving { incompatibilities: ascending(lines) })
    }
}

proof fn lemma_complaints_len(requirements: Seq<RequirementView>, met: Seq<bool>)
    requires
        met.len() == requirements.len(),
    ensures
        complaints(requirements, met).len() == 0 <==> forall|i: int| 0 <= i < met.len() ==> met[i],
    decreases requirements.len(),
{
    if requirements.len() > 0 {
        let earlier = met.drop_last();
        lemma_complaints_len(requirements.drop_last(), earlier);
        assert(forall|i: int| 0 <= i < earlier.len() ==> earlier[i] == met[i]);
        if met.last() && complaints(requirements, met).len() == 0 {
            assert forall|i: int| 0 <= i < met.len() implies met[i] by {
                if i < earlier.len() {
                    assert(earlier[i]);
                }
            }
        }
    }
}

/// All is well exactly if every requirement is met. Otherwise the failure reports the complaints,
/// each as often as it was raised, in ascending order.
pub proof fn law_failure_reports_complaints(requirements: Seq<RequirementView>, met: Seq<bool>)
    requires
        met.len() == requirements.len(),
    ensures
        version_failure(requirements, met) is None <==> forall|i: int|
            0 <= i < met.len() ==> met[i],
        version_failure(requirements, met) matches Some(failure) ==> {
            &&& failure is VersionSolving
            &&& failure->incompatibilities.to_multiset() == complaints(
                requirements,
                met,
            ).to_multiset()
            &&& forall|i: int, j: int|
                0 <= i < j < failure->incompatibilities.len() ==> text_le(
                    #[trigger] failure->incompatibilities[i],
                    #[trigger] failure->incompatibilities[j],
                )
        },
{
    lemma_complaints_len(requirements, met);
    law_ascending_is_sorted(complaints(requirements, met));
}

/// Judges requirements: all is well unless one of them is not met. `met` says of each requirement
/// in turn whether it is met.
pub fn judge(requirements: &Vec<Requirement>, met: &Vec<bool>) -> (failure: Option<Failure>)
    requires
        met.len() == requirements.len(),
    ensures
        match failure {
            Some(failure) => version_failure(requirement_views(requirements@), met@) == Some(
                failure@,
            ),
            None => version_failure(requirement_views(requirements@), met@) is None,
        },
        failure is None <==> forall|i: int| 0 <= i < met.len() ==> met@[i],
{
    let lines: Vec<String> = incompatibilities(requirements, met);
    proof {
        broadcast use vstd::seq_lib::group_to_multiset_ensures;

        let all = complaints(requirement_views(requirements@), met@);
        assert(texts(lines@).to_multiset().len() == all.to_multiset().len());
    }
    if lines.len() == 0 {
        None
    } else {
        Some(Failure::VersionSolving { incompatibilities: lines })
    }
}

} // verus!
