//! The parts that a resolution is made of.

use package_resolver::failure::{Failure, ResolveError};
use package_resolver::package::{
    clone_dependencies, ManifestDependency, PackageId, SourceId, Summary,
};
use package_resolver::requirement::{check_requirements, incompatibilities, judge, Requirement};
use package_resolver::resolver::{resolve, Pending, Resolve, Step};
use package_resolver::text::{at_most, join, sort};

fn source(path: &str) -> SourceId {
    SourceId { key: path.to_string(), display: path.to_string() }
}

fn id(name: &str, version: &str) -> PackageId {
    PackageId { name: name.to_string(), version: version.to_string(), source_id: source("/main/") }
}

fn dep(name: &str, version_req: &str) -> ManifestDependency {
    ManifestDependency {
        name: name.to_string(),
        version_req: version_req.to_string(),
        source_id: source("/main/"),
    }
}

fn summary(name: &str, version: &str, deps: &[(&str, &str)]) -> Summary {
    Summary {
        package_id: id(name, version),
        dependencies: deps.iter().map(|(name, req)| dep(name, req)).collect(),
    }
}

fn requirement(from: &str, to: &str, version: &str, version_req: &str) -> Requirement {
    Requirement {
        from: id(from, "1.0.0"),
        dependency: dep(to, version_req),
        to: id(to, version),
    }
}

fn pending(step: Step<u32>) -> Pending {
    match step {
        Step::Query(pending) => pending,
        _ => panic!("the resolution does not ask"),
    }
}

fn resolved(step: Step<u32>) -> Resolve {
    match step {
        Step::Done(Ok(resolve)) => resolve,
        _ => panic!("the resolution did not succeed"),
    }
}

fn message(step: Step<u32>) -> String {
    match step {
        Step::Done(Err(ResolveError::Failure(failure))) => failure.message(),
        _ => panic!("the resolution did not fail"),
    }
}

/// The packages in the graph, in order.
fn packages(resolve: &Resolve) -> Vec<String> {
    resolve.graph.nodes().map(|n| resolve.packages[n].to_text()).collect()
}

/// The edges of the graph, by name.
fn edges(resolve: &Resolve) -> Vec<(String, String)> {
    resolve
        .graph
        .all_edges()
        .map(|(a, b, _)| (resolve.packages[a].name.clone(), resolve.packages[b].name.clone()))
        .collect()
}

fn pair(a: &str, b: &str) -> (String, String) {
    (a.to_string(), b.to_string())
}

/// Resolves against the given packages, the first that will do being the answer, and records the
/// names asked for.
fn run(roots: &[Summary], known: &[Summary]) -> (Step<u32>, Vec<String>) {
    let mut asked: Vec<String> = Vec::new();
    let mut step: Step<u32> = resolve(roots);
    loop {
        match step {
            Step::Query(pending) => {
                let dependency = pending.dependency().clone();
                asked.push(dependency.name.clone());
                let results: Vec<Summary> = known
                    .iter()
                    .filter(|s| dependency.matches_package_id(&s.package_id))
                    .cloned()
                    .collect();
                step = pending.resume(Ok(results));
            }
            done => return (done, asked),
        }
    }
}

#[test]
fn texts_are_ordered_character_by_character() {
    assert!(at_most("", ""));
    assert!(at_most("", "a"));
    assert!(!at_most("a", ""));
    assert!(at_most("a", "ab"));
    assert!(!at_most("ab", "a"));
    assert!(at_most("Z", "a"));
    assert!(at_most("ab", "b"));
    assert!(at_most("z", "\u{e9}"));
    assert!(!at_most("\u{1f600}", "\u{ffee}"));
}

#[test]
fn order_of_texts_is_that_of_strings() {
    let words = ["", "a", "aa", "b", "B", "-", "\u{e9}", "\u{ffee}", "\u{1f600}", "a\u{e9}"];
    for a in words {
        for b in words {
            assert_eq!(at_most(a, b), a <= b);
            assert!(at_most(a, b) || at_most(b, a));
        }
    }
}

#[test]
fn sorting_keeps_every_line() {
    let lines: Vec<String> = ["b", "a", "", "b", "ab"].iter().map(|s| s.to_string()).collect();
    let mut expected = lines.clone();
    expected.sort();
    assert_eq!(sort(lines), expected);
    assert_eq!(sort(Vec::new()), Vec::<String>::new());
}

#[test]
fn joining_puts_breaks_between_lines() {
    assert_eq!(join(&Vec::new()), "");
    assert_eq!(join(&vec!["a".to_string()]), "a");
    assert_eq!(join(&vec!["a".to_string(), "".to_string(), "b".to_string()]), "a\n\nb");
}

#[test]
fn package_text() {
    assert_eq!(id("foo", "1.2.3").to_text(), "foo v1.2.3 (/main/)");
}

#[test]
fn equality_looks_at_every_part() {
    assert!(source("/a/") == source("/a/"));
    assert!(source("/a/") != source("/b/"));
    let other = SourceId { key: "other".to_string(), display: "/a/".to_string() };
    assert!(source("/a/") != other);
    assert!(id("foo", "1.0.0") == id("foo", "1.0.0"));
    assert!(id("foo", "1.0.0") != id("foo", "1.0.1"));
    assert!(id("foo", "1.0.0") != id("bar", "1.0.0"));
    let elsewhere = PackageId { source_id: other, ..id("foo", "1.0.0") };
    assert!(id("foo", "1.0.0") != elsewhere);
}

#[test]
fn cloned_dependencies_are_the_same() {
    let original = vec![dep("foo", "^1"), dep("bar", "*")];
    let copy = clone_dependencies(&original);
    assert_eq!(copy.len(), 2);
    assert_eq!(copy[0].name, "foo");
    assert_eq!(copy[1].version_req, "*");
    assert!(copy[1].source_id == original[1].source_id);
}

#[test]
fn version_requirements() {
    assert!(dep("foo", "^1.0.0").matches_package_id(&id("foo", "1.2.0")));
    assert!(!dep("foo", "^1.0.0").matches_package_id(&id("foo", "2.0.0")));
    assert!(dep("foo", "~1.7.1").matches_package_id(&id("foo", "1.7.2")));
    assert!(!dep("foo", "~1.7.1").matches_package_id(&id("foo", "1.8.0")));
    assert!(dep("foo", "*").matches_package_id(&id("foo", "0.0.1")));
    assert!(!dep("foo", "^1.1.0").matches_package_id(&id("foo", "1.2.0-dev")));
    assert!(!dep("foo", "^1.0.0").matches_package_id(&id("foo", "1")));
    assert!(!dep("foo", "?").matches_package_id(&id("foo", "1.0.0")));
}

#[test]
fn a_package_has_to_have_the_name_and_the_source() {
    assert!(dep("foo", "*").accepts(&id("foo", "1.0.0"), true));
    assert!(!dep("foo", "*").accepts(&id("foo", "1.0.0"), false));
    assert!(!dep("foo", "*").accepts(&id("bar", "1.0.0"), true));
    let elsewhere = PackageId { source_id: source("/other/"), ..id("foo", "1.0.0") };
    assert!(!dep("foo", "*").accepts(&elsewhere, true));
    assert!(!dep("foo", "*").matches_package_id(&elsewhere));
    assert!(!dep("foo", "*").matches_package_id(&id("bar", "1.0.0")));
}

#[test]
fn complaint_text() {
    assert_eq!(
        requirement("foo", "bar", "1.0.0", "^2").complaint(),
        "- foo v1.0.0 (/main/) cannot use bar v1.0.0 (/main/), because foo requires bar ^2"
    );
}

#[test]
fn requirements_are_checked_one_by_one() {
    let requirements = vec![
        requirement("foo", "bar", "1.0.0", "^2"),
        requirement("foo", "baz", "1.0.0", "^1"),
    ];
    assert_eq!(check_requirements(&requirements), vec![false, true]);
    assert!(!requirements[0].is_met());
    assert!(requirements[1].is_met());
}

#[test]
fn incompatibilities_are_reported_in_order() {
    let requirements = vec![
        requirement("foo", "bar", "1.0.0", "^2"),
        requirement("baz", "bar", "1.0.0", "^3"),
        requirement("abc", "bar", "1.0.0", "^1"),
    ];
    assert_eq!(
        incompatibilities(&requirements, &vec![false, false, true]),
        vec![
            "- baz v1.0.0 (/main/) cannot use bar v1.0.0 (/main/), because baz requires bar ^3",
            "- foo v1.0.0 (/main/) cannot use bar v1.0.0 (/main/), because foo requires bar ^2",
        ]
    );
    assert!(incompatibilities(&requirements, &vec![true, true, true]).is_empty());
    assert!(judge(&requirements, &vec![true, true, true]).is_none());
    match judge(&requirements, &vec![true, true, false]) {
        Some(Failure::VersionSolving { incompatibilities }) => assert_eq!(
            incompatibilities,
            vec!["- abc v1.0.0 (/main/) cannot use bar v1.0.0 (/main/), because abc requires bar ^1"]
        ),
        _ => panic!("a requirement is not met"),
    }
}

#[test]
fn failure_messages() {
    assert_eq!(
        Failure::PackageNotFound { name: "foo".to_string() }.message(),
        "cannot find package foo"
    );
    let sources = Failure::IncompatibleSources {
        name: "foo".to_string(),
        existing: source("/a/"),
        requested: source("/b/"),
    };
    assert_eq!(
        sources.message(),
        "found dependencies on the same package `foo` coming from incompatible sources:\n\
         source 1: /a/\nsource 2: /b/\n"
    );
    let versions = Failure::VersionSolving {
        incompatibilities: vec!["- one".to_string(), "- two".to_string()],
    };
    assert_eq!(
        versions.message(),
        "Version solving failed:\n- one\n- two\n\n\
         Scarb does not have real version solving algorithm yet.\n\
         Perhaps in the future this conflict could be resolved, but currently,\n\
         please upgrade your dependencies to use latest versions of their dependencies.\n"
    );
}

#[test]
fn nothing_to_resolve() {
    let resolve = resolved(resolve::<u32>(&[]));
    assert!(packages(&resolve).is_empty());
    assert!(edges(&resolve).is_empty());
}

#[test]
fn packages_are_found_breadth_first() {
    let roots = [summary("r", "1.0.0", &[("a", "*"), ("b", "*")])];
    let known = [
        summary("a", "1.0.0", &[("c", "*")]),
        summary("b", "1.0.0", &[("d", "*"), ("c", "*")]),
        summary("c", "1.0.0", &[("r", "*")]),
        summary("d", "1.0.0", &[("d", "*")]),
    ];
    let (step, asked) = run(&roots, &known);
    let resolve = resolved(step);
    assert_eq!(asked, vec!["a", "b", "c", "d"]);
    assert_eq!(
        packages(&resolve),
        vec![
            "r v1.0.0 (/main/)",
            "a v1.0.0 (/main/)",
            "b v1.0.0 (/main/)",
            "c v1.0.0 (/main/)",
            "d v1.0.0 (/main/)",
        ]
    );
    assert_eq!(
        edges(&resolve),
        vec![pair("r", "a"), pair("r", "b"), pair("a", "c"), pair("b", "d")]
    );
}

#[test]
fn a_package_that_depends_on_itself_gets_no_edge() {
    let resolve = resolved(resolve::<u32>(&[summary("r", "1.0.0", &[("r", "^1")])]));
    assert_eq!(packages(&resolve), vec!["r v1.0.0 (/main/)"]);
    assert!(edges(&resolve).is_empty());
}

#[test]
fn top_level_packages_are_taken_in_order_and_not_asked_for() {
    let roots = [
        summary("one", "1.0.0", &[("two", "^1"), ("x", "*")]),
        summary("two", "1.0.0", &[("one", "^1")]),
    ];
    let (step, asked) = run(&roots, &[summary("x", "1.0.0", &[])]);
    assert_eq!(asked, vec!["x"]);
    let resolve = resolved(step);
    assert_eq!(
        packages(&resolve),
        vec!["one v1.0.0 (/main/)", "x v1.0.0 (/main/)", "two v1.0.0 (/main/)"]
    );
}

#[test]
fn last_top_level_package_of_a_name_is_chosen() {
    let roots = [
        summary("one", "1.0.0", &[]),
        summary("one", "2.0.0", &[]),
        summary("r", "1.0.0", &[("one", "^1")]),
    ];
    assert_eq!(
        message(resolve(&roots)),
        "Version solving failed:\n\
         - r v1.0.0 (/main/) cannot use one v2.0.0 (/main/), because r requires one ^1\n\n\
         Scarb does not have real version solving algorithm yet.\n\
         Perhaps in the future this conflict could be resolved, but currently,\n\
         please upgrade your dependencies to use latest versions of their dependencies.\n"
    );
    let swapped = [
        summary("one", "2.0.0", &[]),
        summary("one", "1.0.0", &[]),
        summary("r", "1.0.0", &[("one", "^1")]),
    ];
    assert_eq!(packages(&resolved(resolve(&swapped))).len(), 3);
}

#[test]
fn last_summary_of_a_top_level_package_counts() {
    let roots = [summary("one", "1.0.0", &[("x", "*")]), summary("one", "1.0.0", &[])];
    assert_eq!(packages(&resolved(resolve(&roots))), vec!["one v1.0.0 (/main/)"]);
}

#[test]
fn errors_of_the_registry_are_handed_on() {
    let waiting = pending(resolve(&[summary("r", "1.0.0", &[("x", "*")])]));
    assert_eq!(waiting.dependency().name, "x");
    match waiting.resume(Err(42)) {
        Step::Done(Err(ResolveError::Registry(error))) => assert_eq!(error, 42),
        _ => panic!("the error was not handed on"),
    }
}

#[test]
fn empty_reply_means_not_found() {
    let waiting = pending(resolve(&[summary("r", "1.0.0", &[("x", "*")])]));
    assert_eq!(message(waiting.resume(Ok(Vec::new()))), "cannot find package x");
}

#[test]
fn first_result_is_the_answer() {
    let waiting = pending(resolve(&[summary("r", "1.0.0", &[("x", "*")])]));
    let results = vec![summary("x", "1.0.0", &[]), summary("x", "2.0.0", &[])];
    let resolve = resolved(waiting.resume(Ok(results)));
    assert_eq!(packages(&resolve), vec!["r v1.0.0 (/main/)", "x v1.0.0 (/main/)"]);
}

#[test]
fn answer_that_does_not_satisfy_the_requirement_is_reported() {
    let waiting = pending(resolve(&[summary("r", "1.0.0", &[("x", "^2")])]));
    let text = message(waiting.resume(Ok(vec![summary("x", "1.0.0", &[])])));
    assert!(text.contains("r v1.0.0 (/main/) cannot use x v1.0.0 (/main/)"));
}

#[test]
fn answer_of_another_name_leaves_the_resolution_stuck() {
    let waiting = pending(resolve(&[summary("r", "1.0.0", &[("x", "*")])]));
    let step: Step<u32> = waiting.resume(Ok(vec![summary("y", "1.0.0", &[])]));
    assert!(matches!(step, Step::Stuck));
}

#[test]
fn name_missed_at_first_can_be_asked_for_again() {
    let waiting = pending(resolve(&[summary("r", "1.0.0", &[("x", "*"), ("x", "^1")])]));
    let again = pending(waiting.resume(Ok(vec![summary("y", "1.0.0", &[])])));
    assert_eq!(again.dependency().version_req, "^1");
    let resolve = resolved(again.resume(Ok(vec![summary("x", "1.0.0", &[])])));
    assert_eq!(
        packages(&resolve),
        vec!["r v1.0.0 (/main/)", "y v1.0.0 (/main/)", "x v1.0.0 (/main/)"]
    );
    assert_eq!(edges(&resolve), vec![pair("r", "y"), pair("r", "x")]);
}

#[test]
fn answer_found_before_replaces_its_summary() {
    let waiting = pending(resolve(&[summary("r", "1.0.0", &[("x", "*"), ("z", "*")])]));
    let waiting = pending(waiting.resume(Ok(vec![summary("x", "1.0.0", &[("q", "*")])])));
    assert_eq!(waiting.dependency().name, "z");
    // The package `x` again, now without dependencies: `q` is not asked for, and nobody is left to
    // be chosen for `z`.
    let step: Step<u32> = waiting.resume(Ok(vec![summary("x", "1.0.0", &[])]));
    assert!(matches!(step, Step::Stuck));
}

#[test]
fn every_conflict_is_reported_in_order() {
    let roots = [summary("r", "1.0.0", &[("z", "^1"), ("a", "^1")])];
    let known = [
        summary("z", "1.0.0", &[("r", "^2")]),
        summary("a", "1.0.0", &[("z", "^3"), ("r", "^4")]),
    ];
    let (step, asked) = run(&roots, &known);
    assert_eq!(asked, vec!["z", "a"]);
    assert_eq!(
        message(step),
        "Version solving failed:\n\
         - a v1.0.0 (/main/) cannot use r v1.0.0 (/main/), because a requires r ^4\n\
         - a v1.0.0 (/main/) cannot use z v1.0.0 (/main/), because a requires z ^3\n\
         - z v1.0.0 (/main/) cannot use r v1.0.0 (/main/), because z requires r ^2\n\n\
         Scarb does not have real version solving algorithm yet.\n\
         Perhaps in the future this conflict could be resolved, but currently,\n\
         please upgrade your dependencies to use latest versions of their dependencies.\n"
    );
}

#[test]
fn dependency_on_another_source_fails() {
    let mut root = summary("r", "1.0.0", &[("x", "*")]);
    root.dependencies.push(ManifestDependency {
        source_id: source("/other/"),
        ..dep("x", "*")
    });
    let (step, asked) = run(&[root], &[summary("x", "1.0.0", &[])]);
    assert_eq!(asked, vec!["x"]);
    assert_eq!(
        message(step),
        "found dependencies on the same package `x` coming from incompatible sources:\n\
         source 1: /main/\nsource 2: /other/\n"
    );
}

#[test]
fn first_choice_stands() {
    let roots = [summary("r", "1.0.0", &[("a", "^1"), ("b", "^1")])];
    let known = [
        summary("a", "1.0.0", &[]),
        summary("a", "1.5.0", &[]),
        summary("b", "1.0.0", &[("a", "^1.2")]),
    ];
    let (step, asked) = run(&roots, &known);
    assert_eq!(asked, vec!["a", "b"]);
    assert!(message(step)
        .contains("- b v1.0.0 (/main/) cannot use a v1.0.0 (/main/), because b requires a ^1.2"));
}
