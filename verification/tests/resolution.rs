//! Resolutions from end to end, against a registry held in memory.

use package_resolver::package::{ManifestDependency, PackageId, SourceId, Summary};
use package_resolver::resolver::{resolve, Resolve, Step};
use package_resolver::failure::ResolveError;
use semver::{Version, VersionReq};

type Dep<'a> = (&'a str, &'a str, &'a str);

fn source(path: &str) -> SourceId {
    SourceId { key: format!("path+file://{path}/"), display: format!("{path}/") }
}

fn dep(dep: &Dep) -> ManifestDependency {
    let (name, version_req, path) = *dep;
    ManifestDependency {
        name: name.to_string(),
        version_req: VersionReq::parse(version_req).unwrap().to_string(),
        source_id: source(path),
    }
}

fn deps(deps: &[Dep]) -> Vec<ManifestDependency> {
    deps.iter().map(dep).collect()
}

/// Reads a package such as `foo v1.0.0 (/foo)`.
fn pkg(text: &str) -> PackageId {
    let (name, rest) = text.split_once(" v").unwrap();
    let (version, rest) = rest.split_once(" (").unwrap();
    PackageId {
        name: name.to_string(),
        version: Version::parse(version).unwrap().to_string(),
        source_id: source(rest.strip_suffix(')').unwrap()),
    }
}

struct MockRegistry {
    packages: Vec<Summary>,
}

impl MockRegistry {
    fn put(&mut self, package_id: PackageId, dependencies: Vec<ManifestDependency>) {
        self.packages.push(Summary { package_id, dependencies });
    }

    fn query(&mut self, dependency: &ManifestDependency) -> Result<Vec<Summary>, String> {
        let known: Vec<&Summary> = self
            .packages
            .iter()
            .filter(|s| {
                s.package_id.name == dependency.name
                    && s.package_id.source_id == dependency.source_id
            })
            .collect();
        if known.is_empty() {
            return Err(format!(
                "MockRegistry/query: unknown package {} ({})",
                dependency.name, dependency.source_id.display
            ));
        }
        let mut results: Vec<Summary> = known
            .into_iter()
            .filter(|s| dependency.matches_package_id(&s.package_id))
            .cloned()
            .collect();
        results.sort_by_key(|s| Version::parse(&s.package_id.version).unwrap());
        results.reverse();
        Ok(results)
    }
}

fn registry(packages: &[(&str, &[Dep])]) -> MockRegistry {
    let mut registry = MockRegistry { packages: Vec::new() };
    for (id, dependencies) in packages {
        registry.put(pkg(id), deps(dependencies));
    }
    registry
}

fn run(registry: &mut MockRegistry, summaries: &[Summary]) -> Result<Resolve, String> {
    let mut step: Step<String> = resolve(summaries);
    loop {
        match step {
            Step::Query(pending) => {
                let reply = registry.query(pending.dependency());
                step = pending.resume(reply);
            }
            Step::Done(Ok(resolve)) => return Ok(resolve),
            Step::Done(Err(ResolveError::Registry(error))) => return Err(error),
            Step::Done(Err(ResolveError::Failure(failure))) => return Err(failure.message()),
            Step::Stuck => panic!("a dependency was answered with a package of another name"),
        }
    }
}

fn check(mut registry: MockRegistry, roots: &[&[Dep]], expected: Result<&[&str], &str>) {
    let mut summaries: Vec<Summary> = Vec::new();
    for (n, root) in roots.iter().enumerate() {
        let package_id = PackageId {
            name: format!("${}", n + 1),
            version: Version::new(1, 0, 0).to_string(),
            source_id: source("/mock"),
        };
        registry.put(package_id.clone(), deps(root));
        summaries.push(Summary { package_id, dependencies: deps(root) });
    }

    let resolved: Result<Vec<String>, String> = run(&mut registry, &summaries).map(|r| {
        let mut texts: Vec<String> = r
            .graph
            .nodes()
            .map(|n| &r.packages[n])
            .filter(|id| !id.name.starts_with('$'))
            .map(|id| id.to_text())
            .collect();
        texts.sort();
        texts
    });

    let expected: Result<Vec<String>, String> = match expected {
        Ok(ids) => Ok(ids.iter().map(|id| pkg(id).to_text()).collect()),
        Err(message) => Err(message.to_string()),
    };
    assert_eq!(expected, resolved);
}

#[test]
fn no_input() {
    check(registry(&[]), &[&[]], Ok(&[]))
}

#[test]
fn single_fixed_dep() {
    check(
        registry(&[("foo v1.0.0 (/foo)", &[])]),
        &[&[("foo", "=1.0.0", "/foo")]],
        Ok(&["foo v1.0.0 (/foo)"]),
    )
}

#[test]
fn single_caret_dep() {
    check(
        registry(&[("foo v1.0.0 (/foo)", &[])]),
        &[&[("foo", "1.0.0", "/foo")]],
        Ok(&["foo v1.0.0 (/foo)"]),
    )
}

#[test]
fn single_fixed_dep_with_multiple_versions() {
    check(
        registry(&[("foo v1.1.0 (/foo)", &[]), ("foo v1.0.0 (/foo)", &[])]),
        &[&[("foo", "=1.0.0", "/foo")]],
        Ok(&["foo v1.0.0 (/foo)"]),
    )
}

#[test]
fn single_caret_dep_with_multiple_versions() {
    check(
        registry(&[("foo v1.1.0 (/foo)", &[]), ("foo v1.0.0 (/foo)", &[])]),
        &[&[("foo", "1.0.0", "/foo")]],
        Ok(&["foo v1.1.0 (/foo)"]),
    )
}

#[test]
fn single_tilde_dep_with_multiple_versions() {
    check(
        registry(&[("foo v1.1.0 (/foo)", &[]), ("foo v1.0.0 (/foo)", &[])]),
        &[&[("foo", "~1.0.0", "/foo")]],
        Ok(&["foo v1.0.0 (/foo)"]),
    )
}

#[test]
fn single_older_dep_with_dependency_and_multiple_versions() {
    check(
        registry(&[
            ("foo v1.1.0 (/foo)", &[]),
            ("foo v1.0.0 (/foo)", &[("bar", "=1.0.0", "/bar")]),
            ("bar v1.0.0 (/bar)", &[]),
        ]),
        &[&[("foo", "<1.1.0", "/foo")]],
        Ok(&["bar v1.0.0 (/bar)", "foo v1.0.0 (/foo)"]),
    )
}

#[test]
fn single_newer_dep_without_dependency_and_multiple_versions() {
    check(
        registry(&[
            ("foo v1.1.0 (/foo)", &[]),
            ("foo v1.0.0 (/foo)", &[("bar", "=1.0.0", "/bar")]),
            ("bar v1.0.0 (/bar)", &[]),
        ]),
        &[&[("foo", "1.1.0", "/foo")]],
        Ok(&["foo v1.1.0 (/foo)"]),
    )
}

#[test]
fn prioritize_stable_versions() {
    check(
        registry(&[
            ("foo v1.0.0 (/foo)", &[]),
            ("foo v1.1.0 (/foo)", &[]),
            ("foo v1.2.0-dev (/foo)", &[]),
        ]),
        &[&[("foo", "1.1.0", "/foo")]],
        Ok(&["foo v1.1.0 (/foo)"]),
    )
}

#[test]
fn two_deps() {
    check(
        registry(&[("foo v1.0.0 (/foo)", &[]), ("bar v2.0.0 (/bar)", &[])]),
        &[&[("foo", "1", "/foo")], &[("bar", "2", "/bar")]],
        Ok(&["bar v2.0.0 (/bar)", "foo v1.0.0 (/foo)"]),
    )
}

#[test]
fn nested_deps() {
    check(
        registry(&[
            ("foo v1.0.0 (/foo)", &[("bar", "1.0.0", "/bar")]),
            ("bar v1.0.0 (/bar)", &[]),
        ]),
        &[&[("foo", "1.0", "/foo")]],
        Ok(&["bar v1.0.0 (/bar)", "foo v1.0.0 (/foo)"]),
    )
}

#[test]
fn backtrack_1() {
    check(
        registry(&[
            ("foo v2.0.0 (/main)", &[("bar", "2.0.0", "/main"), ("baz", "1.0.0", "/main")]),
            ("foo v1.0.0 (/main)", &[("bar", "1.0.0", "/main")]),
            ("bar v2.0.0 (/main)", &[("baz", "2.0.0", "/main")]),
            ("bar v1.0.0 (/main)", &[("baz", "1.0.0", "/main")]),
            ("baz v2.0.0 (/main)", &[]),
            ("baz v1.0.0 (/main)", &[]),
        ]),
        &[&[("foo", "*", "/main")]],
        Err("Version solving failed:\n\
            - bar v2.0.0 (/main/) cannot use baz v1.0.0 (/main/), because bar requires baz ^2.0.0\n\
            \n\
            Scarb does not have real version solving algorithm yet.\n\
            Perhaps in the future this conflict could be resolved, but currently,\n\
            please upgrade your dependencies to use latest versions of their dependencies.\n"),
    )
}

#[test]
fn backtrack_2() {
    check(
        registry(&[
            ("foo v2.6.0 (/main)", &[("baz", "~1.7.0", "/main")]),
            ("foo v2.7.0 (/main)", &[("baz", "~1.7.1", "/main")]),
            ("foo v2.8.0 (/main)", &[("baz", "~1.7.1", "/main")]),
            ("foo v2.9.0 (/main)", &[("baz", "1.8.0", "/main")]),
            ("bar v1.1.1 (/main)", &[("baz", ">= 1.7.0", "/main")]),
            ("baz v1.8.0 (/main)", &[]),
            ("baz v2.1.0 (/main)", &[]),
        ]),
        &[&[("bar", "~1.1.0", "/main"), ("foo", "~2.7", "/main")]],
        Err("Version solving failed:\n\
            - foo v2.7.0 (/main/) cannot use baz v2.1.0 (/main/), because foo requires baz ~1.7.1\n\
            \n\
            Scarb does not have real version solving algorithm yet.\n\
            Perhaps in the future this conflict could be resolved, but currently,\n\
            please upgrade your dependencies to use latest versions of their dependencies.\n"),
    )
}

#[test]
fn cycle() {
    check(
        registry(&[
            ("foo v1.0.0 (/main)", &[("bar", "2.0.0", "/main")]),
            ("bar v2.0.0 (/main)", &[("foo", "1.0.0", "/main")]),
        ]),
        &[&[("foo", "1", "/main")]],
        Ok(&["bar v2.0.0 (/main)", "foo v1.0.0 (/main)"]),
    )
}

#[test]
fn missing_dependency() {
    check(
        registry(&[]),
        &[&[("foo", "1.0.0", "/foo")]],
        Err("MockRegistry/query: unknown package foo (/foo/)"),
    )
}

#[test]
fn unsatisfied_version_constraint() {
    check(
        registry(&[("foo v2.0.0 (/foo)", &[])]),
        &[&[("foo", "1.0.0", "/foo")]],
        Err("cannot find package foo"),
    )
}

#[test]
fn unsatisfied_source_constraint() {
    check(
        registry(&[("foo v1.0.0 (/not-foo)", &[])]),
        &[&[("foo", "1.0.0", "/foo")]],
        Err("MockRegistry/query: unknown package foo (/foo/)"),
    )
}

#[test]
fn no_matching_transient_dependency_1() {
    check(
        registry(&[
            ("a v3.9.4 (/main)", &[("b", "3.9.4", "/main")]),
            ("a v3.9.5 (/main)", &[("b", "3.9.5", "/main")]),
            ("a v3.9.8 (/main)", &[("b", "3.9.8", "/main")]),
            ("b v3.8.5-rc.2 (/main)", &[]),
            ("b v3.8.5 (/main)", &[]),
            ("b v3.8.14 (/main)", &[]),
        ]),
        &[&[("a", "~3.6", "/main"), ("b", "~3.6", "/main")]],
        Err("cannot find package a"),
    )
}

#[test]
fn no_matching_transient_dependency_2() {
    check(
        registry(&[
            ("a v3.8.10 (/main)", &[("b", "3.8.10", "/main")]),
            ("a v3.8.11 (/main)", &[("b", "3.8.11", "/main")]),
            ("a v3.8.14 (/main)", &[("b", "3.8.14", "/main")]),
            ("a v3.8.25 (/main)", &[("b", "3.8.25", "/main")]),
            ("c v1.1.0 (/main)", &[("d", "~2.8.0", "/main")]),
            ("d v2.8.3 (/main)", &[]),
            ("b v3.8.14 (/main)", &[("d", "2.11.0", "/main")]),
            ("b v3.8.25 (/main)", &[("d", "3.1.0", "/main")]),
            ("b v3.8.5-rc.2 (/main)", &[("d", "2.9.0", "/main")]),
            ("b v3.8.5 (/main)", &[("d", "2.9.0", "/main")]),
        ]),
        &[&[("a", "~3.6", "/main"), ("c", "~1.1", "/main"), ("b", "~3.6", "/main")]],
        Err("cannot find package a"),
    )
}

#[test]
fn no_matching_transient_dependency_3() {
    check(
        registry(&[
            ("a v3.8.25 (/main)", &[("b", "3.8.25", "/main")]),
            ("b v3.8.12-rc.3 (/main)", &[("d", "2.11.0", "/main")]),
            ("a v3.8.21 (/main)", &[("b", "3.8.21", "/main")]),
            ("b v3.8.19 (/main)", &[("d", "3.1.0", "/main")]),
            ("b v3.8.25 (/main)", &[("d", "3.1.0", "/main")]),
            ("e v1.6.0 (/main)", &[("a", "~3.8.0", "/main")]),
            ("b v3.8.14 (/main)", &[("d", "2.11.0", "/main")]),
            ("a v3.9.8 (/main)", &[("b", "3.9.8", "/main")]),
            ("a v3.8.5 (/main)", &[("b", "3.8.5", "/main")]),
            (
                "e v1.3.2 (/main)",
                &[("a", "~3.7.11", "/main"), ("d", "~2.9", "/main"), ("b", "~3.7.11", "/main")],
            ),
        ]),
        &[&[("e", "~1.0", "/main"), ("a", "~3.7", "/main"), ("b", "~3.7", "/main")]],
        Err("cannot find package e"),
    )
}

#[test]
fn mixed_sources() {
    check(
        registry(&[
            ("foo v1.0.0 (/main)", &[("baz", "1.0.0", "/baz")]),
            ("bar v1.0.0 (/main)", &[("baz", "1.0.0", "/baz")]),
            ("baz v1.0.0 (/baz)", &[]),
        ]),
        &[&[("foo", "1.0.0", "/main"), ("bar", "1.0.0", "/main")]],
        Ok(&["bar v1.0.0 (/main)", "baz v1.0.0 (/baz)", "foo v1.0.0 (/main)"]),
    )
}

#[test]
fn source_conflict() {
    check(
        registry(&[
            ("foo v1.0.0 (/main)", &[("baz", "1.0.0", "/foo-baz")]),
            ("bar v1.0.0 (/main)", &[("baz", "1.0.0", "/bar-baz")]),
            ("baz v1.0.0 (/foo-baz)", &[]),
            ("baz v1.0.0 (/bar-baz)", &[]),
        ]),
        &[&[("foo", "1.0.0", "/main"), ("bar", "1.0.0", "/main")]],
        Err("found dependencies on the same package `baz` coming from \
            incompatible sources:\n\
            source 1: /foo-baz/\n\
            source 2: /bar-baz/\n"),
    )
}
