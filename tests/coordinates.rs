use latest_version::coordinates::read_npm_bare;
use latest_version::{parse_coordinates, parse_version, Coordinates, ParseError, VersionCheck};
use semver::VersionReq;

fn maven(group_id: &str, artifact_id: &str) -> Coordinates {
    Coordinates::Maven {
        group_id: group_id.into(),
        artifact_id: artifact_id.into(),
    }
}

fn npm(scope: Option<&str>, package: &str) -> Coordinates {
    Coordinates::Npm {
        scope: scope.map(String::from),
        package: package.into(),
    }
}

fn reqs(texts: &[&str]) -> Vec<VersionReq> {
    texts.iter().map(|t| VersionReq::parse(t).unwrap()).collect()
}

fn check(input: &str) -> VersionCheck {
    parse_coordinates(input).unwrap()
}

fn missing(input: &str) -> (&'static str, String) {
    match parse_coordinates(input) {
        Err(ParseError::Missing(field, given)) => (field, given),
        other => panic!("expected a missing field for {:?}, got {:?}", input, other),
    }
}

fn invalid(input: &str) -> String {
    match parse_coordinates(input) {
        Err(ParseError::InvalidRange(segment, _)) => segment,
        other => panic!("expected an invalid range for {:?}, got {:?}", input, other),
    }
}

#[test]
fn maven_coordinates_by_default() {
    for (arg, group_id, artifact_id) in [
        ("foo:bar", "foo", "bar"),
        ("foo.bar:baz", "foo.bar", "baz"),
        ("foo:bar.baz", "foo", "bar.baz"),
        ("foo.bar:baz.qux", "foo.bar", "baz.qux"),
        ("42:1337", "42", "1337"),
        (" 42 :  1337  ", "42", "1337"),
    ] {
        let c = check(arg);
        assert_eq!(c.coordinates, maven(group_id, artifact_id));
        assert!(c.versions.is_empty());
    }
}

#[test]
fn missing_fields_name_field_and_input() {
    for (arg, field) in [
        (":foo", "group_id"),
        (":foo:", "group_id"),
        ("", "group_id"),
        (":", "group_id"),
        ("::", "group_id"),
        ("  ", "group_id"),
        ("  :", "group_id"),
        ("foo:", "artifact_id"),
        ("foo::", "artifact_id"),
        ("foo: ", "artifact_id"),
        ("foo: :", "artifact_id"),
        ("foo", "artifact_id"),
        ("maven", "group_id"),
        ("maven:g", "artifact_id"),
        ("cargo", "package"),
        ("cargo::", "package"),
        ("npm", "package"),
        ("npm:@", "scope"),
        ("npm:@scope", "package"),
        ("npm:@scope/", "package"),
        ("npm:/pkg", "scope"),
        ("npm:@/pkg", "scope"),
        ("npm:@ /pkg", "scope"),
        ("npm:@\u{3000}/pkg", "scope"),
        ("npm:@\t\u{a0}/pkg", "scope"),
        ("npm:scope/", "package"),
        ("go", "user"),
        ("go:user", "module"),
        ("github.com:user", "module"),
        ("github.com", "user"),
    ] {
        assert_eq!(missing(arg), (field, String::from(arg)), "input {:?}", arg);
    }
}

#[test]
fn version_ranges_in_order() {
    for (arg, ranges) in [
        ("foo:bar:1", vec!["1"]),
        ("foo:bar:0", vec!["0"]),
        ("foo:bar:*", vec!["*"]),
        ("foo:bar:", vec!["*"]),
        ("foo:bar", vec![]),
        ("foo:bar:1.0", vec!["1.0"]),
        ("foo:bar:1.x", vec!["1.x"]),
        ("foo:bar:1.*", vec!["1.*"]),
        ("foo:bar:=1.2.3", vec!["=1.2.3"]),
        ("foo:bar:<1.2.3", vec!["<1.2.3"]),
        ("foo:bar:>1.2.3", vec![">1.2.3"]),
        ("foo:bar:<=1.2.3", vec!["<=1.2.3"]),
        ("foo:bar:>=1.2.3", vec![">=1.2.3"]),
        ("foo:bar:1.2.3, 2", vec!["1.2.3, 2"]),
        ("foo:bar:1.2.3,2", vec!["1.2.3,2"]),
        ("foo:bar:1.2.3:2", vec!["1.2.3", "2"]),
    ] {
        assert_eq!(check(arg).versions, reqs(&ranges), "input {:?}", arg);
    }
}

#[test]
fn invalid_ranges_name_the_segment() {
    for (arg, segment) in [
        ("foo:bar:01", "01"),
        ("foo:bar:1.02", "1.02"),
        ("foo:bar:.", "."),
        ("foo:bar:1.", "1."),
        ("foo:bar:1..", "1.."),
        ("foo:bar:1.2.", "1.2."),
        ("foo:bar:qux", "qux"),
        ("foo:bar:1.qux", "1.qux"),
        ("foo:bar:-42", "-42"),
        ("foo:bar:*42", "*42"),
        ("foo:bar:1.3.3.7", "1.3.3.7"),
        ("foo:bar:1:foo", "foo"),
        ("foo:bar:1.2.3 2", "1.2.3 2"),
    ] {
        assert_eq!(invalid(arg), segment, "input {:?}", arg);
    }
}

#[test]
fn maven_round_trip_display() {
    let c = check("maven:g:a");
    assert_eq!(c.coordinates, maven("g", "a"));
    assert_eq!(c.coordinates.package_slug(), "g:a");
    assert_eq!(c.coordinates.system_slug(), "maven");
}

#[test]
fn npm_two_segment_scope() {
    let c = check("npm:scope:pkg");
    assert_eq!(c.coordinates, npm(Some("scope"), "pkg"));
    assert!(c.versions.is_empty());
    assert_eq!(c.coordinates.package_slug(), "@scope/pkg");
}

#[test]
fn npm_bare_package_with_range() {
    let c = check("npm:pkg:^1");
    assert_eq!(c.coordinates, npm(None, "pkg"));
    assert_eq!(c.versions, reqs(&["^1"]));
    assert_eq!(c.coordinates.package_slug(), "pkg");
}

#[test]
fn npm_forms() {
    let c = check("npm:@scope/pkg:^1:~2.3");
    assert_eq!(c.coordinates, npm(Some("scope"), "pkg"));
    assert_eq!(c.versions, reqs(&["^1", "~2.3"]));
    assert_eq!(check("npm:@scope:pkg").coordinates, npm(Some("scope"), "pkg"));
    assert_eq!(check("npm:@@scope:pkg").coordinates, npm(Some("scope"), "pkg"));
    assert_eq!(check("npm:scope/pkg").coordinates, npm(Some("scope"), "pkg"));
    assert_eq!(check("npm:lodash:^4").coordinates, npm(None, "lodash"));
    assert_eq!(check("npm:lodash").coordinates, npm(None, "lodash"));
    let empty_next = check("npm:lodash::1");
    assert_eq!(empty_next.coordinates, npm(None, "lodash"));
    assert_eq!(empty_next.versions, reqs(&["*", "1"]));
}

#[test]
fn cargo_forms() {
    let c = check("cargo:serde:1");
    assert_eq!(c.coordinates, Coordinates::Cargo("serde".into()));
    assert_eq!(c.versions, reqs(&["1"]));
    assert_eq!(check("cargo::serde").coordinates, Coordinates::Cargo("serde".into()));
    assert_eq!(c.coordinates.system_slug(), "cargo");
    assert_eq!(c.coordinates.package_slug(), "serde");
}

#[test]
fn go_forms() {
    let c = check("go:golang.org/x/text:0.3");
    assert_eq!(c.coordinates, Coordinates::AnyGo("golang.org/x/text".into()));
    assert_eq!(c.versions, reqs(&["0.3"]));
    assert_eq!(c.coordinates.package_slug(), "golang.org/x/text");
    let user = check("go:user:module");
    assert_eq!(
        user.coordinates,
        Coordinates::Go {
            user: "user".into(),
            module: "module".into()
        }
    );
    assert_eq!(user.coordinates.package_slug(), "github.com/user/module");
    assert_eq!(user.coordinates.system_slug(), "go");
    let gh = check("github.com:user:module:1");
    assert_eq!(gh.coordinates, user.coordinates);
    assert_eq!(gh.versions, reqs(&["1"]));
}

#[test]
fn parse_is_deterministic() {
    for arg in ["npm:scope:pkg", "foo:bar:1.x:2.x", "go:a/b", "cargo::x"] {
        assert_eq!(check(arg), check(arg));
    }
}

#[test]
fn from_str_reads_a_check() {
    let c: VersionCheck = "maven:g:a:1".parse().unwrap();
    assert_eq!(c, check("maven:g:a:1"));
}

#[test]
fn single_version_segments() {
    assert_eq!(parse_version("").unwrap(), VersionReq::STAR);
    assert_eq!(parse_version("^1.2").unwrap(), VersionReq::parse("^1.2").unwrap());
    match parse_version("nope") {
        Err(ParseError::InvalidRange(segment, _)) => assert_eq!(segment, "nope"),
        other => panic!("unexpected {:?}", other),
    }
}

#[test]
fn unicode_white_space_is_trimmed() {
    let c = check("\u{3000}foo\u{a0} :\u{2003}bar\u{85}:\u{202f}1.x\t");
    assert_eq!(c.coordinates, maven("foo", "bar"));
    assert_eq!(c.versions, reqs(&["1.x"]));
    assert_eq!(missing("\u{2028}\u{2029}:foo"), ("group_id", String::from("\u{2028}\u{2029}:foo")));
}

#[test]
fn npm_inner_white_space_kept() {
    assert_eq!(check("npm:@my org/my pkg").coordinates, npm(Some("my org"), "my pkg"));
}

#[test]
fn npm_bare_look_ahead() {
    assert_eq!(read_npm_bare("myorg", Some("mypkg"), false), (npm(Some("myorg"), "mypkg"), 3));
    assert_eq!(read_npm_bare("lodash", Some("^4"), true), (npm(None, "lodash"), 2));
    assert_eq!(read_npm_bare("lodash", Some(""), false), (npm(None, "lodash"), 2));
    assert_eq!(read_npm_bare("lodash", None, false), (npm(None, "lodash"), 2));
}
