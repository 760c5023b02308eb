use latest_version::Versions;
use latest_version::versions::place;
use semver::{Version, VersionReq};

fn some(s: &str) -> Option<String> {
    Some(String::from(s))
}

#[test]
fn test_empty_reqs() {
    let versions = Versions::from_texts(&["1.0.0"]);
    assert_eq!(versions.find_latest_versions(&[], false), vec![]);
}

#[test]
fn test_empty_versions() {
    let versions = Versions::new(Vec::<String>::new());
    assert_eq!(
        versions.find_latest_versions(&[VersionReq::STAR], false),
        vec![None]
    );
}

#[test]
fn match_single_version() {
    let versions = Versions::from_texts(&["1.0.0"]);
    assert_eq!(
        versions.find_latest_versions(&[VersionReq::STAR], false),
        vec![some("1.0.0")]
    );
}

#[test]
fn select_latest() {
    let versions = Versions::from_texts(&["1.0.0", "1.3.37"]);
    assert_eq!(
        versions.find_latest_versions(&[VersionReq::STAR], false),
        vec![some("1.3.37")]
    );
}

#[test]
fn lenient_version_parsing() {
    let versions = Versions::from_texts(&["1.0.0", "1.337"]);
    assert_eq!(
        versions.find_latest_versions(&[VersionReq::STAR], false),
        vec![some("1.337")]
    );
}

#[test]
fn group_on_reqs() {
    let versions = Versions::from_texts(&["1.0.0", "1.2.3", "2.0.0", "2.1337.42"]);
    assert_eq!(
        versions.find_latest_versions(
            &[
                VersionReq::parse("1.x").unwrap(),
                VersionReq::parse("2.x").unwrap()
            ],
            false
        ),
        vec![some("1.2.3"), some("2.1337.42")]
    );
}

#[test]
fn skip_unmatched_reqs() {
    let versions = Versions::from_texts(&["1.0.0", "2.0.0"]);
    assert_eq!(
        versions.find_latest_versions(
            &[
                VersionReq::parse("1.x").unwrap(),
                VersionReq::parse("42.x").unwrap(),
                VersionReq::parse("2.x").unwrap()
            ],
            false
        ),
        vec![some("1.0.0"), None, some("2.0.0")]
    );
}

#[test]
fn skip_overshadowed_reqs() {
    let versions = Versions::from_texts(&["1.0.42", "1.2.3"]);
    assert_eq!(
        versions.find_latest_versions(
            &[
                VersionReq::parse("^1").unwrap(),
                VersionReq::parse("1.2.3").unwrap(),
            ],
            false
        ),
        vec![some("1.2.3"), None]
    );
}

#[test]
fn skip_prerelease() {
    let versions = Versions::from_texts(&["1.0.0", "1.1.0-alpha01"]);
    assert_eq!(
        versions.find_latest_versions(&[VersionReq::parse("^1").unwrap()], false),
        vec![some("1.0.0")]
    );
}

#[test]
fn include_prerelease() {
    let versions = Versions::from_texts(&["1.0.0", "1.1.0-alpha01"]);
    assert_eq!(
        versions.find_latest_versions(&[VersionReq::parse("^1").unwrap()], true),
        vec![some("1.1.0-alpha01")]
    );
}

#[test]
fn exclusive_with_exact_requirement() {
    let versions = Versions::from_texts(&["1.0.42", "1.2.3"]);
    assert_eq!(
        versions.find_latest_versions(
            &[
                VersionReq::parse("^1").unwrap(),
                VersionReq::parse("=1.2.3").unwrap(),
            ],
            false
        ),
        vec![some("1.2.3"), None]
    );
}

#[test]
fn narrow_requirement_first_keeps_its_version() {
    let versions = Versions::from_texts(&["1.0.42", "1.2.3"]);
    assert_eq!(
        versions.find_latest_versions(
            &[
                VersionReq::parse("=1.2.3").unwrap(),
                VersionReq::parse("^1").unwrap(),
            ],
            false
        ),
        vec![some("1.2.3"), some("1.0.42")]
    );
}

#[test]
fn empty_requirements_act_as_star() {
    let texts = ["1.0.0", "2.5.1", "3.0.0-rc1"];
    let none = Versions::from_texts(&texts).latest_versions(false, vec![]);
    let star = Versions::from_texts(&texts).latest_versions(false, vec![VersionReq::STAR]);
    assert_eq!(none, star);
    assert_eq!(none, vec![(VersionReq::STAR, some("2.5.1"))]);
}

#[test]
fn latest_versions_pairs_in_order() {
    let reqs = vec![
        VersionReq::parse("1.x").unwrap(),
        VersionReq::parse("42.x").unwrap(),
        VersionReq::parse("2.x").unwrap(),
    ];
    let result = Versions::from_texts(&["2.0.0", "1.0.0"]).latest_versions(false, reqs.clone());
    assert_eq!(
        result,
        vec![
            (reqs[0].clone(), some("1.0.0")),
            (reqs[1].clone(), None),
            (reqs[2].clone(), some("2.0.0")),
        ]
    );
}

#[test]
fn lenient_two_components_compare_with_three() {
    let versions = Versions::from_texts(&["1.337", "1.336.9", "1.338.0"]);
    assert_eq!(
        versions.find_latest_versions(&[VersionReq::parse("<1.338").unwrap()], false),
        vec![some("1.337")]
    );
}

#[test]
fn malformed_versions_are_ignored() {
    let versions = Versions::from_texts(&["not a version", "1.0.0", "", "x.y.z"]);
    assert_eq!(
        versions.find_latest_versions(&[VersionReq::STAR], false),
        vec![some("1.0.0")]
    );
    let only_bad = Versions::from_texts(&["garbage", "???"]);
    assert_eq!(
        only_bad.find_latest_versions(&[VersionReq::STAR], false),
        vec![None]
    );
}

#[test]
fn equal_versions_keep_the_first_text() {
    let versions = Versions::from_texts(&["1.2", "1.2.0"]);
    assert_eq!(
        versions.find_latest_versions(&[VersionReq::STAR], false),
        vec![some("1.2")]
    );
}

#[test]
fn prerelease_ordered_below_release() {
    let versions = Versions::from_texts(&["1.1.0-alpha01", "1.1.0", "1.1.0-beta"]);
    assert_eq!(
        versions.find_latest_versions(&[VersionReq::parse("^1").unwrap()], true),
        vec![some("1.1.0")]
    );
}

#[test]
fn place_keeps_or_replaces() {
    let mut latest: Vec<Option<Version>> = vec![None, None];
    let mut best: Vec<Option<String>> = vec![None, None];
    place(&mut latest, &mut best, 1, Version::new(1, 0, 0), &String::from("1.0"), false);
    assert_eq!(latest, vec![None, Some(Version::new(1, 0, 0))]);
    assert_eq!(best, vec![None, some("1.0")]);
    place(&mut latest, &mut best, 1, Version::new(0, 9, 0), &String::from("0.9"), false);
    assert_eq!(best, vec![None, some("1.0")]);
    place(&mut latest, &mut best, 1, Version::new(2, 0, 0), &String::from("2"), true);
    assert_eq!(latest, vec![None, Some(Version::new(2, 0, 0))]);
    assert_eq!(best, vec![None, some("2")]);
}
