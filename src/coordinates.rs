//! Package coordinates and the grammar that reads them from a typed token.
use vstd::prelude::*;
use semver::VersionReq;
use crate::semver_api::{any_version, parse_range, range_parse, star_text};
use crate::text::{
    clean, find_char, first_at, lemma_pieces_len, lemma_strip_leading_suffix, lemma_subrange_free,
    lemma_trimmed_clean, lemma_trimmed_keeps_solid_end, lemma_trimmed_pieces, same_text,
    split_trimmed, strip_leading, strip_leading_char, trim, trimmed, trimmed_pieces,
};

verus! {

/// A package identifier in one of the supported ecosystems.
#[derive(Debug, Clone, PartialEq)]
pub enum Coordinates {
    Maven { group_id: String, artifact_id: String },
    Cargo(String),
    Npm { scope: Option<String>, package: String },
    Go { user: String, module: String },
    AnyGo(String),
}

/// The model of [`Coordinates`]: each text as its characters.
pub enum CoordinatesView {
    Maven { group_id: Seq<char>, artifact_id: Seq<char> },
    Cargo(Seq<char>),
    Npm { scope: Option<Seq<char>>, package: Seq<char> },
    Go { user: Seq<char>, module: Seq<char> },
    AnyGo(Seq<char>),
}

impl View for Coordinates {
    type V = CoordinatesView;

    open spec fn view(&self) -> CoordinatesView {
        match self {
            Coordinates::Maven { group_id, artifact_id } => CoordinatesView::Maven {
                group_id: group_id@,
                artifact_id: artifact_id@,
            },
            Coordinates::Cargo(p) => CoordinatesView::Cargo(p@),
            Coordinates::Npm { scope, package } => CoordinatesView::Npm {
                scope: match scope {
                    Some(s) => Some(s@),
                    None => None,
                },
                package: package@,
            },
            Coordinates::Go { user, module } => CoordinatesView::Go { user: user@, module: module@ },
            Coordinates::AnyGo(p) => CoordinatesView::AnyGo(p@),
        }
    }
}

/// A coordinate with the ordered list of version ranges to check it against.
#[derive(Debug, Clone, PartialEq)]
pub struct VersionCheck {
    pub coordinates: Coordinates,
    pub versions: Vec<VersionReq>,
}

pub struct VersionCheckView {
    pub coordinates: CoordinatesView,
    pub versions: Seq<VersionReq>,
}

impl View for VersionCheck {
    type V = VersionCheckView;

    open spec fn view(&self) -> VersionCheckView {
        VersionCheckView { coordinates: self.coordinates@, versions: self.versions@ }
    }
}

/// Why a token could not be read.
#[non_exhaustive]
#[derive(Debug)]
pub enum ParseError {
    /// A required segment is absent or empty: the field's name and the whole token.
    Missing(&'static str, String),
    /// A segment is no version range: the segment and what the range parser said.
    InvalidRange(String, semver::Error),
}

pub enum ParseErrorView {
    Missing(Seq<char>, Seq<char>),
    InvalidRange(Seq<char>, semver::Error),
}

impl View for ParseError {
    type V = ParseErrorView;

    open spec fn view(&self) -> ParseErrorView {
        match self {
            ParseError::Missing(f, s) => ParseErrorView::Missing(f@, s@),
            ParseError::InvalidRange(s, e) => ParseErrorView::InvalidRange(s@, *e),
        }
    }
}

// ---------------------------------------------------------------------------
// The grammar, over the trimmed segments of a token.

/// Segment `i` exists and is not empty.
pub open spec fn present(segs: Seq<Seq<char>>, i: int) -> bool {
    0 <= i < segs.len() && segs[i].len() > 0
}

/// The first `/` of `s`; meaningful where `s` holds one.
pub open spec fn first_slash(s: Seq<char>) -> int {
    choose|k: int| first_at(s, '/', k)
}

pub open spec fn found(c: CoordinatesView, n: int) -> Result<(CoordinatesView, int), Seq<char>> {
    Ok((c, n))
}

pub open spec fn lacking(field: Seq<char>) -> Result<(CoordinatesView, int), Seq<char>> {
    Err(field)
}

/// An npm scope and package written `scope/package` in one segment, split at
/// the first `/`, which stands at `k`; a part that is blank is missing.
pub open spec fn npm_split_rule(s: Seq<char>, k: int) -> Result<(CoordinatesView, int), Seq<char>> {
    if trimmed(s.subrange(0, k)).len() == 0 {
        lacking("scope"@)
    } else if trimmed(s.subrange(k + 1, s.len() as int)).len() == 0 {
        lacking("package"@)
    } else {
        found(
            CoordinatesView::Npm { scope: Some(s.subrange(0, k)), package: s.subrange(k + 1, s.len() as int) },
            2,
        )
    }
}

/// A bare npm name `name`, followed by the segment `next` if there is one:
/// when `next` is non-empty and no version range, it is the package and `name`
/// its scope; otherwise `name` is an unscoped package and `next` is left for
/// the version ranges.
pub open spec fn npm_bare_rule(name: Seq<char>, next: Option<Seq<char>>, next_is_range: bool) -> (
    CoordinatesView,
    int,
) {
    match next {
        Some(p) => if p.len() > 0 && !next_is_range {
            (CoordinatesView::Npm { scope: Some(name), package: p }, 3)
        } else {
            (CoordinatesView::Npm { scope: None, package: name }, 2)
        },
        None => (CoordinatesView::Npm { scope: None, package: name }, 2),
    }
}

pub open spec fn text_opt(o: Option<&str>) -> Option<Seq<char>> {
    match o {
        Some(s) => Some(s@),
        None => None,
    }
}

/// The npm grammar; segment 1 is present.
pub open spec fn npm_rule(segs: Seq<Seq<char>>) -> Result<(CoordinatesView, int), Seq<char>> {
    let t = segs[1];
    if t[0] == '@' {
        let sc = strip_leading(t, '@');
        if sc.len() == 0 {
            lacking("scope"@)
        } else if sc.contains('/') {
            npm_split_rule(sc, first_slash(sc))
        } else if present(segs, 2) {
            found(CoordinatesView::Npm { scope: Some(sc), package: segs[2] }, 3)
        } else {
            lacking("package"@)
        }
    } else if t.contains('/') {
        npm_split_rule(t, first_slash(t))
    } else {
        let next = if segs.len() > 2 {
            Some(segs[2])
        } else {
            None
        };
        let (c, n) = npm_bare_rule(t, next, present(segs, 2) && range_parse(segs[2]) is Ok);
        found(c, n)
    }
}

/// The coordinate that the leading segments spell, with the number of
/// segments it takes, or the name of the field that is missing.
pub open spec fn coordinate_rule(segs: Seq<Seq<char>>) -> Result<(CoordinatesView, int), Seq<char>> {
    let head = segs[0];
    if head == "maven"@ {
        if !present(segs, 1) {
            lacking("group_id"@)
        } else if !present(segs, 2) {
            lacking("artifact_id"@)
        } else {
            found(CoordinatesView::Maven { group_id: segs[1], artifact_id: segs[2] }, 3)
        }
    } else if head == "cargo"@ {
        if present(segs, 1) {
            found(CoordinatesView::Cargo(segs[1]), 2)
        } else if 1 < segs.len() && present(segs, 2) {
            found(CoordinatesView::Cargo(segs[2]), 3)
        } else {
            lacking("package"@)
        }
    } else if head == "npm"@ {
        if present(segs, 1) {
            npm_rule(segs)
        } else {
            lacking("package"@)
        }
    } else if head == "go"@ {
        if !present(segs, 1) {
            lacking("user"@)
        } else if segs[1].contains('/') {
            found(CoordinatesView::AnyGo(segs[1]), 2)
        } else if present(segs, 2) {
            found(CoordinatesView::Go { user: segs[1], module: segs[2] }, 3)
        } else {
            lacking("module"@)
        }
    } else if head == "github.com"@ {
        if !present(segs, 1) {
            lacking("user"@)
        } else if !present(segs, 2) {
            lacking("module"@)
        } else {
            found(CoordinatesView::Go { user: segs[1], module: segs[2] }, 3)
        }
    } else if head.len() > 0 {
        if present(segs, 1) {
            found(CoordinatesView::Maven { group_id: head, artifact_id: segs[1] }, 2)
        } else {
            lacking("artifact_id"@)
        }
    } else {
        lacking("group_id"@)
    }
}

/// The range that one version segment stands for: an empty segment matches
/// any version.
pub open spec fn range_rule(seg: Seq<char>) -> Result<VersionReq, ParseErrorView> {
    let t = if seg.len() == 0 { star_text() } else { seg };
    match range_parse(t) {
        Ok(r) => Ok(r),
        Err(e) => Err(ParseErrorView::InvalidRange(seg, e)),
    }
}

/// The ranges of the version segments, left to right, or the first failure.
pub open spec fn ranges_rule(segs: Seq<Seq<char>>) -> Result<Seq<VersionReq>, ParseErrorView>
    decreases segs.len(),
{
    if segs.len() == 0 {
        Ok(Seq::<VersionReq>::empty())
    } else {
        match ranges_rule(segs.drop_last()) {
            Err(e) => Err(e),
            Ok(rs) => match range_rule(segs.last()) {
                Ok(r) => Ok(rs.push(r)),
                Err(e) => Err(e),
            },
        }
    }
}

/// What a whole token reads as.
pub open spec fn check_rule(input: Seq<char>) -> Result<VersionCheckView, ParseErrorView> {
    let segs = trimmed_pieces(input, ':');
    match coordinate_rule(segs) {
        Err(field) => Err(ParseErrorView::Missing(field, input)),
        Ok((c, k)) => match ranges_rule(segs.subrange(k, segs.len() as int)) {
            Ok(rs) => Ok(VersionCheckView { coordinates: c, versions: rs }),
            Err(e) => Err(e),
        },
    }
}

pub open spec fn texts(v: Seq<String>) -> Seq<Seq<char>> {
    v.map_values(|s: String| s@)
}

pub open spec fn check_outcome(r: Result<VersionCheck, ParseError>) -> Result<VersionCheckView, ParseErrorView> {
    match r {
        Ok(c) => Ok(c@),
        Err(e) => Err(e@),
    }
}

pub open spec fn coordinate_outcome(r: Result<(Coordinates, usize), &'static str>) -> Result<
    (CoordinatesView, int),
    Seq<char>,
> {
    match r {
        Ok((c, k)) => Ok((c@, k as int)),
        Err(f) => Err(f@),
    }
}

pub open spec fn range_outcome(r: Result<VersionReq, ParseError>) -> Result<VersionReq, ParseErrorView> {
    match r {
        Ok(q) => Ok(q),
        Err(e) => Err(e@),
    }
}

pub open spec fn ranges_outcome(r: Result<Vec<VersionReq>, ParseError>) -> Result<Seq<VersionReq>, ParseErrorView> {
    match r {
        Ok(v) => Ok(v@),
        Err(e) => Err(e@),
    }
}

proof fn lemma_first_at_unique(s: Seq<char>, c: char, a: int, b: int)
    requires
        first_at(s, c, a),
        first_at(s, c, b),
    ensures
        a == b,
{
    if a < b {
        assert(s[a] == c);
    } else if b < a {
        assert(s[b] == c);
    }
}

/// A failure among the leading segments is the failure of the whole list.
proof fn lemma_ranges_failure_stays(segs: Seq<Seq<char>>, m: int)
    requires
        0 <= m <= segs.len(),
        ranges_rule(segs.subrange(0, m)) is Err,
    ensures
        ranges_rule(segs) == ranges_rule(segs.subrange(0, m)),
    decreases segs.len(),
{
    if m == segs.len() {
        assert(segs.subrange(0, m) =~= segs);
    } else {
        assert(segs.drop_last().subrange(0, m) =~= segs.subrange(0, m));
        lemma_ranges_failure_stays(segs.drop_last(), m);
    }
}

/// The first `/` of `s`, which is `first_slash(s@)`.
fn find_slash(s: &str) -> (r: Option<usize>)
    ensures
        match r {
            Some(k) => s@.contains('/') && k as int == first_slash(s@) && first_at(s@, '/', k as int),
            None => !s@.contains('/'),
        },
{
    let r = find_char(s, '/');
    if let Some(k) = r {
        proof {
            assert(s@[k as int] == '/');
            assert(first_at(s@, '/', k as int));
            let j = first_slash(s@);
            lemma_first_at_unique(s@, '/', j, k as int);
        }
    }
    r
}

/// Segment `i` exists and is not empty.
fn is_present(segs: &Vec<String>, i: usize) -> (r: bool)
    ensures
        r == present(texts(segs@), i as int),
{
    i < segs.len() && !segs[i].as_str().is_empty()
}

/// Reads `scope/package`, split at the first `/`, which stands at `k`.
fn read_npm_split(s: &str, k: usize) -> (r: Result<(Coordinates, usize), &'static str>)
    requires
        first_at(s@, '/', k as int),
    ensures
        coordinate_outcome(r) == npm_split_rule(s@, k as int),
{
    let n = s.unicode_len();
    let scope = s.substring_char(0, k);
    if trim(scope).is_empty() {
        return Err("scope");
    }
    let package = s.substring_char(k + 1, n);
    if trim(package).is_empty() {
        Err("package")
    } else {
        Ok((Coordinates::Npm { scope: Some(scope.to_owned()), package: package.to_owned() }, 2))
    }
}

/// The npm grammar, which looks one segment ahead when the package segment
/// holds neither `@` nor `/`.
fn read_npm(segs: &Vec<String>) -> (r: Result<(Coordinates, usize), &'static str>)
    requires
        present(texts(segs@), 1),
    ensures
        coordinate_outcome(r) == npm_rule(texts(segs@)),
        r matches Ok((_, k)) ==> k <= segs@.len(),
{
    let ghost ts = texts(segs@);
    let t = segs[1].as_str();
    assert(t@ == ts[1]);
    if t.get_char(0) == '@' {
        let sc = strip_leading_char(t, '@');
        if sc.is_empty() {
            Err("scope")
        } else {
            match find_slash(sc) {
                Some(k) => read_npm_split(sc, k),
                None => {
                    if is_present(segs, 2) {
                        Ok((Coordinates::Npm { scope: Some(sc.to_owned()), package: segs[2].clone() }, 3))
                    } else {
                        Err("package")
                    }
                },
            }
        }
    } else {
        match find_slash(t) {
            Some(k) => read_npm_split(t, k),
            None => {
                let next = if segs.len() > 2 {
                    Some(segs[2].as_str())
                } else {
                    None
                };
                let next_is_range = is_present(segs, 2) && parse_range(segs[2].as_str()).is_ok();
                Ok(read_npm_bare(t, next, next_is_range))
            },
        }
    }
}

/// The look-ahead of the npm grammar, given whether the segment after the
/// bare name `name` reads as a version range.
pub fn read_npm_bare(name: &str, next: Option<&str>, next_is_range: bool) -> (r: (Coordinates, usize))
    ensures
        (r.0@, r.1 as int) == npm_bare_rule(name@, text_opt(next), next_is_range),
{
    match next {
        Some(p) => {
            if !p.is_empty() && !next_is_range {
                (Coordinates::Npm { scope: Some(name.to_owned()), package: p.to_owned() }, 3)
            } else {
                (Coordinates::Npm { scope: None, package: name.to_owned() }, 2)
            }
        },
        None => (Coordinates::Npm { scope: None, package: name.to_owned() }, 2),
    }
}

/// Reads the coordinate from the leading segments.
fn read_coordinate(segs: &Vec<String>) -> (r: Result<(Coordinates, usize), &'static str>)
    requires
        segs@.len() >= 1,
    ensures
        coordinate_outcome(r) == coordinate_rule(texts(segs@)),
        r matches Ok((_, k)) ==> k <= segs@.len(),
{
    let ghost ts = texts(segs@);
    let head = segs[0].as_str();
    assert(head@ == ts[0]);
    if same_text(head, "maven") {
        if !is_present(segs, 1) {
            Err("group_id")
        } else if !is_present(segs, 2) {
            Err("artifact_id")
        } else {
            Ok((Coordinates::Maven { group_id: segs[1].clone(), artifact_id: segs[2].clone() }, 3))
        }
    } else if same_text(head, "cargo") {
        if is_present(segs, 1) {
            Ok((Coordinates::Cargo(segs[1].clone()), 2))
        } else if 1 < segs.len() && is_present(segs, 2) {
            Ok((Coordinates::Cargo(segs[2].clone()), 3))
        } else {
            Err("package")
        }
    } else if same_text(head, "npm") {
        if is_present(segs, 1) {
            read_npm(segs)
        } else {
            Err("package")
        }
    } else if same_text(head, "go") {
        if !is_present(segs, 1) {
            Err("user")
        } else if find_slash(segs[1].as_str()).is_some() {
            Ok((Coordinates::AnyGo(segs[1].clone()), 2))
        } else if is_present(segs, 2) {
            Ok((Coordinates::Go { user: segs[1].clone(), module: segs[2].clone() }, 3))
        } else {
            Err("module")
        }
    } else if same_text(head, "github.com") {
        if !is_present(segs, 1) {
            Err("user")
        } else if !is_present(segs, 2) {
            Err("module")
        } else {
            Ok((Coordinates::Go { user: segs[1].clone(), module: segs[2].clone() }, 3))
        }
    } else if !head.is_empty() {
        if is_present(segs, 1) {
            Ok((Coordinates::Maven { group_id: segs[0].clone(), artifact_id: segs[1].clone() }, 2))
        } else {
            Err("artifact_id")
        }
    } else {
        Err("group_id")
    }
}

/// Reads one version segment as a range; an empty segment matches any version.
pub fn parse_version(version: &str) -> (r: Result<VersionReq, ParseError>)
    ensures
        range_outcome(r) == range_rule(version@),
        version@.len() == 0 ==> r is Ok,
{
    if version.is_empty() {
        Ok(any_version())
    } else {
        match parse_range(version) {
            Ok(q) => Ok(q),
            Err(e) => Err(ParseError::InvalidRange(version.to_owned(), e)),
        }
    }
}

/// Reads the segments from `from` on as version ranges.
fn read_ranges(segs: &Vec<String>, from: usize) -> (r: Result<Vec<VersionReq>, ParseError>)
    requires
        from <= segs@.len(),
    ensures
        ranges_outcome(r) == ranges_rule(texts(segs@).subrange(from as int, segs@.len() as int)),
{
    let ghost ts = texts(segs@);
    let mut out: Vec<VersionReq> = Vec::new();
    let mut i: usize = from;
    while i < segs.len()
        invariant
            from <= i <= segs@.len(),
            ts == texts(segs@),
            ranges_rule(ts.subrange(from as int, i as int)) == Ok::<Seq<VersionReq>, ParseErrorView>(out@),
        decreases segs@.len() - i,
    {
        assert(ts.subrange(from as int, i + 1).drop_last() =~= ts.subrange(from as int, i as int));
        assert(segs[i as int]@ == ts[i as int]);
        match parse_version(segs[i].as_str()) {
            Ok(q) => out.push(q),
            Err(e) => {
                proof {
                    let rest = ts.subrange(from as int, segs@.len() as int);
                    assert(rest.subrange(0, i + 1 - from) =~= ts.subrange(from as int, i + 1));
                    lemma_ranges_failure_stays(rest, i + 1 - from);
                }
                return Err(e);
            },
        }
        i = i + 1;
    }
    Ok(out)
}

/// Reads a token such as `npm:@scope/pkg:^1:~2.3`: a coordinate, then one
/// version range per remaining `:`-separated segment.
pub fn parse_coordinates(input: &str) -> (r: Result<VersionCheck, ParseError>)
    ensures
        check_outcome(r) == check_rule(input@),
{
    let segs = split_trimmed(input, ':');
    proof {
        lemma_pieces_len(input@, ':');
        assert(texts(segs@) =~= trimmed_pieces(input@, ':'));
    }
    match read_coordinate(&segs) {
        Err(field) => Err(ParseError::Missing(field, input.to_owned())),
        Ok((coordinates, k)) => match read_ranges(&segs, k) {
            Ok(versions) => Ok(VersionCheck { coordinates, versions }),
            Err(e) => Err(e),
        },
    }
}

/// The ecosystem that a coordinate belongs to, as its lookup keyword.
pub open spec fn system_of(c: CoordinatesView) -> Seq<char> {
    match c {
        CoordinatesView::Maven { .. } => "maven"@,
        CoordinatesView::Cargo(_) => "cargo"@,
        CoordinatesView::Npm { .. } => "npm"@,
        CoordinatesView::Go { .. } | CoordinatesView::AnyGo(_) => "go"@,
    }
}

/// The canonical display form of a coordinate.
pub open spec fn display_of(c: CoordinatesView) -> Seq<char> {
    match c {
        CoordinatesView::Maven { group_id, artifact_id } => group_id + ":"@ + artifact_id,
        CoordinatesView::Cargo(p) => p,
        CoordinatesView::Npm { scope, package } => match scope {
            Some(s) => "@"@ + s + "/"@ + package,
            None => package,
        },
        CoordinatesView::Go { user, module } => "github.com/"@ + user + "/"@ + module,
        CoordinatesView::AnyGo(p) => p,
    }
}

impl Coordinates {
    /// The ecosystem keyword: `maven`, `cargo`, `npm` or `go`.
    pub fn system_slug(&self) -> (r: &'static str)
        ensures
            r@ == system_of(self@),
    {
        match self {
            Coordinates::Maven { .. } => "maven",
            Coordinates::Cargo(_) => "cargo",
            Coordinates::Npm { .. } => "npm",
            Coordinates::Go { .. } | Coordinates::AnyGo(_) => "go",
        }
    }

    /// The canonical display form, by which the package is looked up.
    pub fn package_slug(&self) -> (r: String)
        ensures
            r@ == display_of(self@),
    {
        match self {
            Coordinates::Maven { group_id, artifact_id } => {
                let mut s = group_id.clone();
                s.append(":");
                s.append(artifact_id.as_str());
                s
            },
            Coordinates::Cargo(package) => package.clone(),
            Coordinates::Npm { scope: Some(scope), package } => {
                let mut s = "@".to_owned();
                s.append(scope.as_str());
                s.append("/");
                s.append(package.as_str());
                s
            },
            Coordinates::Npm { scope: None, package } => package.clone(),
            Coordinates::Go { user, module } => {
                let mut s = "github.com/".to_owned();
                s.append(user.as_str());
                s.append("/");
                s.append(module.as_str());
                s
            },
            Coordinates::AnyGo(path) => path.clone(),
        }
    }
}

impl std::str::FromStr for VersionCheck {
    type Err = ParseError;

    fn from_str(s: &str) -> (r: Result<VersionCheck, ParseError>)
        ensures
            check_outcome(r) == check_rule(s@),
    {
        parse_coordinates(s)
    }
}

/// A text of a coordinate: not blank, and free of the `:` that separates
/// segments.
pub open spec fn solid(f: Seq<char>) -> bool {
    trimmed(f).len() > 0 && !f.contains(':')
}

/// Every text of the coordinate is solid, and a full Go module path holds a `/`.
pub open spec fn fields_well_formed(c: CoordinatesView) -> bool {
    match c {
        CoordinatesView::Maven { group_id, artifact_id } => solid(group_id) && solid(artifact_id),
        CoordinatesView::Cargo(p) => solid(p),
        CoordinatesView::Npm { scope, package } => solid(package) && match scope {
            Some(s) => solid(s),
            None => true,
        },
        CoordinatesView::Go { user, module } => solid(user) && solid(module),
        CoordinatesView::AnyGo(p) => solid(p) && p.contains('/'),
    }
}

/// The field names that a `Missing` error can report.
pub open spec fn is_field_name(f: Seq<char>) -> bool {
    f == "group_id"@ || f == "artifact_id"@ || f == "package"@ || f == "scope"@ || f == "user"@
        || f == "module"@
}

proof fn lemma_first_exists(s: Seq<char>, c: char)
    requires
        s.contains(c),
    ensures
        exists|k: int| first_at(s, c, k),
    decreases s.len(),
{
    if s.drop_last().contains(c) {
        lemma_first_exists(s.drop_last(), c);
        let k = choose|k: int| first_at(s.drop_last(), c, k);
        assert forall|j: int| 0 <= j < k implies s[j] != c by {
            assert(s[j] == s.drop_last()[j]);
        }
        assert(s[k] == s.drop_last()[k]);
        assert(first_at(s, c, k));
    } else {
        let j = choose|j: int| 0 <= j < s.len() && s[j] == c;
        if j < s.len() - 1 {
            assert(s.drop_last()[j] == c);
        }
        assert forall|i: int| 0 <= i < s.len() - 1 implies s[i] != c by {
            if s[i] == c {
                assert(s.drop_last()[i] == c);
            }
        }
        assert(first_at(s, c, s.len() - 1));
    }
}

proof fn lemma_npm_split_sound(s: Seq<char>)
    requires
        s.contains('/'),
        !s.contains(':'),
    ensures
        npm_split_rule(s, first_slash(s)) matches Ok((c, _)) ==> fields_well_formed(c),
        npm_split_rule(s, first_slash(s)) matches Err(f) ==> is_field_name(f),
{
    lemma_first_exists(s, '/');
    let k = first_slash(s);
    lemma_subrange_free(s, 0, k, ':');
    lemma_subrange_free(s, k + 1, s.len() as int, ':');
}

/// From clean segments without `:`, a coordinate that is read has only solid
/// texts, and a failure names one of the known fields.
proof fn lemma_coordinate_rule_sound(segs: Seq<Seq<char>>)
    requires
        segs.len() >= 1,
        forall|i: int| 0 <= i < segs.len() ==> clean(#[trigger] segs[i]) && !segs[i].contains(':'),
    ensures
        coordinate_rule(segs) matches Ok((c, k)) ==> fields_well_formed(c) && k <= segs.len(),
        coordinate_rule(segs) matches Err(f) ==> is_field_name(f),
{
    assert forall|i: int| 0 <= i < segs.len() implies trimmed(#[trigger] segs[i]) == segs[i] by {
        lemma_trimmed_clean(segs[i]);
    }
    if segs[0] == "npm"@ && present(segs, 1) {
        let t = segs[1];
        assert(trimmed(t) == t);
        if t[0] == '@' {
            let sc = strip_leading(t, '@');
            lemma_strip_leading_suffix(t, '@');
            let m = choose|m: int| 0 <= m <= t.len() && sc == t.subrange(m, t.len() as int);
            lemma_subrange_free(t, m, t.len() as int, ':');
            if sc.len() > 0 {
                assert(sc.last() == t.last());
                lemma_trimmed_keeps_solid_end(sc);
                if sc.contains('/') {
                    lemma_npm_split_sound(sc);
                }
            }
        } else if t.contains('/') {
            lemma_npm_split_sound(t);
        }
    }
}

proof fn lemma_ranges_fail_invalid(segs: Seq<Seq<char>>)
    ensures
        ranges_rule(segs) matches Err(e) ==> e is InvalidRange,
    decreases segs.len(),
{
    if segs.len() > 0 {
        lemma_ranges_fail_invalid(segs.drop_last());
    }
}

/// The same token always reads the same way.
pub proof fn lemma_parse_deterministic(
    input: Seq<char>,
    a: Result<VersionCheck, ParseError>,
    b: Result<VersionCheck, ParseError>,
)
    requires
        check_outcome(a) == check_rule(input),
        check_outcome(b) == check_rule(input),
    ensures
        check_outcome(a) == check_outcome(b),
{
}

/// Every token reads either as a coordinate whose texts are all solid, or as
/// a failure; a missing field is reported by one of the known field names,
/// together with the whole token as it was given.
pub proof fn lemma_check_rule_outcomes(input: Seq<char>)
    ensures
        check_rule(input) matches Ok(c) ==> fields_well_formed(c.coordinates),
        check_rule(input) matches Err(ParseErrorView::Missing(f, s)) ==> s == input && is_field_name(f),
{
    lemma_trimmed_pieces(input, ':');
    let segs = trimmed_pieces(input, ':');
    lemma_coordinate_rule_sound(segs);
    if let Ok((c, k)) = coordinate_rule(segs) {
        lemma_ranges_fail_invalid(segs.subrange(k, segs.len() as int));
    }
}

} // verus!
