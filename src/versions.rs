//! Assigns published versions to the first requirement they satisfy and keeps
//! the newest one per requirement.
use vstd::prelude::*;
use semver::{Version, VersionReq};
use crate::semver_api::{
    any_version, is_newer, lenient_version, newer, parse_lenient, release_core, release_of,
    req_matches, satisfies, star_req,
};

verus! {

/// The version texts that a package has published, in the order given.
#[derive(Debug, Default, Clone, PartialEq, Eq)]
pub struct Versions {
    version: Vec<String>,
}

impl View for Versions {
    type V = Seq<Seq<char>>;

    closed spec fn view(&self) -> Seq<Seq<char>> {
        self.version@.map_values(|s: String| s@)
    }
}

/// The version that requirements are tested against: with pre-releases
/// included, only the release numbers of `v` count.
pub open spec fn match_key(v: Version, include_pre: bool) -> Version {
    if include_pre {
        release_core(v)
    } else {
        v
    }
}

/// The index of the first requirement that `v` satisfies.
pub open spec fn first_match(reqs: Seq<VersionReq>, v: Version) -> Option<int>
    decreases reqs.len(),
{
    if reqs.len() == 0 {
        None
    } else {
        match first_match(reqs.drop_last(), v) {
            Some(i) => Some(i),
            None => if req_matches(reqs.last(), v) {
                Some(reqs.len() - 1)
            } else {
                None
            },
        }
    }
}

/// The requirement that claims the text `s`, if `s` is a version at all.
pub open spec fn bucket_of(reqs: Seq<VersionReq>, s: Seq<char>, include_pre: bool) -> Option<int> {
    match lenient_version(s) {
        Some(v) => first_match(reqs, match_key(v, include_pre)),
        None => None,
    }
}

/// Per requirement, the best version among the first `n` texts, with its text:
/// a version replaces the one held when there is none yet or it is newer.
pub open spec fn best_upto(
    reqs: Seq<VersionReq>,
    raws: Seq<Seq<char>>,
    include_pre: bool,
    n: int,
) -> Seq<Option<(Version, Seq<char>)>>
    decreases n,
{
    if n <= 0 {
        Seq::new(reqs.len(), |i: int| None)
    } else {
        let prev = best_upto(reqs, raws, include_pre, n - 1);
        let s = raws[n - 1];
        match lenient_version(s) {
            None => prev,
            Some(v) => match first_match(reqs, match_key(v, include_pre)) {
                None => prev,
                Some(i) => match prev[i] {
                    None => prev.update(i, Some((v, s))),
                    Some((b, _)) => if newer(v, b) {
                        prev.update(i, Some((v, s)))
                    } else {
                        prev
                    },
                },
            },
        }
    }
}

/// The text of the version that each requirement selects.
pub open spec fn selection(reqs: Seq<VersionReq>, raws: Seq<Seq<char>>, include_pre: bool) -> Seq<
    Option<Seq<char>>,
> {
    best_upto(reqs, raws, include_pre, raws.len() as int).map_values(
        |o: Option<(Version, Seq<char>)>|
            match o {
                Some((_, s)) => Some(s),
                None => None,
            },
    )
}

/// The requirements actually used: none stands for one that matches any
/// release.
pub open spec fn effective(reqs: Seq<VersionReq>) -> Seq<VersionReq> {
    if reqs.len() == 0 {
        seq![star_req()]
    } else {
        reqs
    }
}

pub open spec fn text_of(o: Option<String>) -> Option<Seq<char>> {
    match o {
        Some(s) => Some(s@),
        None => None,
    }
}

pub open spec fn slot_holds(
    latest: Option<Version>,
    best: Option<String>,
    m: Option<(Version, Seq<char>)>,
) -> bool {
    match m {
        None => latest is None && best is None,
        Some((v, s)) => latest == Some(v) && text_of(best) == Some(s),
    }
}

/// The index of the first requirement that `v` satisfies.
fn first_matching(reqs: &[VersionReq], v: &Version) -> (r: Option<usize>)
    ensures
        match r {
            Some(i) => first_match(reqs@, *v) == Some(i as int),
            None => first_match(reqs@, *v) is None,
        },
{
    let mut j: usize = 0;
    while j < reqs.len()
        invariant
            j <= reqs@.len(),
            first_match(reqs@.subrange(0, j as int), *v) is None,
        decreases reqs@.len() - j,
    {
        assert(reqs@.subrange(0, j + 1).drop_last() =~= reqs@.subrange(0, j as int));
        if satisfies(&reqs[j], v) {
            proof {
                lemma_first_match_prefix(reqs@, j + 1, *v);
            }
            return Some(j);
        }
        j = j + 1;
    }
    assert(reqs@.subrange(0, reqs@.len() as int) =~= reqs@);
    None
}

/// A match among the leading requirements is the match of the whole list.
proof fn lemma_first_match_prefix(reqs: Seq<VersionReq>, m: int, v: Version)
    requires
        0 <= m <= reqs.len(),
        first_match(reqs.subrange(0, m), v) is Some,
    ensures
        first_match(reqs, v) == first_match(reqs.subrange(0, m), v),
    decreases reqs.len(),
{
    if m == reqs.len() {
        assert(reqs.subrange(0, m) =~= reqs);
    } else {
        assert(reqs.drop_last().subrange(0, m) =~= reqs.subrange(0, m));
        lemma_first_match_prefix(reqs.drop_last(), m, v);
    }
}

proof fn lemma_first_match_bound(reqs: Seq<VersionReq>, v: Version)
    ensures
        first_match(reqs, v) matches Some(i) ==> 0 <= i < reqs.len(),
    decreases reqs.len(),
{
    if reqs.len() > 0 {
        lemma_first_match_bound(reqs.drop_last(), v);
    }
}

proof fn lemma_best_len(reqs: Seq<VersionReq>, raws: Seq<Seq<char>>, include_pre: bool, n: int)
    ensures
        best_upto(reqs, raws, include_pre, n).len() == reqs.len(),
    decreases n,
{
    if n > 0 {
        lemma_best_len(reqs, raws, include_pre, n - 1);
        if let Some(v) = lenient_version(raws[n - 1]) {
            lemma_first_match_bound(reqs, match_key(v, include_pre));
        }
    }
}

/// Whether `v` is newer than the version a slot holds, if it holds one.
fn newer_than_held(v: &Version, slot: &Option<Version>) -> (r: bool)
    ensures
        r == match slot {
            Some(b) => newer(*v, *b),
            None => false,
        },
{
    match slot {
        Some(b) => is_newer(v, b),
        None => false,
    }
}

/// A version takes a slot that is empty, or whose version it is newer than.
pub open spec fn replaces(held: Option<Version>, newer_than_held: bool) -> bool {
    held is None || newer_than_held
}

/// One step of the bucketing: the version `v`, read from `text`, has gone to
/// requirement `slot`, and `newer_than_held` says whether it is newer than the
/// version that slot holds. It takes the slot, with its text, when it
/// replaces what is held; nothing else changes.
pub fn place(
    latest: &mut Vec<Option<Version>>,
    best: &mut Vec<Option<String>>,
    slot: usize,
    v: Version,
    text: &String,
    newer_than_held: bool,
)
    requires
        slot < old(latest)@.len(),
        old(best)@.len() == old(latest)@.len(),
    ensures
        final(latest)@.len() == old(latest)@.len(),
        final(best)@.len() == old(best)@.len(),
        forall|k: int|
            0 <= k < old(latest)@.len() && k != slot ==> #[trigger] final(latest)@[k] == old(latest)@[k]
                && final(best)@[k] == old(best)@[k],
        replaces(old(latest)@[slot as int], newer_than_held) ==> final(latest)@[slot as int] == Some(v)
            && text_of(final(best)@[slot as int]) == Some(text@),
        !replaces(old(latest)@[slot as int], newer_than_held) ==> final(latest)@[slot as int]
            == old(latest)@[slot as int] && final(best)@[slot as int] == old(best)@[slot as int],
{
    if latest[slot].is_none() || newer_than_held {
        latest.set(slot, Some(v));
        best.set(slot, Some(text.clone()));
    }
}

impl Versions {
    /// The versions held, as texts.
    pub fn new(version: Vec<String>) -> (r: Versions)
        ensures
            r@ == version@.map_values(|s: String| s@),
    {
        Versions { version }
    }

    /// The versions held, copied from text slices.
    pub fn from_texts(texts: &[&str]) -> (r: Versions)
        ensures
            r@ == texts@.map_values(|s: &str| s@),
    {
        let mut version: Vec<String> = Vec::new();
        let mut i: usize = 0;
        while i < texts.len()
            invariant
                i <= texts@.len(),
                version@.len() == i,
                forall|k: int| 0 <= k < i ==> #[trigger] version@[k]@ == texts@[k]@,
            decreases texts@.len() - i,
        {
            version.push(texts[i].to_owned());
            i = i + 1;
        }
        let r = Versions { version };
        assert(r@ =~= texts@.map_values(|s: &str| s@));
        r
    }

    /// For each requirement, in order, the text of the newest version whose
    /// first satisfied requirement it is. Texts that are no version are
    /// passed over. With `allow_pre_release` a pre-release is tested by its
    /// release numbers, yet kept and ordered as the pre-release it is.
    pub fn find_latest_versions(self, requirements: &[VersionReq], allow_pre_release: bool) -> (r: Vec<
        Option<String>,
    >)
        ensures
            r@.len() == requirements@.len(),
            forall|i: int|
                0 <= i < r@.len() ==> text_of(#[trigger] r@[i]) == selection(
                    requirements@,
                    self@,
                    allow_pre_release,
                )[i],
    {
        let ghost reqs = requirements@;
        let ghost raws = self@;
        let n = requirements.len();
        let mut latest: Vec<Option<Version>> = Vec::new();
        let mut best: Vec<Option<String>> = Vec::new();
        let mut j: usize = 0;
        while j < n
            invariant
                n == reqs.len(),
                j <= n,
                latest@.len() == j,
                best@.len() == j,
                forall|k: int| 0 <= k < j ==> latest@[k] is None && best@[k] is None,
            decreases n - j,
        {
            latest.push(None);
            best.push(None);
            j = j + 1;
        }
        let mut i: usize = 0;
        while i < self.version.len()
            invariant
                n == reqs.len(),
                reqs == requirements@,
                raws == self@,
                i <= self.version@.len(),
                latest@.len() == n,
                best@.len() == n,
                forall|k: int|
                    0 <= k < n ==> slot_holds(
                        #[trigger] latest@[k],
                        best@[k],
                        best_upto(reqs, raws, allow_pre_release, i as int)[k],
                    ),
            decreases self.version@.len() - i,
        {
            proof {
                lemma_best_len(reqs, raws, allow_pre_release, i as int);
                lemma_best_len(reqs, raws, allow_pre_release, i + 1);
            }
            let text = &self.version[i];
            assert(text@ == raws[i as int]);
            if let Some(v) = parse_lenient(text.as_str()) {
                let pos = if allow_pre_release {
                    let key = release_of(&v);
                    first_matching(requirements, &key)
                } else {
                    first_matching(requirements, &v)
                };
                if let Some(p) = pos {
                    proof {
                        lemma_first_match_bound(reqs, match_key(v, allow_pre_release));
                    }
                    let newer = newer_than_held(&v, &latest[p]);
                    place(&mut latest, &mut best, p, v, text, newer);
                }
            }
            i = i + 1;
        }
        proof {
            lemma_best_len(reqs, raws, allow_pre_release, raws.len() as int);
            assert(raws.len() == i);
            let sel = selection(reqs, raws, allow_pre_release);
            assert forall|k: int| 0 <= k < n implies text_of(#[trigger] best@[k]) == sel[k] by {
                assert(slot_holds(latest@[k], best@[k], best_upto(reqs, raws, allow_pre_release, i as int)[k]));
            }
        }
        best
    }

    /// Pairs each requirement with the text that it selects; no requirement
    /// at all counts as one requirement that matches any release.
    pub fn latest_versions(self, allow_pre_release: bool, requirements: Vec<VersionReq>) -> (r: Vec<
        (VersionReq, Option<String>),
    >)
        ensures
            latest_holds(r@, requirements@, self@, allow_pre_release),
    {
        let ghost old_reqs = requirements@;
        let mut requirements = requirements;
        if requirements.len() == 0 {
            requirements.push(any_version());
        }
        let ghost reqs = requirements@;
        assert(reqs =~= effective(old_reqs));
        let mut latest = self.find_latest_versions(requirements.as_slice(), allow_pre_release);
        let ghost sel = latest@;
        let mut out: Vec<(VersionReq, Option<String>)> = Vec::new();
        let n = requirements.len();
        let mut i: usize = 0;
        while i < n
            invariant
                n == reqs.len(),
                sel.len() == n,
                i <= n,
                requirements@ == reqs.subrange(i as int, n as int),
                latest@ == sel.subrange(i as int, n as int),
                out@.len() == i,
                forall|k: int| 0 <= k < i ==> #[trigger] out@[k] == (reqs[k], sel[k]),
            decreases n - i,
        {
            let q = requirements.remove(0);
            let t = latest.remove(0);
            out.push((q, t));
            assert(requirements@ =~= reqs.subrange(i + 1, n as int));
            assert(latest@ =~= sel.subrange(i + 1, n as int));
            i = i + 1;
        }
        out
    }
}

/// `r` pairs each effective requirement with the text that it selects.
pub open spec fn latest_holds(
    r: Seq<(VersionReq, Option<String>)>,
    reqs: Seq<VersionReq>,
    raws: Seq<Seq<char>>,
    include_pre: bool,
) -> bool {
    let eff = effective(reqs);
    &&& r.len() == eff.len()
    &&& forall|i: int|
        0 <= i < r.len() ==> (#[trigger] r[i]).0 == eff[i] && text_of(r[i].1) == selection(
            eff,
            raws,
            include_pre,
        )[i]
}

/// The first `n` texts decide what `best_upto` holds after them.
proof fn lemma_best_prefix(
    reqs: Seq<VersionReq>,
    a: Seq<Seq<char>>,
    b: Seq<Seq<char>>,
    include_pre: bool,
    n: int,
)
    requires
        0 <= n <= a.len(),
        n <= b.len(),
        a.subrange(0, n) == b.subrange(0, n),
    ensures
        best_upto(reqs, a, include_pre, n) == best_upto(reqs, b, include_pre, n),
    decreases n,
{
    if n > 0 {
        assert(a.subrange(0, n - 1) =~= a.subrange(0, n).subrange(0, n - 1));
        assert(b.subrange(0, n - 1) =~= b.subrange(0, n).subrange(0, n - 1));
        assert(a[n - 1] == a.subrange(0, n)[n - 1]);
        assert(b[n - 1] == b.subrange(0, n)[n - 1]);
        lemma_best_prefix(reqs, a, b, include_pre, n - 1);
    }
}

/// What `best_upto` holds for a requirement came from one of the first `n`
/// texts, whose first satisfied requirement it is; and it holds something
/// exactly when one of those texts belongs to that requirement.
proof fn lemma_best_slots(reqs: Seq<VersionReq>, raws: Seq<Seq<char>>, include_pre: bool, n: int)
    requires
        0 <= n <= raws.len(),
    ensures
        forall|i: int|
            0 <= i < reqs.len() ==> match #[trigger] best_upto(reqs, raws, include_pre, n)[i] {
                Some((v, s)) => exists|k: int|
                    0 <= k < n && raws[k] == s && lenient_version(s) == Some(v) && bucket_of(
                        reqs,
                        raws[k],
                        include_pre,
                    ) == Some(i),
                None => forall|k: int| 0 <= k < n ==> bucket_of(reqs, raws[k], include_pre) != Some(i),
            },
    decreases n,
{
    lemma_best_len(reqs, raws, include_pre, n);
    if n > 0 {
        lemma_best_slots(reqs, raws, include_pre, n - 1);
        lemma_best_len(reqs, raws, include_pre, n - 1);
        let prev = best_upto(reqs, raws, include_pre, n - 1);
        let cur = best_upto(reqs, raws, include_pre, n);
        assert forall|i: int| 0 <= i < reqs.len() implies match #[trigger] cur[i] {
            Some((v, s)) => exists|k: int|
                0 <= k < n && raws[k] == s && lenient_version(s) == Some(v) && bucket_of(
                    reqs,
                    raws[k],
                    include_pre,
                ) == Some(i),
            None => forall|k: int| 0 <= k < n ==> bucket_of(reqs, raws[k], include_pre) != Some(i),
        } by {
            assert(prev[i] == best_upto(reqs, raws, include_pre, n - 1)[i]);
            if let Some(v) = lenient_version(raws[n - 1]) {
                lemma_first_match_bound(reqs, match_key(v, include_pre));
            }
            if cur[i] != prev[i] {
                assert(bucket_of(reqs, raws[n - 1], include_pre) == Some(i));
            }
            match cur[i] {
                Some((v, s)) => {
                    if cur[i] == prev[i] {
                        let k = choose|k: int|
                            0 <= k < n - 1 && raws[k] == s && lenient_version(s) == Some(v)
                                && bucket_of(reqs, raws[k], include_pre) == Some(i);
                        assert(0 <= k < n);
                    } else {
                        assert(raws[n - 1] == s);
                    }
                },
                None => {
                    assert(cur[i] == prev[i]);
                    if bucket_of(reqs, raws[n - 1], include_pre) == Some(i) {
                        assert(cur[i] is Some);
                    }
                },
            }
        }
    }
}

/// Each requirement selects only a text that is a version and that satisfies
/// no earlier requirement: a version goes to the first requirement it
/// satisfies and to no other. A requirement selects nothing exactly when no
/// text goes to it.
pub proof fn lemma_selection_is_exclusive(
    reqs: Seq<VersionReq>,
    raws: Seq<Seq<char>>,
    include_pre: bool,
    i: int,
)
    requires
        0 <= i < reqs.len(),
    ensures
        selection(reqs, raws, include_pre).len() == reqs.len(),
        match selection(reqs, raws, include_pre)[i] {
            Some(s) => lenient_version(s) is Some && bucket_of(reqs, s, include_pre) == Some(i)
                && raws.contains(s),
            None => forall|k: int|
                0 <= k < raws.len() ==> bucket_of(reqs, #[trigger] raws[k], include_pre) != Some(i),
        },
{
    lemma_best_slots(reqs, raws, include_pre, raws.len() as int);
    lemma_best_len(reqs, raws, include_pre, raws.len() as int);
    let b = best_upto(reqs, raws, include_pre, raws.len() as int);
    assert(b[i] == best_upto(reqs, raws, include_pre, raws.len() as int)[i]);
    if let Some((v, s)) = b[i] {
        let k = choose|k: int|
            0 <= k < raws.len() && raws[k] == s && lenient_version(s) == Some(v) && bucket_of(
                reqs,
                raws[k],
                include_pre,
            ) == Some(i);
        assert(raws[k] == s);
    }
}

/// A text that `lenient_semver` reads as a version.
pub open spec fn is_version_text(s: Seq<char>) -> bool {
    lenient_version(s) is Some
}

proof fn lemma_best_filtered(reqs: Seq<VersionReq>, raws: Seq<Seq<char>>, include_pre: bool, n: int)
    requires
        0 <= n <= raws.len(),
    ensures
        ({
            let f = raws.subrange(0, n).filter(|s: Seq<char>| is_version_text(s));
            best_upto(reqs, raws, include_pre, n) == best_upto(reqs, f, include_pre, f.len() as int)
        }),
    decreases n,
{
    let p = |s: Seq<char>| is_version_text(s);
    reveal(Seq::filter);
    if n > 0 {
        lemma_best_filtered(reqs, raws, include_pre, n - 1);
        let g = raws.subrange(0, n - 1).filter(p);
        let x = raws[n - 1];
        assert(raws.subrange(0, n) =~= raws.subrange(0, n - 1).push(x));
        raws.subrange(0, n - 1).lemma_filter_push(x, p);
        if is_version_text(x) {
            let f = g.push(x);
            assert(f.subrange(0, g.len() as int) =~= g.subrange(0, g.len() as int));
            lemma_best_prefix(reqs, f, g, include_pre, g.len() as int);
            assert(f[g.len() as int] == x);
        }
    } else {
        assert(raws.subrange(0, 0).filter(p) =~= Seq::<Seq<char>>::empty());
    }
}

/// Texts that are no version are passed over: the selection is the one made
/// from the version texts alone.
pub proof fn lemma_malformed_texts_ignored(
    reqs: Seq<VersionReq>,
    raws: Seq<Seq<char>>,
    include_pre: bool,
)
    ensures
        selection(reqs, raws, include_pre) == selection(
            reqs,
            raws.filter(|s: Seq<char>| is_version_text(s)),
            include_pre,
        ),
{
    lemma_best_filtered(reqs, raws, include_pre, raws.len() as int);
    assert(raws.subrange(0, raws.len() as int) =~= raws);
}

/// A text that is no version, put anywhere among the others, changes nothing
/// that is selected.
pub proof fn lemma_malformed_text_anywhere(
    reqs: Seq<VersionReq>,
    raws: Seq<Seq<char>>,
    include_pre: bool,
    k: int,
    bad: Seq<char>,
)
    requires
        0 <= k <= raws.len(),
        lenient_version(bad) is None,
    ensures
        selection(reqs, raws.insert(k, bad), include_pre) == selection(reqs, raws, include_pre),
{
    let p = |s: Seq<char>| is_version_text(s);
    let a = raws.subrange(0, k);
    let b = raws.subrange(k, raws.len() as int);
    assert(raws.insert(k, bad) =~= a.push(bad) + b);
    assert(raws =~= a + b);
    Seq::filter_distributes_over_add(a.push(bad), b, p);
    Seq::filter_distributes_over_add(a, b, p);
    a.lemma_filter_push(bad, p);
    lemma_malformed_texts_ignored(reqs, raws.insert(k, bad), include_pre);
    lemma_malformed_texts_ignored(reqs, raws, include_pre);
}

/// `newer` orders versions strictly: never a version above itself, and
/// transitively.
pub open spec fn newer_is_strict_order() -> bool {
    &&& forall|a: Version| !newer(a, a)
    &&& forall|a: Version, b: Version, c: Version|
        #[trigger] newer(a, b) && #[trigger] newer(b, c) ==> newer(a, c)
}

/// Text `k` goes to requirement `i`.
pub open spec fn in_bucket(
    reqs: Seq<VersionReq>,
    raws: Seq<Seq<char>>,
    include_pre: bool,
    k: int,
    i: int,
) -> bool {
    bucket_of(reqs, raws[k], include_pre) == Some(i)
}

/// Among the first `n` texts, what requirement `i` holds is a version that no
/// text of its bucket exceeds, taken from the earliest text with that version.
pub open spec fn holds_newest(
    reqs: Seq<VersionReq>,
    raws: Seq<Seq<char>>,
    include_pre: bool,
    n: int,
    i: int,
    v: Version,
    s: Seq<char>,
) -> bool {
    &&& forall|k: int|
        0 <= k < n && #[trigger] in_bucket(reqs, raws, include_pre, k, i) ==> !newer(
            lenient_version(raws[k])->Some_0,
            v,
        )
    &&& exists|k0: int|
        0 <= k0 < n && raws[k0] == s && in_bucket(reqs, raws, include_pre, k0, i) && lenient_version(
            s,
        ) == Some(v) && forall|k: int|
            0 <= k < k0 && #[trigger] in_bucket(reqs, raws, include_pre, k, i) ==> lenient_version(
                raws[k],
            ) != Some(v)
}

proof fn lemma_best_newest(reqs: Seq<VersionReq>, raws: Seq<Seq<char>>, include_pre: bool, n: int)
    requires
        0 <= n <= raws.len(),
        newer_is_strict_order(),
    ensures
        forall|i: int|
            0 <= i < reqs.len() ==> match #[trigger] best_upto(reqs, raws, include_pre, n)[i] {
                Some((v, s)) => holds_newest(reqs, raws, include_pre, n, i, v, s),
                None => true,
            },
    decreases n,
{
    lemma_best_len(reqs, raws, include_pre, n);
    if n > 0 {
        lemma_best_newest(reqs, raws, include_pre, n - 1);
        lemma_best_slots(reqs, raws, include_pre, n - 1);
        lemma_best_len(reqs, raws, include_pre, n - 1);
        let prev = best_upto(reqs, raws, include_pre, n - 1);
        let cur = best_upto(reqs, raws, include_pre, n);
        let x = raws[n - 1];
        if let Some(v) = lenient_version(x) {
            lemma_first_match_bound(reqs, match_key(v, include_pre));
        }
        assert forall|i: int| 0 <= i < reqs.len() implies match #[trigger] cur[i] {
            Some((v, s)) => holds_newest(reqs, raws, include_pre, n, i, v, s),
            None => true,
        } by {
            assert(prev[i] == best_upto(reqs, raws, include_pre, n - 1)[i]);
            if let Some((v, s)) = cur[i] {
                if cur[i] == prev[i] {
                    let k0 = choose|k0: int|
                        0 <= k0 < n - 1 && raws[k0] == s && in_bucket(reqs, raws, include_pre, k0, i)
                            && lenient_version(s) == Some(v) && forall|k: int|
                            0 <= k < k0 && #[trigger] in_bucket(reqs, raws, include_pre, k, i)
                                ==> lenient_version(raws[k]) != Some(v);
                    if in_bucket(reqs, raws, include_pre, n - 1, i) {
                        let vx = lenient_version(x)->Some_0;
                        assert(!newer(vx, v));
                    }
                } else {
                    assert(in_bucket(reqs, raws, include_pre, n - 1, i));
                    assert(x == s && lenient_version(s) == Some(v));
                    assert forall|k: int|
                        0 <= k < n && #[trigger] in_bucket(reqs, raws, include_pre, k, i) implies !newer(
                        lenient_version(raws[k])->Some_0,
                        v,
                    ) by {
                        if k < n - 1 {
                            if let Some((b, _)) = prev[i] {
                                assert(newer(v, b));
                                assert(!newer(lenient_version(raws[k])->Some_0, b));
                            } else {
                                assert(bucket_of(reqs, raws[k], include_pre) != Some(i));
                            }
                        }
                    }
                    assert forall|k: int|
                        0 <= k < n - 1 && #[trigger] in_bucket(reqs, raws, include_pre, k, i)
                            implies lenient_version(raws[k]) != Some(v) by {
                        if let Some((b, _)) = prev[i] {
                            assert(newer(v, b));
                            assert(!newer(lenient_version(raws[k])->Some_0, b));
                        } else {
                            assert(bucket_of(reqs, raws[k], include_pre) != Some(i));
                        }
                    }
                    assert(0 <= n - 1 < n && raws[n - 1] == s);
                }
            }
        }
    }
}

/// Where `Version`'s order is a strict order, each requirement keeps the
/// highest version of its bucket, from the earliest text that has it.
pub proof fn lemma_selection_is_newest(
    reqs: Seq<VersionReq>,
    raws: Seq<Seq<char>>,
    include_pre: bool,
    i: int,
)
    requires
        0 <= i < reqs.len(),
        newer_is_strict_order(),
    ensures
        selection(reqs, raws, include_pre)[i] matches Some(s) ==> holds_newest(
            reqs,
            raws,
            include_pre,
            raws.len() as int,
            i,
            lenient_version(s)->Some_0,
            s,
        ),
{
    let n = raws.len() as int;
    lemma_best_newest(reqs, raws, include_pre, n);
    lemma_best_len(reqs, raws, include_pre, n);
    let b = best_upto(reqs, raws, include_pre, n);
    assert(b[i] == best_upto(reqs, raws, include_pre, n)[i]);
}

/// No requirement at all selects exactly as the single requirement `*` does.
pub proof fn lemma_no_requirement_is_star(
    r: Seq<(VersionReq, Option<String>)>,
    raws: Seq<Seq<char>>,
    include_pre: bool,
)
    ensures
        latest_holds(r, Seq::<VersionReq>::empty(), raws, include_pre) == latest_holds(
            r,
            seq![star_req()],
            raws,
            include_pre,
        ),
{
}

} // verus!
