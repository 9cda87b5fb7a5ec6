//! The install resolver's work queue: packages are fetched in the order
//! their requirements arrive, each distinct requirement is recorded once,
//! and a package is revisited whenever a new requirement for it appears
//! (a new constraint may select another version or expose a conflict).

use vstd::prelude::*;
use crate::text::string_views;
use std::collections::VecDeque;
use crate::install_rules::{
    first_failed, first_unsatisfied_requirement, requested_range, requirement_views, fetch_range,
    valid_scoped_name, is_valid_scoped_name, UnsatisfiedRequirement, VersionRequirement,
};
use crate::islands::{split_on, starts_with};
use crate::paths::{join, spec_join};
use crate::text::{chars_of, owned, string_of_span, trim, trim_span};

verus! {

/// How a requested php package name is normalized: a scoped name is kept
/// (trimmed) when well formed; a bare name takes the canonical scoped name
/// the module-spec rules give it (`canonical`), and is refused without one.
pub open spec fn normalized_php(spec: Seq<char>, canonical: Option<Seq<char>>) -> Result<Seq<char>, Seq<char>> {
    let t = trim(spec);
    if starts_with(t, seq!['@']) {
        if valid_scoped_name(t) {
            Ok(t)
        } else {
            Err("invalid php package `"@ + t + "` (expected @scope/name[@version])"@)
        }
    } else {
        match canonical {
            Some(m) => Ok(m),
            None => Err("unscoped php package `"@ + t
                + "` is not allowed. use @scope/name (bare names map to @deka/*)"@),
        }
    }
}

/// Normalize a requested package name; `canonical` is what the module-spec
/// rules map the trimmed bare name to, if anything.
pub fn normalize_php_spec(spec: &str, canonical: Option<&str>) -> (r: Result<String, String>)
    ensures
        match normalized_php(spec@, match canonical {
            Some(c) => Some(c@),
            None => None,
        }) {
            Ok(n) => r matches Ok(s) && s@ == n,
            Err(e) => r matches Err(m) && m@ == e,
        },
{
    let v = chars_of(spec);
    let (a, b) = trim_span(&v, 0, v.len());
    let t = string_of_span(&v, a, b);
    proof {
        assert(v@.subrange(0, v@.len() as int) =~= v@);
    }
    let scoped = b > a && v[a] == '@';
    proof {
        if b > a {
            assert(t@[0] == v@[a as int]);
            if scoped {
                assert(t@.take(1) =~= seq!['@']);
            } else {
                assert(t@.take(1)[0] != seq!['@'][0]);
            }
        } else {
            assert(t@.len() == 0);
        }
    }
    if scoped {
        if is_valid_scoped_name(t.as_str()) {
            return Ok(t);
        }
        let mut e = owned("invalid php package `");
        e.append(t.as_str());
        e.append("` (expected @scope/name[@version])");
        return Err(e);
    }
    match canonical {
        Some(c) => Ok(owned(c)),
        None => {
            let mut e = owned("unscoped php package `");
            e.append(t.as_str());
            e.append("` is not allowed. use @scope/name (bare names map to @deka/*)");
            Err(e)
        },
    }
}

/// A path segment that may not appear in a package name.
pub open spec fn bad_segment(s: Seq<char>) -> bool {
    s.len() == 0 || s == seq!['.'] || s == seq!['.', '.']
}

/// The segments of a package name joined under a directory.
pub open spec fn joined_under(dir: Seq<char>, segs: Seq<Seq<char>>) -> Seq<char>
    decreases segs.len(),
{
    if segs.len() == 0 {
        dir
    } else {
        spec_join(joined_under(dir, segs.drop_last()), segs.last())
    }
}

/// Where a package is installed: each `/`-separated segment of its name
/// under the modules directory (`@scope/name` as two levels), refused when
/// a segment is empty, `.` or `..`.
pub open spec fn install_location(modules_dir: Seq<char>, name: Seq<char>) -> Result<Seq<char>, Seq<char>> {
    let segs = split_on(name, '/');
    if exists|i: int| 0 <= i < segs.len() && bad_segment(#[trigger] segs[i]) {
        Err("invalid package name segment"@)
    } else {
        Ok(joined_under(modules_dir, segs))
    }
}

pub fn package_install_path(modules_dir: &str, name: &str) -> (r: Result<String, String>)
    ensures
        match install_location(modules_dir@, name@) {
            Ok(p) => r matches Ok(s) && s@ == p,
            Err(e) => r matches Err(m) && m@ == e,
        },
{
    let v = chars_of(name);
    let parts = crate::islands::split_chars(&v, '/');
    let ghost segs = parts@.map_values(|x: Vec<char>| x@);
    let mut path = owned(modules_dir);
    let mut i: usize = 0;
    while i < parts.len()
        invariant
            i <= parts@.len(),
            segs == parts@.map_values(|x: Vec<char>| x@),
            segs == split_on(name@, '/'),
            forall|k: int| 0 <= k < i ==> !bad_segment(#[trigger] segs[k]),
            path@ == joined_under(modules_dir@, segs.take(i as int)),
        decreases parts@.len() - i,
    {
        let p = &parts[i];
        proof {
            assert(segs[i as int] == p@);
        }
        let bad = p.len() == 0 || (p.len() == 1 && p[0] == '.') || (p.len() == 2 && p[0] == '.'
            && p[1] == '.');
        proof {
            if p@.len() == 1 && p@[0] == '.' {
                assert(p@ =~= seq!['.']);
            }
            if p@.len() == 2 && p@[0] == '.' && p@[1] == '.' {
                assert(p@ =~= seq!['.', '.']);
            }
        }
        if bad {
            proof {
                reveal_strlit("invalid package name segment");
            }
            return Err(owned("invalid package name segment"));
        }
        let seg = string_of_span(p, 0, p.len());
        proof {
            assert(p@.subrange(0, p@.len() as int) =~= p@);
            assert(segs.take(i + 1).drop_last() =~= segs.take(i as int));
        }
        path = join(path.as_str(), seg.as_str());
        i = i + 1;
    }
    proof {
        assert(segs.take(segs.len() as int) =~= segs);
    }
    Ok(path)
}

/// The resolver's queue: the packages still to visit, in order, and every
/// distinct requirement recorded for each package.
pub struct InstallQueue {
    pub pending: VecDeque<String>,
    pub requested: Vec<(String, Vec<VersionRequirement>)>,
}

pub open spec fn requested_view(r: Seq<(String, Vec<VersionRequirement>)>) -> Seq<(Seq<char>, Seq<(Seq<char>, Seq<char>)>)> {
    r.map_values(|e: (String, Vec<VersionRequirement>)| (e.0@, requirement_views(e.1@)))
}

/// The requirements recorded for `name` (none when it was never requested).
pub open spec fn requirements_of(r: Seq<(Seq<char>, Seq<(Seq<char>, Seq<char>)>)>, name: Seq<char>) -> Seq<
    (Seq<char>, Seq<char>),
>
    decreases r.len(),
{
    if r.len() == 0 {
        Seq::empty()
    } else if r.last().0 == name {
        r.last().1
    } else {
        requirements_of(r.drop_last(), name)
    }
}

pub open spec fn has_name(r: Seq<(Seq<char>, Seq<(Seq<char>, Seq<char>)>)>, name: Seq<char>) -> bool {
    exists|i: int| 0 <= i < r.len() && #[trigger] r[i].0 == name
}

/// The range a requested version asks for: the version, or `latest`.
pub open spec fn requested_version(version: Option<String>) -> Seq<char> {
    match version {
        Some(v) => v@,
        None => "latest"@,
    }
}

/// What recording the requirement `(range, by)` for `name` did to a queue:
/// a requirement already recorded changes nothing; a new one is recorded
/// after the package's earlier ones and queues the package (again); no other
/// package's requirements change.
pub open spec fn enqueued(
    before: InstallQueue,
    after: InstallQueue,
    name: Seq<char>,
    range: Seq<char>,
    by: Seq<char>,
    queued: bool,
) -> bool {
    &&& queued == !requirements_of(before.requested_view(), name).contains((range, by))
    &&& !queued ==> after.pending_view() == before.pending_view()
        && after.requested_view() == before.requested_view()
    &&& queued ==> after.pending_view() == before.pending_view().push(name)
        && requirements_of(after.requested_view(), name) == requirements_of(
        before.requested_view(),
        name,
    ).push((range, by))
    &&& forall|n: Seq<char>|
        n != name ==> requirements_of(after.requested_view(), n) == requirements_of(
            before.requested_view(),
            n,
        )
}

impl InstallQueue {
    pub open spec fn pending_view(&self) -> Seq<Seq<char>> {
        self.pending@.map_values(|s: String| s@)
    }

    pub open spec fn requested_view(&self) -> Seq<(Seq<char>, Seq<(Seq<char>, Seq<char>)>)> {
        requested_view(self.requested@)
    }

    /// Each package has one entry, recording each requirement once, and
    /// every queued package has one.
    pub open spec fn wf(&self) -> bool {
        &&& forall|i: int, j: int|
            0 <= i < j < self.requested@.len() ==> self.requested@[i].0@ != self.requested@[j].0@
        &&& forall|i: int|
            0 <= i < self.requested@.len() ==> requirement_views(
                #[trigger] self.requested@[i].1@,
            ).no_duplicates()
        &&& forall|k: int|
            0 <= k < self.pending@.len() ==> has_name(self.requested_view(), #[trigger] self.pending@[k]@)
    }

    pub fn new() -> (r: Self)
        ensures
            r.wf(),
            r.pending@.len() == 0,
            r.requested@.len() == 0,
    {
        InstallQueue { pending: VecDeque::new(), requested: Vec::new() }
    }

    fn index_of(&self, name: &String) -> (r: Option<usize>)
        ensures
            match r {
                Some(i) => i < self.requested@.len() && self.requested@[i as int].0@ == name@,
                None => !has_name(self.requested_view(), name@),
            },
    {
        let mut i: usize = 0;
        while i < self.requested.len()
            invariant
                i <= self.requested@.len(),
                forall|k: int| 0 <= k < i ==> self.requested@[k].0@ != name@,
            decreases self.requested@.len() - i,
        {
            if self.requested[i].0 == *name {
                return Some(i);
            }
            i = i + 1;
        }
        proof {
            assert forall|k: int| 0 <= k < self.requested_view().len() implies #[trigger] self.requested_view()[k].0
                != name@ by {
                assert(self.requested_view()[k].0 == self.requested@[k].0@);
            }
        }
        None
    }
}

proof fn lemma_requirements_of_at(r: Seq<(Seq<char>, Seq<(Seq<char>, Seq<char>)>)>, name: Seq<char>, i: int)
    requires
        0 <= i < r.len(),
        r[i].0 == name,
        forall|j: int| 0 <= j < r.len() && j != i ==> r[j].0 != name,
    ensures
        requirements_of(r, name) == r[i].1,
    decreases r.len(),
{
    if i < r.len() - 1 {
        lemma_requirements_of_at(r.drop_last(), name, i);
    }
}

proof fn lemma_requirements_of_absent(r: Seq<(Seq<char>, Seq<(Seq<char>, Seq<char>)>)>, name: Seq<char>)
    requires
        !has_name(r, name),
    ensures
        requirements_of(r, name) == Seq::<(Seq<char>, Seq<char>)>::empty(),
    decreases r.len(),
{
    if r.len() > 0 {
        assert(r[r.len() - 1].0 != name);
        assert(!has_name(r.drop_last(), name)) by {
            if has_name(r.drop_last(), name) {
                let i = choose|i: int| 0 <= i < r.drop_last().len() && #[trigger] r.drop_last()[i].0 == name;
                assert(r[i].0 == name);
            }
        }
        lemma_requirements_of_absent(r.drop_last(), name);
    }
}

proof fn lemma_requirements_of(r: Seq<(Seq<char>, Seq<(Seq<char>, Seq<char>)>)>, name: Seq<char>)
    requires
        forall|i: int, j: int| 0 <= i < j < r.len() ==> r[i].0 != r[j].0,
    ensures
        has_name(r, name) ==> exists|i: int|
            0 <= i < r.len() && r[i].0 == name && requirements_of(r, name) == #[trigger] r[i].1,
        !has_name(r, name) ==> requirements_of(r, name) == Seq::<(Seq<char>, Seq<char>)>::empty(),
{
    if has_name(r, name) {
        let i = choose|i: int| 0 <= i < r.len() && #[trigger] r[i].0 == name;
        assert forall|j: int| 0 <= j < r.len() && j != i implies r[j].0 != name by {
            if j < i {
                assert(r[j].0 != r[i].0);
            } else {
                assert(r[i].0 != r[j].0);
            }
        }
        lemma_requirements_of_at(r, name, i);
    } else {
        lemma_requirements_of_absent(r, name);
    }
}

proof fn lemma_first_failed_bounds(reqs: Seq<(Seq<char>, Seq<char>)>, version: Seq<char>, i: int)
    requires
        0 <= i,
    ensures
        first_failed(reqs, version, i) matches Some(k) ==> i <= k < reqs.len(),
    decreases reqs.len() - i,
{
    if i < reqs.len() && crate::install_rules::install_satisfies(reqs[i].0, version) {
        lemma_first_failed_bounds(reqs, version, i + 1);
    }
}

proof fn lemma_push_no_duplicates<A>(s: Seq<A>, x: A)
    requires
        s.no_duplicates(),
        !s.contains(x),
    ensures
        s.push(x).no_duplicates(),
{
    let t = s.push(x);
    assert forall|i: int, j: int| 0 <= i < t.len() && 0 <= j < t.len() && i != j implies t[i]
        != t[j] by {
        if i < s.len() && j < s.len() {
            assert(t[i] == s[i] && t[j] == s[j]);
        } else if i < s.len() {
            assert(t[i] == s[i]);
        } else {
            assert(t[j] == s[j]);
        }
    }
}

fn same_requirement(a: &VersionRequirement, range: &String, requested_by: &String) -> (r: bool)
    ensures
        r == ((a.range@, a.requested_by@) == (range@, requested_by@)),
{
    a.range == *range && a.requested_by == *requested_by
}

impl InstallQueue {
    /// Record that `requested_by` asks for the (normalized) package `name`
    /// at `range`. A requirement not seen before is recorded and queues the
    /// package (again); a repeated one changes nothing. Says whether the
    /// package was queued.
    pub fn enqueue(&mut self, name: String, range: String, requested_by: String) -> (queued: bool)
        requires
            old(self).wf(),
        ensures
            final(self).wf(),
            queued == !requirements_of(old(self).requested_view(), name@).contains(
                (range@, requested_by@),
            ),
            !queued ==> final(self).pending_view() == old(self).pending_view()
                && final(self).requested_view() == old(self).requested_view(),
            queued ==> final(self).pending_view() == old(self).pending_view().push(name@)
                && requirements_of(final(self).requested_view(), name@) == requirements_of(
                old(self).requested_view(),
                name@,
            ).push((range@, requested_by@)),
            forall|n: Seq<char>|
                n != name@ ==> requirements_of(final(self).requested_view(), n) == requirements_of(
                    old(self).requested_view(),
                    n,
                ),
    {
        let ghost ov = self.requested_view();
        let ghost op = self.pending_view();
        let ghost req = (range@, requested_by@);
        proof {
            lemma_requirements_of(ov, name@);
            assert forall|i: int, j: int| 0 <= i < j < ov.len() implies ov[i].0 != ov[j].0 by {
                assert(ov[i].0 == self.requested@[i].0@ && ov[j].0 == self.requested@[j].0@);
            }
        }
        match self.index_of(&name) {
            Some(i) => {
                proof {
                    assert(ov[i as int].0 == name@);
                    lemma_requirements_of_at(ov, name@, i as int);
                }
                let mut k: usize = 0;
                while k < self.requested[i].1.len()
                    invariant
                        i < self.requested@.len(),
                        self.requested@ == old(self).requested@,
                        self.pending@ == old(self).pending@,
                        old(self).wf(),
                        req == (range@, requested_by@),
                        requirements_of(old(self).requested_view(), name@) == requirement_views(
                            self.requested@[i as int].1@,
                        ),
                        k <= self.requested@[i as int].1@.len(),
                        forall|m: int|
                            0 <= m < k ==> requirement_views(self.requested@[i as int].1@)[m] != req,
                    decreases self.requested@[i as int].1@.len() - k,
                {
                    proof {
                        assert(requirement_views(self.requested@[i as int].1@)[k as int] == (
                            self.requested@[i as int].1@[k as int].range@,
                            self.requested@[i as int].1@[k as int].requested_by@,
                        ));
                    }
                    if same_requirement(&self.requested[i].1[k], &range, &requested_by) {
                        proof {
                            assert(requirement_views(self.requested@[i as int].1@)[k as int] == req);
                        }
                        return false;
                    }
                    k = k + 1;
                }
                let ghost before = self.requested@;
                let (n, mut reqs) = self.requested.remove(i);
                let ghost rb = requirement_views(reqs@);
                reqs.push(VersionRequirement { range, requested_by });
                proof {
                    assert(requirement_views(reqs@) =~= rb.push(req));
                }
                self.requested.insert(i, (n, reqs));
                self.pending.push_back(name);
                proof {
                    let nv = self.requested_view();
                    assert(self.requested@ =~= before.update(i as int, self.requested@[i as int]));
                    assert forall|j: int| 0 <= j < nv.len() && j != i implies nv[j] == ov[j] by {
                        assert(self.requested@[j] == before[j]);
                    }
                    assert(nv[i as int].0 == name@);
                    assert forall|a: int, b: int| 0 <= a < b < self.requested@.len() implies self.requested@[a].0@
                        != self.requested@[b].0@ by {
                        assert(nv[a].0 == self.requested@[a].0@ && nv[b].0 == self.requested@[b].0@);
                        assert(nv[a].0 == ov[a].0 && nv[b].0 == ov[b].0);
                    }
                    assert forall|a: int, b: int| 0 <= a < b < nv.len() implies nv[a].0 != nv[b].0 by {
                        assert(nv[a].0 == ov[a].0 && nv[b].0 == ov[b].0);
                    }
                    lemma_requirements_of_at(nv, name@, i as int);
                    assert(!rb.contains(req));
                    assert(requirement_views(before[i as int].1@) == rb);
                    lemma_push_no_duplicates(rb, req);
                    assert forall|j: int| 0 <= j < self.requested@.len() implies requirement_views(
                        #[trigger] self.requested@[j].1@,
                    ).no_duplicates() by {
                        if j != i {
                            assert(self.requested@[j] == before[j]);
                        }
                    }
                    assert forall|x: Seq<char>| x != name@ implies requirements_of(nv, x) == requirements_of(ov, x) by {
                        lemma_requirements_of(nv, x);
                        lemma_requirements_of(ov, x);
                        if has_name(ov, x) {
                            let j = choose|j: int| 0 <= j < ov.len() && ov[j].0 == x && requirements_of(ov, x) == #[trigger] ov[j].1;
                            assert(nv[j] == ov[j]);
                            assert(has_name(nv, x));
                            let j2 = choose|j2: int| 0 <= j2 < nv.len() && nv[j2].0 == x && requirements_of(nv, x) == #[trigger] nv[j2].1;
                            if j2 != j {
                                if j2 < j { assert(nv[j2].0 != nv[j].0); } else { assert(nv[j].0 != nv[j2].0); }
                            }
                        } else if has_name(nv, x) {
                            let j2 = choose|j2: int| 0 <= j2 < nv.len() && #[trigger] nv[j2].0 == x;
                            assert(nv[j2] == ov[j2]);
                        }
                    }
                    assert(self.pending_view() =~= op.push(name@));
                    assert forall|m: int| 0 <= m < self.pending@.len() implies has_name(
                        nv,
                        #[trigger] self.pending@[m]@,
                    ) by {
                        if m < op.len() {
                            assert(self.pending@[m] == old(self).pending@[m]);
                            assert(has_name(ov, old(self).pending@[m]@));
                            let j = choose|j: int| 0 <= j < ov.len() && #[trigger] ov[j].0 == old(self).pending@[m]@;
                            assert(nv[j].0 == ov[j].0);
                        } else {
                            assert(nv[i as int].0 == self.pending@[m]@);
                        }
                    }
                }
                true
            },
            None => {
                let ghost before = self.requested@;
                let mut reqs: Vec<VersionRequirement> = Vec::new();
                reqs.push(VersionRequirement { range, requested_by });
                proof {
                    assert(requirement_views(reqs@) =~= seq![req]);
                }
                self.requested.push((name.clone(), reqs));
                self.pending.push_back(name);
                proof {
                    let nv = self.requested_view();
                    assert(nv =~= ov.push((name@, seq![req])));
                    assert forall|j: int| 0 <= j < self.requested@.len() implies requirement_views(
                        #[trigger] self.requested@[j].1@,
                    ).no_duplicates() by {
                        if j < before.len() {
                            assert(self.requested@[j] == before[j]);
                        }
                    }
                    assert forall|a: int, b: int| 0 <= a < b < self.requested@.len() implies self.requested@[a].0@
                        != self.requested@[b].0@ by {
                        assert(nv[a].0 == self.requested@[a].0@ && nv[b].0 == self.requested@[b].0@);
                        if b == ov.len() {
                            assert(ov[a].0 == nv[a].0);
                        } else {
                            assert(nv[a].0 == ov[a].0 && nv[b].0 == ov[b].0);
                        }
                    }
                    assert(nv.drop_last() =~= ov);
                    assert(requirements_of(nv, name@) == seq![req]);
                    assert(requirements_of(ov, name@) =~= Seq::<(Seq<char>, Seq<char>)>::empty());
                    assert(requirements_of(ov, name@).push(req) =~= seq![req]);
                    assert(self.pending_view() =~= op.push(name@));
                    assert forall|m: int| 0 <= m < self.pending@.len() implies has_name(
                        nv,
                        #[trigger] self.pending@[m]@,
                    ) by {
                        if m < op.len() {
                            assert(self.pending@[m] == old(self).pending@[m]);
                            assert(has_name(ov, old(self).pending@[m]@));
                            let j = choose|j: int| 0 <= j < ov.len() && #[trigger] ov[j].0 == old(self).pending@[m]@;
                            assert(nv[j].0 == ov[j].0);
                        } else {
                            assert(nv[ov.len() as int].0 == self.pending@[m]@);
                        }
                    }
                }
                true
            },
        }
    }

    /// Record the requirement a requested package spec states, once it has
    /// been split into `raw_name` and `version`: the name normalized
    /// (`canonical` is what the module-spec rules map the bare name to), the
    /// range the spec's version or `latest`. A name that does not normalize
    /// is refused and nothing changes; otherwise says whether the package was
    /// queued, as [`InstallQueue::enqueue`] does.
    pub fn enqueue_package_spec(
        &mut self,
        raw_name: &str,
        version: Option<String>,
        canonical: Option<&str>,
        requested_by: &str,
    ) -> (r: Result<bool, String>)
        requires
            old(self).wf(),
        ensures
            final(self).wf(),
            match normalized_php(raw_name@, match canonical {
                Some(c) => Some(c@),
                None => None,
            }) {
                Err(e) => r matches Err(m) && m@ == e
                    && final(self).pending_view() == old(self).pending_view()
                    && final(self).requested_view() == old(self).requested_view(),
                Ok(n) => r matches Ok(queued) && enqueued(
                    *old(self),
                    *final(self),
                    n,
                    requested_version(version),
                    requested_by@,
                    queued,
                ),
            },
    {
        let name = match normalize_php_spec(raw_name, canonical) {
            Ok(n) => n,
            Err(e) => return Err(e),
        };
        let range = match version {
            Some(v) => v,
            None => owned("latest"),
        };
        proof {
            reveal_strlit("latest");
        }
        let queued = self.enqueue(name, range, owned(requested_by));
        Ok(queued)
    }

    /// The next package to visit and the range to fetch it at (its first
    /// requirement that is neither `latest` nor `*`, else `latest`).
    pub fn next(&mut self) -> (r: Option<(String, String)>)
        requires
            old(self).wf(),
        ensures
            final(self).wf(),
            final(self).requested_view() == old(self).requested_view(),
            old(self).pending_view().len() == 0 ==> r is None && final(self).pending_view().len() == 0,
            old(self).pending_view().len() > 0 ==> (r matches Some((n, range)) && n@ == old(
                self,
            ).pending_view()[0] && range@ == fetch_range(
                requirements_of(old(self).requested_view(), n@),
            ) && final(self).pending_view() == old(self).pending_view().drop_first()),
    {
        let ghost op = self.pending_view();
        let name = match self.pending.pop_front() {
            Some(n) => n,
            None => {
                return None;
            },
        };
        proof {
            assert(self.pending_view() =~= op.drop_first());
            assert(op[0] == name@);
            assert(has_name(self.requested_view(), old(self).pending@[0]@));
            assert forall|m: int| 0 <= m < self.pending@.len() implies has_name(
                self.requested_view(),
                #[trigger] self.pending@[m]@,
            ) by {
                assert(self.pending@[m] == old(self).pending@[m + 1]);
            }
            let ov = self.requested_view();
            assert forall|i: int, j: int| 0 <= i < j < ov.len() implies ov[i].0 != ov[j].0 by {
                assert(ov[i].0 == self.requested@[i].0@ && ov[j].0 == self.requested@[j].0@);
            }
            lemma_requirements_of(ov, name@);
        }
        match self.index_of(&name) {
            Some(i) => {
                proof {
                    let ov = self.requested_view();
                    assert(ov[i as int].0 == name@);
                    lemma_requirements_of_at(ov, name@, i as int);
                    assert(requirement_views(self.requested@[i as int].1@) == ov[i as int].1);
                }
                let range = requested_range(&self.requested[i].1);
                Some((name, range))
            },
            None => {
                proof {
                    reveal_strlit("latest");
                }
                Some((name, owned("latest")))
            },
        }
    }

    /// The first recorded requirement for `name` that `version` fails.
    pub fn first_unsatisfied(&self, name: &String, version: &str) -> (r: Option<UnsatisfiedRequirement>)
        requires
            self.wf(),
        ensures
            match first_failed(requirements_of(self.requested_view(), name@), version@, 0) {
                Some(i) => r matches Some(u) && (u.range@, u.requested_by@) == requirements_of(
                    self.requested_view(),
                    name@,
                )[i],
                None => r is None,
            },
    {
        proof {
            let ov = self.requested_view();
            assert forall|i: int, j: int| 0 <= i < j < ov.len() implies ov[i].0 != ov[j].0 by {
                assert(ov[i].0 == self.requested@[i].0@ && ov[j].0 == self.requested@[j].0@);
            }
            lemma_requirements_of(ov, name@);
        }
        match self.index_of(name) {
            Some(i) => {
                proof {
                    let ov = self.requested_view();
                    lemma_requirements_of_at(ov, name@, i as int);
                    assert(requirement_views(self.requested@[i as int].1@) == ov[i as int].1);
                }
                let r = first_unsatisfied_requirement(&self.requested[i].1, version);
                proof {
                    lemma_first_failed_bounds(requirement_views(self.requested@[i as int].1@), version@, 0);
                    match first_failed(requirement_views(self.requested@[i as int].1@), version@, 0) {
                        Some(k) => {
                            assert(requirement_views(self.requested@[i as int].1@)[k] == (
                                self.requested@[i as int].1@[k].range@,
                                self.requested@[i as int].1@[k].requested_by@,
                            ));
                        },
                        None => {},
                    }
                }
                r
            },
            None => None,
        }
    }
}

/// The install spec of one declared dependency.
pub open spec fn dep_spec(d: (String, Option<String>)) -> Seq<char> {
    crate::install_rules::manifest_spec(
        d.0@,
        match d.1 {
            Some(v) => Some(v@),
            None => None,
        },
    )
}

pub open spec fn dep_specs(s: Seq<(String, Option<String>)>) -> Seq<Seq<char>> {
    s.map_values(|d: (String, Option<String>)| dep_spec(d))
}

/// The install specs a package's manifest declares, as `(name, version)`
/// with the version when it is a string: `name@version`, or the bare name
/// for a blank, `*` or `latest` version; in ascending order.
pub fn package_dependency_specs(deps: &Vec<(String, Option<String>)>) -> (r: Vec<String>)
    ensures
        string_views(r@) == crate::versions::sorted_texts(dep_specs(deps@)),
{
    let mut specs: Vec<String> = Vec::new();
    let mut i: usize = 0;
    while i < deps.len()
        invariant
            i <= deps@.len(),
            string_views(specs@) == dep_specs(deps@.take(i as int)),
        decreases deps@.len() - i,
    {
        let ghost before = specs@;
        let version = match &deps[i].1 {
            Some(v) => Some(v.as_str()),
            None => None,
        };
        specs.push(crate::install_rules::manifest_dep_spec(deps[i].0.as_str(), version));
        proof {
            assert(string_views(specs@) =~= string_views(before).push(dep_spec(deps@[i as int])));
            assert(dep_specs(deps@.take(i + 1)) =~= dep_specs(deps@.take(i as int)).push(
                dep_spec(deps@[i as int]),
            ));
        }
        i = i + 1;
    }
    proof {
        assert(deps@.take(deps@.len() as int) =~= deps@);
    }
    crate::versions::sort_texts(&specs)
}

} // verus!
