//! The published-release manifest: where this platform's binary of a newer
//! release is downloaded from.

use vstd::prelude::*;
use crate::text::{chars_of, owned, string_of_span};

verus! {

/// One platform's published binary.
pub struct BinaryInfo {
    pub name: String,
    pub sha256: String,
}

/// The release manifest: the version, its tag, and the binary published
/// for each platform key.
pub struct LatestRelease {
    pub version: String,
    pub tag: String,
    pub binaries: Vec<(String, BinaryInfo)>,
}

/// `str::trim_end_matches`: every trailing copy of the non-empty `suffix`
/// removed.
pub open spec fn strip_suffixes(s: Seq<char>, suffix: Seq<char>) -> Seq<char>
    decreases s.len(),
{
    if suffix.len() > 0 && s.len() >= suffix.len() && s.skip(s.len() - suffix.len()) == suffix {
        strip_suffixes(s.take(s.len() - suffix.len()), suffix)
    } else {
        s
    }
}

/// The binary published for `key`: the first entry under that key.
pub open spec fn binary_for(binaries: Seq<(String, BinaryInfo)>, key: Seq<char>, i: int) -> Option<BinaryInfo>
    decreases binaries.len() - i,
{
    if i < 0 || i >= binaries.len() {
        None
    } else if binaries[i].0@ == key {
        Some(binaries[i].1)
    } else {
        binary_for(binaries, key, i + 1)
    }
}

/// `<base>/<version>/<binary name>`, where `base` is the manifest's URL
/// without its `/latest.json` ending.
pub open spec fn release_url(manifest_url: Seq<char>, version: Seq<char>, name: Seq<char>) -> Seq<char> {
    strip_suffixes(manifest_url, "/latest.json"@) + seq!['/'] + version + seq!['/'] + name
}

fn ends_with_at(v: &Vec<char>, n: usize, suffix: &Vec<char>) -> (r: bool)
    requires
        n <= v@.len(),
    ensures
        r == (suffix@.len() <= n && v@.subrange(n - suffix@.len(), n as int) == suffix@),
{
    let sl = suffix.len();
    if sl > n {
        return false;
    }
    let mut k: usize = 0;
    while k < sl
        invariant
            sl == suffix@.len(),
            sl <= n <= v@.len(),
            k <= sl,
            forall|m: int| 0 <= m < k ==> v@[n - sl + m] == suffix@[m],
        decreases sl - k,
    {
        if v[n - sl + k] != suffix[k] {
            proof {
                assert(v@.subrange(n - sl, n as int)[k as int] == v@[n - sl + k]);
            }
            return false;
        }
        k = k + 1;
    }
    proof {
        assert(v@.subrange(n - sl, n as int) =~= suffix@);
    }
    true
}

/// Remove every trailing copy of `suffix` from `s`.
pub fn trim_end_matches(s: &str, suffix: &str) -> (r: String)
    ensures
        r@ == strip_suffixes(s@, suffix@),
{
    let v = chars_of(s);
    let suf = chars_of(suffix);
    let mut n = v.len();
    proof {
        assert(v@.take(n as int) =~= v@);
    }
    while suf.len() > 0 && ends_with_at(&v, n, &suf)
        invariant
            n <= v@.len(),
            suf@ == suffix@,
            strip_suffixes(v@.take(n as int), suf@) == strip_suffixes(s@, suffix@),
            v@ == s@,
        decreases n,
    {
        proof {
            let t = v@.take(n as int);
            assert(t.skip(t.len() - suf@.len()) =~= v@.subrange(n - suf@.len(), n as int));
            assert(t.take(t.len() - suf@.len()) =~= v@.take(n - suf@.len()));
        }
        n = n - suf.len();
    }
    proof {
        let t = v@.take(n as int);
        if suf@.len() > 0 && t.len() >= suf@.len() {
            assert(t.skip(t.len() - suf@.len()) =~= v@.subrange(n - suf@.len(), n as int));
        }
        assert(v@.subrange(0, n as int) =~= t);
    }
    string_of_span(&v, 0, n)
}

/// The download URL of `platform`'s binary in `release`, when this
/// platform has a key and the manifest published a binary under it.
pub fn download_url(manifest_url: &str, release: &LatestRelease, platform: Option<&str>) -> (r:
    Option<String>)
    ensures
        match platform {
            None => r is None,
            Some(key) => match binary_for(release.binaries@, key@, 0) {
                None => r is None,
                Some(b) => r matches Some(u) && u@ == release_url(
                    manifest_url@,
                    release.version@,
                    b.name@,
                ),
            },
        },
{
    let key = match platform {
        Some(k) => k,
        None => {
            return None;
        },
    };
    let wanted = owned(key);
    let mut i: usize = 0;
    while i < release.binaries.len()
        invariant
            i <= release.binaries@.len(),
            platform == Some(key),
            wanted@ == key@,
            binary_for(release.binaries@, key@, i as int) == binary_for(release.binaries@, key@, 0),
        decreases release.binaries@.len() - i,
    {
        if release.binaries[i].0 == wanted {
            proof {
                reveal_strlit("/latest.json");
                assert(release.binaries@[i as int].0@ == key@);
                assert(binary_for(release.binaries@, key@, i as int) == Some(release.binaries@[i as int].1));
            }
            let mut url = trim_end_matches(manifest_url, "/latest.json");
            crate::text::string_push(&mut url, '/');
            url.append(release.version.as_str());
            crate::text::string_push(&mut url, '/');
            url.append(release.binaries[i].1.name.as_str());
            return Some(url);
        }
        i = i + 1;
    }
    None
}


/// Where the published release manifest lives by default.
pub const RELEASES_LATEST_URL: &'static str = "https://releases.deka.gg/latest.json";

/// The release manifest's URL: the `DEKA_PM_RELEASES_URL` override (its
/// value is given when the variable is set), unless it is empty, else the
/// default.
pub fn releases_url(env_value: Option<&str>) -> (r: String)
    ensures
        match env_value {
            Some(v) if v@.len() > 0 => r@ == v@,
            _ => r@ == RELEASES_LATEST_URL@,
        },
{
    match env_value {
        Some(v) => {
            if chars_of(v).len() > 0 {
                owned(v)
            } else {
                owned(RELEASES_LATEST_URL)
            }
        },
        None => owned(RELEASES_LATEST_URL),
    }
}

/// A manifest request that did not succeed is an error naming the URL and
/// the status.
pub fn check_release_response(url: &str, success: bool, status: &str) -> (r: Result<(), String>)
    ensures
        r is Err <==> !success,
        r matches Err(e) ==> e@ == "release manifest request to "@ + url@ + " failed: "@ + status@,
{
    if success {
        Ok(())
    } else {
        let mut e = owned("release manifest request to ");
        e.append(url);
        e.append(" failed: ");
        e.append(status);
        Err(e)
    }
}

impl LatestRelease {
    /// Each platform key names one binary.
    pub open spec fn wf(&self) -> bool {
        forall|i: int, j: int|
            0 <= i < j < self.binaries@.len() ==> self.binaries@[i].0@ != self.binaries@[j].0@
    }

    /// A release with no binaries yet.
    pub fn new(version: String, tag: String) -> (r: Self)
        ensures
            r.wf(),
            r.version@ == version@,
            r.tag@ == tag@,
            r.binaries@.len() == 0,
    {
        LatestRelease { version, tag, binaries: Vec::new() }
    }

    /// Publish `info` under `key`, replacing what the key had (a map insert).
    pub fn insert_binary(&mut self, key: String, info: BinaryInfo)
        requires
            old(self).wf(),
        ensures
            final(self).wf(),
            final(self).version == old(self).version,
            final(self).tag == old(self).tag,
            binary_for(final(self).binaries@, key@, 0) == Some(info),
            forall|k: Seq<char>|
                k != key@ ==> binary_for(final(self).binaries@, k, 0) == binary_for(
                    old(self).binaries@,
                    k,
                    0,
                ),
    {
        let ghost o = self.binaries@;
        let mut i: usize = 0;
        let mut found = false;
        while i < self.binaries.len() && !found
            invariant
                i <= self.binaries@.len(),
                self.binaries@ == o,
                forall|m: int| 0 <= m < i ==> #[trigger] o[m].0@ != key@,
                found ==> i < o.len() && o[i as int].0@ == key@,
            decreases self.binaries@.len() - i + (if found { 0int } else { 1int }),
        {
            if self.binaries[i].0 == key {
                found = true;
            } else {
                i = i + 1;
            }
        }
        proof {
            lemma_binary_for_distinct(o);
        }
        if found {
            let _old = self.binaries.remove(i);
            self.binaries.insert(i, (key, info));
            proof {
                let n = self.binaries@;
                assert(n =~= o.update(i as int, (n[i as int].0, info)));
                assert(n[i as int].0@ == o[i as int].0@);
                assert forall|a: int, b: int| 0 <= a < b < n.len() implies n[a].0@ != n[b].0@ by {
                    assert(n[a].0@ == o[a].0@ && n[b].0@ == o[b].0@);
                }
                lemma_binary_for_distinct(n);
                assert(n[i as int] == (n[i as int].0, info));
                assert forall|k: Seq<char>| k != key@ implies binary_for(n, k, 0) == binary_for(o, k, 0) by {
                    if exists|m: int| 0 <= m < o.len() && o[m].0@ == k {
                        let m = choose|m: int| 0 <= m < o.len() && o[m].0@ == k;
                        assert(n[m] == o[m]);
                    } else {
                        assert forall|m: int| 0 <= m < n.len() implies n[m].0@ != k by {
                            if m != i {
                                assert(n[m] == o[m]);
                            }
                        }
                    }
                }
            }
        } else {
            self.binaries.push((key, info));
            proof {
                let n = self.binaries@;
                assert forall|a: int, b: int| 0 <= a < b < n.len() implies n[a].0@ != n[b].0@ by {
                    if b < o.len() {
                        assert(n[a] == o[a] && n[b] == o[b]);
                    } else {
                        assert(n[a] == o[a]);
                    }
                }
                lemma_binary_for_distinct(n);
                assert(n[o.len() as int] == (n[o.len() as int].0, info));
                assert forall|k: Seq<char>| k != key@ implies binary_for(n, k, 0) == binary_for(o, k, 0) by {
                    if exists|m: int| 0 <= m < o.len() && o[m].0@ == k {
                        let m = choose|m: int| 0 <= m < o.len() && o[m].0@ == k;
                        assert(n[m] == o[m]);
                    } else {
                        assert forall|m: int| 0 <= m < n.len() implies n[m].0@ != k by {
                            if m < o.len() {
                                assert(n[m] == o[m]);
                            }
                        }
                    }
                }
            }
        }
    }
}

/// With distinct keys, a key's binary is the one listed under it.
proof fn lemma_binary_for_distinct(s: Seq<(String, BinaryInfo)>)
    requires
        forall|i: int, j: int| 0 <= i < j < s.len() ==> s[i].0@ != s[j].0@,
    ensures
        forall|m: int| 0 <= m < s.len() ==> #[trigger] binary_for(s, s[m].0@, 0) == Some(s[m].1),
        forall|k: Seq<char>|
            (forall|m: int| 0 <= m < s.len() ==> s[m].0@ != k) ==> #[trigger] binary_for(s, k, 0)
                is None,
{
    assert forall|m: int| 0 <= m < s.len() implies #[trigger] binary_for(s, s[m].0@, 0) == Some(s[m].1) by {
        lemma_binary_for_from(s, s[m].0@, 0, m);
    }
    assert forall|k: Seq<char>|
        (forall|m: int| 0 <= m < s.len() ==> s[m].0@ != k) implies #[trigger] binary_for(s, k, 0) is None by {
        lemma_binary_for_none(s, k, 0);
    }
}

proof fn lemma_binary_for_from(s: Seq<(String, BinaryInfo)>, k: Seq<char>, i: int, m: int)
    requires
        0 <= i <= m < s.len(),
        s[m].0@ == k,
        forall|a: int, b: int| 0 <= a < b < s.len() ==> s[a].0@ != s[b].0@,
    ensures
        binary_for(s, k, i) == Some(s[m].1),
    decreases m - i,
{
    if i < m {
        assert(s[i].0@ != s[m].0@);
        lemma_binary_for_from(s, k, i + 1, m);
    }
}

proof fn lemma_binary_for_none(s: Seq<(String, BinaryInfo)>, k: Seq<char>, i: int)
    requires
        0 <= i,
        forall|m: int| 0 <= m < s.len() ==> s[m].0@ != k,
    ensures
        binary_for(s, k, i) is None,
    decreases s.len() - i,
{
    if i < s.len() {
        lemma_binary_for_none(s, k, i + 1);
    }
}

} // verus!
