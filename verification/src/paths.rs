//! Slash-separated path text: joining, prefix stripping and extensions, as
//! `std::path` does them on canonical Unix paths (absolute, no `.`/`..`
//! components, no repeated or trailing separators).

use vstd::prelude::*;
use crate::text::{chars_of, has_prefix_at, owned, string_from_chars, string_of_span};

verus! {

/// `Path::join`: an absolute `rel` replaces `base`; otherwise the two are
/// joined with one separator.
pub open spec fn spec_join(base: Seq<char>, rel: Seq<char>) -> Seq<char> {
    if rel.len() > 0 && rel[0] == '/' {
        rel
    } else if base.len() == 0 {
        rel
    } else if base.last() == '/' {
        base + rel
    } else {
        base + seq!['/'] + rel
    }
}

pub fn join(base: &str, rel: &str) -> (r: String)
    ensures
        r@ == spec_join(base@, rel@),
{
    let b = chars_of(base);
    let rl = chars_of(rel);
    if rl.len() > 0 && rl[0] == '/' {
        return owned(rel);
    }
    if b.len() == 0 {
        return owned(rel);
    }
    let mut out = owned(base);
    if b[b.len() - 1] != '/' {
        out.append("/");
    }
    out.append(rel);
    proof {
        reveal_strlit("/");
    }
    out
}

/// `Path::strip_prefix` on canonical paths: the rest of `path` after the
/// components of `base`.
pub open spec fn spec_strip_prefix(path: Seq<char>, base: Seq<char>) -> Option<Seq<char>> {
    if path == base {
        Some(Seq::empty())
    } else if base.len() > 0 && base.last() == '/' && path.len() >= base.len() && path.take(
        base.len() as int,
    ) == base {
        Some(path.skip(base.len() as int))
    } else if path.len() > base.len() && path.take(base.len() as int) == base && path[base.len()
        as int] == '/' {
        Some(path.skip(base.len() + 1 as int))
    } else {
        None
    }
}

pub fn strip_prefix(path: &str, base: &str) -> (r: Option<String>)
    ensures
        match spec_strip_prefix(path@, base@) {
            Some(rest) => r matches Some(s) && s@ == rest,
            None => r is None,
        },
{
    let p = chars_of(path);
    let b = chars_of(base);
    let starts = has_prefix_at(&p, 0, base);
    proof {
        if p@.len() >= b@.len() {
            assert(p@.subrange(0, b@.len() as int) == p@.take(b@.len() as int));
        }
    }
    if starts && p.len() == b.len() {
        proof {
            assert(p@ == p@.take(b@.len() as int));
        }
        return Some(String::new());
    }
    if b.len() > 0 && b[b.len() - 1] == '/' && starts {
        proof {
            assert(p@ != b@);
        }
        return Some(string_of_span(&p, b.len(), p.len()));
    }
    if starts && p.len() > b.len() && p[b.len()] == '/' {
        proof {
            assert(p@ != b@);
        }
        return Some(string_of_span(&p, b.len() + 1, p.len()));
    }
    proof {
        if p@ == b@ {
            assert(p@.subrange(0, b@.len() as int) == b@);
        }
    }
    None
}

/// A path without its trailing separators and trailing `.` components,
/// which `Path` does not count as components.
pub open spec fn trim_tail(p: Seq<char>) -> Seq<char>
    decreases p.len(),
{
    if p.len() > 0 && p.last() == '/' {
        trim_tail(p.drop_last())
    } else if p.len() >= 2 && p.last() == '.' && p[p.len() - 2] == '/' {
        trim_tail(p.drop_last())
    } else {
        p
    }
}

/// How long [`trim_tail`] of a path is.
pub(crate) fn tail_len(v: &Vec<char>) -> (n: usize)
    ensures
        n <= v@.len(),
        trim_tail(v@) == v@.subrange(0, n as int),
{
    let mut n = v.len();
    proof {
        assert(v@.subrange(0, n as int) =~= v@);
    }
    while (n > 0 && v[n - 1] == '/') || (n >= 2 && v[n - 1] == '.' && v[n - 2] == '/')
        invariant
            n <= v@.len(),
            trim_tail(v@.subrange(0, n as int)) == trim_tail(v@),
        decreases n,
    {
        proof {
            let s = v@.subrange(0, n as int);
            assert(s.drop_last() =~= v@.subrange(0, n - 1));
            assert(s.last() == v@[n - 1]);
            if n >= 2 {
                assert(s[s.len() - 2] == v@[n - 2]);
            }
        }
        n = n - 1;
    }
    proof {
        let s = v@.subrange(0, n as int);
        if n > 0 {
            assert(s.last() == v@[n - 1]);
        }
        if n >= 2 {
            assert(s[s.len() - 2] == v@[n - 2]);
        }
    }
    n
}

/// The final component of a path (`Path::file_name`): its last component
/// once trailing separators and `.` components are set aside; `None` for
/// the root, `.`, `..` or the empty path.
pub open spec fn spec_file_name(path: Seq<char>) -> Option<Seq<char>> {
    let p = trim_tail(path);
    let start = last_slash_end(p, p.len() as int);
    let name = p.skip(start);
    if name.len() == 0 || name == ".."@ || name == "."@ {
        None
    } else {
        Some(name)
    }
}

/// One past the last `/` before `i`, or 0.
pub open spec fn last_slash_end(p: Seq<char>, i: int) -> int
    decreases i,
{
    if i <= 0 {
        0
    } else if p[i - 1] == '/' {
        i
    } else {
        last_slash_end(p, i - 1)
    }
}

/// `Path::extension`: the text after the last `.` of the file name, when
/// that `.` is not the name's first character.
pub open spec fn spec_extension(path: Seq<char>) -> Option<Seq<char>> {
    match spec_file_name(path) {
        Some(name) => {
            let d = last_dot(name, name.len() as int);
            if d <= 0 {
                None
            } else {
                Some(name.skip(d + 1))
            }
        },
        None => None,
    }
}

/// Index of the last `.` before `i`, or -1.
pub open spec fn last_dot(p: Seq<char>, i: int) -> int
    decreases i,
{
    if i <= 0 {
        -1
    } else if p[i - 1] == '.' {
        i - 1
    } else {
        last_dot(p, i - 1)
    }
}

fn last_slash_end_exec(p: &[char], n: usize) -> (r: usize)
    requires
        n <= p@.len(),
    ensures
        r == last_slash_end(p@, n as int),
        r <= n,
{
    let mut i = n;
    while i > 0 && p[i - 1] != '/'
        invariant
            i <= n <= p@.len(),
            last_slash_end(p@, i as int) == last_slash_end(p@, n as int),
        decreases i,
    {
        i = i - 1;
    }
    i
}

fn last_dot_exec(p: &[char], a: usize, n: usize) -> (r: Option<usize>)
    requires
        a <= n <= p@.len(),
    ensures
        match r {
            Some(d) => a <= d < n && last_dot(p@.subrange(a as int, n as int), (n - a) as int) == d
                - a,
            None => last_dot(p@.subrange(a as int, n as int), (n - a) as int) == -1,
        },
{
    let ghost s = p@.subrange(a as int, n as int);
    let mut i = n;
    while i > a && p[i - 1] != '.'
        invariant
            a <= i <= n <= p@.len(),
            s == p@.subrange(a as int, n as int),
            last_dot(s, (i - a) as int) == last_dot(s, (n - a) as int),
        decreases i,
    {
        proof {
            assert(s[i - a - 1] == p@[i - 1]);
        }
        i = i - 1;
    }
    if i > a {
        proof {
            assert(s[i - a - 1] == p@[i - 1]);
        }
        Some(i - 1)
    } else {
        None
    }
}

/// The extension of a path, if it has one.
pub fn extension(path: &str) -> (r: Option<String>)
    ensures
        match spec_extension(path@) {
            Some(e) => r matches Some(s) && s@ == e,
            None => r is None,
        },
{
    let v = chars_of(path);
    let n = tail_len(&v);
    let ghost p = trim_tail(path@);
    let start = last_slash_end_exec(&v, n);
    proof {
        assert forall|i: int| 0 <= i <= n implies last_slash_end(p, i) == last_slash_end(v@, i) by {
            lemma_last_slash_prefix(v@, n as int, i);
        }
        assert(p.skip(start as int) == v@.subrange(start as int, n as int));
    }
    let dotdot = n - start == 2 && v[start] == '.' && v[start + 1] == '.';
    proof {
        reveal_strlit("..");
        reveal_strlit(".");
        let name = p.skip(start as int);
        if name.len() == 1 && name[0] == '.' {
            assert(name =~= "."@);
        }
        assert(name.len() == n - start);
        if name.len() == 2 {
            assert(name[0] == v@[start as int] && name[1] == v@[start + 1]);
            if dotdot {
                assert(name =~= ".."@);
            }
        }
    }
    if n == start || dotdot {
        return None;
    }
    match last_dot_exec(&v, start, n) {
        Some(d) => {
            if d == start {
                None
            } else {
                proof {
                    assert(p.skip(start as int).skip(d - start + 1) == v@.subrange(d + 1, n as int));
                }
                Some(string_of_span(&v, d + 1, n))
            }
        },
        None => None,
    }
}

proof fn lemma_last_slash_prefix(v: Seq<char>, n: int, i: int)
    requires
        0 <= i <= n <= v.len(),
    ensures
        last_slash_end(v.subrange(0, n), i) == last_slash_end(v, i),
    decreases i,
{
    if i > 0 {
        assert(v.subrange(0, n)[i - 1] == v[i - 1]);
        lemma_last_slash_prefix(v, n, i - 1);
    }
}

/// Replace every occurrence of `from` in `s` by `to` (`str::replace`).
pub open spec fn replace_all(s: Seq<char>, from: Seq<char>, to: Seq<char>) -> Seq<char>
    decreases s.len(),
{
    if from.len() == 0 {
        if s.len() == 0 {
            to
        } else {
            to + seq![s[0]] + replace_all(s.drop_first(), from, to)
        }
    } else if s.len() >= from.len() && s.take(from.len() as int) == from {
        to + replace_all(s.skip(from.len() as int), from, to)
    } else if s.len() == 0 {
        s
    } else {
        seq![s[0]] + replace_all(s.drop_first(), from, to)
    }
}

fn push_chars(out: &mut Vec<char>, t: &[char])
    ensures
        final(out)@ == old(out)@ + t@,
{
    let ghost start = out@;
    let mut k: usize = 0;
    while k < t.len()
        invariant
            k <= t@.len(),
            out@ == start + t@.take(k as int),
        decreases t@.len() - k,
    {
        out.push(t[k]);
        k = k + 1;
        proof {
            assert(out@ == start + t@.take(k as int));
        }
    }
    proof {
        assert(t@.take(t@.len() as int) == t@);
    }
}

pub fn replace(s: &str, from: &str, to: &str) -> (r: String)
    ensures
        r@ == replace_all(s@, from@, to@),
{
    let v = chars_of(s);
    let f = chars_of(from);
    let t = chars_of(to);
    let mut out: Vec<char> = Vec::new();
    let mut i: usize = 0;
    proof {
        assert(v@.skip(0) == v@);
    }
    while i < v.len()
        invariant
            v@ == s@,
            f@ == from@,
            t@ == to@,
            i <= v@.len(),
            out@ + replace_all(v@.skip(i as int), f@, t@) == replace_all(v@, f@, t@),
        decreases v@.len() - i,
    {
        let ghost rest = v@.skip(i as int);
        if f.len() > 0 && has_prefix_at(&v, i, from) {
            proof {
                assert(rest.take(f@.len() as int) == v@.subrange(i as int, i + f@.len()));
                assert(rest.skip(f@.len() as int) == v@.skip(i + f@.len()));
                assert(replace_all(rest, f@, t@) == t@ + replace_all(
                    v@.skip(i + f@.len()),
                    f@,
                    t@,
                ));
            }
            push_chars(&mut out, &t);
            proof {
                assert(out@ + replace_all(v@.skip(i + f@.len()), f@, t@) == replace_all(v@, f@, t@));
            }
            i = i + f.len();
        } else {
            proof {
                assert(rest.drop_first() == v@.skip(i + 1));
                assert(rest[0] == v@[i as int]);
                if f@.len() > 0 {
                    assert(!(rest.len() >= f@.len() && rest.take(f@.len() as int) == f@)) by {
                        if rest.len() >= f@.len() {
                            assert(rest.take(f@.len() as int) == v@.subrange(
                                i as int,
                                i + f@.len(),
                            ));
                        }
                    }
                }
            }
            if f.len() == 0 {
                push_chars(&mut out, &t);
            }
            out.push(v[i]);
            proof {
                if f@.len() == 0 {
                    assert(replace_all(rest, f@, t@) == t@ + seq![rest[0]] + replace_all(
                        v@.skip(i + 1),
                        f@,
                        t@,
                    ));
                } else {
                    assert(replace_all(rest, f@, t@) == seq![rest[0]] + replace_all(
                        v@.skip(i + 1),
                        f@,
                        t@,
                    ));
                }
                assert(out@ + replace_all(v@.skip(i + 1), f@, t@) == replace_all(v@, f@, t@));
            }
            i = i + 1;
        }
    }
    proof {
        assert(v@.skip(i as int).len() == 0);
    }
    if f.len() == 0 {
        push_chars(&mut out, &t);
    }
    proof {
        assert(out@ == replace_all(v@, f@, t@));
    }
    string_from_chars(&out)
}


/// Whether `from` occurs in `s` at or after `i`.
pub open spec fn occurs_from(s: Seq<char>, from: Seq<char>, i: int) -> bool {
    exists|k: int| i <= k && k + from.len() <= s.len() && #[trigger] s.subrange(k, k + from.len()) == from
}

proof fn lemma_replace_absent(s: Seq<char>, from: Seq<char>, to: Seq<char>)
    requires
        from.len() > 0,
        !occurs_from(s, from, 0),
    ensures
        replace_all(s, from, to) == s,
    decreases s.len(),
{
    if s.len() > 0 {
        if s.len() >= from.len() && s.take(from.len() as int) == from {
            let k: int = 0;
            assert(s.subrange(k, k + from.len()) =~= s.take(from.len() as int));
            assert(occurs_from(s, from, 0));
            assert(false);
        }
        let t = s.drop_first();
        assert(!occurs_from(t, from, 0)) by {
            if occurs_from(t, from, 0) {
                let k = choose|k: int| 0 <= k && k + from.len() <= t.len() && #[trigger] t.subrange(k, k + from.len()) == from;
                assert(s.subrange(k + 1, k + 1 + from.len()) =~= t.subrange(k, k + from.len()));
            }
        }
        lemma_replace_absent(t, from, to);
        assert(seq![s[0]] + t =~= s);
    }
}

/// Replacing a non-empty text that does not occur leaves the text as it is.
pub proof fn law_replace_without_occurrence(s: Seq<char>, from: Seq<char>, to: Seq<char>)
    requires
        from.len() > 0,
        !occurs_from(s, from, 0),
    ensures
        replace_all(s, from, to) == s,
{
    lemma_replace_absent(s, from, to);
}

} // verus!
