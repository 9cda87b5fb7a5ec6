//! Compiled-module fix-ups: relative `.js` specifiers that the compiler
//! writes for DekaScript imports are pointed back at the `.ds`/`.dsx`
//! sources next to the module, which is what the isolate resolves.

use vstd::prelude::*;
use crate::text::{pair_views};
use crate::text::string_views;
use crate::text::{chars_of, owned, string_of_span};
use crate::islands::{append_chars, copy_span, find_char, find_char_from, find_sub, starts_with};
use crate::jsr::ends_with;

verus! {

/// `from ` followed by the quote `q`.
pub open spec fn from_quote(q: char) -> Seq<char> {
    seq!['f', 'r', 'o', 'm', ' ', q]
}

pub open spec fn is_relative_js(spec: Seq<char>) -> bool {
    (starts_with(spec, seq!['.', '/']) || starts_with(spec, seq!['.', '.', '/'])) && ends_with(
        spec,
        seq!['.', 'j', 's'],
    )
}

/// The source extension recorded for a specifier, if its peer exists.
pub open spec fn peer_ext(peers: Seq<(Seq<char>, Seq<char>)>, spec: Seq<char>) -> Option<Seq<char>>
    decreases peers.len(),
{
    if peers.len() == 0 {
        None
    } else if peers[0].0 == spec {
        Some(peers[0].1)
    } else {
        peer_ext(peers.drop_first(), spec)
    }
}

/// One pass over the `q`-quoted `from` specifiers of `s`: each relative
/// `.js` specifier with a peer source gets that source's extension.
pub open spec fn restore_pass(s: Seq<char>, q: char, peers: Seq<(Seq<char>, Seq<char>)>) -> Seq<char>
    decreases s.len(),
{
    match find_sub(s, from_quote(q), 0) {
        None => s,
        Some(f) => {
            let start = f + 6;
            match find_char(s, q, start) {
                None => s,
                Some(end) => if 0 <= f && start <= end < s.len() {
                    let spec = s.subrange(start, end);
                    match peer_ext(peers, spec) {
                        Some(ext) => if is_relative_js(spec) {
                            s.take(end - 2) + ext + restore_pass(s.skip(end), q, peers)
                        } else {
                            s.take(end + 1) + restore_pass(s.skip(end + 1), q, peers)
                        },
                        None => s.take(end + 1) + restore_pass(s.skip(end + 1), q, peers),
                    }
                } else {
                    s
                },
            }
        },
    }
}

/// The `q`-quoted relative `.js` specifiers of `from` clauses, in order.
pub open spec fn js_specifiers(s: Seq<char>, q: char) -> Seq<Seq<char>>
    decreases s.len(),
{
    match find_sub(s, from_quote(q), 0) {
        None => Seq::empty(),
        Some(f) => {
            let start = f + 6;
            match find_char(s, q, start) {
                None => Seq::empty(),
                Some(end) => if 0 <= f && start <= end < s.len() {
                    let spec = s.subrange(start, end);
                    let rest = js_specifiers(s.skip(end + 1), q);
                    if is_relative_js(spec) {
                        seq![spec] + rest
                    } else {
                        rest
                    }
                } else {
                    Seq::empty()
                },
            }
        },
    }
}

proof fn lemma_clause_at_start(spec: Seq<char>, q: char, post: Seq<char>)
    requires
        forall|i: int| 0 <= i < spec.len() ==> spec[i] != q,
    ensures
        ({
            let s = from_quote(q) + spec + seq![q] + post;
            &&& find_sub(s, from_quote(q), 0) == Some(0int)
            &&& find_char(s, q, 6) == Some(6 + spec.len() as int)
            &&& s.subrange(6, 6 + spec.len() as int) == spec
            &&& s.skip(6 + spec.len() as int + 1) == post
            &&& s.skip(6 + spec.len() as int) == seq![q] + post
            &&& spec.len() >= 2 ==> s.take(6 + spec.len() as int - 2) == from_quote(q) + spec.take(spec.len() as int - 2)
            &&& s.take(6 + spec.len() as int + 1) == from_quote(q) + spec + seq![q]
        }),
{
    let s = from_quote(q) + spec + seq![q] + post;
    let n = spec.len() as int;
    assert(s.subrange(0, 6) =~= from_quote(q));
    assert(s[6 + n] == q);
    assert forall|m: int| 6 <= m < 6 + n implies s[m] != q by {
        assert(s[m] == spec[m - 6]);
    }
    crate::islands::lemma_find_char_first(s, q, 6);
    assert(s.subrange(6, 6 + n) =~= spec);
    assert(s.skip(6 + n + 1) =~= post);
    assert(s.skip(6 + n) =~= seq![q] + post);
    if n >= 2 {
        assert(s.take(6 + n - 2) =~= from_quote(q) + spec.take(n - 2));
    }
    assert(s.take(6 + n + 1) =~= from_quote(q) + spec + seq![q]);
}

/// A `from` clause's quoted specifier (at the start of a module text) is a
/// restore candidate exactly when it is relative (`./` or `../`) and ends
/// in `.js`. Such a specifier with a peer source gets that source's
/// extension in place of `js`; any other specifier is kept as written.
pub proof fn law_relative_js_specifiers_are_restored(
    spec: Seq<char>,
    q: char,
    post: Seq<char>,
    peers: Seq<(Seq<char>, Seq<char>)>,
)
    requires
        forall|i: int| 0 <= i < spec.len() ==> spec[i] != q,
    ensures
        ({
            let s = from_quote(q) + spec + seq![q] + post;
            let rel = (starts_with(spec, seq!['.', '/']) || starts_with(spec, seq!['.', '.', '/'])) && ends_with(
                spec,
                seq!['.', 'j', 's'],
            );
            &&& js_specifiers(s, q) == (if rel {
                seq![spec]
            } else {
                Seq::empty()
            }) + js_specifiers(post, q)
            &&& rel && peer_ext(peers, spec) is Some ==> restore_pass(s, q, peers) == from_quote(q) + spec.take(
                spec.len() - 2,
            ) + peer_ext(peers, spec)->0 + restore_pass(seq![q] + post, q, peers)
            &&& !(rel && peer_ext(peers, spec) is Some) ==> restore_pass(s, q, peers) == from_quote(q) + spec
                + seq![q] + restore_pass(post, q, peers)
        }),
{
    lemma_clause_at_start(spec, q, post);
    let s = from_quote(q) + spec + seq![q] + post;
    let rel = (starts_with(spec, seq!['.', '/']) || starts_with(spec, seq!['.', '.', '/'])) && ends_with(
        spec,
        seq!['.', 'j', 's'],
    );
    assert(is_relative_js(spec) == rel);
    if !rel {
        assert(Seq::<Seq<char>>::empty() + js_specifiers(post, q) =~= js_specifiers(post, q));
    }
}

fn peer_ext_exec(peers: &Vec<(String, String)>, spec: &Vec<char>) -> (r: Option<String>)
    ensures
        match peer_ext(pair_views(peers@), spec@) {
            Some(e) => r matches Some(t) && t@ == e,
            None => r is None,
        },
{
    let ghost pv = pair_views(peers@);
    let mut key = String::new();
    append_chars(&mut key, spec);
    let mut i: usize = 0;
    proof {
        assert(pv.skip(0) =~= pv);
    }
    while i < peers.len()
        invariant
            i <= peers@.len(),
            pv == pair_views(peers@),
            key@ == spec@,
            peer_ext(pv.skip(i as int), spec@) == peer_ext(pv, spec@),
        decreases peers@.len() - i,
    {
        proof {
            assert(pv.skip(i as int)[0] == (peers@[i as int].0@, peers@[i as int].1@));
            assert(pv.skip(i as int).drop_first() =~= pv.skip(i + 1));
        }
        if peers[i].0 == key {
            return Some(peers[i].1.clone());
        }
        i = i + 1;
    }
    None
}

fn is_relative_js_exec(v: &Vec<char>) -> (r: bool)
    ensures
        r == is_relative_js(v@),
{
    let n = v.len();
    let a = n >= 2 && v[0] == '.' && v[1] == '/';
    let b = n >= 3 && v[0] == '.' && v[1] == '.' && v[2] == '/';
    let e = n >= 3 && v[n - 3] == '.' && v[n - 2] == 'j' && v[n - 1] == 's';
    proof {
        if n >= 2 {
            assert(v@.take(2)[0] == v@[0] && v@.take(2)[1] == v@[1]);
            if a {
                assert(v@.take(2) =~= seq!['.', '/']);
            }
        }
        if n >= 3 {
            assert(v@.take(3)[0] == v@[0] && v@.take(3)[1] == v@[1] && v@.take(3)[2] == v@[2]);
            if b {
                assert(v@.take(3) =~= seq!['.', '.', '/']);
            }
            let t = v@.skip(n - 3);
            assert(t[0] == v@[n - 3] && t[1] == v@[n - 2] && t[2] == v@[n - 1]);
            if e {
                assert(t =~= seq!['.', 'j', 's']);
            }
        }
    }
    (a || b) && e
}

/// One pass of [`restore_isolate_specifiers`] for one quote character.
fn restore_with_quote(js: &Vec<char>, q: char, peers: &Vec<(String, String)>) -> (r: Vec<char>)
    ensures
        r@ == restore_pass(js@, q, pair_views(peers@)),
{
    let needle = vec!['f', 'r', 'o', 'm', ' ', q];
    proof {
        assert(needle@ =~= from_quote(q));
    }
    let ghost pv = pair_views(peers@);
    let mut out: Vec<char> = Vec::new();
    let mut rest = copy_span(js, 0, js.len());
    proof {
        assert(js@.subrange(0, js@.len() as int) =~= js@);
    }
    loop
        invariant
            needle@ == from_quote(q),
            pv == pair_views(peers@),
            out@ + restore_pass(rest@, q, pv) == restore_pass(js@, q, pv),
        decreases rest@.len(),
    {
        let rl = rest.len();
        let ghost o0 = out@;
        let f = match crate::islands::find_sub_from(&rest, &needle, 0) {
            Some(f) => f,
            None => {
                let mut k: usize = 0;
                while k < rl
                    invariant
                        k <= rl,
                        rl == rest@.len(),
                        out@ == o0 + rest@.take(k as int),
                    decreases rl - k,
                {
                    out.push(rest[k]);
                    k = k + 1;
                    proof {
                        assert(out@ =~= o0 + rest@.take(k as int));
                    }
                }
                proof {
                    assert(rest@.take(rl as int) =~= rest@);
                }
                return out;
            },
        };
        let start = f + 6;
        let end = match find_char_from(&rest, q, start) {
            Some(e) => e,
            None => {
                let mut k: usize = 0;
                while k < rl
                    invariant
                        k <= rl,
                        rl == rest@.len(),
                        out@ == o0 + rest@.take(k as int),
                    decreases rl - k,
                {
                    out.push(rest[k]);
                    k = k + 1;
                    proof {
                        assert(out@ =~= o0 + rest@.take(k as int));
                    }
                }
                proof {
                    assert(rest@.take(rl as int) =~= rest@);
                }
                return out;
            },
        };
        let spec = copy_span(&rest, start, end);
        let ext = peer_ext_exec(peers, &spec);
        let rel = is_relative_js_exec(&spec);
        let replace = rel && ext.is_some();
        let keep_to = if replace { end - 2 } else { end + 1 };
        let mut k: usize = 0;
        while k < keep_to
            invariant
                k <= keep_to,
                keep_to <= rl,
                rl == rest@.len(),
                out@ == o0 + rest@.take(k as int),
            decreases keep_to - k,
        {
            out.push(rest[k]);
            k = k + 1;
            proof {
                assert(out@ =~= o0 + rest@.take(k as int));
            }
        }
        let next_from = if replace { end } else { end + 1 };
        if replace {
            match ext {
                Some(e) => {
                    let ec = chars_of(e.as_str());
                    let ghost o1 = out@;
                    let mut m: usize = 0;
                    while m < ec.len()
                        invariant
                            m <= ec@.len(),
                            out@ == o1 + ec@.take(m as int),
                        decreases ec@.len() - m,
                    {
                        out.push(ec[m]);
                        m = m + 1;
                        proof {
                            assert(out@ =~= o1 + ec@.take(m as int));
                        }
                    }
                    proof {
                        assert(ec@.take(ec@.len() as int) =~= ec@);
                    }
                },
                None => {},
            }
        }
        let next = copy_span(&rest, next_from, rl);
        proof {
            assert(spec@ =~= rest@.subrange(start as int, end as int));
            assert(next@ =~= rest@.skip(next_from as int));
            let r = restore_pass(next@, q, pv);
            assert(out@ + r =~= o0 + restore_pass(rest@, q, pv));
        }
        rest = next;
    }
}

/// Point relative `.js` specifiers of `from` clauses back at their DekaScript
/// sources. `peers` lists, for a specifier, the extension (`ds` or `dsx`)
/// of the source file next to the module, where one exists; single-quoted
/// specifiers are restored first, then double-quoted ones.
pub fn restore_isolate_specifiers(js: &str, peers: &Vec<(String, String)>) -> (r: String)
    ensures
        r@ == restore_pass(
            restore_pass(js@, '\'', pair_views(peers@)),
            '"',
            pair_views(peers@),
        ),
{
    let v = chars_of(js);
    let once = restore_with_quote(&v, '\'', peers);
    let twice = restore_with_quote(&once, '"', peers);
    let mut out = String::new();
    append_chars(&mut out, &twice);
    out
}

/// The relative `.js` specifiers of a compiled module's `from` clauses,
/// single-quoted ones first: the files whose peers the caller looks up.
pub fn isolate_specifier_candidates(js: &str) -> (r: Vec<String>)
    ensures
        string_views(r@) == js_specifiers(js@, '\'') + js_specifiers(js@, '"'),
{
    let v = chars_of(js);
    let mut a = specifiers_with_quote(&v, '\'');
    let b = specifiers_with_quote(&v, '"');
    let ghost av = string_views(a@);
    let mut i: usize = 0;
    while i < b.len()
        invariant
            i <= b@.len(),
            string_views(a@) == av + string_views(b@.take(i as int)),
        decreases b@.len() - i,
    {
        let ghost before = a@;
        let t = b[i].clone();
        a.push(t);
        proof {
            assert(string_views(a@) =~= string_views(before).push(b@[i as int]@));
            assert(string_views(b@.take(i + 1)) =~= string_views(b@.take(i as int)).push(b@[i as int]@));
            assert(string_views(a@) =~= av + string_views(b@.take(i + 1)));
        }
        i = i + 1;
    }
    proof {
        assert(b@.take(b@.len() as int) =~= b@);
    }
    a
}

fn specifiers_with_quote(js: &Vec<char>, q: char) -> (r: Vec<String>)
    ensures
        string_views(r@) == js_specifiers(js@, q),
{
    let needle = vec!['f', 'r', 'o', 'm', ' ', q];
    proof {
        assert(needle@ =~= from_quote(q));
    }
    let mut out: Vec<String> = Vec::new();
    let mut rest = copy_span(js, 0, js.len());
    proof {
        assert(js@.subrange(0, js@.len() as int) =~= js@);
        assert(string_views(out@) =~= Seq::<Seq<char>>::empty());
    }
    loop
        invariant
            needle@ == from_quote(q),
            string_views(out@) + js_specifiers(rest@, q) == js_specifiers(js@, q),
        decreases rest@.len(),
    {
        let rl = rest.len();
        let f = match crate::islands::find_sub_from(&rest, &needle, 0) {
            Some(f) => f,
            None => {
                proof {
                    assert(string_views(out@) + js_specifiers(rest@, q) =~= string_views(out@));
                }
                return out;
            },
        };
        let start = f + 6;
        let end = match find_char_from(&rest, q, start) {
            Some(e) => e,
            None => {
                proof {
                    assert(string_views(out@) + js_specifiers(rest@, q) =~= string_views(out@));
                }
                return out;
            },
        };
        let spec = copy_span(&rest, start, end);
        let next = copy_span(&rest, end + 1, rl);
        let ghost e0 = string_views(out@);
        if is_relative_js_exec(&spec) {
            let mut t = String::new();
            append_chars(&mut t, &spec);
            out.push(t);
            proof {
                assert(string_views(out@) =~= e0.push(spec@));
            }
        }
        proof {
            assert(spec@ =~= rest@.subrange(start as int, end as int));
            assert(next@ =~= rest@.skip(end + 1));
            let r = js_specifiers(next@, q);
            assert(string_views(out@) + r =~= e0 + js_specifiers(rest@, q));
        }
        rest = next;
    }
}

} // verus!
