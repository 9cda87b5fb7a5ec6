//! Where the ESM loader looks for a module specifier: the ordered probes
//! it tries (the project-root alias, development links, the project's
//! module directory, then the runtime stdlib root), each with the boundary
//! the resolved file must stay inside.

use vstd::prelude::*;
use crate::text::string_views;
use crate::islands::{split_chars, split_on, starts_with};
use crate::paths::{join, spec_join};
use crate::text::{chars_of, owned, string_of_span};

verus! {

/// One place to look: the base path whose source candidates are tried,
/// whether they are tried as a public import (`.ds`, `.dsx`, `.js`) or as
/// an internal module, and the root the canonical result must stay inside.
pub struct Probe {
    pub base: String,
    pub public: bool,
    pub boundary: Option<String>,
}

pub open spec fn probe_view(p: Probe) -> (Seq<char>, bool, Option<Seq<char>>) {
    (p.base@, p.public, match p.boundary {
        Some(b) => Some(b@),
        None => None,
    })
}

pub open spec fn probe_views(ps: Seq<Probe>) -> Seq<(Seq<char>, bool, Option<Seq<char>>)> {
    ps.map_values(|p: Probe| probe_view(p))
}

/// A `/`-separated piece of `s` is `.` or `..`.
pub open spec fn has_dot_segment(s: Seq<char>) -> bool {
    exists|k: int|
        0 <= k < split_on(s, '/').len() && (#[trigger] split_on(s, '/')[k] == seq!['.'] || split_on(
            s,
            '/',
        )[k] == seq!['.', '.'])
}

/// `str::trim_start_matches`: every leading copy of the non-empty `prefix`
/// removed.
pub open spec fn strip_prefixes(s: Seq<char>, prefix: Seq<char>) -> Seq<char>
    decreases s.len(),
{
    if prefix.len() > 0 && starts_with(s, prefix) {
        strip_prefixes(s.skip(prefix.len() as int), prefix)
    } else {
        s
    }
}

pub open spec fn user_scope() -> Seq<char> {
    seq!['@', 'u', 's', 'e', 'r', '/']
}

/// Where an alias lives under a module directory: `@user/` packages under
/// its `@user` directory, anything else at the alias path itself.
pub open spec fn module_base(dir: Seq<char>, alias: Seq<char>) -> Seq<char> {
    if starts_with(alias, user_scope()) {
        spec_join(spec_join(dir, seq!['@', 'u', 's', 'e', 'r']), strip_prefixes(alias, user_scope()))
    } else {
        spec_join(dir, alias)
    }
}

/// A prefixed stdlib specifier such as `encoding/json` also names
/// `@deka/encoding/json`.
pub open spec fn stdlib_alias(spec: Seq<char>) -> Option<Seq<char>> {
    if (exists|k: int| 0 <= k < spec.len() && spec[k] == '/') && !starts_with(spec, seq!['@'])
        && !starts_with(spec, seq!['.', '/']) && !starts_with(spec, seq!['.', '.', '/']) {
        Some("@deka/"@ + spec)
    } else {
        None
    }
}

/// The aliases probed under the module directories.
pub open spec fn all_aliases(spec: Seq<char>, aliases: Seq<Seq<char>>) -> Seq<Seq<char>> {
    match stdlib_alias(spec) {
        Some(a) => aliases.push(a),
        None => aliases,
    }
}

/// The `@/` probe: the project-root relative path, unless it has a `.` or
/// `..` segment.
pub open spec fn root_alias_probe(project_root: Seq<char>, spec: Seq<char>) -> Seq<
    (Seq<char>, bool, Option<Seq<char>>),
> {
    if starts_with(spec, seq!['@', '/']) && !has_dot_segment(spec.skip(2)) {
        seq![(spec_join(project_root, spec.skip(2)), true, Some(project_root))]
    } else {
        Seq::empty()
    }
}

/// The rest of `spec` after a linked package's alias: empty when `spec` is
/// the alias, the part after `alias/` when it starts so.
pub open spec fn linked_suffix(spec: Seq<char>, alias: Seq<char>) -> Option<Seq<char>> {
    if spec == alias {
        Some(Seq::empty())
    } else if starts_with(spec, alias + seq!['/']) {
        Some(spec.skip(alias.len() + 1 as int))
    } else {
        None
    }
}

/// The probes one linked package contributes, one per alias `spec` goes
/// through (without `.` or `..` segments in what follows it).
pub open spec fn link_probes(root: Seq<char>, aliases: Seq<Seq<char>>, spec: Seq<char>) -> Seq<
    (Seq<char>, bool, Option<Seq<char>>),
>
    decreases aliases.len(),
{
    if aliases.len() == 0 {
        Seq::empty()
    } else {
        let rest = link_probes(root, aliases.drop_last(), spec);
        match linked_suffix(spec, aliases.last()) {
            None => rest,
            Some(suffix) => if has_dot_segment(suffix) {
                rest
            } else {
                rest.push(
                    (
                        if suffix.len() == 0 {
                            root
                        } else {
                            spec_join(root, suffix)
                        },
                        false,
                        Some(root),
                    ),
                )
            },
        }
    }
}

/// The probes of all linked packages, in the order the links are listed.
pub open spec fn links_probes(linked: Seq<(Seq<char>, Seq<Seq<char>>)>, spec: Seq<char>) -> Seq<
    (Seq<char>, bool, Option<Seq<char>>),
>
    decreases linked.len(),
{
    if linked.len() == 0 {
        Seq::empty()
    } else {
        links_probes(linked.drop_last(), spec) + link_probes(
            linked.last().0,
            linked.last().1,
            spec,
        )
    }
}

/// The probes under one module directory, one per alias.
pub open spec fn dir_probes(dir: Seq<char>, aliases: Seq<Seq<char>>) -> Seq<
    (Seq<char>, bool, Option<Seq<char>>),
>
    decreases aliases.len(),
{
    if aliases.len() == 0 {
        Seq::empty()
    } else {
        dir_probes(dir, aliases.drop_last()).push((module_base(dir, aliases.last()), false, None))
    }
}

/// Every probe for `spec`, in the order the loader tries them.
pub open spec fn spec_probes(
    project_root: Seq<char>,
    modules_dir: Seq<char>,
    module_root: Option<Seq<char>>,
    spec: Seq<char>,
    spec_aliases: Seq<Seq<char>>,
    linked: Seq<(Seq<char>, Seq<Seq<char>>)>,
) -> Seq<(Seq<char>, bool, Option<Seq<char>>)> {
    let aliases = all_aliases(spec, spec_aliases);
    root_alias_probe(project_root, spec) + links_probes(linked, spec) + dir_probes(
        modules_dir,
        aliases,
    ) + match module_root {
        Some(r) => dir_probes(r, aliases),
        None => Seq::empty(),
    }
}

fn has_dot_segment_exec(v: &Vec<char>) -> (r: bool)
    ensures
        r == has_dot_segment(v@),
{
    let parts = split_chars(v, '/');
    let ghost pv = parts@.map_values(|x: Vec<char>| x@);
    let mut k: usize = 0;
    while k < parts.len()
        invariant
            k <= parts@.len(),
            pv == parts@.map_values(|x: Vec<char>| x@),
            pv == split_on(v@, '/'),
            forall|m: int| 0 <= m < k ==> pv[m] != seq!['.'] && pv[m] != seq!['.', '.'],
        decreases parts@.len() - k,
    {
        let p = &parts[k];
        let dot = p.len() == 1 && p[0] == '.';
        let dotdot = p.len() == 2 && p[0] == '.' && p[1] == '.';
        proof {
            assert(pv[k as int] == p@);
            if dot {
                assert(p@ =~= seq!['.']);
            }
            if dotdot {
                assert(p@ =~= seq!['.', '.']);
            }
        }
        if dot || dotdot {
            return true;
        }
        k = k + 1;
    }
    false
}

fn starts_with_exec(v: &Vec<char>, p: &Vec<char>) -> (r: bool)
    ensures
        r == starts_with(v@, p@),
{
    crate::install_rules::starts_with_text(v, p)
}

fn strip_prefixes_exec(v: &Vec<char>, p: &Vec<char>) -> (r: String)
    ensures
        r@ == strip_prefixes(v@, p@),
{
    let mut i: usize = 0;
    proof {
        assert(v@.skip(0) =~= v@);
    }
    let vl = v.len();
    let mut more = p.len() > 0 && starts_with_exec(&copy_rest(v, 0), p);
    while more
        invariant
            vl == v@.len(),
            i <= v@.len(),
            more == (p@.len() > 0 && starts_with(v@.skip(i as int), p@)),
            strip_prefixes(v@.skip(i as int), p@) == strip_prefixes(v@, p@),
        decreases v@.len() - i,
    {
        proof {
            assert(starts_with(v@.skip(i as int), p@));
            assert(v@.skip(i as int).len() >= p@.len());
            assert(v@.skip(i as int).len() == v@.len() - i);
            assert(v@.skip(i as int).skip(p@.len() as int) =~= v@.skip(i + p@.len()));
        }
        i = i + p.len();
        more = starts_with_exec(&copy_rest(v, i), p);
    }
    proof {
        assert(v@.subrange(i as int, v@.len() as int) =~= v@.skip(i as int));
    }
    string_of_span(v, i, v.len())
}

fn copy_rest(v: &Vec<char>, i: usize) -> (r: Vec<char>)
    requires
        i <= v@.len(),
    ensures
        r@ == v@.skip(i as int),
{
    let r = crate::islands::copy_span(v, i, v.len());
    proof {
        assert(v@.subrange(i as int, v@.len() as int) =~= v@.skip(i as int));
    }
    r
}

fn module_base_exec(dir: &str, alias: &str) -> (r: String)
    ensures
        r@ == module_base(dir@, alias@),
{
    let a = chars_of(alias);
    let scope = chars_of("@user/");
    proof {
        reveal_strlit("@user/");
        reveal_strlit("@user");
        assert(scope@ =~= user_scope());
        assert("@user"@ =~= seq!['@', 'u', 's', 'e', 'r']);
    }
    if starts_with_exec(&a, &scope) {
        let user_dir = join(dir, "@user");
        let rest = strip_prefixes_exec(&a, &scope);
        join(user_dir.as_str(), rest.as_str())
    } else {
        join(dir, alias)
    }
}

fn stdlib_alias_exec(spec: &str) -> (r: Option<String>)
    ensures
        match stdlib_alias(spec@) {
            Some(a) => r matches Some(s) && s@ == a,
            None => r is None,
        },
{
    let v = chars_of(spec);
    let has_slash = crate::islands::find_char_from(&v, '/', 0).is_some();
    let n = v.len();
    let at = n >= 1 && v[0] == '@';
    let dot_slash = n >= 2 && v[0] == '.' && v[1] == '/';
    let dot_dot_slash = n >= 3 && v[0] == '.' && v[1] == '.' && v[2] == '/';
    proof {
        crate::islands::lemma_find_char_first(v@, '/', 0);
        if has_slash {
            let k = crate::islands::find_char(v@, '/', 0)->0;
            assert(0 <= k < v@.len() && v@[k] == '/');
        }
        if at {
            assert(v@.take(1) =~= seq!['@']);
        } else if n >= 1 {
            assert(v@.take(1)[0] != seq!['@'][0]);
        }
        if dot_slash {
            assert(v@.take(2) =~= seq!['.', '/']);
        } else if n >= 2 {
            assert(v@.take(2)[0] != seq!['.', '/'][0] || v@.take(2)[1] != seq!['.', '/'][1]);
        }
        if dot_dot_slash {
            assert(v@.take(3) =~= seq!['.', '.', '/']);
        } else if n >= 3 {
            assert(v@.take(3)[0] != seq!['.', '.', '/'][0] || v@.take(3)[1] != seq!['.', '.', '/'][1]
                || v@.take(3)[2] != seq!['.', '.', '/'][2]);
        }
    }
    if has_slash && !at && !dot_slash && !dot_dot_slash {
        let mut a = owned("@deka/");
        a.append(spec);
        proof {
            reveal_strlit("@deka/");
        }
        Some(a)
    } else {
        None
    }
}

fn push_dir_probes(out: &mut Vec<Probe>, dir: &str, aliases: &Vec<String>)
    ensures
        probe_views(final(out)@) == probe_views(old(out)@) + dir_probes(dir@, string_views(aliases@)),
{
    let ghost start = probe_views(out@);
    let mut i: usize = 0;
    while i < aliases.len()
        invariant
            i <= aliases@.len(),
            probe_views(out@) == start + dir_probes(dir@, string_views(aliases@.take(i as int))),
        decreases aliases@.len() - i,
    {
        let ghost before = out@;
        proof {
            let s2 = string_views(aliases@.take(i + 1));
            assert(s2.drop_last() =~= string_views(aliases@.take(i as int)));
            assert(s2.last() == aliases@[i as int]@);
        }
        let base = module_base_exec(dir, aliases[i].as_str());
        out.push(Probe { base, public: false, boundary: None });
        i = i + 1;
        proof {
            assert(probe_views(out@) =~= probe_views(before).push(probe_views(out@).last()));
        }
    }
    proof {
        assert(aliases@.take(aliases@.len() as int) =~= aliases@);
    }
}

fn push_link_probes(out: &mut Vec<Probe>, root: &str, aliases: &Vec<String>, spec: &str)
    ensures
        probe_views(final(out)@) == probe_views(old(out)@) + link_probes(
            root@,
            string_views(aliases@),
            spec@,
        ),
{
    let ghost start = probe_views(out@);
    let sv = chars_of(spec);
    let mut i: usize = 0;
    while i < aliases.len()
        invariant
            i <= aliases@.len(),
            sv@ == spec@,
            probe_views(out@) == start + link_probes(
                root@,
                string_views(aliases@.take(i as int)),
                spec@,
            ),
        decreases aliases@.len() - i,
    {
        let ghost before = out@;
        proof {
            let s2 = string_views(aliases@.take(i + 1));
            assert(s2.drop_last() =~= string_views(aliases@.take(i as int)));
            assert(s2.last() == aliases@[i as int]@);
        }
        let av = chars_of(aliases[i].as_str());
        let mut with_slash = chars_of(aliases[i].as_str());
        with_slash.push('/');
        proof {
            assert(with_slash@ =~= aliases@[i as int]@ + seq!['/']);
        }
        let suffix: Option<Vec<char>> = if crate::project::same_chars(&sv, &av) {
            Some(Vec::new())
        } else if starts_with_exec(&sv, &with_slash) {
            Some(copy_rest(&sv, with_slash.len()))
        } else {
            None
        };
        proof {
            match linked_suffix(spec@, aliases@[i as int]@) {
                Some(x) => assert(suffix matches Some(s) && s@ =~= x),
                None => assert(suffix is None),
            }
        }
        match suffix {
            Some(sfx) => {
                if !has_dot_segment_exec(&sfx) {
                    let base = if sfx.len() == 0 {
                        owned(root)
                    } else {
                        let rest = string_of_span(&sfx, 0, sfx.len());
                        proof {
                            assert(sfx@.subrange(0, sfx@.len() as int) =~= sfx@);
                        }
                        join(root, rest.as_str())
                    };
                    out.push(Probe { base, public: false, boundary: Some(owned(root)) });
                    proof {
                        assert(probe_views(out@) =~= probe_views(before).push(
                            probe_views(out@).last(),
                        ));
                    }
                }
            },
            None => {},
        }
        i = i + 1;
    }
    proof {
        assert(aliases@.take(aliases@.len() as int) =~= aliases@);
    }
}

pub open spec fn linked_views(linked: Seq<(String, Vec<String>)>) -> Seq<(Seq<char>, Seq<Seq<char>>)> {
    linked.map_values(|l: (String, Vec<String>)| (l.0@, string_views(l.1@)))
}

/// The probes for `spec`, in order: the `@/` project-root alias (public
/// candidates, kept inside the project root), each linked package whose
/// alias `spec` goes through (kept inside the link), then every alias of
/// `spec` (and `@deka/<spec>` for a prefixed stdlib name) under the
/// project's module directory and under the runtime stdlib root.
/// `spec_aliases` are the aliases the module-spec rules give `spec`;
/// `linked` holds each linked package's root with its aliases.
pub fn module_spec_probes(
    project_root: &str,
    modules_dir: &str,
    module_root: Option<&str>,
    spec: &str,
    spec_aliases: &Vec<String>,
    linked: &Vec<(String, Vec<String>)>,
) -> (r: Vec<Probe>)
    ensures
        probe_views(r@) == spec_probes(
            project_root@,
            modules_dir@,
            match module_root {
                Some(m) => Some(m@),
                None => None,
            },
            spec@,
            string_views(spec_aliases@),
            linked_views(linked@),
        ),
{
    let mut out: Vec<Probe> = Vec::new();
    let v = chars_of(spec);
    let rooted = v.len() >= 2 && v[0] == '@' && v[1] == '/';
    proof {
        if rooted {
            assert(v@.take(2) =~= seq!['@', '/']);
        } else if v@.len() >= 2 {
            assert(v@.take(2)[0] != seq!['@', '/'][0] || v@.take(2)[1] != seq!['@', '/'][1]);
        }
    }
    if rooted {
        let rel = copy_rest(&v, 2);
        if !has_dot_segment_exec(&rel) {
            let rel_text = string_of_span(&rel, 0, rel.len());
            proof {
                assert(rel@.subrange(0, rel@.len() as int) =~= rel@);
            }
            out.push(
                Probe {
                    base: join(project_root, rel_text.as_str()),
                    public: true,
                    boundary: Some(owned(project_root)),
                },
            );
        }
    }
    proof {
        assert(probe_views(out@) =~= root_alias_probe(project_root@, spec@));
    }
    let ghost after_root = probe_views(out@);
    let mut i: usize = 0;
    while i < linked.len()
        invariant
            i <= linked@.len(),
            probe_views(out@) == after_root + links_probes(
                linked_views(linked@.take(i as int)),
                spec@,
            ),
        decreases linked@.len() - i,
    {
        proof {
            let l2 = linked_views(linked@.take(i + 1));
            assert(l2.drop_last() =~= linked_views(linked@.take(i as int)));
            assert(l2.last() == (linked@[i as int].0@, string_views(linked@[i as int].1@)));
        }
        push_link_probes(&mut out, linked[i].0.as_str(), &linked[i].1, spec);
        i = i + 1;
        proof {
            let l2 = linked_views(linked@.take(i as int));
            assert(probe_views(out@) =~= after_root + links_probes(l2, spec@));
        }
    }
    proof {
        assert(linked@.take(linked@.len() as int) =~= linked@);
    }
    let mut aliases: Vec<String> = Vec::new();
    let mut k: usize = 0;
    while k < spec_aliases.len()
        invariant
            k <= spec_aliases@.len(),
            string_views(aliases@) == string_views(spec_aliases@.take(k as int)),
        decreases spec_aliases@.len() - k,
    {
        let ghost before = aliases@;
        aliases.push(spec_aliases[k].clone());
        proof {
            assert(string_views(aliases@) =~= string_views(before).push(spec_aliases@[k as int]@));
            assert(string_views(spec_aliases@.take(k + 1)) =~= string_views(
                spec_aliases@.take(k as int),
            ).push(spec_aliases@[k as int]@));
        }
        k = k + 1;
    }
    proof {
        assert(spec_aliases@.take(spec_aliases@.len() as int) =~= spec_aliases@);
    }
    match stdlib_alias_exec(spec) {
        Some(a) => {
            let ghost before = aliases@;
            aliases.push(a);
            proof {
                assert(string_views(aliases@) =~= string_views(before).push(aliases@.last()@));
            }
        },
        None => {},
    }
    proof {
        assert(string_views(aliases@) == all_aliases(spec@, string_views(spec_aliases@)));
    }
    push_dir_probes(&mut out, modules_dir, &aliases);
    match module_root {
        Some(m) => push_dir_probes(&mut out, m, &aliases),
        None => {},
    }
    proof {
        let mr = match module_root {
            Some(m) => Some(m@),
            None => None::<Seq<char>>,
        };
        let tail = match mr {
            Some(r) => dir_probes(r, string_views(aliases@)),
            None => Seq::<(Seq<char>, bool, Option<Seq<char>>)>::empty(),
        };
        assert(probe_views(out@) =~= root_alias_probe(project_root@, spec@) + links_probes(
            linked_views(linked@),
            spec@,
        ) + dir_probes(modules_dir@, string_views(aliases@)) + tail);
    }
    out
}

proof fn lemma_link_probes_internal(root: Seq<char>, aliases: Seq<Seq<char>>, spec: Seq<char>)
    ensures
        forall|k: int|
            0 <= k < link_probes(root, aliases, spec).len() ==> !(#[trigger] link_probes(
                root,
                aliases,
                spec,
            )[k]).1 && link_probes(root, aliases, spec)[k].2 == Some(root),
    decreases aliases.len(),
{
    if aliases.len() > 0 {
        lemma_link_probes_internal(root, aliases.drop_last(), spec);
    }
}

proof fn lemma_links_probes_internal(linked: Seq<(Seq<char>, Seq<Seq<char>>)>, spec: Seq<char>)
    ensures
        forall|k: int|
            0 <= k < links_probes(linked, spec).len() ==> !(#[trigger] links_probes(
                linked,
                spec,
            )[k]).1 && links_probes(linked, spec)[k].2 is Some,
    decreases linked.len(),
{
    if linked.len() > 0 {
        lemma_links_probes_internal(linked.drop_last(), spec);
        lemma_link_probes_internal(linked.last().0, linked.last().1, spec);
        let a = links_probes(linked.drop_last(), spec);
        let b = link_probes(linked.last().0, linked.last().1, spec);
        assert forall|k: int| 0 <= k < (a + b).len() implies !(#[trigger] (a + b)[k]).1 && (a
            + b)[k].2 is Some by {
            if k >= a.len() {
                assert((a + b)[k] == b[k - a.len()]);
            } else {
                assert((a + b)[k] == a[k]);
            }
        }
    }
}

proof fn lemma_dir_probes_internal(dir: Seq<char>, aliases: Seq<Seq<char>>)
    ensures
        forall|k: int|
            0 <= k < dir_probes(dir, aliases).len() ==> !(#[trigger] dir_probes(dir, aliases)[k]).1
                && dir_probes(dir, aliases)[k].2 is None,
    decreases aliases.len(),
{
    if aliases.len() > 0 {
        lemma_dir_probes_internal(dir, aliases.drop_last());
    }
}

/// Only a `@/` specifier without `.` or `..` segments is probed as a public
/// import, and that single probe is the project-root relative path, kept
/// inside the project root; every other probe is internal.
pub proof fn law_public_probe_is_the_clean_root_alias(
    project_root: Seq<char>,
    modules_dir: Seq<char>,
    module_root: Option<Seq<char>>,
    spec: Seq<char>,
    spec_aliases: Seq<Seq<char>>,
    linked: Seq<(Seq<char>, Seq<Seq<char>>)>,
)
    ensures
        forall|k: int|
            0 <= k < spec_probes(project_root, modules_dir, module_root, spec, spec_aliases, linked).len()
                && (#[trigger] spec_probes(
                project_root,
                modules_dir,
                module_root,
                spec,
                spec_aliases,
                linked,
            )[k]).1 ==> {
                &&& k == 0
                &&& starts_with(spec, seq!['@', '/'])
                &&& !has_dot_segment(spec.skip(2))
                &&& spec_probes(project_root, modules_dir, module_root, spec, spec_aliases, linked)[k]
                    == (spec_join(project_root, spec.skip(2)), true, Some(project_root))
            },
{
    let aliases = all_aliases(spec, spec_aliases);
    let a = root_alias_probe(project_root, spec);
    let b = links_probes(linked, spec);
    let c = dir_probes(modules_dir, aliases);
    let d = match module_root {
        Some(r) => dir_probes(r, aliases),
        None => Seq::empty(),
    };
    lemma_links_probes_internal(linked, spec);
    lemma_dir_probes_internal(modules_dir, aliases);
    match module_root {
        Some(r) => lemma_dir_probes_internal(r, aliases),
        None => {},
    }
    let ps = spec_probes(project_root, modules_dir, module_root, spec, spec_aliases, linked);
    assert(ps == a + b + c + d);
    assert forall|k: int| 0 <= k < ps.len() && (#[trigger] ps[k]).1 implies k == 0 && starts_with(
        spec,
        seq!['@', '/'],
    ) && !has_dot_segment(spec.skip(2)) && ps[k] == (
        spec_join(project_root, spec.skip(2)),
        true,
        Some(project_root),
    ) by {
        if k >= a.len() + b.len() + c.len() {
            assert(ps[k] == d[k - a.len() - b.len() - c.len()]);
        } else if k >= a.len() + b.len() {
            assert(ps[k] == c[k - a.len() - b.len()]);
        } else if k >= a.len() {
            assert(ps[k] == b[k - a.len()]);
        } else {
            assert(ps[k] == a[k]);
        }
    }
}

/// A linked package wins over anything installed: every probe of a link
/// (internal, kept inside the link) comes before every probe of the
/// module directories (internal, unbounded).
pub proof fn law_links_are_probed_before_installed_modules(
    project_root: Seq<char>,
    modules_dir: Seq<char>,
    module_root: Option<Seq<char>>,
    spec: Seq<char>,
    spec_aliases: Seq<Seq<char>>,
    linked: Seq<(Seq<char>, Seq<Seq<char>>)>,
)
    ensures
        ({
            let ps = spec_probes(project_root, modules_dir, module_root, spec, spec_aliases, linked);
            forall|i: int, j: int|
                0 <= i < ps.len() && 0 <= j < ps.len() && !(#[trigger] ps[i]).1 && ps[i].2 is Some
                    && (#[trigger] ps[j]).2 is None ==> i < j
        }),
{
    let aliases = all_aliases(spec, spec_aliases);
    let a = root_alias_probe(project_root, spec);
    let b = links_probes(linked, spec);
    let c = dir_probes(modules_dir, aliases);
    let d = match module_root {
        Some(r) => dir_probes(r, aliases),
        None => Seq::empty(),
    };
    lemma_links_probes_internal(linked, spec);
    lemma_dir_probes_internal(modules_dir, aliases);
    match module_root {
        Some(r) => lemma_dir_probes_internal(r, aliases),
        None => {},
    }
    let ps = spec_probes(project_root, modules_dir, module_root, spec, spec_aliases, linked);
    assert(ps == a + b + c + d);
    assert forall|k: int| 0 <= k < ps.len() implies ((#[trigger] ps[k]).2 is None <==> k >= a.len() + b.len())
        && (k < a.len() ==> ps[k].1) by {
        if k >= a.len() + b.len() + c.len() {
            assert(ps[k] == d[k - a.len() - b.len() - c.len()]);
        } else if k >= a.len() + b.len() {
            assert(ps[k] == c[k - a.len() - b.len()]);
        } else if k >= a.len() {
            assert(ps[k] == b[k - a.len()]);
        } else {
            assert(ps[k] == a[k]);
        }
    }
}

} // verus!
