//! The shared islands hydration bundle: compiled island modules linked into
//! one script. Static `import { .. } from ".."` declarations of relative
//! modules become lookups in a module table, `export`s become entries in it,
//! and bare imports (`@js/..` builtins) are kept as they are.
//!
//! Module text is scanned as characters; every delimiter the scanner looks
//! for is ASCII. Modules are keyed by their path text, and the relative
//! imports of a module are the static import declarations the scanner finds
//! in it.

use vstd::prelude::*;
use crate::text::{comma_list};
use crate::text::string_views;
use crate::text::{chars_of, owned, string_of_span, string_push, trim, trim_span};
use crate::paths::{join, spec_join, replace, replace_all};

verus! {

// ---- character classes ----------------------------------------------------------

/// `is_ascii_alphanumeric`, `_` or `$`.
pub open spec fn is_ident_char(c: char) -> bool {
    ('a' <= c <= 'z') || ('A' <= c <= 'Z') || ('0' <= c <= '9') || c == '_' || c == '$'
}

/// `is_ascii_whitespace`.
pub open spec fn is_ascii_ws(c: char) -> bool {
    c == ' ' || c == '\t' || c == '\n' || c == '\x0C' || c == '\r'
}

pub fn is_ident_char_exec(c: char) -> (r: bool)
    ensures
        r == is_ident_char(c),
{
    ('a' <= c && c <= 'z') || ('A' <= c && c <= 'Z') || ('0' <= c && c <= '9') || c == '_' || c
        == '$'
}

/// First index at or after `i` that is not ASCII white space.
pub open spec fn ws_end(s: Seq<char>, i: int) -> int
    decreases s.len() - i,
{
    if 0 <= i < s.len() && is_ascii_ws(s[i]) {
        ws_end(s, i + 1)
    } else {
        i
    }
}

pub fn skip_ws(s: &Vec<char>, i: usize) -> (r: usize)
    requires
        i <= s@.len(),
    ensures
        r == ws_end(s@, i as int),
        i <= r <= s@.len(),
{
    let mut k = i;
    while k < s.len() && (s[k] == ' ' || s[k] == '\t' || s[k] == '\n' || s[k] == '\x0C' || s[k]
        == '\r')
        invariant
            i <= k <= s@.len(),
            ws_end(s@, k as int) == ws_end(s@, i as int),
        decreases s@.len() - k,
    {
        k = k + 1;
    }
    k
}

/// `w` stands at `i` as a whole word.
pub open spec fn word_at(s: Seq<char>, i: int, w: Seq<char>) -> bool {
    &&& 0 <= i
    &&& i + w.len() <= s.len()
    &&& s.subrange(i, i + w.len()) == w
    &&& (i == 0 || !is_ident_char(s[i - 1]))
    &&& (i + w.len() == s.len() || !is_ident_char(s[i + w.len()]))
}

/// Whether `v[i..]` starts with `w`.
fn starts_at(v: &Vec<char>, i: usize, w: &Vec<char>) -> (r: bool)
    requires
        i <= v@.len(),
    ensures
        r == (i + w@.len() <= v@.len() && v@.subrange(i as int, i + w@.len()) == w@),
{
    let n = w.len();
    let vl = v.len();
    if n > vl - i {
        return false;
    }
    let mut k: usize = 0;
    while k < n
        invariant
            vl == v@.len(),
            n == w@.len(),
            i + n <= v@.len(),
            k <= n,
            forall|m: int| 0 <= m < k ==> v@[i + m] == w@[m],
        decreases w@.len() - k,
    {
        if v[i + k] != w[k] {
            proof {
                assert(v@.subrange(i as int, i + w@.len())[k as int] != w@[k as int]);
            }
            return false;
        }
        k = k + 1;
    }
    proof {
        assert(v@.subrange(i as int, i + w@.len()) =~= w@);
    }
    true
}

pub fn is_word_at(v: &Vec<char>, i: usize, w: &Vec<char>) -> (r: bool)
    requires
        i <= v@.len(),
    ensures
        r == word_at(v@, i as int, w@),
{
    if !starts_at(v, i, w) {
        return false;
    }
    let vl = v.len();
    let wl = w.len();
    assert(i + wl <= vl);
    let end = i + wl;
    let before_ok = i == 0 || !is_ident_char_exec(v[i - 1]);
    let after_ok = end == v.len() || !is_ident_char_exec(v[end]);
    before_ok && after_ok
}

// ---- quoted specifiers -------------------------------------------------------------

/// Index of the quote `q` that closes a string whose body starts at `j`;
/// a backslash escapes the character after it.
pub open spec fn quote_close(s: Seq<char>, q: char, j: int) -> Option<int>
    decreases s.len() - j,
{
    if j < 0 || j >= s.len() {
        None
    } else if s[j] == q {
        Some(j)
    } else if s[j] == '\\' {
        if j + 2 >= s.len() {
            None
        } else {
            quote_close(s, q, j + 2)
        }
    } else {
        quote_close(s, q, j + 1)
    }
}

/// The body of the quoted string at `i` and the index after it.
pub open spec fn quoted_at(s: Seq<char>, i: int) -> Option<(Seq<char>, int)> {
    if i < 0 || i >= s.len() || (s[i] != '"' && s[i] != '\'') {
        None
    } else {
        match quote_close(s, s[i], i + 1) {
            Some(j) => Some((s.subrange(i + 1, j), j + 1)),
            None => None,
        }
    }
}

pub fn take_quoted(v: &Vec<char>, i: usize) -> (r: Option<(String, usize)>)
    requires
        i <= v@.len(),
    ensures
        match quoted_at(v@, i as int) {
            Some((body, e)) => r matches Some((b, k)) && b@ == body && k == e,
            None => r is None,
        },
{
    if i >= v.len() {
        return None;
    }
    let q = v[i];
    if q != '"' && q != '\'' {
        return None;
    }
    let mut j = i + 1;
    while j < v.len() && v[j] != q
        invariant
            i < j,
            i < v@.len(),
            q == v@[i as int],
            quote_close(v@, q, j as int) == quote_close(v@, q, i + 1),
        decreases v@.len() - j,
    {
        if v[j] == '\\' {
            if v.len() - j < 2 {
                proof {
                    assert(quote_close(v@, q, j + 2) is None);
                }
                return None;
            }
            j = j + 2;
        } else {
            j = j + 1;
        }
    }
    if j >= v.len() {
        return None;
    }
    Some((string_of_span(v, i + 1, j), j + 1))
}

// ---- import clauses -------------------------------------------------------------

/// Index of the first `c` in `s` at or after `i`.
pub open spec fn find_char(s: Seq<char>, c: char, i: int) -> Option<int>
    decreases s.len() - i,
{
    if i < 0 || i >= s.len() {
        None
    } else if s[i] == c {
        Some(i)
    } else {
        find_char(s, c, i + 1)
    }
}

pub fn find_char_from(v: &Vec<char>, c: char, i: usize) -> (r: Option<usize>)
    requires
        i <= v@.len(),
    ensures
        match find_char(v@, c, i as int) {
            Some(k) => r == Some(k as usize) && i <= k < v@.len(),
            None => r is None,
        },
{
    let mut k = i;
    while k < v.len() && v[k] != c
        invariant
            i <= k <= v@.len(),
            find_char(v@, c, k as int) == find_char(v@, c, i as int),
        decreases v@.len() - k,
    {
        k = k + 1;
    }
    if k < v.len() {
        Some(k)
    } else {
        None
    }
}

/// `str::split(c)`: the pieces between occurrences of `c`.
pub open spec fn split_on(s: Seq<char>, c: char) -> Seq<Seq<char>>
    decreases s.len(),
{
    match find_char(s, c, 0) {
        Some(k) => if 0 <= k < s.len() {
            seq![s.take(k)] + split_on(s.skip(k + 1), c)
        } else {
            seq![s]
        },
        None => seq![s],
    }
}

/// A split always has at least one piece.
pub proof fn lemma_split_nonempty(s: Seq<char>, c: char)
    ensures
        split_on(s, c).len() >= 1,
    decreases s.len(),
{
    match find_char(s, c, 0) {
        Some(k) => {
            if 0 <= k < s.len() {
                lemma_split_nonempty(s.skip(k + 1), c);
            }
        },
        None => {},
    }
}

/// `find_char` finds the first `c` from `i`, and `None` means there is none.
pub proof fn lemma_find_char_first(s: Seq<char>, c: char, i: int)
    requires
        0 <= i,
    ensures
        match find_char(s, c, i) {
            Some(k) => i <= k < s.len() && s[k] == c && forall|m: int| i <= m < k ==> s[m] != c,
            None => forall|m: int| i <= m < s.len() ==> s[m] != c,
        },
    decreases s.len() - i,
{
    if i < s.len() && s[i] != c {
        lemma_find_char_first(s, c, i + 1);
    }
}

proof fn lemma_find_char_bounds(s: Seq<char>, c: char, i: int)
    requires
        0 <= i,
    ensures
        match find_char(s, c, i) {
            Some(k) => i <= k < s.len() && s[k] == c,
            None => true,
        },
    decreases s.len() - i,
{
    if i < s.len() && s[i] != c {
        lemma_find_char_bounds(s, c, i + 1);
    }
}

/// The first index at or after `i` where `pat` occurs in `s`.
pub open spec fn find_sub(s: Seq<char>, pat: Seq<char>, i: int) -> Option<int>
    decreases s.len() + 1 - i,
{
    if i < 0 || i + pat.len() > s.len() {
        None
    } else if s.subrange(i, i + pat.len()) == pat {
        Some(i)
    } else {
        find_sub(s, pat, i + 1)
    }
}

/// Whether `pat` occurs in `s`.
pub open spec fn contains_text(s: Seq<char>, pat: Seq<char>) -> bool {
    find_sub(s, pat, 0) is Some
}

pub fn find_sub_from(v: &Vec<char>, pat: &Vec<char>, i: usize) -> (r: Option<usize>)
    requires
        i <= v@.len(),
    ensures
        match find_sub(v@, pat@, i as int) {
            Some(k) => r == Some(k as usize) && i <= k && k + pat@.len() <= v@.len(),
            None => r is None,
        },
{
    let mut k = i;
    let vl = v.len();
    while k <= vl
        invariant
            vl == v@.len(),
            i <= k <= v@.len() + 1,
            k <= v@.len() ==> find_sub(v@, pat@, k as int) == find_sub(v@, pat@, i as int),
            k > v@.len() ==> find_sub(v@, pat@, i as int) is None,
        decreases v@.len() + 1 - k,
    {
        if starts_at(v, k, pat) {
            return Some(k);
        }
        if pat.len() > vl - k {
            return None;
        }
        proof {
            if k == vl {
                assert(v@.subrange(k as int, k + pat@.len()) =~= pat@);
            }
        }
        k = k + 1;
    }
    None
}

/// One imported binding: `imported as local`, or one name for both.
pub open spec fn binding(part: Seq<char>) -> (Seq<char>, Seq<char>) {
    match find_sub(part, " as "@, 0) {
        Some(k) => (trim(part.take(k)), trim(part.skip(k + 4))),
        None => (part, part),
    }
}

/// The bindings of a `{ .. }` clause body: comma-separated, trimmed, blank
/// pieces skipped.
pub open spec fn bindings(pieces: Seq<Seq<char>>) -> Seq<(Seq<char>, Seq<char>)>
    decreases pieces.len(),
{
    if pieces.len() == 0 {
        Seq::empty()
    } else {
        let rest = bindings(pieces.drop_first());
        let p = trim(pieces[0]);
        if p.len() == 0 {
            rest
        } else {
            seq![binding(p)] + rest
        }
    }
}

/// The import clause at `i`: no bindings before a quote, or the bindings of
/// a `{ .. }` clause; with the index after it.
pub open spec fn import_clause(s: Seq<char>, i: int) -> Option<(Seq<(Seq<char>, Seq<char>)>, int)> {
    let k = ws_end(s, i);
    if 0 <= k < s.len() && (s[k] == '"' || s[k] == '\'') {
        Some((Seq::empty(), k))
    } else if 0 <= k < s.len() && s[k] == '{' {
        match find_char(s, '}', k + 1) {
            Some(close) => Some((bindings(split_on(s.subrange(k + 1, close), ',')), close + 1)),
            None => None,
        }
    } else {
        None
    }
}

/// A binding as it is written on the importing side: `local`, or
/// `imported: local` for a renamed one.
pub open spec fn local_text(b: (Seq<char>, Seq<char>)) -> Seq<char> {
    if b.0 == b.1 {
        b.1
    } else {
        b.0 + seq![':', ' '] + b.1
    }
}

pub open spec fn local_texts(bs: Seq<(Seq<char>, Seq<char>)>) -> Seq<Seq<char>> {
    bs.map_values(|b: (Seq<char>, Seq<char>)| local_text(b))
}

pub open spec fn import_word() -> Seq<char> {
    seq!['i', 'm', 'p', 'o', 'r', 't']
}

pub open spec fn from_word() -> Seq<char> {
    seq!['f', 'r', 'o', 'm']
}

/// The static import declaration that starts at `i`, if one does: where it
/// ends (after an optional `;` and newline), its specifier and bindings.
pub open spec fn import_at(s: Seq<char>, i: int) -> Option<(int, Seq<char>, Seq<Seq<char>>)> {
    if !word_at(s, i, import_word()) {
        None
    } else {
        match import_clause(s, ws_end(s, i + 6)) {
            None => None,
            Some((bs, after)) => {
                let k = ws_end(s, after);
                if !word_at(s, k, from_word()) {
                    None
                } else {
                    match quoted_at(s, ws_end(s, k + 4)) {
                        None => None,
                        Some((spec, after_spec)) => {
                            let e1 = ws_end(s, after_spec);
                            let e2 = if 0 <= e1 < s.len() && s[e1] == ';' {
                                e1 + 1
                            } else {
                                e1
                            };
                            let e3 = if 0 <= e2 < s.len() && s[e2] == '\n' {
                                e2 + 1
                            } else {
                                e2
                            };
                            Some((e3, spec, local_texts(bs)))
                        },
                    }
                }
            },
        }
    }
}

/// The first import declaration at or after `i`: its start and end, its
/// specifier and bindings.
pub open spec fn first_import(s: Seq<char>, i: int) -> Option<(int, int, Seq<char>, Seq<Seq<char>>)>
    decreases s.len() - i,
{
    if i < 0 || i >= s.len() {
        None
    } else {
        match import_at(s, i) {
            Some((e, spec, names)) => Some((i, e, spec, names)),
            None => first_import(s, i + 1),
        }
    }
}


/// `v[a..b]` as its own vector.
pub fn copy_span(v: &Vec<char>, a: usize, b: usize) -> (r: Vec<char>)
    requires
        a <= b <= v@.len(),
    ensures
        r@ == v@.subrange(a as int, b as int),
{
    let mut out: Vec<char> = Vec::new();
    let mut i = a;
    while i < b
        invariant
            a <= i <= b <= v@.len(),
            out@ == v@.subrange(a as int, i as int),
        decreases b - i,
    {
        out.push(v[i]);
        i = i + 1;
        proof {
            assert(out@ =~= v@.subrange(a as int, i as int));
        }
    }
    out
}

/// An imported binding.
pub struct ImportedName {
    pub imported: String,
    pub local: String,
}

/// Split one clause piece into the imported name and its local name.
pub fn parse_as_name(part: &Vec<char>) -> (r: ImportedName)
    ensures
        (r.imported@, r.local@) == binding(part@),
{
    let pat = vec![' ', 'a', 's', ' '];
    proof {
        reveal_strlit(" as ");
        assert(pat@ =~= " as "@);
    }
    let pl = part.len();
    match find_sub_from(part, &pat, 0) {
        Some(k) => {
            let (a, b) = trim_span(part, 0, k);
            let (c, d) = trim_span(part, k + 4, pl);
            proof {
                assert(part@.subrange(0, k as int) =~= part@.take(k as int));
                assert(part@.subrange(k + 4, part@.len() as int) =~= part@.skip(k + 4));
            }
            ImportedName { imported: string_of_span(part, a, b), local: string_of_span(part, c, d) }
        },
        None => {
            proof {
                assert(part@.subrange(0, part@.len() as int) =~= part@);
            }
            ImportedName {
                imported: string_of_span(part, 0, part.len()),
                local: string_of_span(part, 0, part.len()),
            }
        },
    }
}

pub open spec fn name_views(v: Seq<ImportedName>) -> Seq<(Seq<char>, Seq<char>)> {
    v.map_values(|n: ImportedName| (n.imported@, n.local@))
}

/// The bindings of a clause body.
fn clause_bindings(inner: &Vec<char>) -> (r: Vec<ImportedName>)
    ensures
        name_views(r@) == bindings(split_on(inner@, ',')),
{
    let mut out: Vec<ImportedName> = Vec::new();
    let mut rest = copy_span(inner, 0, inner.len());
    proof {
        assert(inner@.subrange(0, inner@.len() as int) =~= inner@);
    }
    loop
        invariant
            name_views(out@) + bindings(split_on(rest@, ',')) == bindings(split_on(inner@, ',')),
        decreases rest@.len(),
    {
        let f = find_char_from(&rest, ',', 0);
        proof {
            lemma_find_char_bounds(rest@, ',', 0);
        }
        let cut = match f {
            Some(k) => k,
            None => rest.len(),
        };
        let rl = rest.len();
        let ghost pieces = split_on(rest@, ',');
        proof {
            if f is None {
                assert(rest@.take(cut as int) =~= rest@);
            }
            assert(pieces[0] == rest@.take(cut as int));
            assert(rest@.take(cut as int) =~= rest@.subrange(0, cut as int));
        }
        let (a, b) = trim_span(&rest, 0, cut);
        let ghost before = out@;
        if a < b {
            let piece = copy_span(&rest, a, b);
            let n = parse_as_name(&piece);
            out.push(n);
            proof {
                assert(name_views(out@) =~= name_views(before) + seq![binding(piece@)]);
            }
        }
        proof {
            let tail = pieces.drop_first();
            assert(bindings(pieces) == (if trim(pieces[0]).len() == 0 {
                bindings(tail)
            } else {
                seq![binding(trim(pieces[0]))] + bindings(tail)
            }));
            if a < b {
                assert(name_views(out@) + bindings(tail) =~= name_views(before) + bindings(pieces));
            } else {
                assert(name_views(out@) + bindings(tail) =~= name_views(before) + bindings(pieces));
            }
        }
        match f {
            Some(k) => {
                let next = copy_span(&rest, k + 1, rl);
                proof {
                    assert(rest@.subrange(k + 1, rest@.len() as int) =~= rest@.skip(k + 1));
                    assert(pieces.drop_first() == split_on(next@, ','));
                }
                rest = next;
            },
            None => {
                proof {
                    assert(pieces.drop_first() =~= Seq::<Seq<char>>::empty());
                    assert(name_views(out@) =~= bindings(split_on(inner@, ',')));
                }
                return out;
            },
        }
    }
}

/// The import clause at `i`.
pub fn take_import_clause(v: &Vec<char>, i: usize) -> (r: Option<(Vec<ImportedName>, usize)>)
    requires
        i <= v@.len(),
    ensures
        match import_clause(v@, i as int) {
            Some((bs, e)) => r matches Some((ns, k)) && name_views(ns@) == bs && k == e,
            None => r is None,
        },
{
    let k = skip_ws(v, i);
    if k < v.len() && (v[k] == '"' || v[k] == '\'') {
        let empty: Vec<ImportedName> = Vec::new();
        proof {
            assert(name_views(empty@) =~= Seq::<(Seq<char>, Seq<char>)>::empty());
        }
        return Some((empty, k));
    }
    if k < v.len() && v[k] == '{' {
        match find_char_from(v, '}', k + 1) {
            Some(close) => {
                let inner = copy_span(v, k + 1, close);
                let names = clause_bindings(&inner);
                return Some((names, close + 1));
            },
            None => {
                return None;
            },
        }
    }
    None
}

/// The bindings as written on the importing side.
fn locals_of(names: &Vec<ImportedName>) -> (r: Vec<String>)
    ensures
        string_views(r@) == local_texts(name_views(names@)),
{
    let mut out: Vec<String> = Vec::new();
    let mut i: usize = 0;
    while i < names.len()
        invariant
            i <= names@.len(),
            string_views(out@) == local_texts(name_views(names@.take(i as int))),
        decreases names@.len() - i,
    {
        let n = &names[i];
        let t = if n.imported == n.local {
            owned(n.local.as_str())
        } else {
            let mut t = owned(n.imported.as_str());
            string_push(&mut t, ':');
            string_push(&mut t, ' ');
            t.append(n.local.as_str());
            t
        };
        let ghost before = out@;
        out.push(t);
        proof {
            assert(string_views(out@) =~= string_views(before).push(t@));
            assert(name_views(names@.take(i + 1)) =~= name_views(names@.take(i as int)).push(
                (names@[i as int].imported@, names@[i as int].local@),
            ));
            assert(local_texts(name_views(names@.take(i + 1))) =~= local_texts(
                name_views(names@.take(i as int)),
            ).push(local_text((names@[i as int].imported@, names@[i as int].local@))));
            assert(t@ =~= local_text((names@[i as int].imported@, names@[i as int].local@)));
        }
        i = i + 1;
    }
    proof {
        assert(names@.take(names@.len() as int) =~= names@);
    }
    out
}

/// The declaration starting exactly at `i`, if it is an import.
fn import_at_exec(v: &Vec<char>, i: usize) -> (r: Option<(usize, String, Vec<String>)>)
    requires
        i <= v@.len(),
    ensures
        match import_at(v@, i as int) {
            Some((e, spec, names)) => r matches Some((k, sp, ns)) && k == e && sp@ == spec
                && string_views(ns@) == names,
            None => r is None,
        },
{
    let import_kw = vec!['i', 'm', 'p', 'o', 'r', 't'];
    let from_kw = vec!['f', 'r', 'o', 'm'];
    proof {
        assert(import_kw@ =~= import_word());
        assert(from_kw@ =~= from_word());
    }
    let vl = v.len();
    if !is_word_at(v, i, &import_kw) {
        return None;
    }
    let k0 = skip_ws(v, i + 6);
    let (names, after) = match take_import_clause(v, k0) {
        Some(x) => x,
        None => {
            return None;
        },
    };
    proof {
        lemma_clause_end(v@, k0 as int);
    }
    let k = skip_ws(v, after);
    if !is_word_at(v, k, &from_kw) {
        return None;
    }
    let k2 = skip_ws(v, k + 4);
    let (spec, after_spec) = match take_quoted(v, k2) {
        Some(x) => x,
        None => {
            return None;
        },
    };
    proof {
        if k2 < v@.len() {
            lemma_quote_close(v@, v@[k2 as int], k2 + 1);
        }
    }
    let mut end = skip_ws(v, after_spec);
    if end < v.len() && v[end] == ';' {
        end = end + 1;
    }
    if end < v.len() && v[end] == '\n' {
        end = end + 1;
    }
    let locals = locals_of(&names);
    Some((end, spec, locals))
}

proof fn lemma_quote_close(s: Seq<char>, q: char, j: int)
    requires
        0 <= j,
    ensures
        match quote_close(s, q, j) {
            Some(k) => j <= k < s.len(),
            None => true,
        },
    decreases s.len() - j,
{
    if j < s.len() && s[j] != q {
        if s[j] == '\\' {
            if j + 2 < s.len() {
                lemma_quote_close(s, q, j + 2);
            }
        } else {
            lemma_quote_close(s, q, j + 1);
        }
    }
}

proof fn lemma_clause_end(s: Seq<char>, i: int)
    requires
        0 <= i <= s.len(),
    ensures
        match import_clause(s, i) {
            Some((bs, e)) => i <= e <= s.len(),
            None => true,
        },
{
    lemma_ws_end(s, i);
    let k = ws_end(s, i);
    if 0 <= k < s.len() && s[k] == '{' {
        lemma_find_char_bounds(s, '}', k + 1);
    }
}

proof fn lemma_ws_end(s: Seq<char>, i: int)
    requires
        0 <= i <= s.len(),
    ensures
        i <= ws_end(s, i) <= s.len(),
    decreases s.len() - i,
{
    if i < s.len() && is_ascii_ws(s[i]) {
        lemma_ws_end(s, i + 1);
    }
}

/// The first import declaration of `v`: `(start, end, specifier, bindings)`.
pub fn next_import(v: &Vec<char>) -> (r: Option<(usize, usize, String, Vec<String>)>)
    ensures
        match first_import(v@, 0) {
            Some((st, e, spec, names)) => r matches Some((a, b, sp, ns)) && a == st && b == e
                && sp@ == spec && string_views(ns@) == names,
            None => r is None,
        },
{
    let mut i: usize = 0;
    while i < v.len()
        invariant
            i <= v@.len(),
            first_import(v@, i as int) == first_import(v@, 0),
        decreases v@.len() - i,
    {
        match import_at_exec(v, i) {
            Some((e, spec, names)) => {
                return Some((i, e, spec, names));
            },
            None => {},
        }
        i = i + 1;
    }
    None
}


// ---- exports -------------------------------------------------------------------

/// Characters that may start an identifier.
pub open spec fn is_ident_start(c: char) -> bool {
    ('a' <= c <= 'z') || ('A' <= c <= 'Z') || c == '_' || c == '$'
}

/// End of the run of identifier characters from `i`.
pub open spec fn ident_run(s: Seq<char>, i: int) -> int
    decreases s.len() - i,
{
    if 0 <= i < s.len() && is_ident_char(s[i]) {
        ident_run(s, i + 1)
    } else {
        i
    }
}

/// The identifier at the start of `s`, if one starts there.
pub open spec fn ident_prefix(s: Seq<char>) -> Option<Seq<char>> {
    if s.len() == 0 || !is_ident_start(s[0]) {
        None
    } else {
        Some(s.take(ident_run(s, 1)))
    }
}

proof fn lemma_ident_run(s: Seq<char>, i: int)
    requires
        0 <= i <= s.len(),
    ensures
        i <= ident_run(s, i) <= s.len(),
    decreases s.len() - i,
{
    if i < s.len() && is_ident_char(s[i]) {
        lemma_ident_run(s, i + 1);
    }
}

pub fn ident_at_start(v: &Vec<char>) -> (r: Option<String>)
    ensures
        match ident_prefix(v@) {
            Some(n) => r matches Some(t) && t@ == n,
            None => r is None,
        },
{
    if v.len() == 0 {
        return None;
    }
    let c = v[0];
    if !(('a' <= c && c <= 'z') || ('A' <= c && c <= 'Z') || c == '_' || c == '$') {
        return None;
    }
    let mut k: usize = 1;
    while k < v.len() && is_ident_char_exec(v[k])
        invariant
            1 <= k <= v@.len(),
            ident_run(v@, k as int) == ident_run(v@, 1),
        decreases v@.len() - k,
    {
        k = k + 1;
    }
    proof {
        assert(v@.subrange(0, k as int) =~= v@.take(k as int));
    }
    Some(string_of_span(v, 0, k))
}

pub open spec fn export_word() -> Seq<char> {
    seq!['e', 'x', 'p', 'o', 'r', 't', ' ']
}

pub open spec fn function_word() -> Seq<char> {
    seq!['f', 'u', 'n', 'c', 't', 'i', 'o', 'n', ' ']
}

pub open spec fn async_function_word() -> Seq<char> {
    seq!['a', 's', 'y', 'n', 'c', ' '] + function_word()
}

pub open spec fn const_word() -> Seq<char> {
    seq!['c', 'o', 'n', 's', 't', ' ']
}

pub open spec fn as_word() -> Seq<char> {
    seq![' ', 'a', 's', ' ']
}

pub open spec fn starts_with(s: Seq<char>, w: Seq<char>) -> bool {
    s.len() >= w.len() && s.take(w.len() as int) == w
}

/// The name an export-list entry exports: the piece after the first ` as `
/// (up to a second one), or the entry itself; trimmed.
pub open spec fn exported_name(p: Seq<char>) -> Seq<char> {
    match find_sub(p, as_word(), 0) {
        Some(k) => {
            let a = p.skip(k + 4);
            match find_sub(a, as_word(), 0) {
                Some(k2) => trim(a.take(k2)),
                None => trim(a),
            }
        },
        None => trim(p),
    }
}

/// The names of an export list's comma-separated pieces, blank ones
/// skipped.
pub open spec fn export_list_names(pieces: Seq<Seq<char>>) -> Seq<Seq<char>>
    decreases pieces.len(),
{
    if pieces.len() == 0 {
        Seq::empty()
    } else {
        let rest = export_list_names(pieces.drop_first());
        let p = trim(pieces[0]);
        if p.len() == 0 {
            rest
        } else {
            seq![exported_name(p)] + rest
        }
    }
}

/// Number of leading `;` and newline characters.
pub open spec fn lead_semis(s: Seq<char>) -> nat
    decreases s.len(),
{
    if s.len() > 0 && (s[0] == ';' || s[0] == '\n') {
        1 + lead_semis(s.drop_first())
    } else {
        0
    }
}

pub proof fn lemma_lead_semis(s: Seq<char>)
    ensures
        lead_semis(s) <= s.len(),
    decreases s.len(),
{
    if s.len() > 0 && (s[0] == ';' || s[0] == '\n') {
        lemma_lead_semis(s.drop_first());
    }
}

pub open spec fn opt_seq(o: Option<Seq<char>>) -> Seq<Seq<char>> {
    match o {
        Some(n) => seq![n],
        None => Seq::empty(),
    }
}

/// One step of export stripping: the text before the next `export `
/// with what replaces the keyword, the names that declaration exports, and
/// the rest of the text; `None` when no `export ` is left.
pub open spec fn export_step(s: Seq<char>) -> Option<(Seq<char>, Seq<Seq<char>>, Seq<char>)> {
    match find_sub(s, export_word(), 0) {
        None => None,
        Some(at) => if at < 0 || at + 7 > s.len() {
            None
        } else {
            let pre = s.take(at);
            let after = s.skip(at + 7);
            if starts_with(after, function_word()) && ident_prefix(after.skip(9)) is Some {
                Some((pre + function_word(), opt_seq(ident_prefix(after.skip(9))), after.skip(9)))
            } else if starts_with(after, async_function_word()) && ident_prefix(after.skip(15)) is Some {
                Some((pre + async_function_word(), opt_seq(ident_prefix(after.skip(15))), after.skip(15)))
            } else if starts_with(after, const_word()) {
                Some((pre + const_word(), opt_seq(ident_prefix(after.skip(6))), after.skip(6)))
            } else if after.len() > 0 && after[0] == '{' && find_char(after, '}', 0) is Some
                && 1 <= find_char(after, '}', 0)->0 < after.len() {
                let close = find_char(after, '}', 0)->0;
                let tail = after.skip(close + 1);
                Some((
                    pre,
                    export_list_names(split_on(after.subrange(1, close), ',')),
                    tail.skip(lead_semis(tail) as int),
                ))
            } else {
                Some((pre + export_word(), Seq::empty(), after))
            }
        },
    }
}

/// A module body with its `export` keywords removed, and the names it
/// exports: `export function f`, `export async function f` and
/// `export const x` keep the declaration, `export { .. }` lists disappear,
/// any other `export ` stays.
pub open spec fn stripped_exports(s: Seq<char>) -> (Seq<char>, Seq<Seq<char>>)
    decreases s.len(),
{
    match export_step(s) {
        None => (s, Seq::empty()),
        Some(st) => if st.2.len() < s.len() {
            let r = stripped_exports(st.2);
            (st.0 + r.0, st.1 + r.1)
        } else {
            (s, Seq::empty())
        },
    }
}

/// Append the characters of `v` to `s`.
pub fn append_chars(s: &mut String, v: &Vec<char>)
    ensures
        final(s)@ == old(s)@ + v@,
{
    let ghost start = s@;
    let mut i: usize = 0;
    while i < v.len()
        invariant
            i <= v@.len(),
            s@ == start + v@.take(i as int),
        decreases v@.len() - i,
    {
        string_push(s, v[i]);
        i = i + 1;
        proof {
            assert(s@ =~= start + v@.take(i as int));
        }
    }
    proof {
        assert(v@.take(v@.len() as int) =~= v@);
    }
}

/// The name an export-list piece exports.
fn exported_name_exec(p: &Vec<char>) -> (r: String)
    ensures
        r@ == exported_name(p@),
{
    let pat = vec![' ', 'a', 's', ' '];
    proof {
        assert(pat@ =~= as_word());
    }
    let pl = p.len();
    match find_sub_from(p, &pat, 0) {
        Some(k) => {
            let a = copy_span(p, k + 4, pl);
            proof {
                assert(a@ =~= p@.skip(k + 4));
            }
            let al = a.len();
            match find_sub_from(&a, &pat, 0) {
                Some(k2) => {
                    let (x, y) = trim_span(&a, 0, k2);
                    proof {
                        assert(a@.subrange(0, k2 as int) =~= a@.take(k2 as int));
                    }
                    string_of_span(&a, x, y)
                },
                None => {
                    let (x, y) = trim_span(&a, 0, al);
                    proof {
                        assert(a@.subrange(0, al as int) =~= a@);
                    }
                    string_of_span(&a, x, y)
                },
            }
        },
        None => {
            let (x, y) = trim_span(p, 0, pl);
            proof {
                assert(p@.subrange(0, pl as int) =~= p@);
            }
            string_of_span(p, x, y)
        },
    }
}

/// The names of an export list body.
fn export_list(inner: &Vec<char>) -> (r: Vec<String>)
    ensures
        string_views(r@) == export_list_names(split_on(inner@, ',')),
{
    let mut out: Vec<String> = Vec::new();
    let mut rest = copy_span(inner, 0, inner.len());
    proof {
        assert(inner@.subrange(0, inner@.len() as int) =~= inner@);
    }
    loop
        invariant
            string_views(out@) + export_list_names(split_on(rest@, ',')) == export_list_names(
                split_on(inner@, ','),
            ),
        decreases rest@.len(),
    {
        let f = find_char_from(&rest, ',', 0);
        proof {
            lemma_find_char_bounds(rest@, ',', 0);
        }
        let cut = match f {
            Some(k) => k,
            None => rest.len(),
        };
        let rl = rest.len();
        let ghost pieces = split_on(rest@, ',');
        proof {
            if f is None {
                assert(rest@.take(cut as int) =~= rest@);
            }
            assert(pieces[0] == rest@.take(cut as int));
            assert(rest@.take(cut as int) =~= rest@.subrange(0, cut as int));
        }
        let (a, b) = trim_span(&rest, 0, cut);
        let ghost before = out@;
        if a < b {
            let piece = copy_span(&rest, a, b);
            let n = exported_name_exec(&piece);
            out.push(n);
            proof {
                assert(string_views(out@) =~= string_views(before) + seq![exported_name(piece@)]);
            }
        }
        proof {
            let tail = pieces.drop_first();
            assert(string_views(out@) + export_list_names(tail) =~= string_views(before)
                + export_list_names(pieces));
        }
        match f {
            Some(k) => {
                let next = copy_span(&rest, k + 1, rl);
                proof {
                    assert(rest@.subrange(k + 1, rest@.len() as int) =~= rest@.skip(k + 1));
                    assert(pieces.drop_first() == split_on(next@, ','));
                }
                rest = next;
            },
            None => {
                proof {
                    assert(pieces.drop_first() =~= Seq::<Seq<char>>::empty());
                    assert(string_views(out@) =~= export_list_names(split_on(inner@, ',')));
                }
                return out;
            },
        }
    }
}

fn push_strings(out: &mut Vec<String>, items: &Vec<String>)
    ensures
        string_views(final(out)@) == string_views(old(out)@) + string_views(items@),
{
    let ghost start = string_views(out@);
    let mut m: usize = 0;
    while m < items.len()
        invariant
            m <= items@.len(),
            string_views(out@) == start + string_views(items@.take(m as int)),
        decreases items@.len() - m,
    {
        let ghost before = out@;
        let t = items[m].clone();
        out.push(t);
        proof {
            assert(string_views(out@) =~= string_views(before).push(items@[m as int]@));
            assert(string_views(out@) =~= start + string_views(items@.take(m + 1)));
        }
        m = m + 1;
    }
    proof {
        assert(items@.take(items@.len() as int) =~= items@);
    }
}

fn opt_names(o: Option<String>) -> (r: Vec<String>)
    ensures
        string_views(r@) == match o {
            Some(n) => seq![n@],
            None => Seq::<Seq<char>>::empty(),
        },
{
    let mut v: Vec<String> = Vec::new();
    match o {
        Some(n) => {
            v.push(n);
        },
        None => {},
    }
    proof {
        assert(string_views(v@) =~= match o {
            Some(n) => seq![n@],
            None => Seq::<Seq<char>>::empty(),
        });
    }
    v
}

/// One step of export stripping.
fn export_step_exec(rest: &Vec<char>) -> (r: Option<(String, Vec<String>, Vec<char>)>)
    ensures
        match export_step(rest@) {
            None => r is None,
            Some(st) => r matches Some((e, ns, nx)) && e@ == st.0 && string_views(ns@) == st.1
                && nx@ == st.2 && nx@.len() < rest@.len(),
        },
{
    let kw_export = vec!['e', 'x', 'p', 'o', 'r', 't', ' '];
    let kw_function = vec!['f', 'u', 'n', 'c', 't', 'i', 'o', 'n', ' '];
    let kw_async = vec!['a', 's', 'y', 'n', 'c', ' ', 'f', 'u', 'n', 'c', 't', 'i', 'o', 'n', ' '];
    let kw_const = vec!['c', 'o', 'n', 's', 't', ' '];
    proof {
        assert(kw_export@ =~= export_word());
        assert(kw_function@ =~= function_word());
        assert(kw_async@ =~= async_function_word());
        assert(kw_const@ =~= const_word());
    }
    let rl = rest.len();
    let at = match find_sub_from(rest, &kw_export, 0) {
        Some(at) => at,
        None => {
            return None;
        },
    };
    let pre = copy_span(rest, 0, at);
    let after = copy_span(rest, at + 7, rl);
    let al = after.len();
    proof {
        assert(pre@ =~= rest@.take(at as int));
        assert(after@ =~= rest@.skip(at + 7));
        if al >= 9 {
            assert(after@.subrange(0, 9) =~= after@.take(9));
        }
        if al >= 15 {
            assert(after@.subrange(0, 15) =~= after@.take(15));
        }
        if al >= 6 {
            assert(after@.subrange(0, 6) =~= after@.take(6));
        }
    }
    if starts_at(&after, 0, &kw_function) {
        let tail = copy_span(&after, 9, al);
        proof {
            assert(tail@ =~= after@.skip(9));
        }
        let name = ident_at_start(&tail);
        if name.is_some() {
            let mut e = String::new();
            append_chars(&mut e, &pre);
            append_chars(&mut e, &kw_function);
            return Some((e, opt_names(name), tail));
        }
    }
    if starts_at(&after, 0, &kw_async) {
        let tail = copy_span(&after, 15, al);
        proof {
            assert(tail@ =~= after@.skip(15));
            assert(after@.subrange(0, 15)[0] == after@[0]);
            assert(!starts_with(after@, function_word()));
        }
        let name = ident_at_start(&tail);
        if name.is_some() {
            let mut e = String::new();
            append_chars(&mut e, &pre);
            append_chars(&mut e, &kw_async);
            return Some((e, opt_names(name), tail));
        }
    }
    if starts_at(&after, 0, &kw_const) {
        let tail = copy_span(&after, 6, al);
        proof {
            assert(tail@ =~= after@.skip(6));
            assert(after@.subrange(0, 6)[0] == after@[0]);
            assert(!starts_with(after@, function_word()));
            assert(!starts_with(after@, async_function_word()));
        }
        let name = ident_at_start(&tail);
        let mut e = String::new();
        append_chars(&mut e, &pre);
        append_chars(&mut e, &kw_const);
        return Some((e, opt_names(name), tail));
    }
    if al > 0 && after[0] == '{' {
        let fc = find_char_from(&after, '}', 0);
        proof {
            lemma_find_char_bounds(after@, '}', 0);
            if starts_with(after@, function_word()) || starts_with(after@, async_function_word())
                || starts_with(after@, const_word()) {
                assert(after@.take(1)[0] == after@[0]);
            }
        }
        match fc {
            Some(close) => {
                let inner = copy_span(&after, 1, close);
                let names = export_list(&inner);
                let mut t = close + 1;
                proof {
                    assert(after@.subrange(close + 1, al as int) =~= after@.skip(close + 1));
                }
                while t < al && (after[t] == ';' || after[t] == '\n')
                    invariant
                        close + 1 <= t <= al,
                        al == after@.len(),
                        (t - (close + 1)) + lead_semis(after@.subrange(t as int, al as int))
                            == lead_semis(after@.skip(close + 1)),
                    decreases al - t,
                {
                    proof {
                        assert(after@.subrange(t as int, al as int).drop_first() =~= after@.subrange(
                            t + 1,
                            al as int,
                        ));
                    }
                    t = t + 1;
                }
                let tail = copy_span(&after, t, al);
                let mut e = String::new();
                append_chars(&mut e, &pre);
                proof {
                    let sk = after@.skip(close + 1);
                    assert(tail@ =~= sk.skip(lead_semis(sk) as int));
                }
                return Some((e, names, tail));
            },
            None => {},
        }
    }
    let mut e = String::new();
    append_chars(&mut e, &pre);
    append_chars(&mut e, &kw_export);
    proof {
        if al > 0 && after@[0] == '{' {
            if starts_with(after@, function_word()) || starts_with(after@, async_function_word())
                || starts_with(after@, const_word()) {
                assert(after@.take(1)[0] == after@[0]);
            }
        }
    }
    let empty: Vec<String> = Vec::new();
    proof {
        assert(string_views(empty@) =~= Seq::<Seq<char>>::empty());
    }
    Some((e, empty, after))
}

/// Remove `export` keywords from a module body, collecting what it exports.
pub fn strip_exports(js: &Vec<char>) -> (r: (String, Vec<String>))
    ensures
        r.0@ == stripped_exports(js@).0,
        string_views(r.1@) == stripped_exports(js@).1,
{
    let mut out = String::new();
    let mut exported: Vec<String> = Vec::new();
    let mut rest = copy_span(js, 0, js.len());
    proof {
        assert(js@.subrange(0, js@.len() as int) =~= js@);
        assert(string_views(exported@) =~= Seq::<Seq<char>>::empty());
    }
    loop
        invariant
            out@ + stripped_exports(rest@).0 == stripped_exports(js@).0,
            string_views(exported@) + stripped_exports(rest@).1 == stripped_exports(js@).1,
        decreases rest@.len(),
    {
        match export_step_exec(&rest) {
            None => {
                append_chars(&mut out, &rest);
                return (out, exported);
            },
            Some((e, names, next)) => {
                let ghost o0 = out@;
                let ghost e0 = string_views(exported@);
                out.append(e.as_str());
                push_strings(&mut exported, &names);
                proof {
                    let r = stripped_exports(next@);
                    assert(out@ + r.0 =~= o0 + stripped_exports(rest@).0);
                    assert(string_views(exported@) + r.1 =~= e0 + stripped_exports(rest@).1);
                }
                rest = next;
            },
        }
    }
}


// ---- module paths ----------------------------------------------------------------

/// The pieces of `v` between occurrences of `c`.
pub fn split_chars(v: &Vec<char>, c: char) -> (r: Vec<Vec<char>>)
    ensures
        r@.map_values(|x: Vec<char>| x@) == split_on(v@, c),
{
    let mut out: Vec<Vec<char>> = Vec::new();
    let mut rest = copy_span(v, 0, v.len());
    proof {
        assert(v@.subrange(0, v@.len() as int) =~= v@);
    }
    loop
        invariant
            out@.map_values(|x: Vec<char>| x@) + split_on(rest@, c) == split_on(v@, c),
        decreases rest@.len(),
    {
        let f = find_char_from(&rest, c, 0);
        proof {
            lemma_find_char_bounds(rest@, c, 0);
        }
        let rl = rest.len();
        let ghost pieces = split_on(rest@, c);
        let ghost before = out@;
        match f {
            Some(k) => {
                let piece = copy_span(&rest, 0, k);
                let next = copy_span(&rest, k + 1, rl);
                proof {
                    assert(piece@ =~= rest@.take(k as int));
                    assert(next@ =~= rest@.skip(k + 1));
                }
                out.push(piece);
                proof {
                    assert(out@.map_values(|x: Vec<char>| x@) =~= before.map_values(|x: Vec<char>| x@).push(piece@));
                    assert(out@.map_values(|x: Vec<char>| x@) + split_on(next@, c) =~= before.map_values(|x: Vec<char>| x@) + pieces);
                }
                rest = next;
            },
            None => {
                out.push(rest);
                proof {
                    assert(out@.map_values(|x: Vec<char>| x@) =~= before.map_values(|x: Vec<char>| x@) + pieces);
                }
                return out;
            },
        }
    }
}

pub open spec fn dot() -> Seq<char> {
    seq!['.']
}

pub open spec fn dot_dot() -> Seq<char> {
    seq!['.', '.']
}

/// The components left after `..` pops and `.`/empty pieces drop out,
/// folding the pieces from the left.
pub open spec fn norm_comps(parts: Seq<Seq<char>>) -> Seq<Seq<char>>
    decreases parts.len(),
{
    if parts.len() == 0 {
        Seq::empty()
    } else {
        let prev = norm_comps(parts.drop_last());
        let c = parts.last();
        if c.len() == 0 || c == dot() {
            prev
        } else if c == dot_dot() {
            if prev.len() > 0 {
                prev.drop_last()
            } else {
                prev
            }
        } else {
            prev.push(c)
        }
    }
}

/// Components joined by `/`.
pub open spec fn join_slash(cs: Seq<Seq<char>>) -> Seq<char>
    decreases cs.len(),
{
    if cs.len() == 0 {
        Seq::empty()
    } else if cs.len() == 1 {
        cs[0]
    } else {
        join_slash(cs.drop_last()) + seq!['/'] + cs.last()
    }
}

/// Components under a root when `p` is absolute.
pub open spec fn rooted(p: Seq<char>, cs: Seq<Seq<char>>) -> Seq<char> {
    if p.len() > 0 && p[0] == '/' {
        seq!['/'] + join_slash(cs)
    } else {
        join_slash(cs)
    }
}

/// A path with `.` dropped and each `..` removing the component before it.
pub open spec fn normalized(p: Seq<char>) -> Seq<char> {
    rooted(p, norm_comps(split_on(p, '/')))
}

/// The non-empty, non-`.` components of a path.
pub open spec fn plain_comps(parts: Seq<Seq<char>>) -> Seq<Seq<char>>
    decreases parts.len(),
{
    if parts.len() == 0 {
        Seq::empty()
    } else {
        let prev = plain_comps(parts.drop_last());
        let c = parts.last();
        if c.len() == 0 || c == dot() {
            prev
        } else {
            prev.push(c)
        }
    }
}

/// `Path::parent`: `None` for a path with no components.
pub open spec fn path_parent(p: Seq<char>) -> Option<Seq<char>> {
    let cs = plain_comps(split_on(p, '/'));
    if cs.len() == 0 {
        None
    } else {
        Some(rooted(p, cs.drop_last()))
    }
}

/// Where a relative specifier of `importer` points.
pub open spec fn resolved(importer: Seq<char>, spec: Seq<char>) -> Seq<char> {
    let parent = match path_parent(importer) {
        Some(q) => q,
        None => importer,
    };
    normalized(spec_join(parent, spec))
}

fn is_dot(c: &Vec<char>) -> (r: bool)
    ensures
        r == (c@ == dot()),
{
    let r = c.len() == 1 && c[0] == '.';
    proof {
        if r {
            assert(c@ =~= dot());
        }
    }
    r
}

fn is_dot_dot(c: &Vec<char>) -> (r: bool)
    ensures
        r == (c@ == dot_dot()),
{
    let r = c.len() == 2 && c[0] == '.' && c[1] == '.';
    proof {
        if r {
            assert(c@ =~= dot_dot());
        }
    }
    r
}

fn join_slash_exec(cs: &Vec<Vec<char>>) -> (r: String)
    ensures
        r@ == join_slash(cs@.map_values(|x: Vec<char>| x@)),
{
    let ghost views = cs@.map_values(|x: Vec<char>| x@);
    let mut out = String::new();
    let mut i: usize = 0;
    while i < cs.len()
        invariant
            i <= cs@.len(),
            views == cs@.map_values(|x: Vec<char>| x@),
            out@ == join_slash(views.take(i as int)),
        decreases cs@.len() - i,
    {
        proof {
            assert(views.take(i + 1).drop_last() =~= views.take(i as int));
            assert(views.take(i + 1).last() == cs@[i as int]@);
        }
        if i > 0 {
            string_push(&mut out, '/');
        }
        append_chars(&mut out, &cs[i]);
        proof {
            if i == 0 {
                assert(out@ =~= views.take(1)[0]);
            } else {
                assert(out@ =~= join_slash(views.take(i as int)) + seq!['/'] + cs@[i as int]@);
            }
        }
        i = i + 1;
    }
    proof {
        assert(views.take(views.len() as int) =~= views);
    }
    out
}

pub fn rooted_text(p: &Vec<char>, cs: &Vec<Vec<char>>) -> (r: String)
    ensures
        r@ == rooted(p@, cs@.map_values(|x: Vec<char>| x@)),
{
    let body = join_slash_exec(cs);
    if p.len() > 0 && p[0] == '/' {
        let mut out = String::new();
        string_push(&mut out, '/');
        out.append(body.as_str());
        out
    } else {
        body
    }
}

/// `.` and `..` resolved lexically.
pub fn normalize_path(path: &str) -> (r: String)
    ensures
        r@ == normalized(path@),
{
    let p = chars_of(path);
    let parts = split_chars(&p, '/');
    let ghost pv = parts@.map_values(|x: Vec<char>| x@);
    let mut comps: Vec<Vec<char>> = Vec::new();
    let mut i: usize = 0;
    while i < parts.len()
        invariant
            i <= parts@.len(),
            pv == parts@.map_values(|x: Vec<char>| x@),
            comps@.map_values(|x: Vec<char>| x@) == norm_comps(pv.take(i as int)),
        decreases parts@.len() - i,
    {
        proof {
            assert(pv.take(i + 1).drop_last() =~= pv.take(i as int));
            assert(pv.take(i + 1).last() == parts@[i as int]@);
        }
        let ghost before = comps@;
        let c = &parts[i];
        if c.len() == 0 || is_dot(c) {
        } else if is_dot_dot(c) {
            if comps.len() > 0 {
                comps.pop();
                proof {
                    assert(comps@.map_values(|x: Vec<char>| x@) =~= before.map_values(|x: Vec<char>| x@).drop_last());
                }
            }
        } else {
            comps.push(copy_span(c, 0, c.len()));
            proof {
                assert(c@.subrange(0, c@.len() as int) =~= c@);
                assert(comps@.map_values(|x: Vec<char>| x@) =~= before.map_values(|x: Vec<char>| x@).push(c@));
            }
        }
        i = i + 1;
    }
    proof {
        assert(pv.take(pv.len() as int) =~= pv);
    }
    rooted_text(&p, &comps)
}

/// `Path::parent`.
pub fn path_parent_exec(path: &str) -> (r: Option<String>)
    ensures
        match path_parent(path@) {
            Some(q) => r matches Some(t) && t@ == q,
            None => r is None,
        },
{
    let p = chars_of(path);
    let parts = split_chars(&p, '/');
    let ghost pv = parts@.map_values(|x: Vec<char>| x@);
    let mut comps: Vec<Vec<char>> = Vec::new();
    let mut i: usize = 0;
    while i < parts.len()
        invariant
            i <= parts@.len(),
            pv == parts@.map_values(|x: Vec<char>| x@),
            comps@.map_values(|x: Vec<char>| x@) == plain_comps(pv.take(i as int)),
        decreases parts@.len() - i,
    {
        proof {
            assert(pv.take(i + 1).drop_last() =~= pv.take(i as int));
            assert(pv.take(i + 1).last() == parts@[i as int]@);
        }
        let ghost before = comps@;
        let c = &parts[i];
        if !(c.len() == 0 || is_dot(c)) {
            comps.push(copy_span(c, 0, c.len()));
            proof {
                assert(c@.subrange(0, c@.len() as int) =~= c@);
                assert(comps@.map_values(|x: Vec<char>| x@) =~= before.map_values(|x: Vec<char>| x@).push(c@));
            }
        }
        i = i + 1;
    }
    proof {
        assert(pv.take(pv.len() as int) =~= pv);
    }
    if comps.len() == 0 {
        return None;
    }
    let ghost cb = comps@;
    comps.pop();
    proof {
        assert(comps@.map_values(|x: Vec<char>| x@) =~= cb.map_values(|x: Vec<char>| x@).drop_last());
    }
    Some(rooted_text(&p, &comps))
}

/// Where the relative specifier `spec` of module `importer` points.
pub fn resolve_relative(importer: &str, spec: &str) -> (r: String)
    ensures
        r@ == resolved(importer@, spec@),
{
    let parent = match path_parent_exec(importer) {
        Some(q) => q,
        None => owned(importer),
    };
    let joined = join(parent.as_str(), spec);
    normalize_path(joined.as_str())
}

/// A module's id in the bundle: its path with `/` separators.
pub fn module_id(path: &str) -> (r: String)
    ensures
        r@ == replace_all(path@, "\\"@, "/"@),
{
    replace(path, "\\", "/")
}

pub open spec fn table_views(m: Seq<(String, String)>) -> Seq<(Seq<char>, Seq<char>)> {
    m.map_values(|e: (String, String)| (e.0@, e.1@))
}

/// The first entry of the table keyed `key`.
pub open spec fn table_index(m: Seq<(Seq<char>, Seq<char>)>, key: Seq<char>, i: int) -> Option<int>
    decreases m.len() - i,
{
    if i < 0 || i >= m.len() {
        None
    } else if m[i].0 == key {
        Some(i)
    } else {
        table_index(m, key, i + 1)
    }
}

/// The module text stored under `key`.
pub open spec fn table_get(m: Seq<(Seq<char>, Seq<char>)>, key: Seq<char>) -> Option<Seq<char>> {
    match table_index(m, key, 0) {
        Some(i) => Some(m[i].1),
        None => None,
    }
}

proof fn lemma_table_index(m: Seq<(Seq<char>, Seq<char>)>, key: Seq<char>, i: int)
    requires
        0 <= i,
    ensures
        match table_index(m, key, i) {
            Some(k) => i <= k < m.len() && m[k].0 == key,
            None => forall|k: int| i <= k < m.len() ==> m[k].0 != key,
        },
    decreases m.len() - i,
{
    if i < m.len() && m[i].0 != key {
        lemma_table_index(m, key, i + 1);
    }
}

fn table_find(modules: &Vec<(String, String)>, key: &str) -> (r: Option<usize>)
    ensures
        match r {
            Some(i) => table_index(table_views(modules@), key@, 0) == Some(i as int) && i
                < modules@.len(),
            None => table_index(table_views(modules@), key@, 0) is None,
        },
{
    let ghost tv = table_views(modules@);
    let k0 = owned(key);
    let mut i: usize = 0;
    while i < modules.len()
        invariant
            i <= modules@.len(),
            tv == table_views(modules@),
            k0@ == key@,
            table_index(tv, key@, i as int) == table_index(tv, key@, 0),
        decreases modules@.len() - i,
    {
        if modules[i].0 == k0 {
            return Some(i);
        }
        i = i + 1;
    }
    None
}

pub open spec fn js_ext() -> Seq<char> {
    seq!['.', 'j', 's']
}

pub open spec fn dsx_ext() -> Seq<char> {
    seq!['.', 'd', 's', 'x']
}

pub open spec fn ds_ext() -> Seq<char> {
    seq!['.', 'd', 's']
}

/// The table key a resolved path stands for: the path itself, or for a
/// `.js` path the DekaScript source (`.dsx`, then `.ds`) it was compiled
/// from.
pub open spec fn source_key(m: Seq<(Seq<char>, Seq<char>)>, p: Seq<char>) -> Option<Seq<char>> {
    if table_index(m, p, 0) is Some {
        Some(p)
    } else if p.len() >= 3 && p.skip(p.len() - 3) == js_ext() {
        let stem = p.take(p.len() - 3);
        if table_index(m, stem + dsx_ext(), 0) is Some {
            Some(stem + dsx_ext())
        } else if table_index(m, stem + ds_ext(), 0) is Some {
            Some(stem + ds_ext())
        } else {
            None
        }
    } else {
        None
    }
}

pub fn lookup_source_key(js_path: &str, modules: &Vec<(String, String)>) -> (r: Option<String>)
    ensures
        match source_key(table_views(modules@), js_path@) {
            Some(k) => r matches Some(t) && t@ == k,
            None => r is None,
        },
{
    if table_find(modules, js_path).is_some() {
        return Some(owned(js_path));
    }
    let p = chars_of(js_path);
    let pl = p.len();
    if pl < 3 || !(p[pl - 3] == '.' && p[pl - 2] == 'j' && p[pl - 1] == 's') {
        proof {
            if pl >= 3 && p@.skip(pl - 3) == js_ext() {
                assert(p@.skip(pl - 3)[0] == p@[pl - 3]);
                assert(p@.skip(pl - 3)[1] == p@[pl - 2]);
                assert(p@.skip(pl - 3)[2] == p@[pl - 1]);
            }
        }
        return None;
    }
    proof {
        assert(p@.skip(pl - 3) =~= js_ext());
    }
    let stem = copy_span(&p, 0, pl - 3);
    let mut dsx = String::new();
    append_chars(&mut dsx, &stem);
    append_chars(&mut dsx, &vec!['.', 'd', 's', 'x']);
    proof {
        assert(stem@ =~= p@.take(pl - 3));
        assert(dsx@ =~= stem@ + dsx_ext());
    }
    if table_find(modules, dsx.as_str()).is_some() {
        return Some(dsx);
    }
    let mut ds = String::new();
    append_chars(&mut ds, &stem);
    append_chars(&mut ds, &vec!['.', 'd', 's']);
    proof {
        assert(ds@ =~= stem@ + ds_ext());
    }
    if table_find(modules, ds.as_str()).is_some() {
        return Some(ds);
    }
    None
}


// ---- rewriting modules ---------------------------------------------------------

/// How a character stands inside a JSON string literal: `"` and `\\` are
/// escaped with a backslash; backspace, tab, newline, form feed and
/// carriage return by their short escapes; other characters below U+0020
/// as `\u00XX` (lowercase hex); everything else as itself.
pub open spec fn json_escape(c: char) -> Seq<char> {
    if c == '"' {
        seq!['\\', '"']
    } else if c == '\\' {
        seq!['\\', '\\']
    } else if c as u32 == 8 {
        seq!['\\', 'b']
    } else if c as u32 == 9 {
        seq!['\\', 't']
    } else if c as u32 == 10 {
        seq!['\\', 'n']
    } else if c as u32 == 12 {
        seq!['\\', 'f']
    } else if c as u32 == 13 {
        seq!['\\', 'r']
    } else if (c as u32) < 32 {
        seq!['\\', 'u', '0', '0', hex_digit(c as u32 / 16), hex_digit(c as u32 % 16)]
    } else {
        seq![c]
    }
}

/// A lowercase hexadecimal digit.
pub open spec fn hex_digit(n: u32) -> char {
    seq!['0', '1', '2', '3', '4', '5', '6', '7', '8', '9', 'a', 'b', 'c', 'd', 'e', 'f'][n as int]
}

/// The escaped characters of a string.
pub open spec fn json_escaped(s: Seq<char>) -> Seq<char>
    decreases s.len(),
{
    if s.len() == 0 {
        Seq::empty()
    } else {
        json_escaped(s.drop_last()) + json_escape(s.last())
    }
}

/// The JSON string literal of a text, as `serde_json` writes it.
pub open spec fn json_quote(s: Seq<char>) -> Seq<char> {
    seq!['"'] + json_escaped(s) + seq!['"']
}

/// What `serde_json::to_string` gives for a string value: always its JSON
/// string literal.
pub open spec fn serde_json_string(value: Seq<char>) -> Option<Seq<char>> {
    Some(json_quote(value))
}

/// `serde_json::to_string` on a `&str`: writing a string into memory does
/// not fail, and the text is the string literal [`json_quote`] describes.
#[verifier::external_body]
pub(crate) fn serde_json_to_string(value: &str) -> (r: Option<String>)
    ensures
        r is Some,
        r matches Some(t) ==> t@ == json_quote(value@),
{
    match serde_json::to_string(value) {
        Ok(t) => Some(t),
        Err(_) => None,
    }
}

/// A JavaScript string literal for `value`: its JSON form, or the value in
/// double quotes should serialization fail.
pub open spec fn json_text(value: Seq<char>) -> Seq<char> {
    match serde_json_string(value) {
        Some(t) => t,
        None => seq!['"'] + value + seq!['"'],
    }
}

pub fn json_str(value: &str) -> (r: String)
    ensures
        r@ == json_text(value@),
{
    match serde_json_to_string(value) {
        Some(t) => t,
        None => {
            let mut out = String::new();
            string_push(&mut out, '"');
            out.append(value);
            string_push(&mut out, '"');
            out
        },
    }
}

fn comma_join(items: &Vec<String>) -> (r: String)
    ensures
        r@ == comma_list(string_views(items@)),
{
    let mut out = String::new();
    let mut i: usize = 0;
    while i < items.len()
        invariant
            i <= items@.len(),
            out@ == comma_list(string_views(items@.take(i as int))),
        decreases items@.len() - i,
    {
        let ghost s2 = string_views(items@.take(i + 1));
        proof {
            assert(s2.drop_last() =~= string_views(items@.take(i as int)));
            assert(s2.last() == items@[i as int]@);
        }
        if i > 0 {
            string_push(&mut out, ',');
            string_push(&mut out, ' ');
        }
        out.append(items[i].as_str());
        proof {
            if i == 0 {
                assert(out@ =~= s2[0]);
            } else {
                assert(out@ =~= comma_list(s2.drop_last()) + seq![',', ' '] + s2.last());
            }
        }
        i = i + 1;
    }
    proof {
        assert(items@.take(items@.len() as int) =~= items@);
    }
    out
}

/// A kept (non-relative) import written back as one declaration.
pub open spec fn rebuilt_import(spec: Seq<char>, names: Seq<Seq<char>>) -> Seq<char> {
    if names.len() == 0 {
        "import "@ + json_text(spec) + ";\n"@
    } else {
        "import { "@ + comma_list(names) + " } from "@ + json_text(spec) + ";\n"@
    }
}

pub fn rebuild_import(spec: &str, names: &Vec<String>) -> (r: String)
    ensures
        r@ == rebuilt_import(spec@, string_views(names@)),
{
    proof {
        reveal_strlit("import ");
        reveal_strlit(";\n");
        reveal_strlit("import { ");
        reveal_strlit(" } from ");
    }
    let q = json_str(spec);
    if names.len() == 0 {
        let mut out = owned("import ");
        out.append(q.as_str());
        out.append(";\n");
        return out;
    }
    let mut out = owned("import { ");
    let list = comma_join(names);
    out.append(list.as_str());
    out.append(" } from ");
    out.append(q.as_str());
    out.append(";\n");
    out
}

pub open spec fn is_relative_spec(sp: Seq<char>) -> bool {
    starts_with(sp, seq!['.', '/']) || starts_with(sp, seq!['.', '.', '/'])
}

/// The table key a relative specifier of `importer` stands for.
pub open spec fn link_key(m: Seq<(Seq<char>, Seq<char>)>, importer: Seq<char>, sp: Seq<char>) -> Seq<char> {
    let r = resolved(importer, sp);
    match source_key(m, r) {
        Some(k) => k,
        None => r,
    }
}

/// A module body with its relative imports taken out and its other imports
/// written back, and the relative imports as `(table key, bindings)`.
pub open spec fn stripped_imports(
    s: Seq<char>,
    importer: Seq<char>,
    m: Seq<(Seq<char>, Seq<char>)>,
) -> (Seq<char>, Seq<(Seq<char>, Seq<Seq<char>>)>)
    decreases s.len(),
{
    match first_import(s, 0) {
        None => (s, Seq::empty()),
        Some(im) => if 0 <= im.0 < im.1 <= s.len() {
            let r = stripped_imports(s.skip(im.1), importer, m);
            if is_relative_spec(im.2) {
                (s.take(im.0) + r.0, seq![(link_key(m, importer, im.2), im.3)] + r.1)
            } else {
                (s.take(im.0) + rebuilt_import(im.2, im.3) + r.0, r.1)
            }
        } else {
            (s, Seq::empty())
        },
    }
}

pub open spec fn link_views(v: Seq<(String, Vec<String>)>) -> Seq<(Seq<char>, Seq<Seq<char>>)> {
    v.map_values(|e: (String, Vec<String>)| (e.0@, string_views(e.1@)))
}

fn starts_relative(v: &String) -> (r: bool)
    ensures
        r == is_relative_spec(v@),
{
    let c = chars_of(v.as_str());
    let a = vec!['.', '/'];
    let b = vec!['.', '.', '/'];
    let ra = starts_at(&c, 0, &a);
    let rb = starts_at(&c, 0, &b);
    proof {
        assert(c@.subrange(0, a@.len() as int) =~= c@.take(2)) by {
            if c@.len() >= 2 {
                assert(c@.subrange(0, 2) =~= c@.take(2));
            }
        }
        if c@.len() >= 2 {
            assert(c@.subrange(0, 2) =~= c@.take(2));
        }
        if c@.len() >= 3 {
            assert(c@.subrange(0, 3) =~= c@.take(3));
        }
        assert(a@ =~= seq!['.', '/']);
        assert(b@ =~= seq!['.', '.', '/']);
    }
    ra || rb
}

/// Take the relative imports out of a module body.
pub fn strip_relative_imports(js: &str, path: &str, modules: &Vec<(String, String)>) -> (r: (
    String,
    Vec<(String, Vec<String>)>,
))
    ensures
        (r.0@, link_views(r.1@)) == stripped_imports(js@, path@, table_views(modules@)),
{
    let ghost m = table_views(modules@);
    let mut out = String::new();
    let mut links: Vec<(String, Vec<String>)> = Vec::new();
    let mut rest = chars_of(js);
    proof {
        assert(link_views(links@) =~= Seq::<(Seq<char>, Seq<Seq<char>>)>::empty());
    }
    loop
        invariant
            m == table_views(modules@),
            out@ + stripped_imports(rest@, path@, m).0 == stripped_imports(js@, path@, m).0,
            link_views(links@) + stripped_imports(rest@, path@, m).1 == stripped_imports(
                js@,
                path@,
                m,
            ).1,
        decreases rest@.len(),
    {
        let rl = rest.len();
        let ghost o0 = out@;
        let ghost l0 = link_views(links@);
        match next_import(&rest) {
            None => {
                append_chars(&mut out, &rest);
                return (out, links);
            },
            Some((st, e, spec, names)) => {
                if !(st < e && e <= rl) {
                    append_chars(&mut out, &rest);
                    return (out, links);
                }
                let prefix = copy_span(&rest, 0, st);
                let next = copy_span(&rest, e, rl);
                proof {
                    assert(prefix@ =~= rest@.take(st as int));
                    assert(next@ =~= rest@.skip(e as int));
                }
                append_chars(&mut out, &prefix);
                if starts_relative(&spec) {
                    let target = resolve_relative(path, spec.as_str());
                    let key = match lookup_source_key(target.as_str(), modules) {
                        Some(k) => k,
                        None => target,
                    };
                    links.push((key, names));
                    proof {
                        let r = stripped_imports(next@, path@, m);
                        assert(link_views(links@) =~= l0 + seq![(link_key(m, path@, spec@), string_views(names@))]);
                        assert(out@ + r.0 =~= o0 + stripped_imports(rest@, path@, m).0);
                        assert(link_views(links@) + r.1 =~= l0 + stripped_imports(rest@, path@, m).1);
                    }
                } else {
                    let line = rebuild_import(spec.as_str(), &names);
                    out.append(line.as_str());
                    proof {
                        let r = stripped_imports(next@, path@, m);
                        assert(out@ + r.0 =~= o0 + stripped_imports(rest@, path@, m).0);
                        assert(link_views(links@) + r.1 =~= l0 + stripped_imports(rest@, path@, m).1);
                    }
                }
                rest = next;
            },
        }
    }
}

/// The table lookups that replace a module's relative imports.
pub open spec fn import_lines(links: Seq<(Seq<char>, Seq<Seq<char>>)>) -> Seq<char>
    decreases links.len(),
{
    if links.len() == 0 {
        Seq::empty()
    } else {
        import_lines(links.drop_last()) + "const { "@ + comma_list(links.last().1)
            + " } = __deka_island_import("@ + json_text(replace_all(links.last().0, "\\"@, "/"@))
            + ");\n"@
    }
}

#[verifier::opaque]
/// One module as it stands in the bundle: a block with the table lookups,
/// the body without imports and exports, and (but for the entry) the
/// registration of its exports under `id`.
pub open spec fn rewritten_module(
    js: Seq<char>,
    path: Seq<char>,
    m: Seq<(Seq<char>, Seq<char>)>,
    id: Seq<char>,
    is_entry: bool,
) -> Seq<char> {
    let si = stripped_imports(js, path, m);
    let se = stripped_exports(si.0);
    let b = "{\n"@ + import_lines(si.1) + se.0;
    let b2 = if b.len() > 0 && b.last() == '\n' {
        b
    } else {
        b.push('\n')
    };
    if is_entry {
        b2 + "}\n"@
    } else {
        b2 + "__deka_island_export("@ + json_text(id) + ", { "@ + comma_list(se.1) + " });\n}\n"@
    }
}

pub fn rewrite_module(
    js: &str,
    path: &str,
    modules: &Vec<(String, String)>,
    id: &str,
    is_entry: bool,
) -> (r: String)
    ensures
        r@ == rewritten_module(js@, path@, table_views(modules@), id@, is_entry),
{
    proof {
        reveal(rewritten_module);
        reveal_strlit("{\n");
        reveal_strlit("const { ");
        reveal_strlit(" } = __deka_island_import(");
        reveal_strlit(");\n");
        reveal_strlit("}\n");
        reveal_strlit("__deka_island_export(");
        reveal_strlit(", { ");
        reveal_strlit(" });\n}\n");
        reveal_strlit("\\");
        reveal_strlit("/");
    }
    let (body, links) = strip_relative_imports(js, path, modules);
    let body_chars = chars_of(body.as_str());
    let (body2, exported) = strip_exports(&body_chars);
    let mut out = owned("{\n");
    let ghost lv = link_views(links@);
    let mut i: usize = 0;
    while i < links.len()
        invariant
            i <= links@.len(),
            lv == link_views(links@),
            out@ == "{\n"@ + import_lines(lv.take(i as int)),
        decreases links@.len() - i,
    {
        proof {
            assert(lv.take(i + 1).drop_last() =~= lv.take(i as int));
            assert(lv.take(i + 1).last() == (links@[i as int].0@, string_views(links@[i as int].1@)));
        }
        out.append("const { ");
        let list = comma_join(&links[i].1);
        out.append(list.as_str());
        out.append(" } = __deka_island_import(");
        let id_i = module_id(links[i].0.as_str());
        let q = json_str(id_i.as_str());
        out.append(q.as_str());
        out.append(");\n");
        i = i + 1;
        proof {
            assert(out@ =~= "{\n"@ + import_lines(lv.take(i as int)));
        }
    }
    proof {
        assert(lv.take(lv.len() as int) =~= lv);
    }
    out.append(body2.as_str());
    let oc = chars_of(out.as_str());
    let ends_nl = oc.len() > 0 && oc[oc.len() - 1] == '\n';
    if !ends_nl {
        string_push(&mut out, '\n');
    }
    if is_entry {
        out.append("}\n");
        return out;
    }
    out.append("__deka_island_export(");
    let qid = json_str(id);
    out.append(qid.as_str());
    out.append(", { ");
    let ex = comma_join(&exported);
    out.append(ex.as_str());
    out.append(" });\n}\n");
    out
}


// ---- the module graph ----------------------------------------------------------

/// Table entries whose key has not been seen.
pub open spec fn unseen(m: Seq<(Seq<char>, Seq<char>)>, seen: Seq<Seq<char>>) -> nat
    decreases m.len(),
{
    if m.len() == 0 {
        0
    } else {
        unseen(m.drop_last(), seen) + if seen.contains(m.last().0) {
            0nat
        } else {
            1nat
        }
    }
}

proof fn lemma_unseen_mono(m: Seq<(Seq<char>, Seq<char>)>, a: Seq<Seq<char>>, b: Seq<Seq<char>>)
    requires
        forall|x: Seq<char>| a.contains(x) ==> b.contains(x),
    ensures
        unseen(m, b) <= unseen(m, a),
    decreases m.len(),
{
    if m.len() > 0 {
        lemma_unseen_mono(m.drop_last(), a, b);
    }
}

proof fn lemma_unseen_add(m: Seq<(Seq<char>, Seq<char>)>, a: Seq<Seq<char>>, k: Seq<char>)
    requires
        !a.contains(k),
        exists|i: int| 0 <= i < m.len() && m[i].0 == k,
    ensures
        unseen(m, a.push(k)) < unseen(m, a),
    decreases m.len(),
{
    assert forall|x: Seq<char>| a.contains(x) implies a.push(k).contains(x) by {
        let i = choose|i: int| 0 <= i < a.len() && a[i] == x;
        assert(a.push(k)[i] == x);
    }
    assert(a.push(k)[a.len() as int] == k);
    if m.last().0 == k {
        lemma_unseen_mono(m.drop_last(), a, a.push(k));
    } else {
        let i = choose|i: int| 0 <= i < m.len() && m[i].0 == k;
        assert(m.drop_last()[i] == m[i]);
        lemma_unseen_add(m.drop_last(), a, k);
    }
}

/// The emitted order so far: distinct table keys, each already seen.
pub open spec fn order_ok(m: Seq<(Seq<char>, Seq<char>)>, order: Seq<Seq<char>>, seen: Seq<Seq<char>>) -> bool {
    &&& forall|i: int| 0 <= i < order.len() ==> #[trigger] seen.contains(order[i])
    &&& forall|i: int| 0 <= i < order.len() ==> table_index(m, #[trigger] order[i], 0) is Some
    &&& forall|i: int, j: int| 0 <= i < j < order.len() ==> order[i] != order[j]
}

/// The errors a graph walk reports.
pub open spec fn graph_error(e: Seq<char>) -> bool {
    exists|p: Seq<char>|
        e == "cycle in island graph at "@ + p || e == "island graph does not contain "@ + p || e
            == "island graph missing "@ + p
}

fn contains_string(v: &Vec<String>, x: &str) -> (r: bool)
    ensures
        r == string_views(v@).contains(x@),
{
    let k = owned(x);
    let mut i: usize = 0;
    while i < v.len()
        invariant
            i <= v@.len(),
            k@ == x@,
            forall|j: int| 0 <= j < i ==> v@[j]@ != x@,
        decreases v@.len() - i,
    {
        if v[i] == k {
            proof {
                assert(string_views(v@)[i as int] == x@);
            }
            return true;
        }
        i = i + 1;
    }
    proof {
        if string_views(v@).contains(x@) {
            let j = choose|j: int| 0 <= j < string_views(v@).len() && string_views(v@)[j] == x@;
            assert(v@[j]@ == x@);
        }
    }
    false
}

/// The texts of `v` other than `x`, in order.
pub open spec fn without_text(v: Seq<Seq<char>>, x: Seq<char>) -> Seq<Seq<char>> {
    v.filter(|y: Seq<char>| y != x)
}

fn remove_string(v: &mut Vec<String>, x: &str)
    ensures
        string_views(final(v)@) == without_text(string_views(old(v)@), x@),
        forall|y: Seq<char>| string_views(final(v)@).contains(y) ==> string_views(old(v)@).contains(y),
        forall|y: Seq<char>|
            #[trigger] string_views(final(v)@).contains(y) <==> (string_views(old(v)@).contains(y) && y != x@),
{
    let k = owned(x);
    let mut out: Vec<String> = Vec::new();
    let mut i: usize = 0;
    proof {
        assert(string_views(v@).take(0) =~= Seq::<Seq<char>>::empty());
        assert(string_views(out@) =~= without_text(string_views(v@).take(0), x@));
    }
    while i < v.len()
        invariant
            i <= v@.len(),
            v@ == old(v)@,
            k@ == x@,
            string_views(out@) == without_text(string_views(v@).take(i as int), x@),
        decreases v@.len() - i,
    {
        let ghost before = out@;
        proof {
            assert(string_views(v@).take(i + 1).drop_last() =~= string_views(v@).take(i as int));
            assert(string_views(v@).take(i + 1).last() == v@[i as int]@);
            reveal_with_fuel(Seq::filter, 1);
        }
        if !(v[i] == k) {
            let t = v[i].clone();
            out.push(t);
            proof {
                assert(string_views(out@) =~= string_views(before).push(v@[i as int]@));
            }
        } else {
            proof {
                assert(v@[i as int]@ == x@);
            }
        }
        i = i + 1;
    }
    proof {
        assert(string_views(v@).take(v@.len() as int) =~= string_views(v@));
        let f = |y: Seq<char>| y != x@;
        assert forall|y: Seq<char>| string_views(out@).contains(y) implies string_views(v@).contains(y) by {
            string_views(v@).lemma_filter_contains_rev(f, y);
        }
        let sv = string_views(v@);
        assert forall|y: Seq<char>|
            #[trigger] string_views(out@).contains(y) <==> (sv.contains(y) && y != x@) by {
            if string_views(out@).contains(y) {
                sv.lemma_filter_contains_rev(f, y);
                let k = choose|k: int| 0 <= k < sv.filter(f).len() && sv.filter(f)[k] == y;
                sv.lemma_filter_pred(f, k);
            }
            if sv.contains(y) && y != x@ {
                let k = choose|k: int| 0 <= k < sv.len() && sv[k] == y;
                sv.lemma_filter_contains(f, k);
            }
        }
    }
    *v = out;
}

proof fn lemma_push_keeps(a: Seq<Seq<char>>, k: Seq<char>)
    ensures
        forall|x: Seq<char>| a.contains(x) ==> a.push(k).contains(x),
        a.push(k).contains(k),
{
    assert forall|x: Seq<char>| a.contains(x) implies a.push(k).contains(x) by {
        let i = choose|i: int| 0 <= i < a.len() && a[i] == x;
        assert(a.push(k)[i] == x);
    }
    assert(a.push(k)[a.len() as int] == k);
}

/// The relative imports of the module stored under `k`, as `(table key,
/// bindings)`: what its block in the bundle asks `__deka_island_import` for.
pub open spec fn imports_of(m: Seq<(Seq<char>, Seq<char>)>, k: Seq<char>) -> Seq<(Seq<char>, Seq<Seq<char>>)> {
    stripped_imports(table_get(m, k)->0, k, m).1
}

/// Every entered path not still in progress stands for a module (its source
/// key) that is already in the walk order or is an enclosing module still
/// being walked.
pub open spec fn walk_settled(
    m: Seq<(Seq<char>, Seq<char>)>,
    seen: Seq<Seq<char>>,
    visiting: Seq<Seq<char>>,
    order: Seq<Seq<char>>,
) -> bool {
    forall|x: Seq<char>|
        #[trigger] seen.contains(x) ==> visiting.contains(x) || (source_key(m, x) matches Some(t) && (
        order.contains(t) || (visiting.contains(t) && table_index(m, t, 0) is Some)))
}

/// Every import of a module in the walk order has been entered.
pub open spec fn imports_entered(m: Seq<(Seq<char>, Seq<char>)>, order: Seq<Seq<char>>, seen: Seq<Seq<char>>) -> bool {
    forall|i: int, j: int|
        #![trigger imports_of(m, order[i])[j]]
        0 <= i < order.len() && 0 <= j < imports_of(m, order[i]).len() ==> seen.contains(
            imports_of(m, order[i])[j].0,
        )
}

/// `a` imports the module `b` (its source key).
pub open spec fn imports_step(m: Seq<(Seq<char>, Seq<char>)>, a: Seq<char>, b: Seq<char>) -> bool {
    exists|j: int| 0 <= j < imports_of(m, a).len() && source_key(m, #[trigger] imports_of(m, a)[j].0) == Some(b)
}

/// Each module of `ch` imports the next.
pub open spec fn import_chain(m: Seq<(Seq<char>, Seq<char>)>, ch: Seq<Seq<char>>) -> bool {
    forall|k: int| 0 <= k < ch.len() - 1 ==> #[trigger] imports_step(m, ch[k], ch[k + 1])
}

/// `b` is `a` or is reached from `a` through imports.
pub open spec fn reaches(m: Seq<(Seq<char>, Seq<char>)>, a: Seq<char>, b: Seq<char>) -> bool {
    exists|ch: Seq<Seq<char>>| #[trigger] import_chain(m, ch) && ch.len() >= 1 && ch[0] == a && ch.last() == b
}

/// Each module of `order` comes after the modules it imports, but for an
/// import that closes a cycle back to it.
pub open spec fn walk_ordered(m: Seq<(Seq<char>, Seq<char>)>, order: Seq<Seq<char>>) -> bool {
    forall|i: int, j: int|
        #![trigger imports_of(m, order[i])[j]]
        0 <= i < order.len() && 0 <= j < imports_of(m, order[i]).len() ==> match source_key(
            m,
            imports_of(m, order[i])[j].0,
        ) {
            Some(t) => (exists|p: int| 0 <= p < i && #[trigger] order[p] == t) || reaches(m, t, order[i]),
            None => true,
        }
}

/// Every path of `visiting` stands for a module from which the module `path`
/// stands for is reached.
pub open spec fn walk_stack(
    m: Seq<(Seq<char>, Seq<char>)>,
    visiting: Seq<Seq<char>>,
    path: Seq<char>,
) -> bool {
    forall|x: Seq<char>|
        #[trigger] visiting.contains(x) ==> (source_key(m, x) matches Some(a) && (source_key(m, path) matches Some(
            t,
        ) ==> reaches(m, a, t)))
}

proof fn lemma_reaches_refl(m: Seq<(Seq<char>, Seq<char>)>, a: Seq<char>)
    ensures
        reaches(m, a, a),
{
    let ch = seq![a];
    assert(import_chain(m, ch));
    assert(ch.last() == a);
}

proof fn lemma_reaches_step(m: Seq<(Seq<char>, Seq<char>)>, a: Seq<char>, b: Seq<char>, c: Seq<char>)
    requires
        reaches(m, a, b),
        imports_step(m, b, c),
    ensures
        reaches(m, a, c),
{
    let ch = choose|ch: Seq<Seq<char>>| #[trigger] import_chain(m, ch) && ch.len() >= 1 && ch[0] == a && ch.last() == b;
    let ch2 = ch.push(c);
    assert forall|k: int| 0 <= k < ch2.len() - 1 implies #[trigger] imports_step(m, ch2[k], ch2[k + 1]) by {
        if k < ch.len() - 1 {
            assert(ch2[k] == ch[k] && ch2[k + 1] == ch[k + 1]);
            assert(imports_step(m, ch[k], ch[k + 1]));
        } else {
            assert(ch2[k] == b && ch2[k + 1] == c);
        }
    }
    assert(import_chain(m, ch2));
    assert(ch2[0] == a && ch2.last() == c);
}

proof fn lemma_extends_contains(a: Seq<Seq<char>>, b: Seq<Seq<char>>)
    requires
        b.len() >= a.len(),
        b.take(a.len() as int) == a,
    ensures
        forall|x: Seq<char>| a.contains(x) ==> #[trigger] b.contains(x),
{
    assert forall|x: Seq<char>| a.contains(x) implies #[trigger] b.contains(x) by {
        let i = choose|i: int| 0 <= i < a.len() && a[i] == x;
        assert(b.take(a.len() as int)[i] == b[i]);
    }
}

proof fn lemma_source_key_of_key(m: Seq<(Seq<char>, Seq<char>)>, p: Seq<char>)
    ensures
        source_key(m, p) matches Some(k) ==> table_index(m, k, 0) is Some && source_key(m, k) == Some(k),
{
}

/// Depth-first walk of the module graph from `path`, appending each module
/// after the modules it imports. A module is entered once; a path with no
/// table entry falls back to the DekaScript source it was compiled from.
fn visit(
    path: &str,
    modules: &Vec<(String, String)>,
    visiting: &mut Vec<String>,
    seen: &mut Vec<String>,
    order: &mut Vec<String>,
) -> (r: Result<(), String>)
    requires
        order_ok(table_views(modules@), string_views(old(order)@), string_views(old(seen)@)),
        walk_settled(
            table_views(modules@),
            string_views(old(seen)@),
            string_views(old(visiting)@),
            string_views(old(order)@),
        ),
        forall|x: Seq<char>|
            string_views(old(visiting)@).contains(x) ==> #[trigger] string_views(old(seen)@).contains(x),
        imports_entered(table_views(modules@), string_views(old(order)@), string_views(old(seen)@)),
        walk_ordered(table_views(modules@), string_views(old(order)@)),
        walk_stack(table_views(modules@), string_views(old(visiting)@), path@),
    ensures
        forall|x: Seq<char>|
            string_views(old(seen)@).contains(x) ==> #[trigger] string_views(final(seen)@).contains(x),
        order_ok(table_views(modules@), string_views(final(order)@), string_views(final(seen)@)),
        string_views(final(order)@).len() >= string_views(old(order)@).len(),
        string_views(final(order)@).take(old(order)@.len() as int) == string_views(old(order)@),
        forall|i: int|
            old(order)@.len() <= i < final(order)@.len() ==> !string_views(old(seen)@).contains(
                #[trigger] string_views(final(order)@)[i],
            ),
        r is Ok ==> string_views(final(seen)@).contains(path@),
        r is Ok && !string_views(old(seen)@).contains(path@) && table_index(table_views(modules@), path@, 0) is Some
            ==> final(order)@.len() > old(order)@.len() && string_views(final(order)@).last() == path@,
        r is Ok && !string_views(old(seen)@).contains(path@) && table_index(table_views(modules@), path@, 0) is None
            ==> (source_key(table_views(modules@), path@) matches Some(k) && (!string_views(old(seen)@).contains(k)
            ==> final(order)@.len() > old(order)@.len() && string_views(final(order)@).last() == k)),
        r matches Err(e) ==> graph_error(e@),
        r is Ok ==> walk_settled(
            table_views(modules@),
            string_views(final(seen)@),
            string_views(final(visiting)@),
            string_views(final(order)@),
        ),
        r is Ok ==> forall|x: Seq<char>|
            #[trigger] string_views(final(visiting)@).contains(x) <==> string_views(old(visiting)@).contains(x),
        r is Ok ==> imports_entered(table_views(modules@), string_views(final(order)@), string_views(final(seen)@)),
        r is Ok ==> walk_ordered(table_views(modules@), string_views(final(order)@)),
    decreases unseen(table_views(modules@), string_views(old(seen)@)), if table_index(
        table_views(modules@),
        path@,
        0,
    ) is Some {
        0nat
    } else {
        1nat
    },
{
    let ghost m = table_views(modules@);
    let ghost seen0 = string_views(seen@);
    let ghost order0 = string_views(order@);
    let ghost vis0 = string_views(visiting@);
    if contains_string(seen, path) {
        proof {
            assert(order0.take(order0.len() as int) =~= order0);
        }
        return Ok(());
    }
    seen.push(owned(path));
    proof {
        assert(string_views(seen@) =~= seen0.push(path@));
        lemma_push_keeps(seen0, path@);
        assert forall|a: int| 0 <= a < order0.len() implies #[trigger] string_views(seen@).contains(order0[a]) by {
            assert(seen0.contains(order0[a]));
        }
        assert(order_ok(m, order0, string_views(seen@)));
    }
    if contains_string(visiting, path) {
        proof {
            reveal_strlit("cycle in island graph at ");
            assert(order0.take(order0.len() as int) =~= order0);
        }
        let mut e = owned("cycle in island graph at ");
        e.append(path);
        proof {
            assert(e@ =~= "cycle in island graph at "@ + path@);
        }
        return Err(e);
    }
    visiting.push(owned(path));
    let ghost seen1 = string_views(seen@);
    let ghost vis1 = string_views(visiting@);
    proof {
        assert(vis1 =~= vis0.push(path@));
        lemma_push_keeps(vis0, path@);
        assert(!vis0.contains(path@));
        assert forall|x: Seq<char>| #[trigger] seen1.contains(x) implies vis1.contains(x) || (source_key(m, x) matches Some(t) && (
            order0.contains(t) || (vis1.contains(t) && table_index(m, t, 0) is Some))) by {
            if x != path@ {
                assert(seen0.contains(x)) by {
                    let j = choose|j: int| 0 <= j < seen1.len() && seen1[j] == x;
                    assert(j < seen0.len());
                    assert(seen0[j] == x);
                }
            }
        }
        assert forall|x: Seq<char>| vis1.contains(x) implies #[trigger] seen1.contains(x) by {
            if x != path@ {
                let j = choose|j: int| 0 <= j < vis1.len() && vis1[j] == x;
                assert(vis0[j] == x);
                assert(vis0.contains(x));
                assert(seen0.contains(x));
                assert(seen1.contains(x)) by {
                    let j2 = choose|j2: int| 0 <= j2 < seen0.len() && seen0[j2] == x;
                    assert(seen1[j2] == x);
                }
            } else {
                assert(seen1[seen0.len() as int] == x);
            }
        }
        assert forall|i: int, j: int|
            #![trigger imports_of(m, order0[i])[j]]
            0 <= i < order0.len() && 0 <= j < imports_of(m, order0[i]).len() implies seen1.contains(
                imports_of(m, order0[i])[j].0,
            ) by {
            assert(seen0.contains(imports_of(m, order0[i])[j].0));
        }
    }
    let idx = table_find(modules, path);
    match idx {
        None => {
            match lookup_source_key(path, modules) {
                Some(alt) => {
                    proof {
                        lemma_table_index(m, path@, 0);
                        lemma_table_index(m, alt@, 0);
                        lemma_unseen_mono(m, seen0, string_views(seen@));
                    }
                    proof {
                        assert(table_index(m, alt@, 0) is Some);
                        if !seen0.contains(alt@) {
                            assert(alt@ != path@);
                            assert(!string_views(seen@).contains(alt@)) by {
                                assert(string_views(seen@) =~= seen0.push(path@));
                                if string_views(seen@).contains(alt@) {
                                    let j = choose|j: int| 0 <= j < string_views(seen@).len() && string_views(seen@)[j] == alt@;
                                    if j < seen0.len() {
                                        assert(seen0[j] == alt@);
                                    }
                                }
                            }
                        }
                    }
                    proof {
                        lemma_source_key_of_key(m, path@);
                        lemma_source_key_of_key(m, alt@);
                        lemma_reaches_refl(m, alt@);
                        let vv = string_views(visiting@);
                        assert(vv =~= vis0.push(path@));
                        assert forall|x: Seq<char>| #[trigger] vv.contains(x) implies (source_key(m, x) matches Some(a) && (
                            source_key(m, alt@) matches Some(t) ==> reaches(m, a, t))) by {
                            if x != path@ {
                                let j = choose|j: int| 0 <= j < vv.len() && vv[j] == x;
                                assert(vis0[j] == x);
                                assert(vis0.contains(x));
                            }
                        }
                        assert(walk_stack(m, vv, alt@));
                    }
                    let r = visit(alt.as_str(), modules, visiting, seen, order);
                    let ghost vis2 = string_views(visiting@);
                    remove_string(visiting, path);
                    proof {
                        assert forall|i: int|
                            old(order)@.len() <= i < order@.len() implies !seen0.contains(
                                #[trigger] string_views(order@)[i],
                            ) by {
                            assert(!string_views(old(seen)@).push(path@).contains(string_views(order@)[i]));
                            lemma_push_keeps(seen0, path@);
                        }
                        if r is Ok {
                            let s2 = string_views(seen@);
                            let o2 = string_views(order@);
                            let v3 = string_views(visiting@);
                            lemma_source_key_of_key(m, path@);
                            lemma_source_key_of_key(m, alt@);
                            assert(source_key(m, alt@) == Some(alt@));
                            assert(s2.contains(alt@));
                            assert(o2.contains(alt@) || vis2.contains(alt@));
                            assert forall|x: Seq<char>| #[trigger] v3.contains(x) <==> vis0.contains(x) by {
                                if vis0.contains(x) {
                                    assert(x != path@);
                                    assert(vis1.contains(x));
                                }
                            }
                            assert forall|x: Seq<char>| #[trigger] s2.contains(x) implies v3.contains(x) || (source_key(m, x) matches Some(t) && (
                                o2.contains(t) || (v3.contains(t) && table_index(m, t, 0) is Some))) by {
                                if x == path@ {
                                    assert(source_key(m, x) == Some(alt@));
                                    assert(alt@ != path@);
                                } else if vis2.contains(x) {
                                    assert(v3.contains(x));
                                } else {
                                    let t = source_key(m, x)->0;
                                    if !o2.contains(t) {
                                        assert(vis2.contains(t) && table_index(m, t, 0) is Some);
                                        assert(t != path@);
                                        assert(v3.contains(t));
                                    }
                                }
                            }
                            assert forall|x: Seq<char>| v3.contains(x) implies #[trigger] s2.contains(x) by {
                                assert(vis2.contains(x));
                            }
                        }
                    }
                    return r;
                },
                None => {
                    remove_string(visiting, path);
                    proof {
                        reveal_strlit("island graph does not contain ");
                        assert(order0.take(order0.len() as int) =~= order0);
                    }
                    let mut e = owned("island graph does not contain ");
                    e.append(path);
                    proof {
                        assert(e@ =~= "island graph does not contain "@ + path@);
                    }
                    return Err(e);
                },
            }
        },
        Some(i) => {
            proof {
                lemma_table_index(m, path@, 0);
                lemma_unseen_add(m, seen0, path@);
            }
            let js = &modules[i].1;
            let (_, links) = strip_relative_imports(js.as_str(), path, modules);
            let ghost lv = link_views(links@);
            proof {
                assert(m[i as int] == (modules@[i as int].0@, modules@[i as int].1@));
                assert(table_get(m, path@) == Some(js@));
                assert(lv == imports_of(m, path@));
            }
            let mut k: usize = 0;
            while k < links.len()
                invariant
                    k <= links@.len(),
                    m == table_views(modules@),
                    lv == link_views(links@),
                    lv == imports_of(m, path@),
                    table_index(m, path@, 0) is Some,
                    !seen0.contains(path@),
                    string_views(seen@).contains(path@),
                    forall|x: Seq<char>| seen0.contains(x) ==> #[trigger] string_views(seen@).contains(x),
                    order_ok(m, string_views(order@), string_views(seen@)),
                    string_views(order@).len() >= order0.len(),
                    string_views(order@).take(order0.len() as int) == order0,
                    order0 == string_views(old(order)@),
                    seen0 == string_views(old(seen)@),
                    vis0 == string_views(old(visiting)@),
                    !vis0.contains(path@),
                    vis1 == vis0.push(path@),
                    forall|j: int|
                        order0.len() <= j < order@.len() ==> !seen0.contains(
                            #[trigger] string_views(order@)[j],
                        ),
                    forall|j: int|
                        order0.len() <= j < order@.len() ==> #[trigger] string_views(order@)[j] != path@,
                    unseen(m, string_views(seen@)) < unseen(m, seen0),
                    walk_settled(m, string_views(seen@), string_views(visiting@), string_views(order@)),
                    forall|x: Seq<char>|
                        #[trigger] string_views(visiting@).contains(x) <==> vis1.contains(x),
                    forall|x: Seq<char>|
                        string_views(visiting@).contains(x) ==> #[trigger] string_views(seen@).contains(x),
                    imports_entered(m, string_views(order@), string_views(seen@)),
                    forall|j: int| 0 <= j < k ==> #[trigger] string_views(seen@).contains(lv[j].0),
                    walk_ordered(m, string_views(order@)),
                    walk_stack(m, vis0, path@),
                    source_key(m, path@) == Some(path@),
                decreases links@.len() - k,
            {
                let ghost s1 = string_views(seen@);
                let ghost o1 = string_views(order@);
                proof {
                    let lk = links@[k as int].0@;
                    let vv = string_views(visiting@);
                    assert(lv[k as int].0 == lk);
                    lemma_reaches_refl(m, path@);
                    assert forall|x: Seq<char>| #[trigger] vv.contains(x) implies (source_key(m, x) matches Some(a) && (
                        source_key(m, lk) matches Some(t) ==> reaches(m, a, t))) by {
                        assert(vis1.contains(x));
                        if source_key(m, lk) is Some {
                            let t = source_key(m, lk)->0;
                            assert(imports_of(m, path@)[k as int].0 == lk);
                            assert(imports_step(m, path@, t));
                        }
                        if x == path@ {
                            if source_key(m, lk) is Some {
                                lemma_reaches_step(m, path@, path@, source_key(m, lk)->0);
                            }
                        } else {
                            let j = choose|j: int| 0 <= j < vis1.len() && vis1[j] == x;
                            assert(vis0[j] == x);
                            assert(vis0.contains(x));
                            let a = source_key(m, x)->0;
                            assert(reaches(m, a, path@));
                            if source_key(m, lk) is Some {
                                lemma_reaches_step(m, a, path@, source_key(m, lk)->0);
                            }
                        }
                    }
                    assert(walk_stack(m, vv, lk));
                }
                let r = visit(links[k].0.as_str(), modules, visiting, seen, order);
                proof {
                    lemma_unseen_mono(m, s1, string_views(seen@));
                    assert(string_views(order@).take(order0.len() as int) =~= o1.take(order0.len() as int)) by {
                        assert(string_views(order@).take(o1.len() as int) == o1);
                    }
                    assert forall|j: int|
                        order0.len() <= j < order@.len() implies !seen0.contains(
                            #[trigger] string_views(order@)[j],
                        ) && string_views(order@)[j] != path@ by {
                        if j < o1.len() {
                            assert(string_views(order@)[j] == string_views(order@).take(o1.len() as int)[j]);
                        } else {
                            assert(!s1.contains(string_views(order@)[j]));
                        }
                    }
                }
                match r {
                    Ok(()) => {},
                    Err(e) => {
                        return Err(e);
                    },
                }
                proof {
                    assert(lv[k as int].0 == links@[k as int].0@);
                    assert forall|j: int| 0 <= j < k + 1 implies #[trigger] string_views(seen@).contains(lv[j].0) by {
                        if j < k {
                            assert(s1.contains(lv[j].0));
                        }
                    }
                }
                k = k + 1;
            }
            let ghost s2 = string_views(seen@);
            let ghost vis2 = string_views(visiting@);
            remove_string(visiting, path);
            let ghost ob = string_views(order@);
            order.push(owned(path));
            proof {
                let ov = string_views(order@);
                let v3 = string_views(visiting@);
                assert(ov =~= ob.push(path@));
                lemma_push_keeps(ob, path@);
                assert(ov.take(order0.len() as int) =~= ob.take(order0.len() as int));
                assert forall|a: int, b: int| 0 <= a < b < ov.len() implies ov[a] != ov[b] by {
                    if b == ov.len() - 1 {
                        if a >= order0.len() {
                            assert(ob[a] != path@);
                        } else {
                            assert(ob[a] == order0[a]);
                            assert(string_views(old(seen)@).contains(order0[a]));
                        }
                    }
                }
                assert forall|a: int| 0 <= a < ov.len() implies #[trigger] string_views(seen@).contains(ov[a]) by {
                    if a < ob.len() {
                        assert(ov[a] == ob[a]);
                    }
                }
                assert forall|a: int| 0 <= a < ov.len() implies table_index(m, #[trigger] ov[a], 0) is Some by {
                    if a < ob.len() {
                        assert(ov[a] == ob[a]);
                    }
                }
                assert forall|x: Seq<char>| #[trigger] v3.contains(x) <==> vis0.contains(x) by {
                    if vis0.contains(x) {
                        assert(x != path@);
                        assert(vis1.contains(x));
                    }
                    if v3.contains(x) {
                        assert(vis1.contains(x));
                        assert(x != path@);
                        let j = choose|j: int| 0 <= j < vis1.len() && vis1[j] == x;
                        assert(vis0[j] == x);
                    }
                }
                lemma_source_key_of_key(m, path@);
                assert forall|x: Seq<char>| #[trigger] s2.contains(x) implies v3.contains(x) || (source_key(m, x) matches Some(t) && (
                    ov.contains(t) || (v3.contains(t) && table_index(m, t, 0) is Some))) by {
                    if x == path@ {
                        assert(source_key(m, x) == Some(path@));
                    } else if vis2.contains(x) {
                        assert(v3.contains(x));
                    } else {
                        let t = source_key(m, x)->0;
                        if ob.contains(t) {
                            assert(ov.contains(t));
                        } else if t != path@ {
                            assert(v3.contains(t));
                        }
                    }
                }
                assert forall|x: Seq<char>| v3.contains(x) implies #[trigger] s2.contains(x) by {
                    assert(vis2.contains(x));
                }
                assert forall|a: int, j: int|
                    #![trigger imports_of(m, ov[a])[j]]
                    0 <= a < ov.len() && 0 <= j < imports_of(m, ov[a]).len() implies s2.contains(
                        imports_of(m, ov[a])[j].0,
                    ) by {
                    if a < ob.len() {
                        assert(ov[a] == ob[a]);
                        assert(imports_of(m, ob[a])[j] == imports_of(m, ov[a])[j]);
                    } else {
                        assert(ov[a] == path@);
                        assert(s2.contains(lv[j].0));
                    }
                }
                lemma_reaches_refl(m, path@);
                assert forall|a: int, j: int|
                    #![trigger imports_of(m, ov[a])[j]]
                    0 <= a < ov.len() && 0 <= j < imports_of(m, ov[a]).len() implies match source_key(
                        m,
                        imports_of(m, ov[a])[j].0,
                    ) {
                        Some(t) => (exists|p: int| 0 <= p < a && #[trigger] ov[p] == t) || reaches(m, t, ov[a]),
                        None => true,
                    } by {
                    if a < ob.len() {
                        assert(ov[a] == ob[a]);
                        assert(imports_of(m, ob[a])[j] == imports_of(m, ov[a])[j]);
                        if let Some(t) = source_key(m, imports_of(m, ov[a])[j].0) {
                            if exists|p: int| 0 <= p < a && #[trigger] ob[p] == t {
                                let p = choose|p: int| 0 <= p < a && #[trigger] ob[p] == t;
                                assert(ov[p] == t);
                            }
                        }
                    } else {
                        assert(ov[a] == path@);
                        let l = lv[j].0;
                        assert(imports_of(m, ov[a])[j].0 == l);
                        assert(s2.contains(l));
                        if let Some(t) = source_key(m, l) {
                            lemma_source_key_of_key(m, l);
                            if vis2.contains(l) {
                                assert(vis1.contains(l));
                                if l != path@ {
                                    let q = choose|q: int| 0 <= q < vis1.len() && vis1[q] == l;
                                    assert(vis0[q] == l);
                                    assert(vis0.contains(l));
                                }
                            } else if ob.contains(t) {
                                let p = choose|p: int| 0 <= p < ob.len() && ob[p] == t;
                                assert(ov[p] == t);
                            } else {
                                assert(vis2.contains(t) && table_index(m, t, 0) is Some);
                                assert(vis1.contains(t));
                                if t != path@ {
                                    let q = choose|q: int| 0 <= q < vis1.len() && vis1[q] == t;
                                    assert(vis0[q] == t);
                                    assert(vis0.contains(t));
                                    assert(source_key(m, t) == Some(t));
                                }
                            }
                        }
                    }
                }
            }
            Ok(())
        },
    }
}

/// The preamble of the bundle: the module table and its two accessors.
pub open spec fn bundle_header() -> Seq<char> {
    "// deka: shared islands bundle (compiled DSX + production React)\nconst __deka_island_mods = Object.create(null);\nfunction __deka_island_export(id, exports) {\n__deka_island_mods[id] = exports;\n}\nfunction __deka_island_import(id) {\nconst m = __deka_island_mods[id];\nif (!m) throw new Error(\"island module missing: \" + id);\nreturn m;\n}\n"@
}

/// The modules of `order`, each rewritten, in order.
pub open spec fn rendered(m: Seq<(Seq<char>, Seq<char>)>, entry: Seq<char>, order: Seq<Seq<char>>) -> Seq<char>
    decreases order.len(),
{
    if order.len() == 0 {
        Seq::empty()
    } else {
        let k = order.last();
        rendered(m, entry, order.drop_last()) + rewritten_module(
            table_get(m, k)->0,
            k,
            m,
            replace_all(k, "\\"@, "/"@),
            k == entry,
        )
    }
}

/// Every module that a module of `order` imports is itself in `order`: the
/// bundle registers every module whose key an emitted
/// `__deka_island_import` names.
pub open spec fn imports_registered(m: Seq<(Seq<char>, Seq<char>)>, order: Seq<Seq<char>>) -> bool {
    forall|i: int, j: int|
        #![trigger imports_of(m, order[i])[j]]
        0 <= i < order.len() && 0 <= j < imports_of(m, order[i]).len() ==> order.contains(
            imports_of(m, order[i])[j].0,
        )
}

/// Each module of `order` comes after every module it imports, but for an
/// import that closes a cycle back to it (one from which it is reached).
pub open spec fn imports_first(m: Seq<(Seq<char>, Seq<char>)>, order: Seq<Seq<char>>) -> bool {
    forall|i: int, j: int|
        #![trigger imports_of(m, order[i])[j]]
        0 <= i < order.len() && 0 <= j < imports_of(m, order[i]).len() ==> (exists|p: int|
            0 <= p < i && #[trigger] order[p] == imports_of(m, order[i])[j].0) || reaches(
            m,
            imports_of(m, order[i])[j].0,
            order[i],
        )
}

/// A relative import's table key is the module it stands for whenever it
/// stands for one.
proof fn lemma_link_keys(s: Seq<char>, importer: Seq<char>, m: Seq<(Seq<char>, Seq<char>)>)
    ensures
        forall|j: int|
            0 <= j < stripped_imports(s, importer, m).1.len() ==> (source_key(
                m,
                #[trigger] stripped_imports(s, importer, m).1[j].0,
            ) matches Some(t) ==> t == stripped_imports(s, importer, m).1[j].0),
    decreases s.len(),
{
    match first_import(s, 0) {
        None => {},
        Some(im) => if 0 <= im.0 < im.1 <= s.len() {
            lemma_link_keys(s.skip(im.1), importer, m);
            if is_relative_spec(im.2) {
                let r0 = resolved(importer, im.2);
                lemma_source_key_of_key(m, r0);
                let r = stripped_imports(s.skip(im.1), importer, m);
                let all = stripped_imports(s, importer, m).1;
                assert(all == seq![(link_key(m, importer, im.2), im.3)] + r.1);
                assert forall|j: int| 0 <= j < all.len() implies (source_key(m, #[trigger] all[j].0) matches Some(
                    t,
                ) ==> t == all[j].0) by {
                    if j > 0 {
                        assert(all[j] == r.1[j - 1]);
                    }
                }
            }
        },
    }
}

/// Link the module graph reachable from `entry` into one script. On
/// success the script is the bundle preamble followed by each reachable
/// module, once, rewritten; the walk puts a module after those it imports.
pub fn concat_esm_graph(entry: &str, modules: &Vec<(String, String)>) -> (r: Result<String, String>)
    ensures
        match r {
            Ok(text) => exists|order: Seq<Seq<char>>|
                order_ok(table_views(modules@), order, order) && order.len() > 0 && (order.last()
                    == entry@ || source_key(table_views(modules@), entry@) == Some(order.last()))
                    && text@ == bundle_header() + rendered(table_views(modules@), entry@, order)
                    && imports_registered(table_views(modules@), order)
                    && imports_first(table_views(modules@), order),
            Err(e) => graph_error(e@),
        },
{
    let ghost m = table_views(modules@);
    let mut order: Vec<String> = Vec::new();
    let mut visiting: Vec<String> = Vec::new();
    let mut seen: Vec<String> = Vec::new();
    proof {
        assert(string_views(order@) =~= Seq::<Seq<char>>::empty());
    }
    proof {
        assert(string_views(seen@) =~= Seq::<Seq<char>>::empty());
    }
    match visit(entry, modules, &mut visiting, &mut seen, &mut order) {
        Ok(()) => {},
        Err(e) => {
            return Err(e);
        },
    }
    let ghost vis_end = string_views(visiting@);
    proof {
        assert forall|x: Seq<char>| !vis_end.contains(x) by {
            assert(!Seq::<Seq<char>>::empty().contains(x));
        }
    }
    proof {
        if table_index(m, entry@, 0) is None {
            assert(source_key(m, entry@) is Some);
        }
    }
    let ghost ov = string_views(order@);
    let mut out = owned("// deka: shared islands bundle (compiled DSX + production React)\nconst __deka_island_mods = Object.create(null);\nfunction __deka_island_export(id, exports) {\n__deka_island_mods[id] = exports;\n}\nfunction __deka_island_import(id) {\nconst m = __deka_island_mods[id];\nif (!m) throw new Error(\"island module missing: \" + id);\nreturn m;\n}\n");
    let mut i: usize = 0;
    while i < order.len()
        invariant
            i <= order@.len(),
            m == table_views(modules@),
            ov == string_views(order@),
            order_ok(m, ov, string_views(seen@)),
            out@ == bundle_header() + rendered(m, entry@, ov.take(i as int)),
        decreases order@.len() - i,
    {
        proof {
            assert(ov.take(i + 1).drop_last() =~= ov.take(i as int));
            assert(ov.take(i + 1).last() == order@[i as int]@);
            assert(table_index(m, ov[i as int], 0) is Some);
        }
        let path = &order[i];
        proof {
            lemma_table_index(m, path@, 0);
        }
        let idx = match table_find(modules, path.as_str()) {
            Some(idx) => idx,
            None => {
                proof {
                    reveal_strlit("island graph missing ");
                }
                let mut e = owned("island graph missing ");
                e.append(path.as_str());
                proof {
                    assert(e@ =~= "island graph missing "@ + path@);
                }
                return Err(e);
            },
        };
        let js = &modules[idx].1;
        let id = module_id(path.as_str());
        let pe = owned(path.as_str());
        let ee = owned(entry);
        let is_entry = pe == ee;
        let block = rewrite_module(js.as_str(), path.as_str(), modules, id.as_str(), is_entry);
        let ghost before = out@;
        out.append(block.as_str());
        proof {
            assert(m[idx as int] == (modules@[idx as int].0@, modules@[idx as int].1@));
            assert(table_index(m, path@, 0) == Some(idx as int));
            assert(table_get(m, ov[i as int]) == Some(js@));
            assert(ov[i as int] == path@);
            assert(block@ == rewritten_module(
                table_get(m, ov[i as int])->0,
                ov[i as int],
                m,
                replace_all(ov[i as int], "\\"@, "/"@),
                ov[i as int] == entry@,
            ));
            assert(out@ =~= before + block@);
        }
        i = i + 1;
    }
    proof {
        assert(ov.take(ov.len() as int) =~= ov);
        assert forall|k: int| 0 <= k < ov.len() implies #[trigger] ov.contains(ov[k]) by {
        }
        assert(order_ok(m, ov, ov));
        let sv = string_views(seen@);
        assert forall|i: int, j: int|
            #![trigger imports_of(m, ov[i])[j]]
            0 <= i < ov.len() && 0 <= j < imports_of(m, ov[i]).len() implies ov.contains(
                imports_of(m, ov[i])[j].0,
            ) by {
            let l = imports_of(m, ov[i])[j].0;
            assert(sv.contains(l));
            assert(!vis_end.contains(l));
            lemma_link_keys(table_get(m, ov[i])->0, ov[i], m);
            assert(source_key(m, l) == Some(l));
        }
        assert(imports_registered(m, ov));
        assert forall|i: int, j: int|
            #![trigger imports_of(m, ov[i])[j]]
            0 <= i < ov.len() && 0 <= j < imports_of(m, ov[i]).len() implies (exists|p: int|
                0 <= p < i && #[trigger] ov[p] == imports_of(m, ov[i])[j].0) || reaches(
                m,
                imports_of(m, ov[i])[j].0,
                ov[i],
            ) by {
            let l = imports_of(m, ov[i])[j].0;
            assert(sv.contains(l));
            assert(!vis_end.contains(l));
            lemma_link_keys(table_get(m, ov[i])->0, ov[i], m);
            assert(source_key(m, l) == Some(l));
        }
    }
    Ok(out)
}


pub open spec fn private_prefix() -> Seq<char> {
    seq!['/', 'p', 'r', 'i', 'v', 'a', 't', 'e']
}

/// The compiled JavaScript of a source file: under its canonical path,
/// else under the path as given, else under the other spelling of macOS's
/// `/private` alias.
pub open spec fn compiled_js(m: Seq<(Seq<char>, Seq<char>)>, source: Seq<char>, canonical: Seq<char>) -> Option<Seq<char>> {
    match table_get(m, canonical) {
        Some(j) => Some(j),
        None => match table_get(m, source) {
            Some(j) => Some(j),
            None => if starts_with(canonical, private_prefix()) {
                table_get(m, canonical.skip(8))
            } else {
                table_get(m, private_prefix() + canonical)
            },
        },
    }
}

fn table_lookup(modules: &Vec<(String, String)>, key: &str) -> (r: Option<String>)
    ensures
        match table_get(table_views(modules@), key@) {
            Some(j) => r matches Some(t) && t@ == j,
            None => r is None,
        },
{
    match table_find(modules, key) {
        Some(i) => {
            proof {
                assert(table_views(modules@)[i as int] == (modules@[i as int].0@, modules@[i as int].1@));
            }
            Some(modules[i].1.clone())
        },
        None => None,
    }
}

/// Find the compiled module of `source`, whose canonical path the caller
/// resolved as `canonical` (the path itself when it does not resolve).
pub fn lookup_js(modules: &Vec<(String, String)>, source: &str, canonical: &str) -> (r: Option<String>)
    ensures
        match compiled_js(table_views(modules@), source@, canonical@) {
            Some(j) => r matches Some(t) && t@ == j,
            None => r is None,
        },
{
    match table_lookup(modules, canonical) {
        Some(j) => {
            return Some(j);
        },
        None => {},
    }
    match table_lookup(modules, source) {
        Some(j) => {
            return Some(j);
        },
        None => {},
    }
    let c = chars_of(canonical);
    let pre = vec!['/', 'p', 'r', 'i', 'v', 'a', 't', 'e'];
    let cl = c.len();
    let has = starts_at(&c, 0, &pre);
    proof {
        assert(pre@ =~= private_prefix());
        if cl >= 8 {
            assert(c@.subrange(0, 8) =~= c@.take(8));
        }
    }
    if has {
        let rest = copy_span(&c, 8, cl);
        let mut key = String::new();
        append_chars(&mut key, &rest);
        proof {
            assert(rest@ =~= c@.skip(8));
        }
        table_lookup(modules, key.as_str())
    } else {
        let mut key = String::new();
        append_chars(&mut key, &pre);
        key.append(canonical);
        table_lookup(modules, key.as_str())
    }
}

/// The compiled JavaScript of one source file, from the modules a compile
/// of its directory emitted; refused (with the validation `marker` first)
/// when the compile did not emit it.
pub fn compile_file(modules: &Vec<(String, String)>, source: &str, canonical: &str, marker: &str) -> (r: Result<
    String,
    String,
>)
    ensures
        match compiled_js(table_views(modules@), source@, canonical@) {
            Some(j) => r matches Ok(t) && t@ == j,
            None => r matches Err(e) && e@ == marker@ + "dsc did not emit "@ + source@,
        },
{
    match lookup_js(modules, source, canonical) {
        Some(j) => Ok(j),
        None => {
            let mut e = owned(marker);
            e.append("dsc did not emit ");
            e.append(source);
            Err(e)
        },
    }
}

} // verus!
