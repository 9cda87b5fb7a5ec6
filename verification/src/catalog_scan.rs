//! Source gate for the closed `deka.*` catalog: find `safe { ... }` and
//! `unsafe { ... }` blocks in DekaScript sources, validate the catalog call
//! they hold against the catalog, lower every valid `safe { deka.k.m(..) }`
//! to the bare call, and report everything else as a source diagnostic.
//!
//! The scan is byte-oriented and aware of string, template and `//` comment
//! literals, so punctuation inside literals never confuses it.

use vstd::prelude::*;
use vstd::string::StringSliceAdditionalSpecFns;
use vstd::utf8::*;
use crate::text::{
    comma_list, decimal, bytes_to_string, char_is_whitespace, chars_of, is_cut, is_white_space, lemma_ascii_valid,
    lemma_cut_after_ascii, lemma_cut_at_start, lemma_str_valid, lemma_valid_span, owned,
    push_span, str_span, to_bytes, u64_to_decimal, BACKSLASH, BACKTICK, COMMA, DOLLAR, DOT,
    DQUOTE, GT, LBRACE, LBRACKET, LPAREN, LT, NEWLINE, RBRACE, RBRACKET, RPAREN, SEMI, SLASH,
    SQUOTE, UNDERSCORE,
};

verus! {

broadcast use vstd::utf8::group_utf8_lib;

// ---- The catalog -------------------------------------------------------

/// Whether a catalog helper can throw.
#[derive(Clone, Copy, PartialEq, Eq, Structural)]
pub enum Safety {
    Safe,
    Throws,
}

/// One helper of a catalog kind.
pub struct CatalogMethod {
    pub name: String,
    pub safety: Safety,
    pub min_args: usize,
    pub max_args: usize,
    pub doc: String,
}

/// One `deka.<kind>` namespace.
pub struct CatalogKind {
    pub name: String,
    pub methods: Vec<CatalogMethod>,
}

/// The kinds and helpers that DekaScript sources may call.
pub struct Catalog {
    pub kinds: Vec<CatalogKind>,
}

/// The UTF-8 bytes of a `String`.
pub open spec fn sbytes(s: String) -> Seq<u8> {
    encode_utf8(s@)
}

pub open spec fn is_catalog_kind(cat: Catalog, kind: Seq<u8>) -> bool {
    exists|i: int| 0 <= i < cat.kinds@.len() && sbytes(#[trigger] cat.kinds@[i].name) == kind
}

/// A catalog call that may be lowered: known kind and method, classified
/// `Safe`, called with an argument count in range.
pub open spec fn safe_call_ok(cat: Catalog, kind: Seq<u8>, method: Seq<u8>, argc: int) -> bool {
    exists|i: int, j: int|
        #![trigger cat.kinds@[i].methods@[j]]
        0 <= i < cat.kinds@.len() && 0 <= j < cat.kinds@[i].methods@.len() && {
            &&& sbytes(cat.kinds@[i].name) == kind
            &&& sbytes(cat.kinds@[i].methods@[j].name) == method
            &&& cat.kinds@[i].methods@[j].safety == Safety::Safe
            &&& cat.kinds@[i].methods@[j].min_args <= argc <= cat.kinds@[i].methods@[j].max_args
        }
}

fn bytes_eq(a: &[u8], b: &[u8], start: usize, end: usize) -> (r: bool)
    requires
        start <= end <= b@.len(),
    ensures
        r == (a@ == b@.subrange(start as int, end as int)),
{
    if a.len() != end - start {
        return false;
    }
    let mut i: usize = 0;
    while i < a.len()
        invariant
            a@.len() == end - start,
            start <= end <= b@.len(),
            i <= a@.len(),
            forall|k: int| 0 <= k < i ==> a@[k] == b@[start + k],
        decreases a@.len() - i,
    {
        if a[i] != b[start + i] {
            proof {
                assert(b@.subrange(start as int, end as int)[i as int] != a@[i as int]);
            }
            return false;
        }
        i = i + 1;
    }
    proof {
        assert(a@ == b@.subrange(start as int, end as int));
    }
    true
}

/// The first kind of the catalog named `k`, from index `i` on.
pub open spec fn first_kind(cat: Catalog, k: Seq<u8>, i: int) -> Option<int>
    decreases cat.kinds@.len() - i,
{
    if 0 <= i < cat.kinds@.len() {
        if sbytes(cat.kinds@[i].name) == k {
            Some(i)
        } else {
            first_kind(cat, k, i + 1)
        }
    } else {
        None
    }
}

/// The first helper of kind `ki` named `m`, from index `j` on.
pub open spec fn first_method(cat: Catalog, ki: int, m: Seq<u8>, j: int) -> Option<int>
    decreases cat.kinds@[ki].methods@.len() - j,
{
    if 0 <= j < cat.kinds@[ki].methods@.len() {
        if sbytes(cat.kinds@[ki].methods@[j].name) == m {
            Some(j)
        } else {
            first_method(cat, ki, m, j + 1)
        }
    } else {
        None
    }
}

/// The catalog's kind names, joined by `, `.
pub open spec fn kind_names(cat: Catalog) -> Seq<char> {
    comma_list(cat.kinds@.map_values(|k: CatalogKind| k.name@))
}

fn find_kind(cat: &Catalog, src: &[u8], ks: usize, ke: usize) -> (r: Option<usize>)
    requires
        ks <= ke <= src@.len(),
    ensures
        r matches Some(i) ==> first_kind(*cat, src@.subrange(ks as int, ke as int), 0) == Some(i as int),
        r is None ==> first_kind(*cat, src@.subrange(ks as int, ke as int), 0) is None,
        r is Some <==> is_catalog_kind(*cat, src@.subrange(ks as int, ke as int)),
        r matches Some(i) ==> i < cat.kinds@.len() && sbytes(cat.kinds@[i as int].name)
            == src@.subrange(ks as int, ke as int),
{
    let mut i: usize = 0;
    while i < cat.kinds.len()
        invariant
            i <= cat.kinds@.len(),
            ks <= ke <= src@.len(),
            first_kind(*cat, src@.subrange(ks as int, ke as int), i as int) == first_kind(
                *cat,
                src@.subrange(ks as int, ke as int),
                0,
            ),
            forall|k: int|
                0 <= k < i ==> sbytes(#[trigger] cat.kinds@[k].name) != src@.subrange(
                    ks as int,
                    ke as int,
                ),
        decreases cat.kinds@.len() - i,
    {
        if bytes_eq(cat.kinds[i].name.as_str().as_bytes(), src, ks, ke) {
            return Some(i);
        }
        i = i + 1;
    }
    None
}

fn find_method(cat: &Catalog, ki: usize, src: &[u8], ms: usize, me: usize) -> (r: Option<usize>)
    requires
        ki < cat.kinds@.len(),
        ms <= me <= src@.len(),
    ensures
        r matches Some(j) ==> first_method(*cat, ki as int, src@.subrange(ms as int, me as int), 0)
            == Some(j as int),
        r is None ==> first_method(*cat, ki as int, src@.subrange(ms as int, me as int), 0) is None,
        r is Some <==> exists|j: int|
            0 <= j < cat.kinds@[ki as int].methods@.len() && sbytes(
                #[trigger] cat.kinds@[ki as int].methods@[j].name,
            ) == src@.subrange(ms as int, me as int),
        r matches Some(j) ==> j < cat.kinds@[ki as int].methods@.len() && sbytes(
            cat.kinds@[ki as int].methods@[j as int].name,
        ) == src@.subrange(ms as int, me as int),
{
    let methods = &cat.kinds[ki].methods;
    let mut j: usize = 0;
    while j < methods.len()
        invariant
            methods@ == cat.kinds@[ki as int].methods@,
            j <= methods@.len(),
            ki < cat.kinds@.len(),
            first_method(*cat, ki as int, src@.subrange(ms as int, me as int), j as int)
                == first_method(*cat, ki as int, src@.subrange(ms as int, me as int), 0),
            ms <= me <= src@.len(),
            forall|k: int|
                0 <= k < j ==> sbytes(#[trigger] methods@[k].name) != src@.subrange(
                    ms as int,
                    me as int,
                ),
        decreases methods@.len() - j,
    {
        if bytes_eq(methods[j].name.as_str().as_bytes(), src, ms, me) {
            return Some(j);
        }
        j = j + 1;
    }
    None
}

// ---- Byte classes and the cursor ---------------------------------------

/// `u8::is_ascii_whitespace`.
pub open spec fn is_ws(b: u8) -> bool {
    b == 32 || b == 9 || b == 10 || b == 12 || b == 13
}

/// Identifier bytes: ASCII alphanumerics, `_` and `$`.
pub open spec fn is_ident(b: u8) -> bool {
    (48 <= b <= 57) || (65 <= b <= 90) || (97 <= b <= 122) || b == UNDERSCORE || b == DOLLAR
}

fn ws_byte(b: u8) -> (r: bool)
    ensures
        r == is_ws(b),
{
    b == 32 || b == 9 || b == 10 || b == 12 || b == 13
}

fn ident_byte(b: u8) -> (r: bool)
    ensures
        r == is_ident(b),
{
    (48 <= b && b <= 57) || (65 <= b && b <= 90) || (97 <= b && b <= 122) || b == UNDERSCORE || b
        == DOLLAR
}

/// A position the scan may resume from: a cut point, or past the end.
pub open spec fn resumable(s: Seq<u8>, p: int) -> bool {
    p > s.len() || is_cut(s, p)
}

/// Scanner preconditions on the source buffer: valid UTF-8 whose offsets
/// (plus the two bytes an escape may step over) fit in `usize`.
pub open spec fn scannable(s: Seq<u8>) -> bool {
    valid_utf8(s) && s.len() + 4 <= usize::MAX
}

/// Where a `'...'` / `"..."` literal closed by `q` ends, scanning from `p`:
/// just past the closing quote, a backslash escaping the byte after it, or
/// at (or one past) the end when it is never closed.
pub open spec fn str_run(s: Seq<u8>, q: u8, p: int) -> int
    decreases s.len() + 2 - p,
{
    if p >= s.len() || p < 0 {
        p
    } else if s[p] == BACKSLASH {
        str_run(s, q, p + 2)
    } else if s[p] == q {
        p + 1
    } else {
        str_run(s, q, p + 1)
    }
}

/// Where the string literal opening at `pos` ends.
pub open spec fn str_end(s: Seq<u8>, pos: int) -> int {
    str_run(s, s[pos], pos + 1)
}

/// Where a `//` comment whose text starts at `p` ends: at its newline or at
/// the end.
pub open spec fn line_end(s: Seq<u8>, p: int) -> int
    decreases s.len() - p,
{
    if 0 <= p < s.len() && s[p] != NEWLINE {
        line_end(s, p + 1)
    } else {
        p
    }
}

/// Where a template literal ends, scanning its text from `p`: just past
/// the closing backtick, with escapes and `${ ... }` expressions skipped.
pub open spec fn tmpl_run(s: Seq<u8>, p: int) -> int
    decreases s.len() + 4 - p, 1int,
{
    if p >= s.len() || p < 0 {
        p
    } else if s[p] == BACKSLASH {
        tmpl_run(s, p + 2)
    } else if s[p] == BACKTICK {
        p + 1
    } else if s[p] == DOLLAR && p + 1 < s.len() && s[p + 1] == LBRACE {
        let q = bal_run(s, p + 1, 0, LBRACE, RBRACE);
        if p < q <= s.len() + 1 {
            tmpl_run(s, q)
        } else {
            q
        }
    } else {
        tmpl_run(s, p + 1)
    }
}

/// Where a balanced `open ... close` group ends, scanning from `p` at
/// nesting `depth`: just past the `close` that brings the nesting back to
/// zero, with literals and line comments skipped.
pub open spec fn bal_run(s: Seq<u8>, p: int, depth: int, open: u8, close: u8) -> int
    decreases s.len() + 4 - p, 3int,
{
    if p >= s.len() || p < 0 {
        p
    } else if s[p] == open {
        bal_run(s, p + 1, depth + 1, open, close)
    } else if s[p] == close {
        if depth <= 1 {
            p + 1
        } else {
            bal_run(s, p + 1, depth - 1, open, close)
        }
    } else if s[p] == DQUOTE || s[p] == SQUOTE {
        let q = str_end(s, p);
        if p < q <= s.len() + 1 {
            bal_run(s, q, depth, open, close)
        } else {
            q
        }
    } else if s[p] == BACKTICK {
        let q = tmpl_run(s, p + 1);
        if p < q <= s.len() + 1 {
            bal_run(s, q, depth, open, close)
        } else {
            q
        }
    } else if s[p] == SLASH && p + 1 < s.len() && s[p + 1] == SLASH {
        let q = ins_run(s, p);
        if p < q <= s.len() + 1 {
            bal_run(s, q, depth, open, close)
        } else {
            q
        }
    } else {
        bal_run(s, p + 1, depth, open, close)
    }
}

/// Where a run of white space, `//` comments and literals starting at `p`
/// ends.
pub open spec fn ins_run(s: Seq<u8>, p: int) -> int
    decreases s.len() + 4 - p, 2int,
{
    if p >= s.len() || p < 0 {
        p
    } else if is_ws(s[p]) {
        ins_run(s, p + 1)
    } else if s[p] == SLASH && p + 1 < s.len() && s[p + 1] == SLASH {
        let q = line_end(s, p + 2);
        if p < q <= s.len() + 1 {
            ins_run(s, q)
        } else {
            q
        }
    } else if s[p] == DQUOTE || s[p] == SQUOTE {
        let q = str_end(s, p);
        if p < q <= s.len() + 1 {
            ins_run(s, q)
        } else {
            q
        }
    } else if s[p] == BACKTICK {
        let q = tmpl_run(s, p + 1);
        if p < q <= s.len() + 1 {
            ins_run(s, q)
        } else {
            q
        }
    } else {
        p
    }
}

fn at(src: &[u8], pos: usize) -> (r: Option<u8>)
    ensures
        r == (if pos < src@.len() {
            Some(src@[pos as int])
        } else {
            None::<u8>
        }),
{
    if pos < src.len() {
        Some(src[pos])
    } else {
        None
    }
}

/// Skip a `'...'` / `"..."` literal starting at its quote.
fn skip_string(src: &[u8], pos: usize) -> (r: usize)
    requires
        scannable(src@),
        pos < src@.len(),
        src@[pos as int] == DQUOTE || src@[pos as int] == SQUOTE,
    ensures
        r == str_end(src@, pos as int),
        pos < r <= src@.len() + 1,
        resumable(src@, r as int),
    decreases src@.len() + 4 - pos, 0usize,
{
    let quote = src[pos];
    let mut p = pos + 1;
    while p < src.len()
        invariant
            scannable(src@),
            pos < p <= src@.len() + 1,
            quote == DQUOTE || quote == SQUOTE,
            quote == src@[pos as int],
            str_run(src@, quote, p as int) == str_end(src@, pos as int),
        decreases src@.len() + 2 - p,
    {
        let b = src[p];
        if b == BACKSLASH {
            p = p + 2;
            continue;
        }
        p = p + 1;
        if b == quote {
            proof {
                lemma_cut_after_ascii(src@, p as int);
            }
            return p;
        }
    }
    proof {
        if p == src@.len() {
            assert(is_cut(src@, p as int));
        }
    }
    p
}

/// Skip a `` `...` `` template literal starting at its backtick, including
/// nested `${ ... }` expressions.
fn skip_template(src: &[u8], pos: usize) -> (r: usize)
    requires
        scannable(src@),
        pos < src@.len(),
    ensures
        r == tmpl_run(src@, pos + 1),
        pos < r <= src@.len() + 1,
        resumable(src@, r as int),
    decreases src@.len() + 4 - pos, 1usize,
{
    let mut p = pos + 1;
    while p < src.len()
        invariant
            scannable(src@),
            pos < p <= src@.len() + 1,
            tmpl_run(src@, p as int) == tmpl_run(src@, pos + 1),
        decreases src@.len() + 2 - p,
    {
        let b = src[p];
        if b == BACKSLASH {
            p = p + 2;
        } else if b == BACKTICK {
            proof {
                lemma_cut_after_ascii(src@, p + 1);
            }
            return p + 1;
        } else if b == DOLLAR && p + 1 < src.len() && src[p + 1] == LBRACE {
            p = skip_balanced(src, p + 1, LBRACE, RBRACE);
        } else {
            p = p + 1;
        }
    }
    proof {
        if p == src@.len() {
            assert(is_cut(src@, p as int));
        }
    }
    p
}

/// Skip a balanced delimiter pair whose opener is at `pos`, aware of
/// strings, templates and line comments.
fn skip_balanced(src: &[u8], pos: usize, open: u8, close: u8) -> (r: usize)
    requires
        scannable(src@),
        pos < src@.len(),
        src@[pos as int] == open,
        open < 0x80,
        close < 0x80,
        open != close,
    ensures
        r == bal_run(src@, pos as int, 0, open, close),
        pos < r <= src@.len() + 1,
        resumable(src@, r as int),
    decreases src@.len() + 4 - pos, 3usize,
{
    let mut depth: usize = 0;
    let mut p = pos;
    while p < src.len()
        invariant
            scannable(src@),
            bal_run(src@, p as int, depth as int, open, close) == bal_run(src@, pos as int, 0, open, close),
            pos <= p <= src@.len() + 1,
            open < 0x80,
            close < 0x80,
            open != close,
            p == pos ==> depth == 0 && src@[pos as int] == open,
            depth <= p - pos,
        decreases src@.len() + 2 - p,
    {
        let b = src[p];
        if b == open {
            depth = depth + 1;
            p = p + 1;
        } else if b == close {
            if depth <= 1 {
                proof {
                    lemma_cut_after_ascii(src@, p + 1);
                }
                return p + 1;
            }
            depth = depth - 1;
            p = p + 1;
        } else if b == DQUOTE || b == SQUOTE {
            p = skip_string(src, p);
        } else if b == BACKTICK {
            p = skip_template(src, p);
        } else if b == SLASH && p + 1 < src.len() && src[p + 1] == SLASH {
            p = skip_insignificant(src, p);
        } else {
            p = p + 1;
        }
    }
    proof {
        if p == src@.len() {
            assert(is_cut(src@, p as int));
        }
    }
    p
}

/// Skip white space, `//` line comments and string/template literals
/// starting at `pos`.
fn skip_insignificant(src: &[u8], pos: usize) -> (r: usize)
    requires
        scannable(src@),
        pos <= src@.len() + 1,
    ensures
        r == ins_run(src@, pos as int),
        pos <= r <= src@.len() + 1,
        resumable(src@, pos as int) ==> resumable(src@, r as int),
        pos < src@.len() && (is_ws(src@[pos as int]) || src@[pos as int] == DQUOTE
            || src@[pos as int] == SQUOTE || src@[pos as int] == BACKTICK || (src@[pos as int]
            == SLASH && pos + 1 < src@.len() && src@[pos + 1] == SLASH)) ==> r > pos,
        r < src@.len() ==> !is_ws(src@[r as int]) && src@[r as int] != DQUOTE && src@[r as int]
            != SQUOTE && src@[r as int] != BACKTICK && !(src@[r as int] == SLASH && r + 1
            < src@.len() && src@[r + 1] == SLASH),
    decreases src@.len() + 4 - pos, 2usize,
{
    let mut p = pos;
    while p < src.len()
        invariant
            scannable(src@),
            pos <= p <= src@.len() + 1,
            ins_run(src@, p as int) == ins_run(src@, pos as int),
            resumable(src@, pos as int) ==> resumable(src@, p as int),
            pos < src@.len() && (is_ws(src@[pos as int]) || src@[pos as int] == DQUOTE
                || src@[pos as int] == SQUOTE || src@[pos as int] == BACKTICK || (src@[pos as int]
                == SLASH && pos + 1 < src@.len() && src@[pos + 1] == SLASH)) ==> p > pos || (p
                == pos && p < src@.len() && src@[p as int] == src@[pos as int]),
        decreases src@.len() + 2 - p,
    {
        let b = src[p];
        if ws_byte(b) {
            proof {
                lemma_cut_after_ascii(src@, p + 1);
            }
            p = p + 1;
        } else if b == SLASH && p + 1 < src.len() && src[p + 1] == SLASH {
            let ghost p0 = p;
            p = p + 2;
            while p < src.len() && src[p] != NEWLINE
                invariant
                    scannable(src@),
                    pos < p <= src@.len(),
                    p0 < p,
                    p0 + 2 <= p,
                    line_end(src@, p as int) == line_end(src@, p0 + 2),
                decreases src@.len() - p,
            {
                p = p + 1;
            }
            proof {
                if p < src@.len() {
                    assert(!is_continuation_byte(src@[p as int]));
                }
            }
        } else if b == DQUOTE || b == SQUOTE {
            p = skip_string(src, p);
        } else if b == BACKTICK {
            p = skip_template(src, p);
        } else {
            return p;
        }
    }
    p
}

// ---- Call heads and arguments ------------------------------------------

/// A parsed `deka.<kind>.<method>(` head.
pub struct CallHead {
    pub kind_start: usize,
    pub kind_end: usize,
    pub method_start: usize,
    pub method_end: usize,
    pub args_start: usize,
}

pub open spec fn ident_span(s: Seq<u8>, a: int, b: int) -> bool {
    0 <= a < b <= s.len() && forall|i: int| a <= i < b ==> is_ident(#[trigger] s[i])
}

pub open spec fn head_ok(s: Seq<u8>, pos: int, h: CallHead) -> bool {
    &&& pos + 4 <= s.len()
    &&& s.subrange(pos, pos + 4) == seq![100u8, 101u8, 107u8, 97u8]
    &&& ident_span(s, h.kind_start as int, h.kind_end as int)
    &&& ident_span(s, h.method_start as int, h.method_end as int)
    &&& pos + 4 < h.kind_start < h.kind_end < h.method_start < h.method_end < h.args_start
        <= s.len()
    &&& s[h.args_start - 1] == LPAREN
    &&& is_cut(s, h.kind_start as int) && is_cut(s, h.kind_end as int)
    &&& is_cut(s, h.method_start as int) && is_cut(s, h.method_end as int)
    &&& is_cut(s, h.args_start as int)
}

/// Where the run of identifier bytes starting at `p` ends.
pub open spec fn ident_end(s: Seq<u8>, p: int) -> int
    decreases s.len() - p,
{
    if 0 <= p < s.len() && is_ident(s[p]) {
        ident_end(s, p + 1)
    } else {
        p
    }
}

/// The `deka.<kind>.<method>(` head at `pos`, when there is one: `deka`
/// not continued by an identifier byte, then `.`, the kind, `.`, the
/// method and `(`, with white space, comments and literals skipped between
/// the parts.
pub open spec fn call_head(s: Seq<u8>, pos: int) -> Option<CallHead> {
    if s.len() < 4 || pos > s.len() - 4 {
        None
    } else if !(s[pos] == 100 && s[pos + 1] == 101 && s[pos + 2] == 107 && s[pos + 3] == 97) {
        None
    } else if pos + 4 < s.len() && is_ident(s[pos + 4]) {
        None
    } else if !(pos + 4 < s.len() && s[pos + 4] == DOT) {
        None
    } else {
        let ks = ins_run(s, pos + 5);
        let ke = ident_end(s, ks);
        if ke <= ks {
            None
        } else {
            let p2 = ins_run(s, ke);
            if !(p2 < s.len() && s[p2] == DOT) {
                None
            } else {
                let ms = ins_run(s, p2 + 1);
                let me = ident_end(s, ms);
                if me <= ms {
                    None
                } else {
                    let p4 = ins_run(s, me);
                    if !(p4 < s.len() && s[p4] == LPAREN) {
                        None
                    } else {
                        Some(
                            CallHead {
                                kind_start: ks as usize,
                                kind_end: ke as usize,
                                method_start: ms as usize,
                                method_end: me as usize,
                                args_start: (p4 + 1) as usize,
                            },
                        )
                    }
                }
            }
        }
    }
}

/// The argument count of a call so far: the commas seen, plus one for a
/// value after the last of them.
pub open spec fn args_count(argc: int, saw_value: bool, last_comma: bool) -> int {
    argc + if saw_value && !last_comma {
        1int
    } else {
        0int
    }
}

/// The top-level argument count of a call and where it ends (just past its
/// `)`, or the end), scanning from `p`.
pub open spec fn args_run(
    s: Seq<u8>,
    p: int,
    argc: int,
    saw_value: bool,
    last_comma: bool,
    depth: int,
) -> (int, int)
    decreases s.len() + 2 - p,
{
    if !(0 <= p < s.len()) {
        (args_count(argc, saw_value, last_comma), p)
    } else {
        let b = s[p];
        if b == LPAREN || b == LBRACKET || b == LBRACE {
            args_run(s, p + 1, argc, saw_value, last_comma, depth + 1)
        } else if b == RPAREN && depth == 0 {
            (args_count(argc, saw_value, last_comma), p + 1)
        } else if b == RPAREN || b == RBRACKET || b == RBRACE {
            args_run(s, p + 1, argc, saw_value, last_comma, if depth > 0 { depth - 1 } else { depth })
        } else if b == COMMA && depth == 0 {
            args_run(s, p + 1, argc + 1, saw_value, true, depth)
        } else if b == DQUOTE || b == SQUOTE {
            let q = str_end(s, p);
            if p < q <= s.len() + 1 {
                args_run(s, q, argc, true, false, depth)
            } else {
                (0, q)
            }
        } else if b == BACKTICK {
            let q = tmpl_run(s, p + 1);
            if p < q <= s.len() + 1 {
                args_run(s, q, argc, true, false, depth)
            } else {
                (0, q)
            }
        } else if b == SLASH && p + 1 < s.len() && s[p + 1] == SLASH {
            let q = ins_run(s, p);
            if p < q <= s.len() + 1 {
                args_run(s, q, argc, saw_value, last_comma, depth)
            } else {
                (0, q)
            }
        } else if is_ws(b) {
            args_run(s, p + 1, argc, saw_value, last_comma, depth)
        } else {
            args_run(s, p + 1, argc, true, false, depth)
        }
    }
}

/// The argument count and end of the call whose arguments start at `a`.
pub open spec fn call_args(s: Seq<u8>, a: int) -> (int, int) {
    args_run(s, a, 0, false, false, 0)
}

fn read_ident(src: &[u8], pos: usize) -> (r: Option<(usize, usize)>)
    requires
        scannable(src@),
        pos <= src@.len() + 1,
    ensures
        r is Some <==> (pos < src@.len() && is_ident(src@[pos as int])),
        r matches Some((a, b)) ==> b == ident_end(src@, pos as int),
        r matches Some((a, b)) ==> a == pos && ident_span(src@, a as int, b as int) && (b
            == src@.len() || !is_ident(src@[b as int])),
{
    let mut end = pos;
    while end < src.len() && ident_byte(src[end])
        invariant
            pos <= end,
            end <= src@.len() + 1,
            ident_end(src@, end as int) == ident_end(src@, pos as int),
            end > pos ==> end <= src@.len(),
            forall|i: int| pos <= i < end ==> is_ident(#[trigger] src@[i]),
        decreases src@.len() + 1 - end,
    {
        end = end + 1;
    }
    if end > pos {
        Some((pos, end))
    } else {
        None
    }
}

/// Parse `deka.<kind>.<method>(` at `pos`.
fn parse_call_head(src: &[u8], pos: usize) -> (r: Option<CallHead>)
    requires
        scannable(src@),
        pos <= src@.len(),
    ensures
        r == call_head(src@, pos as int),
        r matches Some(h) ==> head_ok(src@, pos as int, h),
{
    if src.len() < 4 || pos > src.len() - 4 {
        return None;
    }
    if !(src[pos] == 100 && src[pos + 1] == 101 && src[pos + 2] == 107 && src[pos + 3] == 97) {
        return None;
    }
    let p0 = pos + 4;
    if p0 < src.len() && ident_byte(src[p0]) {
        return None;
    }
    if at(src, p0) != Some(DOT) {
        return None;
    }
    let p1 = skip_insignificant(src, p0 + 1);
    let (ks, ke) = match read_ident(src, p1) {
        Some(x) => x,
        None => {
            return None;
        },
    };
    let p2 = skip_insignificant(src, ke);
    if at(src, p2) != Some(DOT) {
        return None;
    }
    let p3 = skip_insignificant(src, p2 + 1);
    let (ms, me) = match read_ident(src, p3) {
        Some(x) => x,
        None => {
            return None;
        },
    };
    let p4 = skip_insignificant(src, me);
    if at(src, p4) != Some(LPAREN) {
        return None;
    }
    proof {
        assert(src@.subrange(pos as int, pos + 4) == seq![100u8, 101u8, 107u8, 97u8]);
        assert(src@[ks as int] < 0x80);
        assert(src@[ms as int] < 0x80);
        lemma_cut_after_ascii(src@, ke as int);
        lemma_cut_after_ascii(src@, me as int);
        lemma_cut_after_ascii(src@, p4 + 1);
    }
    Some(CallHead { kind_start: ks, kind_end: ke, method_start: ms, method_end: me, args_start: p4 + 1 })
}

/// Count the top-level arguments from `args_start` to the matching `)`,
/// returning the count and the offset just past the `)` (or the end).
fn scan_args(src: &[u8], args_start: usize) -> (r: (usize, usize))
    requires
        scannable(src@),
        args_start <= src@.len(),
    ensures
        (r.0 as int, r.1 as int) == call_args(src@, args_start as int),
        args_start <= r.1 <= src@.len() + 1,
        resumable(src@, args_start as int) ==> resumable(src@, r.1 as int),
{
    let mut argc: usize = 0;
    let mut saw_value = false;
    let mut last_sig_comma = false;
    let mut p = args_start;
    let mut depth: usize = 0;
    while p < src.len()
        invariant
            scannable(src@),
            args_start <= p <= src@.len() + 1,
            resumable(src@, args_start as int) ==> resumable(src@, p as int) || p < src@.len(),
            argc + (if saw_value && !last_sig_comma { 1int } else { 0int }) <= p,
            depth <= p,
            args_run(src@, p as int, argc as int, saw_value, last_sig_comma, depth as int)
                == call_args(src@, args_start as int),
        decreases src@.len() + 2 - p,
    {
        let b = src[p];
        if b == LPAREN || b == LBRACKET || b == LBRACE {
            depth = depth + 1;
            p = p + 1;
        } else if b == RPAREN && depth == 0 {
            let count = if saw_value && !last_sig_comma { argc + 1 } else { argc };
            proof {
                lemma_cut_after_ascii(src@, p + 1);
            }
            return (count, p + 1);
        } else if b == RPAREN || b == RBRACKET || b == RBRACE {
            if depth > 0 {
                depth = depth - 1;
            }
            p = p + 1;
        } else if b == COMMA && depth == 0 {
            argc = argc + 1;
            last_sig_comma = true;
            p = p + 1;
        } else if b == DQUOTE || b == SQUOTE {
            saw_value = true;
            last_sig_comma = false;
            p = skip_string(src, p);
        } else if b == BACKTICK {
            saw_value = true;
            last_sig_comma = false;
            p = skip_template(src, p);
        } else if b == SLASH && p + 1 < src.len() && src[p + 1] == SLASH {
            p = skip_insignificant(src, p);
        } else if ws_byte(b) {
            p = p + 1;
        } else {
            saw_value = true;
            last_sig_comma = false;
            p = p + 1;
        }
    }
    proof {
        if p == src@.len() {
            assert(is_cut(src@, p as int));
        }
    }
    (if saw_value && !last_sig_comma { argc + 1 } else { argc }, p)
}

// ---- Helpers over spans ------------------------------------------------

/// Where the run of white space starting at `a` ends, not past `e`.
pub open spec fn ws_front(s: Seq<u8>, a: int, e: int) -> int
    decreases e - a,
{
    if a < e && is_ws(s[a]) {
        ws_front(s, a + 1, e)
    } else {
        a
    }
}

/// Trim ASCII white space from both ends of `src[start..end]`.
fn trim_span(src: &[u8], start: usize, end: usize) -> (r: (usize, usize))
    requires
        end <= src@.len(),
    ensures
        r.0 == ws_front(src@, start as int, end as int),
        r.1 == ws_back(src@, r.0 as int, end as int),
        start <= end ==> start <= r.0 <= r.1 <= end,
        start > end ==> r == (start, end),
        forall|i: int| start <= i < r.0 ==> is_ws(#[trigger] src@[i]),
        forall|i: int| r.1 <= i < end ==> is_ws(#[trigger] src@[i]),
        r.0 < r.1 ==> !is_ws(src@[r.0 as int]) && !is_ws(src@[r.1 - 1]),
{
    let mut s = start;
    let mut e = end;
    while s < e && ws_byte(src[s])
        invariant
            start <= s,
            e == end,
            start > end ==> s == start,
            end <= src@.len(),
            start <= end ==> s <= e,
            forall|i: int| start <= i < s ==> is_ws(#[trigger] src@[i]),
            ws_front(src@, s as int, end as int) == ws_front(src@, start as int, end as int),
        decreases e - s,
    {
        s = s + 1;
    }
    while e > s && ws_byte(src[e - 1])
        invariant
            start <= s,
            e <= end <= src@.len(),
            start <= end ==> s <= e,
            start > end ==> e == end,
            forall|i: int| start <= i < s ==> is_ws(#[trigger] src@[i]),
            forall|i: int| e <= i < end ==> is_ws(#[trigger] src@[i]),
            s < e ==> !is_ws(src@[s as int]),
            s == ws_front(src@, start as int, end as int),
            ws_back(src@, s as int, e as int) == ws_back(src@, s as int, end as int),
        decreases e,
    {
        e = e - 1;
    }
    (s, e)
}

/// Where the identifier starting at `q` ends, not past `end`.
pub open spec fn word_end(s: Seq<u8>, end: int, q: int) -> int
    decreases s.len() - q,
{
    if 0 <= q < end && q < s.len() && is_ident(s[q]) {
        word_end(s, end, q + 1)
    } else {
        q
    }
}

/// Whether a word `safe` or `unsafe` starts in `s[p..end]`, scanning from
/// `p`, outside literals and comments.
pub open spec fn keyword_run(s: Seq<u8>, end: int, p: int) -> bool
    decreases s.len() + 2 - p,
{
    if !(0 <= p < end && p < s.len()) {
        false
    } else {
        let b = s[p];
        if b == DQUOTE || b == SQUOTE {
            let q = str_end(s, p);
            p < q <= s.len() + 1 && keyword_run(s, end, q)
        } else if b == BACKTICK {
            let q = tmpl_run(s, p + 1);
            p < q <= s.len() + 1 && keyword_run(s, end, q)
        } else if b == SLASH && p + 1 < s.len() && s[p + 1] == SLASH {
            let q = ins_run(s, p);
            p < q <= s.len() + 1 && keyword_run(s, end, q)
        } else if is_ident(b) && (p == 0 || !is_ident(s[p - 1])) {
            let we = word_end(s, end, p);
            if s.subrange(p, we) == safe_word() || s.subrange(p, we) == unsafe_word() {
                true
            } else if we <= p {
                keyword_run(s, end, p + 1)
            } else {
                we <= s.len() + 1 && keyword_run(s, end, we)
            }
        } else {
            keyword_run(s, end, p + 1)
        }
    }
}

/// Whether `src[start..end]` holds a `safe` / `unsafe` keyword outside
/// literals and comments.
fn contains_block_keyword(src: &[u8], start: usize, end: usize) -> (r: bool)
    requires
        scannable(src@),
        start <= src@.len(),
    ensures
        r == keyword_run(src@, end as int, start as int),
{
    let mut pos = start;
    while pos < end && pos < src.len()
        invariant
            scannable(src@),
            start <= pos <= src@.len() + 1,
            keyword_run(src@, end as int, pos as int) == keyword_run(src@, end as int, start as int),
        decreases src@.len() + 2 - pos,
    {
        let b = src[pos];
        if b == DQUOTE || b == SQUOTE {
            pos = skip_string(src, pos);
        } else if b == BACKTICK {
            pos = skip_template(src, pos);
        } else if b == SLASH && pos + 1 < src.len() && src[pos + 1] == SLASH {
            pos = skip_insignificant(src, pos);
        } else if ident_byte(b) && (pos == 0 || !ident_byte(src[pos - 1])) {
            let ws = pos;
            let mut we = pos;
            while we < end && we < src.len() && ident_byte(src[we])
                invariant
                    ws <= we <= src@.len(),
                    word_end(src@, end as int, we as int) == word_end(src@, end as int, ws as int),
                decreases src@.len() - we,
            {
                we = we + 1;
            }
            if is_keyword(src, ws, we) {
                return true;
            }
            if we == ws {
                pos = pos + 1;
            } else {
                pos = we;
            }
        } else {
            pos = pos + 1;
        }
    }
    false
}

/// Whether `src[a..b]` is exactly `safe` or `unsafe`.
fn is_keyword(src: &[u8], a: usize, b: usize) -> (r: bool)
    requires
        a <= b <= src@.len(),
    ensures
        r == (src@.subrange(a as int, b as int) == safe_word() || src@.subrange(a as int, b as int)
            == unsafe_word()),
{
    is_safe_word(src, a, b) || is_unsafe_word(src, a, b)
}

pub open spec fn safe_word() -> Seq<u8> {
    seq![115u8, 97u8, 102u8, 101u8]
}

pub open spec fn unsafe_word() -> Seq<u8> {
    seq![117u8, 110u8, 115u8, 97u8, 102u8, 101u8]
}

fn is_safe_word(src: &[u8], a: usize, b: usize) -> (r: bool)
    requires
        a <= b <= src@.len(),
    ensures
        r == (src@.subrange(a as int, b as int) == safe_word()),
{
    let r = b - a == 4 && src[a] == 115 && src[a + 1] == 97 && src[a + 2] == 102 && src[a + 3]
        == 101;
    proof {
        assert(safe_word().len() == 4);
        assert(safe_word()[0] == 115 && safe_word()[1] == 97 && safe_word()[2] == 102
            && safe_word()[3] == 101);
        if b - a == 4 {
            let w = src@.subrange(a as int, b as int);
            assert(w[0] == src@[a as int] && w[1] == src@[a + 1] && w[2] == src@[a + 2] && w[3]
                == src@[a + 3]);
            if r {
                assert(w == safe_word());
            }
        }
    }
    r
}

fn is_unsafe_word(src: &[u8], a: usize, b: usize) -> (r: bool)
    requires
        a <= b <= src@.len(),
    ensures
        r == (src@.subrange(a as int, b as int) == unsafe_word()),
{
    let r = b - a == 6 && src[a] == 117 && src[a + 1] == 110 && src[a + 2] == 115 && src[a + 3]
        == 97 && src[a + 4] == 102 && src[a + 5] == 101;
    proof {
        assert(unsafe_word().len() == 6);
        assert(unsafe_word()[0] == 117 && unsafe_word()[1] == 110 && unsafe_word()[2] == 115
            && unsafe_word()[3] == 97 && unsafe_word()[4] == 102 && unsafe_word()[5] == 101);
        if b - a == 6 {
            let w = src@.subrange(a as int, b as int);
            assert(w[0] == src@[a as int] && w[1] == src@[a + 1] && w[2] == src@[a + 2] && w[3]
                == src@[a + 3] && w[4] == src@[a + 4] && w[5] == src@[a + 5]);
            if r {
                assert(w == unsafe_word());
            }
        }
    }
    r
}

// ---- Lowering and diagnostics ------------------------------------------

/// One validated `safe { deka.k.m(args) }` site, lowered to the bare call:
/// `[start, end)` (the whole block) becomes `[call_start, call_end)` with the
/// byte at `comma` (a top-level trailing comma before the closing paren)
/// removed.
pub struct Lowering {
    pub start: usize,
    pub end: usize,
    pub call_start: usize,
    pub call_end: usize,
    pub comma: Option<usize>,
    pub head: CallHead,
    pub argc: usize,
}

/// The text a lowering puts in place of its block.
pub open spec fn lowered_call(s: Seq<u8>, l: Lowering) -> Seq<u8> {
    match l.comma {
        Some(c) => s.subrange(l.call_start as int, c as int) + s.subrange(
            c + 1,
            l.call_end as int,
        ),
        None => s.subrange(l.call_start as int, l.call_end as int),
    }
}

/// What a lowering promises: it replaces a `safe` block starting at its
/// keyword by the call the block holds, and that call names a `Safe`
/// catalog helper with an arity in range, in a stdlib source.
pub open spec fn lowering_ok(cat: Catalog, s: Seq<u8>, stdlib: bool, l: Lowering) -> bool {
    &&& stdlib
    &&& l.start + 4 <= l.call_start <= l.call_end <= l.end <= s.len()
    &&& is_cut(s, l.call_end as int) && is_cut(s, l.end as int)
    &&& s.subrange(l.start as int, l.start + 4) == safe_word()
    &&& head_ok(s, l.call_start as int, l.head)
    &&& l.head.args_start <= l.call_end
    &&& (l.comma matches Some(c) ==> l.call_start < c < l.call_end && s[c as int] == COMMA)
    &&& safe_call_ok(
        cat,
        s.subrange(l.head.kind_start as int, l.head.kind_end as int),
        s.subrange(l.head.method_start as int, l.head.method_end as int),
        l.argc as int,
    )
}

/// Lowerings are in source order and do not overlap.
pub open spec fn lowerings_ordered(ls: Seq<Lowering>) -> bool {
    forall|i: int, j: int| 0 <= i < j < ls.len() ==> #[trigger] ls[i].end <= #[trigger] ls[j].start
}

/// The source with every lowering applied, from offset `from` on.
pub open spec fn splice(s: Seq<u8>, ls: Seq<Lowering>, from: int) -> Seq<u8>
    decreases ls.len(),
{
    if ls.len() == 0 {
        s.subrange(from, s.len() as int)
    } else {
        s.subrange(from, ls[0].start as int) + lowered_call(s, ls[0]) + splice(
            s,
            ls.drop_first(),
            ls[0].end as int,
        )
    }
}

/// Result of scanning one source file.
pub struct ScanResult {
    /// The source with every validated `safe { deka.* }` site lowered to the
    /// bare call; `None` when nothing was lowered.
    pub rewritten: Option<String>,
    /// `(byte offset, message)` for each problem found.
    pub diagnostics: Vec<(usize, String)>,
    /// The lowerings applied to produce `rewritten`, in source order.
    pub lowered: Vec<Lowering>,
}

/// Scan state shared by the passes.
pub struct ScanState {
    pub diagnostics: Vec<(usize, String)>,
    pub lowered: Vec<Lowering>,
    pub claimed: Vec<(usize, usize)>,
}

pub open spec fn diags_in_range(d: Seq<(usize, String)>, len: int) -> bool {
    forall|i: int| 0 <= i < d.len() ==> #[trigger] d[i].0 <= len
}

/// Invariant of the scan state for a source `s`: diagnostics point into the
/// source, lowerings are valid, ordered, and end before `limit`.
pub open spec fn state_ok(cat: Catalog, s: Seq<u8>, stdlib: bool, st: ScanState, limit: int) -> bool {
    &&& diags_in_range(st.diagnostics@, s.len() as int)
    &&& lowerings_ordered(st.lowered@)
    &&& forall|i: int|
        0 <= i < st.lowered@.len() ==> lowering_ok(cat, s, stdlib, #[trigger] st.lowered@[i])
            && st.lowered@[i].end <= limit
}

/// The diagnostics as offsets and texts.
pub open spec fn diag_views(d: Seq<(usize, String)>) -> Seq<(usize, Seq<char>)> {
    d.map_values(|x: (usize, String)| (x.0, x.1@))
}

fn push_diag(st: &mut ScanState, offset: usize, message: String, Ghost(len): Ghost<int>)
    requires
        offset <= len,
        diags_in_range(old(st).diagnostics@, len),
    ensures
        final(st).diagnostics@ == old(st).diagnostics@.push((offset, message)),
        diag_views(final(st).diagnostics@) == diag_views(old(st).diagnostics@).push((offset, message@)),
        diags_in_range(final(st).diagnostics@, len),
        final(st).lowered@ == old(st).lowered@,
        final(st).claimed@ == old(st).claimed@,
{
    let ghost mv = message@;
    st.diagnostics.push((offset, message));
    proof {
        assert(diag_views(st.diagnostics@) =~= diag_views(old(st).diagnostics@).push((offset, mv)));
        assert forall|i: int| 0 <= i < st.diagnostics@.len() implies #[trigger] st.diagnostics@[i].0
            <= len by {
            if i < st.diagnostics@.len() - 1 {
                assert(st.diagnostics@[i] == old(st).diagnostics@[i]);
            }
        }
    }
}

/// The text of the bytes `s[a..b]`.
pub open spec fn text_of(s: Seq<u8>, a: int, b: int) -> Seq<char> {
    decode_utf8(s.subrange(a, b))
}

/// The text naming a door.
pub open spec fn door_text(is_safe: bool) -> Seq<char> {
    if is_safe {
        "safe"@
    } else {
        "unsafe"@
    }
}

/// The arity a helper accepts, and what a call gave it.
pub open spec fn arity_text(min: nat, max: nat, argc: nat) -> Seq<char> {
    "expected "@ + decimal(min) + (if max != min {
        " to "@ + decimal(max)
    } else {
        Seq::empty()
    }) + " argument(s), found "@ + decimal(argc)
}

/// `deka.<kind>.<method>` text pieces for messages.
fn name_of<'a>(source: &'a str, src: &[u8], a: usize, b: usize) -> (r: &'a str)
    requires
        src@ == source.spec_bytes(),
        a <= b,
        is_cut(src@, a as int),
        is_cut(src@, b as int),
    ensures
        r@ == text_of(src@, a as int, b as int),
{
    str_span(source, a, b)
}

fn door_name(is_safe: bool) -> (r: &'static str)
    ensures
        r@ == door_text(is_safe),
{
    if is_safe { "safe" } else { "unsafe" }
}

/// The arity error text for a helper.
fn arity_message(m: &CatalogMethod, argc: usize) -> (r: String)
    ensures
        r@ == arity_text(m.min_args as nat, m.max_args as nat, argc as nat),
{
    let mut e = owned("expected ");
    e.append(u64_to_decimal(m.min_args as u64).as_str());
    if m.max_args != m.min_args {
        e.append(" to ");
        e.append(u64_to_decimal(m.max_args as u64).as_str());
    }
    e.append(" argument(s), found ");
    e.append(u64_to_decimal(argc as u64).as_str());
    proof {
        assert(e@ =~= arity_text(m.min_args as nat, m.max_args as nat, argc as nat));
    }
    e
}

/// `deka.<kind>.<method>` as a message names it.
pub open spec fn call_name(s: Seq<u8>, h: CallHead) -> Seq<char> {
    "`deka."@ + text_of(s, h.kind_start as int, h.kind_end as int) + "."@ + text_of(
        s,
        h.method_start as int,
        h.method_end as int,
    )
}

/// What checking a parsed catalog call gives: its argument count when it
/// may be used under the door, else the diagnostic text. Application code
/// may not call the catalog at all; the kind and the helper must exist; a
/// helper that can throw is refused under `safe`; the argument count must
/// be in range.
pub open spec fn call_check(cat: Catalog, s: Seq<u8>, h: CallHead, stdlib: bool, is_safe: bool) -> Result<
    int,
    Seq<char>,
> {
    let kind = text_of(s, h.kind_start as int, h.kind_end as int);
    let method = text_of(s, h.method_start as int, h.method_end as int);
    if !stdlib {
        Err(
            "the `deka.*` catalog is closed and stdlib-only; application code may not call `deka."@
                + kind + "."@ + method + "` under `"@ + door_text(is_safe) + "` (RFD 21)"@,
        )
    } else {
        match first_kind(cat, s.subrange(h.kind_start as int, h.kind_end as int), 0) {
            None => Err(
                "unknown `deka` kind `"@ + kind + "` — the catalog is closed; known kinds: "@
                    + kind_names(cat),
            ),
            Some(ki) => match first_method(
                cat,
                ki,
                s.subrange(h.method_start as int, h.method_end as int),
                0,
            ) {
                None => Err(
                    "unknown `deka."@ + kind + "` helper `"@ + method
                        + "` — the catalog is closed; new helpers are a reviewed addition (RFD 21)"@,
                ),
                Some(mj) => {
                    let e = cat.kinds@[ki].methods@[mj];
                    if is_safe && e.safety != Safety::Safe {
                        Err(
                            call_name(s, h) + "` may throw ("@ + e.doc@
                                + ") — call it under `unsafe { }` so the failure is a `Result` value you must handle"@,
                        )
                    } else {
                        let argc = call_args(s, h.args_start as int).0;
                        if argc < e.min_args || argc > e.max_args {
                            Err(call_name(s, h) + "`: "@ + arity_text(
                                e.min_args as nat,
                                e.max_args as nat,
                                argc as nat,
                            ))
                        } else {
                            Ok(argc)
                        }
                    }
                },
            },
        }
    }
}

/// Validate a parsed call against the catalog; on success return its
/// argument count.
fn validate_call(
    cat: &Catalog,
    source: &str,
    src: &[u8],
    call_offset: usize,
    head: &CallHead,
    stdlib: bool,
    is_safe: bool,
    st: &mut ScanState,
) -> (r: Option<usize>)
    requires
        src@ == source.spec_bytes(),
        scannable(src@),
        exists|pos: int| head_ok(src@, pos, *head),
        call_offset <= src@.len(),
        diags_in_range(old(st).diagnostics@, src@.len() as int),
    ensures
        match call_check(*cat, src@, *head, stdlib, is_safe) {
            Ok(argc) => r == Some(argc as usize) && final(st).diagnostics@ == old(st).diagnostics@,
            Err(m) => r is None && diag_views(final(st).diagnostics@) == diag_views(
                old(st).diagnostics@,
            ).push((call_offset, m)),
        },
        diags_in_range(final(st).diagnostics@, src@.len() as int),
        final(st).lowered@ == old(st).lowered@,
        final(st).claimed@ == old(st).claimed@,
        r matches Some(argc) ==> stdlib && (is_safe ==> safe_call_ok(
            *cat,
            src@.subrange(head.kind_start as int, head.kind_end as int),
            src@.subrange(head.method_start as int, head.method_end as int),
            argc as int,
        )),
{
    let ghost len = src@.len() as int;
    let kind = name_of(source, src, head.kind_start, head.kind_end);
    let method = name_of(source, src, head.method_start, head.method_end);
    if !stdlib {
        let mut m = owned(
            "the `deka.*` catalog is closed and stdlib-only; application code may not call `deka.",
        );
        m.append(kind);
        m.append(".");
        m.append(method);
        m.append("` under `");
        m.append(door_name(is_safe));
        m.append("` (RFD 21)");
        proof {
            assert(m@ =~= call_check(*cat, src@, *head, stdlib, is_safe)->Err_0);
        }
        push_diag(st, call_offset, m, Ghost(len));
        return None;
    }
    let ki = match find_kind(cat, src, head.kind_start, head.kind_end) {
        Some(k) => k,
        None => {
            let mut m = owned("unknown `deka` kind `");
            m.append(kind);
            m.append("` — the catalog is closed; known kinds: ");
            let ghost head_text = m@;
            let ghost names = cat.kinds@.map_values(|k: CatalogKind| k.name@);
            proof {
                reveal_strlit(", ");
                assert(names.take(0) =~= Seq::<Seq<char>>::empty());
                assert(m@ =~= head_text + comma_list(names.take(0)));
            }
            let mut i: usize = 0;
            while i < cat.kinds.len()
                invariant
                    i <= cat.kinds@.len(),
                    names == cat.kinds@.map_values(|k: CatalogKind| k.name@),
                    m@ == head_text + comma_list(names.take(i as int)),
                decreases cat.kinds@.len() - i,
            {
                if i > 0 {
                    m.append(", ");
                }
                m.append(cat.kinds[i].name.as_str());
                proof {
                    reveal_strlit(", ");
                    let t = names.take(i + 1);
                    assert(t.drop_last() =~= names.take(i as int));
                    assert(t.last() == cat.kinds@[i as int].name@);
                    if i == 0 {
                        assert(t =~= seq![cat.kinds@[0].name@]);
                    }
                    assert(m@ =~= head_text + comma_list(t));
                }
                i = i + 1;
            }
            proof {
                assert(names.take(cat.kinds@.len() as int) =~= names);
                assert(m@ =~= call_check(*cat, src@, *head, stdlib, is_safe)->Err_0);
            }
            push_diag(st, call_offset, m, Ghost(len));
            return None;
        },
    };
    let mj = match find_method(cat, ki, src, head.method_start, head.method_end) {
        Some(j) => j,
        None => {
            let mut m = owned("unknown `deka.");
            m.append(kind);
            m.append("` helper `");
            m.append(method);
            m.append("` — the catalog is closed; new helpers are a reviewed addition (RFD 21)");
            proof {
                assert(m@ =~= call_check(*cat, src@, *head, stdlib, is_safe)->Err_0);
            }
            push_diag(st, call_offset, m, Ghost(len));
            return None;
        },
    };
    let entry = &cat.kinds[ki].methods[mj];
    if is_safe && entry.safety != Safety::Safe {
        let mut m = owned("`deka.");
        m.append(kind);
        m.append(".");
        m.append(method);
        m.append("` may throw (");
        m.append(entry.doc.as_str());
        m.append(
            ") — call it under `unsafe { }` so the failure is a `Result` value you must handle",
        );
        proof {
            assert(m@ =~= call_check(*cat, src@, *head, stdlib, is_safe)->Err_0);
        }
        push_diag(st, call_offset, m, Ghost(len));
        return None;
    }
    let (argc, _close) = scan_args(src, head.args_start);
    if argc < entry.min_args || argc > entry.max_args {
        let mut m = owned("`deka.");
        m.append(kind);
        m.append(".");
        m.append(method);
        m.append("`: ");
        m.append(arity_message(entry, argc).as_str());
        proof {
            assert(m@ =~= call_check(*cat, src@, *head, stdlib, is_safe)->Err_0);
        }
        push_diag(st, call_offset, m, Ghost(len));
        return None;
    }
    proof {
        if is_safe {
            let k = cat.kinds@[ki as int];
            assert(k.methods@[mj as int] == *entry);
            assert(safe_call_ok(
                *cat,
                src@.subrange(head.kind_start as int, head.kind_end as int),
                src@.subrange(head.method_start as int, head.method_end as int),
                argc as int,
            ));
        }
    }
    Some(argc)
}

/// Whether every character of `text` is white space.
fn all_white_space(text: &str) -> (r: bool)
    ensures
        r == forall|i: int| 0 <= i < text@.len() ==> is_white_space(#[trigger] text@[i]),
{
    let v = chars_of(text);
    let mut i: usize = 0;
    while i < v.len()
        invariant
            v@ == text@,
            i <= v@.len(),
            forall|k: int| 0 <= k < i ==> is_white_space(#[trigger] v@[k]),
        decreases v@.len() - i,
    {
        if !char_is_whitespace(v[i]) {
            return false;
        }
        i = i + 1;
    }
    true
}

/// `s[a..b]` falls on character boundaries and holds only white space.
pub open spec fn blank_span(s: Seq<u8>, a: int, b: int) -> bool {
    is_cut(s, a) && is_cut(s, b) && forall|i: int|
        0 <= i < text_of(s, a, b).len() ==> is_white_space(#[trigger] text_of(s, a, b)[i])
}

/// Where the run of `;` ending at `e` starts, not before `a`.
pub open spec fn semis_back(s: Seq<u8>, a: int, e: int) -> int
    decreases e - a,
{
    if e > a && s[e - 1] == SEMI {
        semis_back(s, a, e - 1)
    } else {
        e
    }
}

/// `source[a..b].trim().is_empty()`; spans that do not fall on character
/// boundaries hold no complete character and count as not blank.
fn span_is_blank(source: &str, src: &[u8], a: usize, b: usize) -> (r: bool)
    requires
        src@ == source.spec_bytes(),
        a <= b <= src@.len(),
    ensures
        r == blank_span(src@, a as int, b as int),
{
    let a_cut = a == src.len() || !(0x80 <= src[a] && src[a] <= 0xbf);
    let b_cut = b == src.len() || !(0x80 <= src[b] && src[b] <= 0xbf);
    if !(a_cut && b_cut) {
        return false;
    }
    let t = str_span(source, a, b);
    proof {
        assert(t@ == decode_utf8(encode_utf8(t@)));
        assert(t@ == text_of(src@, a as int, b as int));
    }
    all_white_space(t)
}

/// `source[a..b].trim_end_matches(';').trim().is_empty()`: white space
/// followed by nothing but `;`.
fn span_is_blank_or_semis(source: &str, src: &[u8], a: usize, b: usize) -> (r: bool)
    requires
        src@ == source.spec_bytes(),
        a <= b <= src@.len(),
    ensures
        r == blank_span(src@, a as int, semis_back(src@, a as int, b as int)),
{
    let mut e = b;
    while e > a && src[e - 1] == SEMI
        invariant
            a <= e <= b <= src@.len(),
            semis_back(src@, a as int, e as int) == semis_back(src@, a as int, b as int),
        decreases e,
    {
        e = e - 1;
    }
    span_is_blank(source, src, a, e)
}

/// Where the first `(` from `p` is (or the end).
pub open spec fn first_lparen(s: Seq<u8>, p: int) -> int
    decreases s.len() - p,
{
    if 0 <= p < s.len() && s[p] != LPAREN {
        first_lparen(s, p + 1)
    } else {
        p
    }
}

/// The trailing comma before the `)` that closes the call opened at
/// `open`, scanning from `p` at nesting `depth`.
pub open spec fn comma_run(s: Seq<u8>, open: int, p: int, depth: int) -> Option<usize>
    decreases s.len() + 2 - p,
{
    if !(0 <= p < s.len()) {
        None
    } else {
        let b = s[p];
        if b == LPAREN {
            comma_run(s, open, p + 1, depth + 1)
        } else if b == RPAREN {
            if depth <= 1 {
                comma_at(s, open, p)
            } else {
                comma_run(s, open, p + 1, depth - 1)
            }
        } else if b == DQUOTE || b == SQUOTE {
            let q = str_end(s, p);
            if p < q <= s.len() + 1 {
                comma_run(s, open, q, depth)
            } else {
                None
            }
        } else if b == BACKTICK {
            let q = tmpl_run(s, p + 1);
            if p < q <= s.len() + 1 {
                comma_run(s, open, q, depth)
            } else {
                None
            }
        } else {
            comma_run(s, open, p + 1, depth)
        }
    }
}

/// The top-level trailing comma just before the closing paren of the first
/// call in `s`, if there is one.
pub open spec fn trailing_comma_of(s: Seq<u8>) -> Option<usize> {
    let open = first_lparen(s, 0);
    if open >= s.len() {
        None
    } else {
        comma_run(s, open, open, 0)
    }
}

/// The offset of a top-level trailing comma just before the outer call's
/// closing paren in `call`, if there is one.
fn trailing_comma(call: &[u8]) -> (r: Option<usize>)
    requires
        scannable(call@),
    ensures
        r == trailing_comma_of(call@),
        r matches Some(c) ==> c < call@.len() && call@[c as int] == COMMA && exists|o: int|
            0 <= o < c && call@[o] == LPAREN,
{
    let mut open: usize = 0;
    while open < call.len() && call[open] != LPAREN
        invariant
            open <= call@.len(),
            first_lparen(call@, open as int) == first_lparen(call@, 0),
        decreases call@.len() - open,
    {
        open = open + 1;
    }
    if open == call.len() {
        return None;
    }
    let mut depth: usize = 0;
    let mut pos = open;
    while pos < call.len()
        invariant
            scannable(call@),
            open < call@.len(),
            call@[open as int] == LPAREN,
            open <= pos <= call@.len() + 1,
            pos == open ==> depth == 0,
            depth <= pos - open,
            open == first_lparen(call@, 0),
            comma_run(call@, open as int, pos as int, depth as int) == trailing_comma_of(call@),
        decreases call@.len() + 2 - pos,
    {
        let b = call[pos];
        if b == LPAREN {
            depth = depth + 1;
        } else if b == RPAREN {
            if depth <= 1 {
                return comma_before(call, open, pos);
            }
            depth = depth - 1;
        } else if b == DQUOTE || b == SQUOTE {
            pos = skip_string(call, pos);
            continue;
        } else if b == BACKTICK {
            pos = skip_template(call, pos);
            continue;
        }
        pos = pos + 1;
    }
    None
}

/// Where a run of white space ending at `t` starts, not before `open`.
pub open spec fn ws_back(s: Seq<u8>, open: int, t: int) -> int
    decreases t - open,
{
    if t > open && is_ws(s[t - 1]) {
        ws_back(s, open, t - 1)
    } else {
        t
    }
}

/// The comma directly before `close`, white space aside, after `open`.
pub open spec fn comma_at(s: Seq<u8>, open: int, close: int) -> Option<usize> {
    let tail = ws_back(s, open, close);
    if tail > open && s[tail - 1] == COMMA {
        Some((tail - 1) as usize)
    } else {
        None
    }
}

/// The comma directly before `close` (modulo white space), if any.
fn comma_before(call: &[u8], open: usize, close: usize) -> (r: Option<usize>)
    requires
        open < close < call@.len(),
        call@[open as int] == LPAREN,
    ensures
        r == comma_at(call@, open as int, close as int),
        r matches Some(c) ==> c < call@.len() && call@[c as int] == COMMA && exists|o: int|
            0 <= o < c && call@[o] == LPAREN,
{
    let mut tail = close;
    while tail > open && ws_byte(call[tail - 1])
        invariant
            open <= tail <= close < call@.len(),
            ws_back(call@, open as int, tail as int) == ws_back(call@, open as int, close as int),
        decreases tail,
    {
        tail = tail - 1;
    }
    if tail > open && call[tail - 1] == COMMA {
        Some(tail - 1)
    } else {
        None
    }
}

/// Copy `src[a..b]` into a new buffer.
fn copy_span(src: &[u8], a: usize, b: usize) -> (r: Vec<u8>)
    requires
        a <= b <= src@.len(),
    ensures
        r@ == src@.subrange(a as int, b as int),
{
    let mut out: Vec<u8> = Vec::new();
    push_span(&mut out, src, a, b);
    proof {
        assert(out@ == Seq::<u8>::empty() + src@.subrange(a as int, b as int));
    }
    out
}

fn push_claim(st: &mut ScanState, a: usize, b: usize)
    ensures
        final(st).claimed@ == old(st).claimed@.push((a, b)),
        final(st).diagnostics@ == old(st).diagnostics@,
        final(st).lowered@ == old(st).lowered@,
{
    st.claimed.push((a, b));
}

// ---- The scan as a whole -------------------------------------------------

/// What a scan has gathered: diagnostics (offset and text), lowerings, and
/// the spans of blocks already judged.
pub type ScanView = (Seq<(usize, Seq<char>)>, Seq<Lowering>, Seq<(usize, usize)>);

pub open spec fn scan_view(st: ScanState) -> ScanView {
    (diag_views(st.diagnostics@), st.lowered@, st.claimed@)
}

pub open spec fn with_diag(v: ScanView, offset: usize, text: Seq<char>) -> ScanView {
    (v.0.push((offset, text)), v.1, v.2)
}

pub open spec fn with_claim(v: ScanView, a: usize, b: usize) -> ScanView {
    (v.0, v.1, v.2.push((a, b)))
}

pub open spec fn with_lowering(v: ScanView, l: Lowering) -> ScanView {
    (v.0, v.1.push(l), v.2)
}

pub open spec fn safe_shape_text() -> Seq<char> {
    "`safe { }` bodies must be exactly one `deka.<kind>.<method>(...)` catalog call; platform JavaScript is not allowed under `safe` (RFD 21)"@
}

pub open spec fn nested_text() -> Seq<char> {
    "nested `safe` / `unsafe` blocks are not supported in a catalog call; bind the inner result to a `const` first (RFD 21)"@
}

/// The lowering of a valid `safe` block: the block `[kw_start, block_end)`
/// becomes the call from `hs` to its `)` (trailing white space dropped),
/// without a top-level trailing comma.
pub open spec fn safe_lowering(
    s: Seq<u8>,
    kw_start: usize,
    block_end: usize,
    hs: int,
    h: CallHead,
    call_end: int,
    argc: int,
) -> Lowering {
    let ce = ws_back(s, h.args_start as int, call_end);
    Lowering {
        start: kw_start,
        end: block_end,
        call_start: hs as usize,
        call_end: ce as usize,
        comma: match trailing_comma_of(s.subrange(hs, ce)) {
            Some(c) => Some((hs + c) as usize),
            None => None,
        },
        head: h,
        argc: argc as usize,
    }
}

/// What a `safe { ... }` block with trimmed body `body` adds to the scan.
/// Its body must be exactly one catalog call, with nothing after it and no
/// nested block; a call that passes [`call_check`] is lowered.
pub open spec fn safe_block_view(
    cat: Catalog,
    s: Seq<u8>,
    kw_start: usize,
    body: (usize, usize),
    block_end: usize,
    stdlib: bool,
    v: ScanView,
) -> ScanView {
    let hs = ins_run(s, body.0 as int);
    if hs > s.len() {
        with_claim(with_diag(v, body.0, safe_shape_text()), kw_start, block_end)
    } else {
        match call_head(s, hs) {
            None => with_claim(with_diag(v, body.0, safe_shape_text()), kw_start, block_end),
            Some(h) => {
                let call_end = call_args(s, h.args_start as int).1;
                let after = ins_run(s, call_end);
                if after <= body.1 && !blank_span(s, after, body.1 as int) {
                    with_claim(
                        with_diag(
                            v,
                            body.0,
                            "malformed `safe` catalog call: the body must be exactly `deka."@
                                + text_of(s, h.kind_start as int, h.kind_end as int) + "."@
                                + text_of(s, h.method_start as int, h.method_end as int)
                                + "(...)`, with nothing after the call"@,
                        ),
                        kw_start,
                        block_end,
                    )
                } else {
                    let v1 = with_claim(v, kw_start, block_end);
                    if keyword_run(s, call_end, hs) {
                        with_diag(v1, hs as usize, nested_text())
                    } else {
                        match call_check(cat, s, h, stdlib, true) {
                            Err(m) => with_diag(v1, body.0, m),
                            Ok(argc) => if block_end <= s.len() && call_end <= block_end {
                                with_lowering(
                                    v1,
                                    safe_lowering(s, kw_start, block_end, hs, h, call_end, argc),
                                )
                            } else {
                                v1
                            },
                        }
                    }
                }
            },
        }
    }
}

/// What an `unsafe { ... }` block with trimmed body `[b0, b1)` adds to the
/// scan. Only a body that is a call of a known catalog kind is judged: with
/// nothing but `;` after it, it is checked like a `safe` call (without the
/// throwing rule) and nested blocks are refused; otherwise it is malformed.
pub open spec fn unsafe_block_view(
    cat: Catalog,
    s: Seq<u8>,
    kw_start: usize,
    b0: int,
    b1: int,
    block_end: usize,
    stdlib: bool,
    v: ScanView,
) -> ScanView {
    if b0 > s.len() {
        v
    } else {
        match call_head(s, b0) {
            None => v,
            Some(h) => {
                let call_end = call_args(s, h.args_start as int).1;
                let after = ins_run(s, call_end);
                let clean = after > b1 || blank_span(s, after, semis_back(s, after, b1));
                let known = first_kind(cat, s.subrange(h.kind_start as int, h.kind_end as int), 0) is Some;
                if clean {
                    if known {
                        let v1 = with_claim(v, kw_start, block_end);
                        if keyword_run(s, b1, b0) {
                            with_diag(v1, b0 as usize, nested_text())
                        } else {
                            match call_check(cat, s, h, stdlib, false) {
                                Err(m) => with_diag(v1, b0 as usize, m),
                                Ok(_) => v1,
                            }
                        }
                    } else {
                        v
                    }
                } else if known {
                    with_diag(
                        with_claim(v, kw_start, block_end),
                        b0 as usize,
                        "malformed catalog call under `unsafe`: the body must be exactly `deka."@
                            + text_of(s, h.kind_start as int, h.kind_end as int) + "."@
                            + text_of(s, h.method_start as int, h.method_end as int)
                            + "(...)`, with nothing before or after"@,
                    )
                } else {
                    v
                }
            },
        }
    }
}

/// Where a `<...>` type annotation scanned from `p` at nesting `depth`
/// ends: just past the `>` that closes it, or the end.
pub open spec fn angle_end(s: Seq<u8>, p: int, depth: int) -> int
    decreases s.len() - p,
{
    if !(0 <= p < s.len()) {
        p
    } else if s[p] == LT {
        angle_end(s, p + 1, depth + 1)
    } else if s[p] == GT {
        if depth <= 1 {
            p + 1
        } else {
            angle_end(s, p + 1, depth - 1)
        }
    } else {
        angle_end(s, p + 1, depth)
    }
}

/// Where the `{` of a block whose keyword ends at `kw_end` should be: past
/// white space, comments and literals, and for `unsafe` past a `<...>`
/// annotation.
pub open spec fn block_open(s: Seq<u8>, kw_end: int, is_safe: bool) -> int {
    let p = ins_run(s, kw_end);
    if !is_safe && p < s.len() && s[p] == LT {
        ins_run(s, angle_end(s, p, 0))
    } else {
        p
    }
}

/// What the block of the keyword `[kw_start, kw_end)` adds to the scan, and
/// where the scan resumes (after the keyword when no `{` follows).
pub open spec fn block_view(
    cat: Catalog,
    s: Seq<u8>,
    kw_start: usize,
    kw_end: usize,
    is_safe: bool,
    stdlib: bool,
    v: ScanView,
) -> (ScanView, int) {
    let pos = block_open(s, kw_end as int, is_safe);
    if !(pos < s.len() && s[pos] == LBRACE) {
        (v, kw_end as int)
    } else {
        let block_end = bal_run(s, pos, 0, LBRACE, RBRACE);
        let b0 = ws_front(s, pos + 1, block_end - 1);
        let b1 = ws_back(s, b0, block_end - 1);
        if is_safe {
            (
                safe_block_view(cat, s, kw_start, (b0 as usize, b1 as usize), block_end as usize, stdlib, v),
                block_end,
            )
        } else {
            (unsafe_block_view(cat, s, kw_start, b0, b1, block_end as usize, stdlib, v), block_end)
        }
    }
}

/// The first pass from `p`: every `safe` / `unsafe` word that starts an
/// identifier outside literals and comments has its block judged.
pub open spec fn door_pass(cat: Catalog, s: Seq<u8>, stdlib: bool, p: int, v: ScanView) -> ScanView
    decreases s.len() + 2 - p,
{
    if !(0 <= p < s.len()) {
        v
    } else {
        let b = s[p];
        if b == DQUOTE || b == SQUOTE {
            let q = str_end(s, p);
            if p < q <= s.len() + 1 { door_pass(cat, s, stdlib, q, v) } else { v }
        } else if b == BACKTICK {
            let q = tmpl_run(s, p + 1);
            if p < q <= s.len() + 1 { door_pass(cat, s, stdlib, q, v) } else { v }
        } else if b == SLASH && p + 1 < s.len() && s[p + 1] == SLASH {
            let q = ins_run(s, p);
            if p < q <= s.len() + 1 { door_pass(cat, s, stdlib, q, v) } else { v }
        } else if is_ident(b) && (p == 0 || !is_ident(s[p - 1])) {
            let end = ident_end(s, p);
            if s.subrange(p, end) == safe_word() || s.subrange(p, end) == unsafe_word() {
                let (v2, q) = block_view(
                    cat,
                    s,
                    p as usize,
                    end as usize,
                    s.subrange(p, end) == safe_word(),
                    stdlib,
                    v,
                );
                if p < q <= s.len() + 1 { door_pass(cat, s, stdlib, q, v2) } else { v2 }
            } else if p < end <= s.len() + 1 {
                door_pass(cat, s, stdlib, end, v)
            } else {
                v
            }
        } else {
            door_pass(cat, s, stdlib, p + 1, v)
        }
    }
}

/// The diagnostic for a catalog call outside the two doors.
pub open spec fn bare_call_text(stdlib: bool, kind: Seq<char>) -> Seq<char> {
    if stdlib {
        "catalog call `deka."@ + kind
            + ".*` must appear as the body of `safe { }` or `unsafe { }` so its classification is checked (RFD 21)"@
    } else {
        "the `deka.*` catalog is closed and stdlib-only; application code may not call `deka."@ + kind
            + ".*` (RFD 21)"@
    }
}

/// The second pass from `p`: a `deka.<kind>.<method>(` head outside
/// literals, comments and judged blocks, naming a known kind, is reported.
pub open spec fn bare_pass(cat: Catalog, s: Seq<u8>, stdlib: bool, p: int, v: ScanView) -> ScanView
    decreases s.len() + 2 - p,
{
    if !(0 <= p < s.len()) {
        v
    } else {
        let b = s[p];
        if b == DQUOTE || b == SQUOTE {
            let q = str_end(s, p);
            if p < q <= s.len() + 1 { bare_pass(cat, s, stdlib, q, v) } else { v }
        } else if b == BACKTICK {
            let q = tmpl_run(s, p + 1);
            if p < q <= s.len() + 1 { bare_pass(cat, s, stdlib, q, v) } else { v }
        } else if b == SLASH && p + 1 < s.len() && s[p + 1] == SLASH {
            let q = ins_run(s, p);
            if p < q <= s.len() + 1 { bare_pass(cat, s, stdlib, q, v) } else { v }
        } else {
            match call_head(s, p) {
                Some(h) => if !claimed_at(v.2, p) && !lowered_at(v.1, p) {
                    let v2 = if first_kind(cat, s.subrange(h.kind_start as int, h.kind_end as int), 0) is Some {
                        with_diag(
                            v,
                            p as usize,
                            bare_call_text(stdlib, text_of(s, h.kind_start as int, h.kind_end as int)),
                        )
                    } else {
                        v
                    };
                    bare_pass(cat, s, stdlib, p + 4, v2)
                } else {
                    bare_pass(cat, s, stdlib, p + 1, v)
                },
                None => bare_pass(cat, s, stdlib, p + 1, v),
            }
        }
    }
}

/// Everything a scan of `s` finds: the doors first, then bare calls.
pub open spec fn scan_model(cat: Catalog, s: Seq<u8>, stdlib: bool) -> ScanView {
    bare_pass(
        cat,
        s,
        stdlib,
        0,
        door_pass(cat, s, stdlib, 0, (Seq::empty(), Seq::empty(), Seq::empty())),
    )
}

/// The text application code gets for any catalog call under a door.
pub open spec fn stdlib_only_text(s: Seq<u8>, h: CallHead, is_safe: bool) -> Seq<char> {
    "the `deka.*` catalog is closed and stdlib-only; application code may not call `deka."@
        + text_of(s, h.kind_start as int, h.kind_end as int) + "."@
        + text_of(s, h.method_start as int, h.method_end as int) + "` under `"@ + door_text(is_safe)
        + "` (RFD 21)"@
}

proof fn lemma_block_keeps_lowerings(
    cat: Catalog,
    s: Seq<u8>,
    kw_start: usize,
    kw_end: usize,
    is_safe: bool,
    v: ScanView,
)
    ensures
        block_view(cat, s, kw_start, kw_end, is_safe, false, v).0.1 == v.1,
{
}

proof fn lemma_door_pass_keeps_lowerings(cat: Catalog, s: Seq<u8>, p: int, v: ScanView)
    ensures
        door_pass(cat, s, false, p, v).1 == v.1,
    decreases s.len() + 2 - p,
{
    if 0 <= p < s.len() {
        let b = s[p];
        if b == DQUOTE || b == SQUOTE {
            let q = str_end(s, p);
            if p < q <= s.len() + 1 {
                lemma_door_pass_keeps_lowerings(cat, s, q, v);
            }
        } else if b == BACKTICK {
            let q = tmpl_run(s, p + 1);
            if p < q <= s.len() + 1 {
                lemma_door_pass_keeps_lowerings(cat, s, q, v);
            }
        } else if b == SLASH && p + 1 < s.len() && s[p + 1] == SLASH {
            let q = ins_run(s, p);
            if p < q <= s.len() + 1 {
                lemma_door_pass_keeps_lowerings(cat, s, q, v);
            }
        } else if is_ident(b) && (p == 0 || !is_ident(s[p - 1])) {
            let end = ident_end(s, p);
            if s.subrange(p, end) == safe_word() || s.subrange(p, end) == unsafe_word() {
                let is_safe = s.subrange(p, end) == safe_word();
                let (v2, q) = block_view(cat, s, p as usize, end as usize, is_safe, false, v);
                lemma_block_keeps_lowerings(cat, s, p as usize, end as usize, is_safe, v);
                if p < q <= s.len() + 1 {
                    lemma_door_pass_keeps_lowerings(cat, s, q, v2);
                }
            } else if p < end <= s.len() + 1 {
                lemma_door_pass_keeps_lowerings(cat, s, end, v);
            }
        } else {
            lemma_door_pass_keeps_lowerings(cat, s, p + 1, v);
        }
    }
}

proof fn lemma_bare_pass_keeps_lowerings(cat: Catalog, s: Seq<u8>, stdlib: bool, p: int, v: ScanView)
    ensures
        bare_pass(cat, s, stdlib, p, v).1 == v.1,
    decreases s.len() + 2 - p,
{
    if 0 <= p < s.len() {
        let b = s[p];
        if b == DQUOTE || b == SQUOTE {
            let q = str_end(s, p);
            if p < q <= s.len() + 1 {
                lemma_bare_pass_keeps_lowerings(cat, s, stdlib, q, v);
            }
        } else if b == BACKTICK {
            let q = tmpl_run(s, p + 1);
            if p < q <= s.len() + 1 {
                lemma_bare_pass_keeps_lowerings(cat, s, stdlib, q, v);
            }
        } else if b == SLASH && p + 1 < s.len() && s[p + 1] == SLASH {
            let q = ins_run(s, p);
            if p < q <= s.len() + 1 {
                lemma_bare_pass_keeps_lowerings(cat, s, stdlib, q, v);
            }
        } else {
            match call_head(s, p) {
                Some(h) => if !claimed_at(v.2, p) && !lowered_at(v.1, p) {
                    let v2 = if first_kind(cat, s.subrange(h.kind_start as int, h.kind_end as int), 0) is Some {
                        with_diag(
                            v,
                            p as usize,
                            bare_call_text(stdlib, text_of(s, h.kind_start as int, h.kind_end as int)),
                        )
                    } else {
                        v
                    };
                    lemma_bare_pass_keeps_lowerings(cat, s, stdlib, p + 4, v2);
                } else {
                    lemma_bare_pass_keeps_lowerings(cat, s, stdlib, p + 1, v);
                },
                None => lemma_bare_pass_keeps_lowerings(cat, s, stdlib, p + 1, v),
            }
        }
    }
}

/// Application code never gets a catalog call through: under either door
/// the call is refused with the stdlib-only diagnostic, a bare call is
/// reported as stdlib-only, and a scan of its source lowers nothing.
pub proof fn law_application_code_never_calls_the_catalog(
    cat: Catalog,
    s: Seq<u8>,
    h: CallHead,
    is_safe: bool,
    kind: Seq<char>,
)
    ensures
        call_check(cat, s, h, false, is_safe) == Err::<int, Seq<char>>(stdlib_only_text(s, h, is_safe)),
        bare_call_text(false, kind) == "the `deka.*` catalog is closed and stdlib-only; application code may not call `deka."@
            + kind + ".*` (RFD 21)"@,
        scan_model(cat, s, false).1.len() == 0,
{
    let empty: ScanView = (Seq::empty(), Seq::empty(), Seq::empty());
    lemma_door_pass_keeps_lowerings(cat, s, 0, empty);
    lemma_bare_pass_keeps_lowerings(cat, s, false, 0, door_pass(cat, s, false, 0, empty));
}

/// Finish a `safe { ... }` block whose trimmed body is `body`.
#[verifier::rlimit(60)]
#[verifier::spinoff_prover]
fn finish_safe_block(
    cat: &Catalog,
    source: &str,
    src: &[u8],
    kw_start: usize,
    body: (usize, usize),
    block_end: usize,
    stdlib: bool,
    st: &mut ScanState,
)
    requires
        src@ == source.spec_bytes(),
        scannable(src@),
        kw_start + 4 <= body.0 <= src@.len(),
        body.1 <= src@.len(),
        kw_start < block_end <= src@.len() + 1,
        resumable(src@, block_end as int),
        src@.subrange(kw_start as int, kw_start + 4) == safe_word(),
        state_ok(*cat, src@, stdlib, *old(st), kw_start as int),
    ensures
        state_ok(*cat, src@, stdlib, *final(st), block_end as int),
        scan_view(*final(st)) == safe_block_view(
            *cat,
            src@,
            kw_start,
            body,
            block_end,
            stdlib,
            scan_view(*old(st)),
        ),
{
    let ghost len = src@.len() as int;
    let ghost v0 = scan_view(*st);
    let head_start = skip_insignificant(src, body.0);
    if head_start > src.len() {
        push_diag(st, body.0, owned(
            "`safe { }` bodies must be exactly one `deka.<kind>.<method>(...)` catalog call; platform JavaScript is not allowed under `safe` (RFD 21)",
        ), Ghost(len));
        push_claim(st, kw_start, block_end);
        return;
    }
    let head = match parse_call_head(src, head_start) {
        Some(h) => h,
        None => {
            push_diag(st, body.0, owned(
                "`safe { }` bodies must be exactly one `deka.<kind>.<method>(...)` catalog call; platform JavaScript is not allowed under `safe` (RFD 21)",
            ), Ghost(len));
            push_claim(st, kw_start, block_end);
            return;
        },
    };
    let (_argc, call_end) = scan_args(src, head.args_start);
    let after = skip_insignificant(src, call_end);
    if after <= body.1 && !span_is_blank(source, src, after, body.1) {
        let mut m = owned(
            "malformed `safe` catalog call: the body must be exactly `deka.",
        );
        m.append(name_of(source, src, head.kind_start, head.kind_end));
        m.append(".");
        m.append(name_of(source, src, head.method_start, head.method_end));
        m.append("(...)`, with nothing after the call");
        let ghost mv = m@;
        push_diag(st, body.0, m, Ghost(len));
        push_claim(st, kw_start, block_end);
        return;
    }
    push_claim(st, kw_start, block_end);
    if contains_block_keyword(src, head_start, call_end) {
        push_diag(st, head_start, owned(
            "nested `safe` / `unsafe` blocks are not supported in a catalog call; bind the inner result to a `const` first (RFD 21)",
        ), Ghost(len));
        return;
    }
    let ghost v1 = scan_view(*st);
    let valid = validate_call(cat, source, src, body.0, &head, stdlib, true, st);
    if let Some(argc) = valid {
        if block_end <= src.len() && call_end <= block_end {
            // The lowered call is the call text, trimmed, with a top-level
            // trailing comma before its closing paren removed.
            let mut ce = call_end;
            while ce > head.args_start && ws_byte(src[ce - 1])
                invariant
                    head.args_start <= ce <= call_end <= src@.len(),
                    ws_back(src@, head.args_start as int, ce as int) == ws_back(
                        src@,
                        head.args_start as int,
                        call_end as int,
                    ),
                    ce < call_end ==> is_ws(src@[ce as int]),
                    ce == call_end ==> resumable(src@, ce as int),
                decreases ce,
            {
                ce = ce - 1;
            }
            proof {
                if ce < call_end {
                    assert(is_cut(src@, ce as int));
                }
                assert(src@[head_start as int] == 100u8) by {
                    assert(src@.subrange(head_start as int, head_start + 4)[0] == src@[head_start as int]);
                }
                assert(is_cut(src@, head_start as int));
                lemma_valid_span(src@, head_start as int, ce as int);
            }
            let call = copy_span(src, head_start, ce);
            let comma = match trailing_comma(&call) {
                Some(c) => Some(head_start + c),
                None => None,
            };
            proof {
                if let Some(c) = comma {
                    assert(src@[c as int] == call@[c - head_start]);
                    let o = choose|o: int| 0 <= o < c - head_start && call@[o] == LPAREN;
                    assert(call@[o] == src@[head_start + o]);
                }
            }
            let l = Lowering {
                start: kw_start,
                end: block_end,
                call_start: head_start,
                call_end: ce,
                comma: comma,
                head: head,
                argc: argc,
            };
            let ghost old_l = st.lowered@;
            st.lowered.push(l);
            proof {
                assert(call@ == src@.subrange(head_start as int, ce as int));
                assert(l == safe_lowering(src@, kw_start, block_end, head_start as int, head, call_end as int, argc as int));
                assert(scan_view(*st) == with_lowering(v1, l));
                assert(lowering_ok(*cat, src@, stdlib, l));
                assert forall|i: int, j: int|
                    0 <= i < j < st.lowered@.len() implies #[trigger] st.lowered@[i].end
                    <= #[trigger] st.lowered@[j].start by {
                    if j < st.lowered@.len() - 1 {
                        assert(st.lowered@[j] == old_l[j]);
                    }
                    assert(st.lowered@[i] == old_l[i] || i == st.lowered@.len() - 1);
                }
                assert forall|i: int| 0 <= i < st.lowered@.len() implies lowering_ok(
                    *cat,
                    src@,
                    stdlib,
                    #[trigger] st.lowered@[i],
                ) && st.lowered@[i].end <= block_end by {
                    if i < st.lowered@.len() - 1 {
                        assert(st.lowered@[i] == old_l[i]);
                    }
                }
            }
        }
    }
}

/// Handle one `safe { ... }` / `unsafe { ... }` block starting at its
/// keyword `src[kw_start..kw_end]`; returns where scanning continues.
#[verifier::spinoff_prover]
fn scan_block(
    cat: &Catalog,
    source: &str,
    src: &[u8],
    kw_start: usize,
    kw_end: usize,
    is_safe: bool,
    stdlib: bool,
    st: &mut ScanState,
) -> (r: usize)
    requires
        src@ == source.spec_bytes(),
        scannable(src@),
        kw_start < kw_end <= src@.len(),
        is_safe ==> kw_end == kw_start + 4 && src@.subrange(kw_start as int, kw_start + 4)
            == safe_word(),
        is_cut(src@, kw_end as int),
        state_ok(*cat, src@, stdlib, *old(st), kw_start as int),
    ensures
        kw_end <= r <= src@.len() + 1,
        resumable(src@, r as int),
        state_ok(*cat, src@, stdlib, *final(st), r as int),
        (scan_view(*final(st)), r as int) == block_view(
            *cat,
            src@,
            kw_start,
            kw_end,
            is_safe,
            stdlib,
            scan_view(*old(st)),
        ),
{
    let ghost len = src@.len() as int;
    let ghost v0 = scan_view(*st);
    let mut pos = skip_insignificant(src, kw_end);
    if !is_safe && at(src, pos) == Some(LT) {
        let mut depth: usize = 0;
        let ghost a0 = pos;
        while pos < src.len()
            invariant_except_break
                kw_end <= pos <= src@.len() + 1,
                depth <= pos,
                angle_end(src@, pos as int, depth as int) == angle_end(src@, a0 as int, 0),
            ensures
                kw_end <= pos <= src@.len() + 1,
                pos == angle_end(src@, a0 as int, 0),
            decreases src@.len() + 1 - pos,
        {
            let b = src[pos];
            if b == LT {
                depth = depth + 1;
            } else if b == GT {
                if depth <= 1 {
                    pos = pos + 1;
                    break;
                }
                depth = depth - 1;
            }
            pos = pos + 1;
        }
        pos = skip_insignificant(src, pos);
    }
    if at(src, pos) != Some(LBRACE) {
        return kw_end;
    }
    let body_start = pos + 1;
    let block_end = skip_balanced(src, pos, LBRACE, RBRACE);
    let body_end = block_end - 1;
    let body_trimmed = trim_span(src, body_start, body_end);
    if is_safe {
        finish_safe_block(cat, source, src, kw_start, body_trimmed, block_end, stdlib, st);
        return block_end;
    }
    proof {
        assert(state_ok(*cat, src@, stdlib, *st, block_end as int));
    }
    // unsafe { ... }: validated only when the body is exactly a catalog call
    // (modulo a trailing `;`); raw platform JavaScript is left alone.
    if body_trimmed.0 <= src.len() {
        if let Some(head) = parse_call_head(src, body_trimmed.0) {
            let (_argc, call_end) = scan_args(src, head.args_start);
            let after = skip_insignificant(src, call_end);
            let clean_shape = after > body_trimmed.1 || span_is_blank_or_semis(
                source,
                src,
                after,
                body_trimmed.1,
            );
            let known = find_kind(cat, src, head.kind_start, head.kind_end).is_some();
            if clean_shape {
                if known {
                    push_claim(st, kw_start, block_end);
                    if contains_block_keyword(src, body_trimmed.0, body_trimmed.1) {
                        push_diag(st, body_trimmed.0, owned(
                            "nested `safe` / `unsafe` blocks are not supported in a catalog call; bind the inner result to a `const` first (RFD 21)",
                        ), Ghost(len));
                        return block_end;
                    }
                    let _ = validate_call(
                        cat,
                        source,
                        src,
                        body_trimmed.0,
                        &head,
                        stdlib,
                        false,
                        st,
                    );
                }
                return block_end;
            }
            if known {
                push_claim(st, kw_start, block_end);
                let mut m = owned(
                    "malformed catalog call under `unsafe`: the body must be exactly `deka.",
                );
                m.append(name_of(source, src, head.kind_start, head.kind_end));
                m.append(".");
                m.append(name_of(source, src, head.method_start, head.method_end));
                m.append("(...)`, with nothing before or after");
                push_diag(st, body_trimmed.0, m, Ghost(len));
            }
            return block_end;
        }
    }
    block_end
}

/// `p` lies inside one of the claimed spans.
pub open spec fn claimed_at(claimed: Seq<(usize, usize)>, p: int) -> bool {
    exists|k: int| 0 <= k < claimed.len() && claimed[k].0 <= p < #[trigger] claimed[k].1
}

/// `p` lies inside one of the lowered blocks.
pub open spec fn lowered_at(lowered: Seq<Lowering>, p: int) -> bool {
    exists|k: int| 0 <= k < lowered.len() && lowered[k].start <= p < #[trigger] lowered[k].end
}

/// Whether `p` lies inside one of the claimed spans.
fn in_claimed(claimed: &Vec<(usize, usize)>, p: usize) -> (r: bool)
    ensures
        r == claimed_at(claimed@, p as int),
{
    let mut i: usize = 0;
    while i < claimed.len()
        invariant
            i <= claimed@.len(),
            forall|k: int| 0 <= k < i ==> !(claimed@[k].0 <= p < #[trigger] claimed@[k].1),
        decreases claimed@.len() - i,
    {
        if p >= claimed[i].0 && p < claimed[i].1 {
            return true;
        }
        i = i + 1;
    }
    false
}

/// Whether `p` lies inside one of the lowered blocks.
fn in_lowered(lowered: &Vec<Lowering>, p: usize) -> (r: bool)
    ensures
        r == lowered_at(lowered@, p as int),
{
    let mut i: usize = 0;
    while i < lowered.len()
        invariant
            i <= lowered@.len(),
            forall|k: int| 0 <= k < i ==> !(lowered@[k].start <= p < #[trigger] lowered@[k].end),
        decreases lowered@.len() - i,
    {
        if p >= lowered[i].start && p < lowered[i].end {
            return true;
        }
        i = i + 1;
    }
    false
}

proof fn lemma_state_limit(cat: Catalog, s: Seq<u8>, stdlib: bool, st: ScanState, a: int, b: int)
    requires
        state_ok(cat, s, stdlib, st, a),
        a <= b,
    ensures
        state_ok(cat, s, stdlib, st, b),
{
}

/// Scan one source file against the catalog. `stdlib` says whether the
/// file belongs to an official `@deka/*` package; other sources may not
/// reference the catalog at all.
pub fn scan_source(source: &str, stdlib: bool, catalog: &Catalog) -> (r: ScanResult)
    requires
        source.spec_bytes().len() + 4 <= usize::MAX,
    ensures
        diag_views(r.diagnostics@) == scan_model(*catalog, source.spec_bytes(), stdlib).0,
        r.lowered@ == scan_model(*catalog, source.spec_bytes(), stdlib).1,
        diags_in_range(r.diagnostics@, source.spec_bytes().len() as int),
        lowerings_ordered(r.lowered@),
        forall|i: int|
            0 <= i < r.lowered@.len() ==> lowering_ok(
                *catalog,
                source.spec_bytes(),
                stdlib,
                #[trigger] r.lowered@[i],
            ),
        r.rewritten is Some <==> r.lowered@.len() > 0,
        r.rewritten matches Some(t) ==> encode_utf8(t@) == splice(
            source.spec_bytes(),
            r.lowered@,
            0,
        ),
        !stdlib ==> r.rewritten is None,
{
    let src = source.as_bytes();
    proof {
        lemma_str_valid(source);
    }
    let ghost len = src@.len() as int;
    let mut st = ScanState { diagnostics: Vec::new(), lowered: Vec::new(), claimed: Vec::new() };
    let mut pos: usize = 0;
    let ghost empty: ScanView = (Seq::empty(), Seq::empty(), Seq::empty());
    proof {
        assert(scan_view(st) =~= empty);
    }
    while pos < src.len()
        invariant
            src@ == source.spec_bytes(),
            scannable(src@),
            len == src@.len(),
            pos <= src@.len() + 1,
            state_ok(*catalog, src@, stdlib, st, pos as int),
            door_pass(*catalog, src@, stdlib, pos as int, scan_view(st)) == door_pass(
                *catalog,
                src@,
                stdlib,
                0,
                empty,
            ),
        decreases src@.len() + 2 - pos,
    {
        let b = src[pos];
        let ghost p0 = pos;
        if b == DQUOTE || b == SQUOTE {
            pos = skip_string(src, pos);
        } else if b == BACKTICK {
            pos = skip_template(src, pos);
        } else if b == SLASH && pos + 1 < src.len() && src[pos + 1] == SLASH {
            pos = skip_insignificant(src, pos);
        } else if ident_byte(b) && (pos == 0 || !ident_byte(src[pos - 1])) {
            let start = pos;
            let mut end = pos;
            while end < src.len() && ident_byte(src[end])
                invariant
                    start <= end <= src@.len(),
                    forall|i: int| start <= i < end ==> is_ident(#[trigger] src@[i]),
                    ident_end(src@, end as int) == ident_end(src@, start as int),
                decreases src@.len() - end,
            {
                end = end + 1;
            }
            proof {
                lemma_cut_after_ascii(src@, end as int);
            }
            proof {
                assert(safe_word().len() == 4);
            }
            if is_safe_word(src, start, end) {
                pos = scan_block(catalog, source, src, start, end, true, stdlib, &mut st);
            } else if is_unsafe_word(src, start, end) {
                pos = scan_block(catalog, source, src, start, end, false, stdlib, &mut st);
            } else {
                pos = end;
                proof {
                    lemma_state_limit(*catalog, src@, stdlib, st, p0 as int, pos as int);
                }
            }
        } else {
            pos = pos + 1;
        }
        proof {
            if pos > p0 && state_ok(*catalog, src@, stdlib, st, p0 as int) {
                lemma_state_limit(*catalog, src@, stdlib, st, p0 as int, pos as int);
            }
        }
    }
    // Bare-reference pass: a catalog-kind call outside the two doors.
    let mut scan: usize = 0;
    while scan < src.len()
        invariant
            src@ == source.spec_bytes(),
            scannable(src@),
            len == src@.len(),
            scan <= src@.len() + 1,
            state_ok(*catalog, src@, stdlib, st, len),
            bare_pass(*catalog, src@, stdlib, scan as int, scan_view(st)) == scan_model(
                *catalog,
                src@,
                stdlib,
            ),
        decreases src@.len() + 2 - scan,
    {
        let b = src[scan];
        if b == DQUOTE || b == SQUOTE {
            scan = skip_string(src, scan);
            continue;
        }
        if b == BACKTICK {
            scan = skip_template(src, scan);
            continue;
        }
        if b == SLASH && scan + 1 < src.len() && src[scan + 1] == SLASH {
            scan = skip_insignificant(src, scan);
            continue;
        }
        if let Some(head) = parse_call_head(src, scan) {
            if !in_claimed(&st.claimed, scan) && !in_lowered(&st.lowered, scan) {
                if find_kind(catalog, src, head.kind_start, head.kind_end).is_some() {
                    let kind = name_of(source, src, head.kind_start, head.kind_end);
                    let m = if stdlib {
                        let mut m = owned("catalog call `deka.");
                        m.append(kind);
                        m.append(
                            ".*` must appear as the body of `safe { }` or `unsafe { }` so its classification is checked (RFD 21)",
                        );
                        m
                    } else {
                        let mut m = owned(
                            "the `deka.*` catalog is closed and stdlib-only; application code may not call `deka.",
                        );
                        m.append(kind);
                        m.append(".*` (RFD 21)");
                        m
                    };
                    push_diag(&mut st, scan, m, Ghost(len));
                }
                scan = scan + 4;
                continue;
            }
        }
        scan = scan + 1;
    }
    let rewritten = if st.lowered.len() > 0 {
        Some(apply_lowerings(src, &st.lowered, Ghost(*catalog), Ghost(stdlib)))
    } else {
        None
    };
    proof {
        if !stdlib && st.lowered@.len() > 0 {
            assert(lowering_ok(*catalog, src@, stdlib, st.lowered@[0]));
        }
    }
    ScanResult { rewritten, diagnostics: st.diagnostics, lowered: st.lowered }
}

/// Build the lowered source.
#[verifier::rlimit(80)]
#[verifier::spinoff_prover]
fn apply_lowerings(
    src: &[u8],
    lowered: &Vec<Lowering>,
    Ghost(cat): Ghost<Catalog>,
    Ghost(stdlib): Ghost<bool>,
) -> (r: String)
    requires
        valid_utf8(src@),
        lowerings_ordered(lowered@),
        forall|i: int|
            0 <= i < lowered@.len() ==> lowering_ok(cat, src@, stdlib, #[trigger] lowered@[i]),
    ensures
        encode_utf8(r@) == splice(src@, lowered@, 0),
{
    let mut out: Vec<u8> = Vec::new();
    let mut cursor: usize = 0;
    let mut i: usize = 0;
    proof {
        lemma_cut_at_start(src@);
        assert(lowered@.skip(0) == lowered@);
    }
    while i < lowered.len()
        invariant
            valid_utf8(src@),
            lowerings_ordered(lowered@),
            forall|k: int|
                0 <= k < lowered@.len() ==> lowering_ok(cat, src@, stdlib, #[trigger] lowered@[k]),
            i <= lowered@.len(),
            cursor <= src@.len(),
            is_cut(src@, cursor as int),
            i < lowered@.len() ==> cursor <= lowered@[i as int].start,
            valid_utf8(out@),
            out@ + splice(src@, lowered@.skip(i as int), cursor as int) == splice(src@, lowered@, 0),
        decreases lowered@.len() - i,
    {
        let l = &lowered[i];
        let ghost before = out@;
        proof {
            assert(lowering_ok(cat, src@, stdlib, lowered@[i as int]));
            assert(src@.subrange(l.start as int, l.start + 4)[0] == src@[l.start as int]);
            assert(src@.subrange(l.call_start as int, l.call_start + 4)[0] == src@[l.call_start as int]);
            lemma_valid_span(src@, cursor as int, l.start as int);
        }
        push_span(&mut out, src, cursor, l.start);
        proof {
            valid_utf8_concat(before, src@.subrange(cursor as int, l.start as int));
        }
        let ghost mid = out@;
        match l.comma {
            Some(c) => {
                proof {
                    lemma_cut_after_ascii(src@, c + 1);
                    lemma_valid_span(src@, l.call_start as int, c as int);
                    lemma_valid_span(src@, c + 1, l.call_end as int);
                    valid_utf8_concat(mid, src@.subrange(l.call_start as int, c as int));
                }
                push_span(&mut out, src, l.call_start, c);
                let ghost mid2 = out@;
                proof {
                    valid_utf8_concat(mid2, src@.subrange(c + 1, l.call_end as int));
                }
                push_span(&mut out, src, c + 1, l.call_end);
            },
            None => {
                proof {
                    lemma_valid_span(src@, l.call_start as int, l.call_end as int);
                    valid_utf8_concat(mid, src@.subrange(l.call_start as int, l.call_end as int));
                }
                push_span(&mut out, src, l.call_start, l.call_end);
            },
        }
        proof {
            let rest = lowered@.skip(i as int);
            assert(rest[0] == lowered@[i as int]);
            assert(rest.drop_first() == lowered@.skip(i + 1));
            assert(out@ == before + src@.subrange(cursor as int, l.start as int) + lowered_call(src@, *l));
            if i + 1 < lowered@.len() {
                assert(lowered@[i as int].end <= lowered@[i + 1].start);
            }
        }
        cursor = l.end;
        i = i + 1;
    }
    proof {
        lemma_valid_span(src@, cursor as int, src@.len() as int);
        valid_utf8_concat(out@, src@.subrange(cursor as int, src@.len() as int));
        assert(lowered@.skip(i as int).len() == 0);
    }
    push_span(&mut out, src, cursor, src.len());
    bytes_to_string(out)
}

/// 1-based `(line, column)` of a byte offset: the line counts the newlines
/// before the offset, the column is the distance from the last one.
pub open spec fn spec_locate(s: Seq<u8>, offset: int) -> (int, int) {
    let newlines = s.take(offset).filter(|b: u8| b == NEWLINE).len();
    let last = last_newline_before(s, offset);
    (newlines + 1int, offset - last)
}

/// Offset of the line start for `offset`: one past the last newline before
/// it, or 0.
pub open spec fn last_newline_before(s: Seq<u8>, offset: int) -> int
    decreases offset,
{
    if offset <= 0 {
        0
    } else if s[offset - 1] == NEWLINE {
        offset
    } else {
        last_newline_before(s, offset - 1)
    }
}

/// Locate a diagnostic offset as a 1-based line and column.
pub fn locate(source: &str, offset: usize) -> (r: (usize, usize))
    requires
        offset <= source.spec_bytes().len(),
        source.spec_bytes().len() < usize::MAX,
    ensures
        r.0 == spec_locate(source.spec_bytes(), offset as int).0,
        r.1 == spec_locate(source.spec_bytes(), offset as int).1 + 1,
{
    let src = source.as_bytes();
    let mut line: usize = 1;
    let mut line_start: usize = 0;
    let mut i: usize = 0;
    while i < offset
        invariant
            src@ == source.spec_bytes(),
            i <= offset <= src@.len(),
            src@.len() < usize::MAX,
            line == src@.take(i as int).filter(|b: u8| b == NEWLINE).len() + 1,
            line_start == last_newline_before(src@, i as int),
            line_start <= i,
            line <= i + 1,
        decreases offset - i,
    {
        proof {
            assert(src@.take(i + 1).drop_last() == src@.take(i as int));
            reveal_with_fuel(Seq::filter, 1);
        }
        if src[i] == NEWLINE {
            line = line + 1;
            line_start = i + 1;
        }
        i = i + 1;
    }
    (line, offset - line_start + 1)
}

} // verus!
