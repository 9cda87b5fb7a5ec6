//! Byte-level text helpers shared by the scanners: UTF-8 facts about cut
//! points, slicing a `str` at proven boundaries, and building `String`s from
//! byte buffers whose validity has been proved.

use vstd::prelude::*;
use vstd::utf8::*;
use vstd::string::StringSliceAdditionalSpecFns;

verus! {

/// The text of each string in a sequence.
pub open spec fn string_views(v: Seq<String>) -> Seq<Seq<char>> {
    v.map_values(|s: String| s@)
}

/// Texts joined by `", "`.
pub open spec fn comma_list(s: Seq<Seq<char>>) -> Seq<char>
    decreases s.len(),
{
    if s.len() == 0 {
        Seq::empty()
    } else if s.len() == 1 {
        s[0]
    } else {
        comma_list(s.drop_last()) + seq![',', ' '] + s.last()
    }
}

/// Lines joined by `\n`.
pub open spec fn join_lines(lines: Seq<Seq<char>>) -> Seq<char>
    decreases lines.len(),
{
    if lines.len() == 0 {
        Seq::empty()
    } else if lines.len() == 1 {
        lines[0]
    } else {
        join_lines(lines.drop_last()) + seq!['\n'] + lines.last()
    }
}

/// The text of each pair of strings in a sequence.
pub open spec fn pair_views(v: Seq<(String, String)>) -> Seq<(Seq<char>, Seq<char>)> {
    v.map_values(|p: (String, String)| (p.0@, p.1@))
}

/// The text of an optional string.
pub open spec fn opt_view(o: Option<String>) -> Option<Seq<char>> {
    match o {
        Some(s) => Some(s@),
        None => None,
    }
}

broadcast use vstd::utf8::group_utf8_lib;

pub const AT: u8 = 64;
pub const CARET: u8 = 94;
pub const TILDE: u8 = 126;
pub const GT: u8 = 62;
pub const LT: u8 = 60;
pub const EQ: u8 = 61;
pub const DOT: u8 = 46;
pub const SLASH: u8 = 47;
pub const BACKSLASH: u8 = 92;
pub const DQUOTE: u8 = 34;
pub const SQUOTE: u8 = 39;
pub const BACKTICK: u8 = 96;
pub const DOLLAR: u8 = 36;
pub const UNDERSCORE: u8 = 95;
pub const DASH: u8 = 45;
pub const COLON: u8 = 58;
pub const COMMA: u8 = 44;
pub const SEMI: u8 = 59;
pub const LPAREN: u8 = 40;
pub const RPAREN: u8 = 41;
pub const LBRACKET: u8 = 91;
pub const RBRACKET: u8 = 93;
pub const LBRACE: u8 = 123;
pub const RBRACE: u8 = 125;
pub const NEWLINE: u8 = 10;
pub const SPACE: u8 = 32;
pub const LOWER_V: u8 = 118;

/// A position at which a valid UTF-8 buffer may be cut: the end, or any byte
/// that does not continue a multi-byte scalar.
pub open spec fn is_cut(s: Seq<u8>, p: int) -> bool {
    0 <= p <= s.len() && (p == s.len() || !is_continuation_byte(s[p]))
}

/// The byte after an ASCII byte never continues a multi-byte scalar.
pub proof fn lemma_cut_after_ascii(s: Seq<u8>, p: int)
    requires
        valid_utf8(s),
        0 < p <= s.len(),
        s[p - 1] < 0x80,
    ensures
        is_cut(s, p),
    decreases s.len(),
{
    if p < s.len() {
        let w = length_of_first_scalar(s);
        let rest = pop_first_scalar(s);
        assert(rest.len() == s.len() - w);
        if p - 1 < w {
            if p - 1 > 0 {
                assert(is_continuation_byte(s[p - 1]));
            }
            assert(w == 1);
            assert(rest.len() > 0);
            assert(valid_utf8(rest));
            reveal_with_fuel(valid_utf8, 2);
            assert(valid_first_scalar(rest));
            assert(rest[0] == s[p]);
        } else {
            assert(rest[p - w - 1] == s[p - 1]);
            lemma_cut_after_ascii(rest, p - w);
            assert(rest[p - w] == s[p]);
        }
    }
}

/// A span of a valid buffer between two cut points is itself valid.
pub proof fn lemma_valid_span(s: Seq<u8>, a: int, b: int)
    requires
        valid_utf8(s),
        a <= b,
        is_cut(s, a),
        is_cut(s, b),
    ensures
        valid_utf8(s.subrange(a, b)),
{
    if a == s.len() {
        assert(s.subrange(a, b).len() == 0);
    } else {
        assert(is_char_boundary(s, a)) by {
            is_char_boundary_iff_not_is_continuation_byte(s, a);
        }
        valid_utf8_split(s, a);
        let t = s.subrange(a, s.len() as int);
        if b == s.len() {
            assert(t == s.subrange(a, b));
        } else {
            assert(t[b - a] == s[b]);
            assert(is_char_boundary(t, b - a)) by {
                is_char_boundary_iff_not_is_continuation_byte(t, b - a);
            }
            valid_utf8_split(t, b - a);
            assert(t.subrange(0, b - a) == s.subrange(a, b));
        }
    }
}

/// The bytes of a `str` always form valid UTF-8.
pub proof fn lemma_str_valid(s: &str)
    ensures
        valid_utf8(s.spec_bytes()),
{
    encode_utf8_valid_utf8(s@);
}

/// Valid UTF-8 bytes in ASCII range form valid UTF-8.
pub proof fn lemma_ascii_valid(s: Seq<u8>)
    requires
        forall|i: int| 0 <= i < s.len() ==> #[trigger] s[i] < 0x80,
    ensures
        valid_utf8(s),
    decreases s.len(),
{
    if s.len() > 0 {
        assert(valid_first_scalar(s));
        assert(pop_first_scalar(s) == s.subrange(1, s.len() as int));
        lemma_ascii_valid(s.subrange(1, s.len() as int));
    }
}

/// `std::str::from_utf8`-style conversion of an owned byte buffer:
/// `String::from_utf8` succeeds exactly on valid UTF-8, and the resulting
/// string encodes back to the same bytes.
#[verifier::external_body]
fn string_from_utf8(bytes: Vec<u8>) -> (r: Option<String>)
    ensures
        r is Some <==> valid_utf8(bytes@),
        r matches Some(s) ==> encode_utf8(s@) == bytes@,
{
    String::from_utf8(bytes).ok()
}

/// Turn a byte buffer that is known to be valid UTF-8 into a `String`.
pub fn bytes_to_string(bytes: Vec<u8>) -> (r: String)
    requires
        valid_utf8(bytes@),
    ensures
        encode_utf8(r@) == bytes@,
{
    match string_from_utf8(bytes) {
        Some(s) => s,
        None => {
            proof {
                assert(false);
            }
            String::new()
        },
    }
}

/// The sub-`str` of `s` between byte offsets `a` and `b` (`&s[a..b]`).
#[verifier::external_body]
fn str_range(s: &str, a: usize, b: usize) -> (r: &str)
    requires
        a <= b <= s.spec_bytes().len(),
        is_char_boundary(s.spec_bytes(), a as int),
        is_char_boundary(s.spec_bytes(), b as int),
    ensures
        r.spec_bytes() == s.spec_bytes().subrange(a as int, b as int),
{
    &s[a..b]
}

/// Slice `s` at two cut points.
pub fn str_span(s: &str, a: usize, b: usize) -> (r: &str)
    requires
        a <= b,
        is_cut(s.spec_bytes(), a as int),
        is_cut(s.spec_bytes(), b as int),
    ensures
        r.spec_bytes() == s.spec_bytes().subrange(a as int, b as int),
{
    proof {
        let sb = s.spec_bytes();
        lemma_str_valid(s);
        is_char_boundary_start_end_of_seq(sb);
        if a < sb.len() {
            is_char_boundary_iff_not_is_continuation_byte(sb, a as int);
        }
        if b < sb.len() {
            is_char_boundary_iff_not_is_continuation_byte(sb, b as int);
        }
    }
    str_range(s, a, b)
}

/// Copy a `str` into an owned `String`.
pub fn owned(s: &str) -> (r: String)
    ensures
        r@ == s@,
{
    s.to_owned()
}

/// The owned bytes of a `str`.
pub fn to_bytes(s: &str) -> (r: Vec<u8>)
    ensures
        r@ == s.spec_bytes(),
{
    let b = s.as_bytes();
    let mut v: Vec<u8> = Vec::new();
    let mut i: usize = 0;
    while i < b.len()
        invariant
            b@ == s.spec_bytes(),
            i <= b@.len(),
            v@ == b@.subrange(0, i as int),
        decreases b@.len() - i,
    {
        v.push(b[i]);
        i = i + 1;
        proof {
            assert(v@ == b@.subrange(0, i as int));
        }
    }
    proof {
        assert(b@.subrange(0, b@.len() as int) == b@);
    }
    v
}

/// Append `src[a..b]` to `out`.
pub fn push_span(out: &mut Vec<u8>, src: &[u8], a: usize, b: usize)
    requires
        a <= b <= src@.len(),
    ensures
        final(out)@ == old(out)@ + src@.subrange(a as int, b as int),
{
    let mut i = a;
    while i < b
        invariant
            a <= i <= b <= src@.len(),
            out@ == old(out)@ + src@.subrange(a as int, i as int),
        decreases b - i,
    {
        out.push(src[i]);
        i = i + 1;
        proof {
            assert(out@ == old(out)@ + src@.subrange(a as int, i as int));
        }
    }
}

/// Index of the first byte equal to `x` at or after `i`.
pub open spec fn find_from(s: Seq<u8>, x: u8, i: int) -> Option<int>
    decreases s.len() - i,
{
    if i < 0 || i >= s.len() {
        None
    } else if s[i] == x {
        Some(i)
    } else {
        find_from(s, x, i + 1)
    }
}

/// Index of the last byte equal to `x` strictly before `i`.
pub open spec fn rfind_before(s: Seq<u8>, x: u8, i: int) -> Option<int>
    decreases i,
{
    if i <= 0 || i > s.len() {
        None
    } else if s[i - 1] == x {
        Some(i - 1)
    } else {
        rfind_before(s, x, i - 1)
    }
}

pub proof fn lemma_find_from_facts(s: Seq<u8>, x: u8, i: int)
    requires
        0 <= i,
    ensures
        find_from(s, x, i) matches Some(j) ==> i <= j < s.len() && s[j] == x && forall|k: int|
            i <= k < j ==> s[k] != x,
        find_from(s, x, i) is None ==> forall|k: int| i <= k < s.len() ==> s[k] != x,
    decreases s.len() - i,
{
    if i < s.len() && s[i] != x {
        lemma_find_from_facts(s, x, i + 1);
    }
}

pub proof fn lemma_rfind_before_facts(s: Seq<u8>, x: u8, i: int)
    requires
        i <= s.len(),
    ensures
        rfind_before(s, x, i) matches Some(j) ==> 0 <= j < i && s[j] == x && forall|k: int|
            j < k < i ==> s[k] != x,
        rfind_before(s, x, i) is None ==> forall|k: int| 0 <= k < i ==> s[k] != x,
    decreases i,
{
    if i > 0 && s[i - 1] != x {
        lemma_rfind_before_facts(s, x, i - 1);
    }
}

/// First occurrence of byte `x` at or after `i`.
pub fn find_byte_from(s: &[u8], x: u8, i: usize) -> (r: Option<usize>)
    ensures
        r == (match find_from(s@, x, i as int) {
            Some(j) => Some(j as usize),
            None => None::<usize>,
        }),
        r matches Some(j) ==> i <= j < s@.len() && s@[j as int] == x,
{
    let mut k = i;
    while k < s.len()
        invariant
            i <= k,
            find_from(s@, x, i as int) == find_from(s@, x, k as int),
        decreases s@.len() - k,
    {
        if s[k] == x {
            return Some(k);
        }
        k = k + 1;
    }
    None
}

/// Last occurrence of byte `x` strictly before `i`.
pub fn rfind_byte_before(s: &[u8], x: u8, i: usize) -> (r: Option<usize>)
    requires
        i <= s@.len(),
    ensures
        r == (match rfind_before(s@, x, i as int) {
            Some(j) => Some(j as usize),
            None => None::<usize>,
        }),
        r matches Some(j) ==> j < i && s@[j as int] == x,
{
    let mut k = i;
    while k > 0
        invariant
            k <= i <= s@.len(),
            rfind_before(s@, x, i as int) == rfind_before(s@, x, k as int),
        decreases k,
    {
        if s[k - 1] == x {
            return Some(k - 1);
        }
        k = k - 1;
    }
    None
}

/// The first byte of a non-empty valid buffer is a cut point.
pub proof fn lemma_cut_at_start(s: Seq<u8>)
    requires
        valid_utf8(s),
    ensures
        is_cut(s, 0),
{
    if s.len() > 0 {
        assert(valid_first_scalar(s));
    }
}

/// The characters of a `str`, in order.
pub fn chars_of(s: &str) -> (r: Vec<char>)
    ensures
        r@ == s@,
{
    let mut v: Vec<char> = Vec::new();
    for c in it: s.chars()
        invariant
            v@ == it.seq().take(it.index() as int),
            it.seq() == s@,
    {
        v.push(c);
    }
    v
}

/// `String::push`: append one character.
#[verifier::external_body]
pub(crate) fn string_push(s: &mut String, c: char)
    ensures
        final(s)@ == old(s)@.push(c),
{
    s.push(c);
}

/// Collect characters into a `String`.
pub fn string_from_chars(v: &[char]) -> (r: String)
    ensures
        r@ == v@,
{
    let mut out = String::new();
    let mut i: usize = 0;
    while i < v.len()
        invariant
            i <= v@.len(),
            out@ == v@.take(i as int),
        decreases v@.len() - i,
    {
        string_push(&mut out, v[i]);
        i = i + 1;
        proof {
            assert(out@ == v@.take(i as int));
        }
    }
    proof {
        assert(v@.take(v@.len() as int) == v@);
    }
    out
}

/// The Unicode `White_Space` property, as `char::is_whitespace` documents it.
pub open spec fn is_white_space(c: char) -> bool {
    ||| (9 <= c as u32 <= 13)
    ||| c as u32 == 32
    ||| c as u32 == 0x85
    ||| c as u32 == 0xa0
    ||| c as u32 == 0x1680
    ||| (0x2000 <= c as u32 <= 0x200a)
    ||| c as u32 == 0x2028
    ||| c as u32 == 0x2029
    ||| c as u32 == 0x202f
    ||| c as u32 == 0x205f
    ||| c as u32 == 0x3000
}

/// `char::is_whitespace`: the characters with the Unicode `White_Space`
/// property.
pub(crate) fn char_is_whitespace(c: char) -> (r: bool)
    ensures
        r == is_white_space(c),
{
    let u = c as u32;
    (9 <= u && u <= 13) || u == 32 || u == 0x85 || u == 0xa0 || u == 0x1680 || (0x2000 <= u && u
        <= 0x200a) || u == 0x2028 || u == 0x2029 || u == 0x202f || u == 0x205f || u == 0x3000
}

/// Number of leading white-space characters of `s`.
pub open spec fn lead_ws(s: Seq<char>) -> nat
    decreases s.len(),
{
    if s.len() > 0 && is_white_space(s[0]) {
        1 + lead_ws(s.drop_first())
    } else {
        0
    }
}

/// Number of trailing white-space characters of `s`.
pub open spec fn trail_ws(s: Seq<char>) -> nat
    decreases s.len(),
{
    if s.len() > 0 && is_white_space(s.last()) {
        1 + trail_ws(s.drop_last())
    } else {
        0
    }
}

/// `str::trim_start`.
pub open spec fn trim_start(s: Seq<char>) -> Seq<char> {
    s.skip(lead_ws(s) as int)
}

/// `str::trim_end`.
pub open spec fn trim_end(s: Seq<char>) -> Seq<char> {
    s.take(s.len() - trail_ws(s))
}

/// `str::trim`.
pub open spec fn trim(s: Seq<char>) -> Seq<char> {
    trim_end(trim_start(s))
}

pub proof fn lemma_lead_ws(s: Seq<char>)
    ensures
        lead_ws(s) <= s.len(),
        forall|i: int| 0 <= i < lead_ws(s) ==> is_white_space(#[trigger] s[i]),
        lead_ws(s) < s.len() ==> !is_white_space(s[lead_ws(s) as int]),
    decreases s.len(),
{
    if s.len() > 0 && is_white_space(s[0]) {
        lemma_lead_ws(s.drop_first());
        assert forall|i: int| 0 <= i < lead_ws(s) implies is_white_space(#[trigger] s[i]) by {
            if i > 0 {
                assert(s[i] == s.drop_first()[i - 1]);
            }
        }
    }
}

pub proof fn lemma_trail_ws(s: Seq<char>)
    ensures
        trail_ws(s) <= s.len(),
        forall|i: int| s.len() - trail_ws(s) <= i < s.len() ==> is_white_space(#[trigger] s[i]),
        trail_ws(s) < s.len() ==> !is_white_space(s[s.len() - trail_ws(s) - 1]),
    decreases s.len(),
{
    if s.len() > 0 && is_white_space(s.last()) {
        lemma_trail_ws(s.drop_last());
        assert forall|i: int| s.len() - trail_ws(s) <= i < s.len() implies is_white_space(
            #[trigger] s[i],
        ) by {
            if i < s.len() - 1 {
                assert(s[i] == s.drop_last()[i]);
            }
        }
    }
}

/// Trimming twice is trimming once.
pub proof fn lemma_trim_idempotent(s: Seq<char>)
    ensures
        trim(trim(s)) == trim(s),
{
    let u = trim_start(s);
    lemma_lead_ws(s);
    lemma_trail_ws(u);
    let t = trim(s);
    if t.len() > 0 {
        assert(t[0] == u[0]);
        assert(t.last() == u[u.len() - trail_ws(u) - 1]);
    }
    assert(lead_ws(t) == 0);
    assert(trim_start(t) =~= t);
    assert(trail_ws(t) == 0);
    assert(trim_end(t) =~= t);
}

/// Offset of the first non-white-space character at or after `i`.
pub fn skip_white_space(s: &[char], i: usize) -> (r: usize)
    requires
        i <= s@.len(),
    ensures
        i <= r <= s@.len(),
        r == i + lead_ws(s@.skip(i as int)),
{
    let mut k = i;
    while k < s.len() && char_is_whitespace(s[k])
        invariant
            i <= k <= s@.len(),
            k + lead_ws(s@.skip(k as int)) == i + lead_ws(s@.skip(i as int)),
        decreases s@.len() - k,
    {
        proof {
            assert(s@.skip(k as int).drop_first() == s@.skip(k + 1));
        }
        k = k + 1;
    }
    k
}

/// Offset just past the last non-white-space character of `s[i..j]`.
pub fn back_white_space(s: &[char], i: usize, j: usize) -> (r: usize)
    requires
        i <= j <= s@.len(),
    ensures
        i <= r <= j,
        r == j - trail_ws(s@.subrange(i as int, j as int)),
{
    let mut k = j;
    while k > i && char_is_whitespace(s[k - 1])
        invariant
            i <= k <= j <= s@.len(),
            k - trail_ws(s@.subrange(i as int, k as int)) == j - trail_ws(
                s@.subrange(i as int, j as int),
            ),
        decreases k,
    {
        proof {
            assert(s@.subrange(i as int, k as int).drop_last() == s@.subrange(i as int, k - 1));
        }
        k = k - 1;
    }
    k
}

/// The span `[a, b)` of `s[i..j]` that `trim` keeps.
pub fn trim_span(s: &[char], i: usize, j: usize) -> (r: (usize, usize))
    requires
        i <= j <= s@.len(),
    ensures
        i <= r.0 <= r.1 <= j,
        s@.subrange(r.0 as int, r.1 as int) == trim(s@.subrange(i as int, j as int)),
{
    let a0 = skip_white_space(s, i);
    proof {
        lemma_lead_ws(s@.skip(i as int));
        lemma_lead_ws(s@.subrange(i as int, j as int));
    }
    let a = if a0 > j { j } else { a0 };
    proof {
        let t = s@.subrange(i as int, j as int);
        let u = s@.skip(i as int);
        // the leading run of t equals that of u, truncated at j
        assert(lead_ws(t) == a - i) by {
            lemma_lead_ws_prefix(u, (j - i) as int);
            assert(u.take((j - i) as int) == t);
        }
    }
    let b = back_white_space(s, a, j);
    proof {
        let t = s@.subrange(i as int, j as int);
        assert(trim_start(t) == s@.subrange(a as int, j as int));
    }
    (a, b)
}

/// The leading white-space run of a prefix is the run of the whole, capped.
pub proof fn lemma_lead_ws_prefix(u: Seq<char>, n: int)
    requires
        0 <= n <= u.len(),
    ensures
        lead_ws(u.take(n)) == if lead_ws(u) < n { lead_ws(u) } else { n as nat },
    decreases n,
{
    if n > 0 && is_white_space(u[0]) {
        lemma_lead_ws_prefix(u.drop_first(), n - 1);
        assert(u.take(n).drop_first() == u.drop_first().take(n - 1));
    }
}

/// `char::is_ascii_hexdigit`.
pub open spec fn is_hex_char(c: char) -> bool {
    ('0' <= c <= '9') || ('a' <= c <= 'f') || ('A' <= c <= 'F')
}

/// `char::to_ascii_lowercase`.
pub open spec fn ascii_lower(c: char) -> char {
    if 'A' <= c <= 'Z' {
        ((c as u32) + 32) as char
    } else {
        c
    }
}

/// `char::to_ascii_lowercase`.
pub(crate) fn char_to_ascii_lowercase(c: char) -> (r: char)
    ensures
        r == ascii_lower(c),
{
    match c {
        'A' => 'a', 'B' => 'b', 'C' => 'c', 'D' => 'd', 'E' => 'e', 'F' => 'f', 'G' => 'g',
        'H' => 'h', 'I' => 'i', 'J' => 'j', 'K' => 'k', 'L' => 'l', 'M' => 'm', 'N' => 'n',
        'O' => 'o', 'P' => 'p', 'Q' => 'q', 'R' => 'r', 'S' => 's', 'T' => 't', 'U' => 'u',
        'V' => 'v', 'W' => 'w', 'X' => 'x', 'Y' => 'y', 'Z' => 'z',
        _ => c,
    }
}

/// Whether `v[i..]` begins with the characters of `lit`.
pub fn has_prefix_at(v: &[char], i: usize, lit: &str) -> (r: bool)
    requires
        i <= v@.len(),
    ensures
        r == (i + lit@.len() <= v@.len() && v@.subrange(i as int, i + lit@.len()) == lit@),
{
    let l = chars_of(lit);
    let n = v.len();
    if l.len() > n - i {
        return false;
    }
    let mut k: usize = 0;
    while k < l.len()
        invariant
            n == v@.len(),
            l@ == lit@,
            i <= v@.len(),
            i + l@.len() <= v@.len(),
            k <= l@.len(),
            forall|m: int| 0 <= m < k ==> v@[i + m] == l@[m],
        decreases l@.len() - k,
    {
        if v[i + k] != l[k] {
            proof {
                assert(v@.subrange(i as int, i + lit@.len())[k as int] != lit@[k as int]);
            }
            return false;
        }
        k = k + 1;
    }
    proof {
        assert(v@.subrange(i as int, i + lit@.len()) == lit@);
    }
    true
}

/// A `String` holding `v[a..b]`.
pub fn string_of_span(v: &[char], a: usize, b: usize) -> (r: String)
    requires
        a <= b <= v@.len(),
    ensures
        r@ == v@.subrange(a as int, b as int),
{
    let mut out = String::new();
    let mut i = a;
    while i < b
        invariant
            a <= i <= b <= v@.len(),
            out@ == v@.subrange(a as int, i as int),
        decreases b - i,
    {
        string_push(&mut out, v[i]);
        i = i + 1;
        proof {
            assert(out@ == v@.subrange(a as int, i as int));
        }
    }
    out
}

/// `lit` followed by `s`, as a new `String`.
pub fn concat_str(lit: &str, s: &str) -> (r: String)
    ensures
        r@ == lit@ + s@,
{
    let mut out = owned(lit);
    out.append(s);
    out
}

/// Decimal digits of a natural number.
pub open spec fn decimal(n: nat) -> Seq<char>
    decreases n,
{
    if n < 10 {
        seq![digit_char(n)]
    } else {
        decimal(n / 10).push(digit_char(n % 10))
    }
}

pub open spec fn digit_char(d: nat) -> char {
    if d == 0 { '0' } else if d == 1 { '1' } else if d == 2 { '2' } else if d == 3 { '3' }
    else if d == 4 { '4' } else if d == 5 { '5' } else if d == 6 { '6' } else if d == 7 { '7' }
    else if d == 8 { '8' } else { '9' }
}

fn digit_of(d: u64) -> (c: char)
    requires
        d < 10,
    ensures
        c == digit_char(d as nat),
{
    if d == 0 { '0' } else if d == 1 { '1' } else if d == 2 { '2' } else if d == 3 { '3' }
    else if d == 4 { '4' } else if d == 5 { '5' } else if d == 6 { '6' } else if d == 7 { '7' }
    else if d == 8 { '8' } else { '9' }
}

/// The decimal text of `n` (`n.to_string()`).
pub fn u64_to_decimal(n: u64) -> (r: String)
    ensures
        r@ == decimal(n as nat),
    decreases n,
{
    if n < 10 {
        let mut out = String::new();
        string_push(&mut out, digit_of(n));
        proof {
            assert(out@ == seq![digit_char(n as nat)]);
        }
        out
    } else {
        let mut out = u64_to_decimal(n / 10);
        string_push(&mut out, digit_of(n % 10));
        out
    }
}

/// Whether `wanted` is one of `items`.
pub fn listed(items: &Vec<String>, wanted: &String) -> (r: bool)
    ensures
        r == string_views(items@).contains(wanted@),
{
    let mut i: usize = 0;
    while i < items.len()
        invariant
            i <= items@.len(),
            forall|k: int| 0 <= k < i ==> items@[k]@ != wanted@,
        decreases items@.len() - i,
    {
        if items[i] == *wanted {
            proof {
                assert(string_views(items@)[i as int] == wanted@);
            }
            return true;
        }
        i = i + 1;
    }
    proof {
        if string_views(items@).contains(wanted@) {
            let k = choose|k: int| 0 <= k < string_views(items@).len() && string_views(items@)[k] == wanted@;
            assert(items@[k]@ == wanted@);
        }
    }
    false
}

} // verus!
