//! Package specifiers: `@scope/name@version` splitting and version-range
//! prefix stripping.

use vstd::prelude::*;
use vstd::string::StringSliceAdditionalSpecFns;
use vstd::utf8::*;
use crate::text::{
    find_from, find_byte_from, lemma_find_from_facts, lemma_rfind_before_facts, is_cut, lemma_cut_after_ascii, lemma_cut_at_start, lemma_str_valid,
    owned, rfind_before, rfind_byte_before, str_span, AT, CARET, EQ, GT, TILDE,
};

verus! {

/// Remove every leading copy of the non-empty byte string `p` from `s`.
pub open spec fn strip_all(s: Seq<u8>, p: Seq<u8>) -> Seq<u8>
    decreases s.len(),
{
    if p.len() > 0 && s.len() >= p.len() && s.subrange(0, p.len() as int) == p {
        strip_all(s.subrange(p.len() as int, s.len() as int), p)
    } else {
        s
    }
}

/// What `strip_semver_range_prefix` leaves: all leading `^`, then all
/// leading `~`, then all leading `>=`.
pub open spec fn spec_strip_range_prefix(s: Seq<u8>) -> Seq<u8> {
    strip_all(strip_all(strip_all(s, seq![CARET]), seq![TILDE]), seq![GT, EQ])
}

proof fn lemma_strip_step(s: Seq<u8>, p: Seq<u8>, k: int)
    requires
        p.len() > 0,
        0 <= k,
        k + p.len() <= s.len(),
        s.subrange(k, k + p.len()) == p,
    ensures
        strip_all(s.subrange(k, s.len() as int), p) == strip_all(
            s.subrange(k + p.len(), s.len() as int),
            p,
        ),
{
    let t = s.subrange(k, s.len() as int);
    assert(t.subrange(0, p.len() as int) == s.subrange(k, k + p.len()));
    assert(t.subrange(p.len() as int, t.len() as int) == s.subrange(k + p.len(), s.len() as int));
}

/// Skip all copies of `x` starting at `k`; the result is a suffix offset.
fn skip_all_byte(b: &[u8], k: usize, x: u8) -> (r: usize)
    requires
        k <= b@.len(),
    ensures
        k <= r <= b@.len(),
        b@.subrange(r as int, b@.len() as int) == strip_all(
            b@.subrange(k as int, b@.len() as int),
            seq![x],
        ),
        r > k ==> b@[r - 1] == x,
{
    let mut i = k;
    while i < b.len() && b[i] == x
        invariant
            k <= i <= b@.len(),
            strip_all(b@.subrange(i as int, b@.len() as int), seq![x]) == strip_all(
                b@.subrange(k as int, b@.len() as int),
                seq![x],
            ),
            i > k ==> b@[i - 1] == x,
        decreases b@.len() - i,
    {
        proof {
            assert(b@.subrange(i as int, i + 1) == seq![x]);
            lemma_strip_step(b@, seq![x], i as int);
        }
        i = i + 1;
    }
    proof {
        let t = b@.subrange(i as int, b@.len() as int);
        if t.len() >= 1 {
            assert(t.subrange(0, 1) != seq![x]) by {
                assert(t.subrange(0, 1)[0] == b@[i as int]);
            }
        }
    }
    i
}

fn skip_all_ge(b: &[u8], k: usize) -> (r: usize)
    requires
        k <= b@.len(),
    ensures
        k <= r <= b@.len(),
        b@.subrange(r as int, b@.len() as int) == strip_all(
            b@.subrange(k as int, b@.len() as int),
            seq![GT, EQ],
        ),
        r > k ==> b@[r - 1] == EQ,
{
    let mut i = k;
    while i < b.len() && i + 1 < b.len() && b[i] == GT && b[i + 1] == EQ
        invariant
            k <= i <= b@.len(),
            strip_all(b@.subrange(i as int, b@.len() as int), seq![GT, EQ]) == strip_all(
                b@.subrange(k as int, b@.len() as int),
                seq![GT, EQ],
            ),
            i > k ==> b@[i - 1] == EQ,
        decreases b@.len() - i,
    {
        proof {
            assert(b@.subrange(i as int, i + 2) == seq![GT, EQ]);
            lemma_strip_step(b@, seq![GT, EQ], i as int);
        }
        i = i + 2;
    }
    proof {
        let t = b@.subrange(i as int, b@.len() as int);
        if t.len() >= 2 {
            assert(t.subrange(0, 2) != seq![GT, EQ]) by {
                assert(t.subrange(0, 2)[0] == b@[i as int]);
                assert(t.subrange(0, 2)[1] == b@[i + 1]);
            }
        }
    }
    i
}

/// Strip a leading semver-range operator (`^`, `~`, `>=`) from a dependency
/// version string, leaving the base version to be matched literally.
pub fn strip_semver_range_prefix(version: &str) -> (r: &str)
    ensures
        r.spec_bytes() == spec_strip_range_prefix(version.spec_bytes()),
{
    let b = version.as_bytes();
    proof {
        assert(b@.subrange(0, b@.len() as int) == b@);
    }
    let k1 = skip_all_byte(b, 0, CARET);
    let k2 = skip_all_byte(b, k1, TILDE);
    let k3 = skip_all_ge(b, k2);
    proof {
        lemma_str_valid(version);
        if k3 == 0 {
            lemma_cut_at_start(b@);
        } else {
            lemma_cut_after_ascii(b@, k3 as int);
        }
        assert(is_cut(b@, b@.len() as int));
        assert(b@.subrange(k3 as int, b@.len() as int) == spec_strip_range_prefix(b@));
    }
    str_span(version, k3, b.len())
}

/// Where a package specifier splits into name and version: for a scoped
/// `@scope/name@version` the first `@` after the leading one, otherwise the
/// last `@` (which must not be the first byte).
pub open spec fn spec_spec_split(s: Seq<u8>) -> Option<int> {
    if s.len() > 0 && s[0] == AT {
        find_from(s, AT, 1)
    } else {
        match rfind_before(s, AT, s.len() as int) {
            Some(j) => if j > 0 { Some(j) } else { None },
            None => None,
        }
    }
}

/// Split `name@version` (or `@scope/name@version`) into its name and
/// optional version.
pub fn parse_package_spec(spec: &str) -> (r: (String, Option<String>))
    ensures
        match spec_spec_split(spec.spec_bytes()) {
            Some(j) => {
                &&& encode_utf8(r.0@) == spec.spec_bytes().subrange(0, j)
                &&& r.1 is Some
                &&& encode_utf8(r.1.unwrap()@) == spec.spec_bytes().subrange(
                    j + 1,
                    spec.spec_bytes().len() as int,
                )
            },
            None => r.0@ == spec@ && r.1 is None,
        },
{
    let b = spec.as_bytes();
    proof {
        lemma_find_from_facts(b@, AT, 1);
        lemma_rfind_before_facts(b@, AT, b@.len() as int);
    }
    let split: Option<usize> = if b.len() > 0 && b[0] == AT {
        let f = find_byte_from(b, AT, 1);
        assert(spec_spec_split(b@) == find_from(b@, AT, 1));
        f
    } else {
        let f = rfind_byte_before(b, AT, b.len());
        match f {
            Some(j) => if j > 0 {
                Some(j)
            } else {
                None
            },
            None => None,
        }
    };
    assert(split == (match spec_spec_split(b@) {
        Some(j) => Some(j as usize),
        None => None::<usize>,
    }));
    proof {
        lemma_find_from_facts(b@, AT, 1);
        lemma_rfind_before_facts(b@, AT, b@.len() as int);
    }
    match split {
        Some(j) => {
            proof {
                lemma_str_valid(spec);
                lemma_cut_after_ascii(b@, j + 1);
                assert(is_cut(b@, j as int));
                assert(is_cut(b@, b@.len() as int));
                lemma_cut_at_start(b@);
            }
            let name = owned(str_span(spec, 0, j));
            let version = owned(str_span(spec, j + 1, b.len()));
            (name, Some(version))
        },
        None => (owned(spec), None),
    }
}


/// A scoped `@scope/name@version` specifier splits right after the name.
pub proof fn law_scoped_spec_splits_after_name(name: Seq<u8>, version: Seq<u8>)
    requires
        name.len() > 0,
        name[0] == AT,
        forall|i: int| 1 <= i < name.len() ==> #[trigger] name[i] != AT,
    ensures
        spec_spec_split(name + seq![AT] + version) == Some(name.len() as int),
{
    let s = name + seq![AT] + version;
    assert(s[0] == AT);
    lemma_find_from_facts(s, AT, 1);
    assert(s[name.len() as int] == AT);
    assert forall|k: int| 1 <= k < name.len() implies s[k] != AT by {
        assert(s[k] == name[k]);
    }
    match find_from(s, AT, 1) {
        Some(j) => {
            if j < name.len() {
                assert(s[j] == name[j]);
            }
        },
        None => {},
    }
}


/// A specifier splits exactly when an `@` follows its first byte; putting
/// name, `@` and version back together gives the specifier again; the name
/// is never empty; a scoped name holds no further `@`, and otherwise the
/// version holds none.
pub proof fn law_package_spec_round_trip(s: Seq<u8>)
    ensures
        spec_spec_split(s) is Some <==> exists|k: int| 1 <= k < s.len() && s[k] == AT,
        spec_spec_split(s) matches Some(j) ==> {
            &&& 0 < j < s.len()
            &&& s.subrange(0, j) + seq![AT] + s.subrange(j + 1, s.len() as int) == s
            &&& s[0] == AT ==> forall|k: int| 1 <= k < j ==> s[k] != AT
            &&& s[0] != AT ==> forall|k: int| j < k < s.len() ==> s[k] != AT
        },
{
    lemma_find_from_facts(s, AT, 1);
    lemma_rfind_before_facts(s, AT, s.len() as int);
    if let Some(j) = spec_spec_split(s) {
        assert(s.subrange(0, j) + seq![AT] + s.subrange(j + 1, s.len() as int) =~= s);
    }
    if spec_spec_split(s) is None {
        if s.len() > 0 && s[0] != AT {
            if let Some(j) = rfind_before(s, AT, s.len() as int) {
                assert(j == 0);
            }
        }
    }
}

proof fn lemma_encode_utf8_concat(a: Seq<char>, b: Seq<char>)
    ensures
        encode_utf8(a + b) == encode_utf8(a) + encode_utf8(b),
    decreases a.len(),
{
    if a.len() > 0 {
        lemma_encode_utf8_concat(a.drop_first(), b);
        assert((a + b).drop_first() =~= a.drop_first() + b);
        assert((a + b)[0] == a[0]);
        assert(encode_utf8(a + b) =~= encode_scalar(a[0] as u32) + (encode_utf8(a.drop_first())
            + encode_utf8(b)));
    } else {
        assert(a + b =~= b);
    }
}

/// A specifier that splits gives back the specifier, as text, when its
/// name, an `@` and its version are put together again (`name` and
/// `version` being the texts whose UTF-8 bytes are the two sides of the
/// split, as [`parse_package_spec`] returns them).
pub proof fn law_package_spec_rejoins(spec: Seq<char>, name: Seq<char>, version: Seq<char>)
    requires
        spec_spec_split(encode_utf8(spec)) is Some,
        encode_utf8(name) == encode_utf8(spec).subrange(0, spec_spec_split(encode_utf8(spec))->0),
        encode_utf8(version) == encode_utf8(spec).subrange(
            spec_spec_split(encode_utf8(spec))->0 + 1,
            encode_utf8(spec).len() as int,
        ),
    ensures
        name + seq!['@'] + version == spec,
{
    let b = encode_utf8(spec);
    let j = spec_spec_split(b)->0;
    law_package_spec_round_trip(b);
    lemma_encode_utf8_concat(name, seq!['@']);
    lemma_encode_utf8_concat(name + seq!['@'], version);
    assert(('@' as u32) == 64u32);
    assert(leading_byte_width_1(64u32) == 64u8) by (bit_vector);
    assert(encode_utf8(seq!['@']) =~= encode_scalar('@' as u32) + encode_utf8(seq!['@'].drop_first()));
    assert(encode_utf8(seq!['@']) =~= seq![AT]);
    assert(encode_utf8(name + seq!['@'] + version) =~= b);
    encode_utf8_decode_utf8(name + seq!['@'] + version);
    encode_utf8_decode_utf8(spec);
}

} // verus!
