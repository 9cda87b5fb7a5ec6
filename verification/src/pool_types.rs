//! Request, configuration and observability types of the isolate pool, and
//! the small pure helpers that go with them.

use vstd::prelude::*;
use crate::text::{chars_of, owned, string_of_span};

verus! {

/// Unique identifier for a handler (routes to a consistent worker).
#[derive(Clone, Debug)]
pub struct HandlerKey {
    pub name: String,
}

impl HandlerKey {
    pub fn new(name: &str) -> (r: Self)
        ensures
            r.name@ == name@,
    {
        HandlerKey { name: owned(name) }
    }
}

/// Per-execution security policy. An empty policy means the dispatch path
/// failed to supply one; enforcement then fails closed.
#[derive(Clone, Debug)]
pub struct ExecutionSecurity {
    pub policy_json: String,
    pub no_prompt: bool,
}

impl Default for ExecutionSecurity {
    fn default() -> (r: Self)
        ensures
            r.policy_json@.len() == 0,
            !r.no_prompt,
    {
        ExecutionSecurity { policy_json: String::new(), no_prompt: false }
    }
}

/// HTTP request parts handed to a handler.
#[derive(Clone)]
pub struct RequestParts {
    pub url: String,
    pub method: String,
    pub headers: Vec<(String, String)>,
    pub body: Option<String>,
}

/// How a handler entry is executed.
#[derive(Clone, Copy, PartialEq, Eq, Structural)]
pub enum ExecutionMode {
    Request,
    /// A generated static-render entry, without request globals.
    StaticRender,
    /// A compiler-generated build entry, without request globals.
    Build,
    Module,
}

impl Default for ExecutionMode {
    fn default() -> (r: Self)
        ensures
            r == ExecutionMode::Request,
    {
        ExecutionMode::Request
    }
}

/// Scheduler strategy for routing requests to workers.
#[derive(Debug, Clone, Copy, PartialEq, Eq, Structural)]
pub enum SchedulerStrategy {
    ConsistentHash,
    LeastLoaded,
}

/// Sort criteria for isolate listing.
#[derive(Debug, Clone, Copy, PartialEq, Eq, Structural)]
pub enum SortBy {
    Cpu,
    Memory,
    Requests,
}

/// State of a request for observability.
#[derive(Debug, Clone)]
pub enum RequestState {
    Executing,
    Completed { duration_ms: u64 },
    Failed { error: String, duration_ms: u64 },
    QueueTimeout { waited_ms: u64 },
}

/// Maximum number of request traces a worker keeps.
pub const REQUEST_HISTORY_LIMIT: usize = 200;

/// Where the first `DekaExit:` marker of a message ends, if any.
pub open spec fn exit_marker_end(m: Seq<char>) -> Option<int> {
    let k = "DekaExit:"@;
    if exists|i: int| 0 <= i && i + k.len() <= m.len() && #[trigger] m.subrange(i, i + k.len()) == k {
        let i = choose|i: int|
            0 <= i && i + k.len() <= m.len() && #[trigger] m.subrange(i, i + k.len()) == k && forall|j: int|
                0 <= j < i ==> #[trigger] m.subrange(j, j + k.len()) != k;
        Some(i + k.len())
    } else {
        None
    }
}

/// Length of the run of digits and `-` at the start of `s`.
pub open spec fn digit_run(s: Seq<char>) -> nat
    decreases s.len(),
{
    if s.len() > 0 && (('0' <= s[0] <= '9') || s[0] == '-') {
        1 + digit_run(s.drop_first())
    } else {
        0
    }
}

/// Value of a string of decimal digits.
pub open spec fn decimal_value(s: Seq<char>) -> int
    decreases s.len(),
{
    if s.len() == 0 {
        0
    } else {
        decimal_value(s.drop_last()) * 10 + (s.last() as int - '0' as int)
    }
}

/// Every character is an ASCII digit.
pub open spec fn all_digits(s: Seq<char>) -> bool {
    forall|i: int| 0 <= i < s.len() ==> '0' <= #[trigger] s[i] <= '9'
}

/// `i64::from_str` on a string of digits and `-`: an optional leading `-`
/// followed by at least one digit, in range.
pub open spec fn i64_from_digits(s: Seq<char>) -> Option<i64> {
    let neg = s.len() > 0 && s[0] == '-';
    let body = if neg { s.drop_first() } else { s };
    if body.len() == 0 || !all_digits(body) {
        None
    } else {
        let v = if neg { -decimal_value(body) } else { decimal_value(body) };
        if i64::MIN <= v <= i64::MAX {
            Some(v as i64)
        } else {
            None
        }
    }
}

/// The exit code a `DekaExit:<code>` marker in an error message carries.
pub open spec fn spec_exit_code(m: Seq<char>) -> Option<i64> {
    match exit_marker_end(m) {
        Some(e) => {
            let tail = m.skip(e);
            let digits = tail.take(digit_run(tail) as int);
            if digits.len() == 0 {
                None
            } else {
                i64_from_digits(digits)
            }
        },
        None => None,
    }
}

proof fn lemma_digit_run(s: Seq<char>)
    ensures
        digit_run(s) <= s.len(),
        forall|i: int| 0 <= i < digit_run(s) ==> ('0' <= #[trigger] s[i] <= '9') || s[i] == '-',
        digit_run(s) < s.len() ==> !(('0' <= s[digit_run(s) as int] <= '9') || s[digit_run(
            s,
        ) as int] == '-'),
    decreases s.len(),
{
    if s.len() > 0 && (('0' <= s[0] <= '9') || s[0] == '-') {
        lemma_digit_run(s.drop_first());
        assert forall|i: int| 0 <= i < digit_run(s) implies ('0' <= #[trigger] s[i] <= '9') || s[i]
            == '-' by {
            if i > 0 {
                assert(s[i] == s.drop_first()[i - 1]);
            }
        }
    }
}

fn find_lit(v: &[char], lit: &str) -> (r: Option<usize>)
    ensures
        r matches Some(i) ==> i + lit@.len() <= v@.len() && v@.subrange(i as int, i + lit@.len())
            == lit@ && forall|j: int|
            0 <= j < i ==> #[trigger] v@.subrange(j, j + lit@.len()) != lit@,
        r is None ==> forall|j: int|
            0 <= j && j + lit@.len() <= v@.len() ==> #[trigger] v@.subrange(j, j + lit@.len())
                != lit@,
{
    let l = chars_of(lit);
    let n = v.len();
    if l.len() > n {
        proof {
            assert forall|j: int| 0 <= j && j + lit@.len() <= v@.len() implies #[trigger] v@.subrange(
                j,
                j + lit@.len(),
            ) != lit@ by {}
        }
        return None;
    }
    let m = n - l.len();
    let mut i: usize = 0;
    while i < m
        invariant
            n == v@.len(),
            l@.len() <= n,
            m == n - l@.len(),
            i <= m,
            l@ == lit@,
            forall|j: int| 0 <= j < i ==> #[trigger] v@.subrange(j, j + lit@.len()) != lit@,
        decreases m - i,
    {
        if crate::text::has_prefix_at(v, i, lit) {
            return Some(i);
        }
        i = i + 1;
    }
    if crate::text::has_prefix_at(v, m, lit) {
        return Some(m);
    }
    proof {
        assert forall|j: int| 0 <= j && j + lit@.len() <= v@.len() implies #[trigger] v@.subrange(
            j,
            j + lit@.len(),
        ) != lit@ by {
            if j != m as int {
                assert(j < i);
            }
        }
    }
    None
}

/// Parse the exit code from a `DekaExit:<code>` marker in an error message:
/// the run of digits and `-` right after the first marker, read as an `i64`.
pub fn parse_exit_code(message: &str) -> (r: Option<i64>)
    ensures
        r == spec_exit_code(message@),
{
    let v = chars_of(message);
    proof {
        reveal_strlit("DekaExit:");
    }
    let found = find_lit(&v, "DekaExit:");
    let n = v.len();
    let start = match found {
        Some(i) => i + 9,
        None => {
            return None;
        },
    };
    proof {
        let k = "DekaExit:"@;
        let w = choose|i: int|
            0 <= i && i + k.len() <= v@.len() && #[trigger] v@.subrange(i, i + k.len()) == k && forall|j: int|
                0 <= j < i ==> #[trigger] v@.subrange(j, j + k.len()) != k;
        let f = start - 9;
        assert(w == f) by {
            if w < f {
                assert(v@.subrange(w, w + k.len()) != k);
            } else if w > f {
                assert(v@.subrange(f, f + k.len()) != k);
            }
        }
    }
    let mut end = start;
    while end < v.len() && (('0' <= v[end] && v[end] <= '9') || v[end] == '-')
        invariant
            start <= end <= v@.len(),
            forall|i: int| start <= i < end ==> ('0' <= #[trigger] v@[i] <= '9') || v@[i] == '-',
        decreases v@.len() - end,
    {
        end = end + 1;
    }
    proof {
        let tail = v@.skip(start as int);
        lemma_digit_run(tail);
        assert(digit_run(tail) == end - start) by {
            if digit_run(tail) < end - start {
                assert(tail[digit_run(tail) as int] == v@[start + digit_run(tail)]);
            } else if digit_run(tail) > end - start {
                assert(tail[end - start] == v@[end as int]);
            }
        }
        assert(tail.take(digit_run(tail) as int) == v@.subrange(start as int, end as int));
    }
    if end == start {
        return None;
    }
    parse_i64_digits(&v, start, end)
}

/// `i64::from_str` restricted to a span of digits and `-`.
fn parse_i64_digits(v: &[char], a: usize, b: usize) -> (r: Option<i64>)
    requires
        a < b <= v@.len(),
        forall|i: int| a <= i < b ==> ('0' <= #[trigger] v@[i] <= '9') || v@[i] == '-',
    ensures
        r == i64_from_digits(v@.subrange(a as int, b as int)),
{
    let s = Ghost(v@.subrange(a as int, b as int));
    let neg = v[a] == '-';
    let start = if neg { a + 1 } else { a };
    proof {
        assert(s@[0] == v@[a as int]);
    }
    let body = Ghost(v@.subrange(start as int, b as int));
    proof {
        if neg {
            assert(s@.drop_first() =~= body@);
        } else {
            assert(s@ =~= body@);
        }
    }
    if start == b {
        return None;
    }
    let mut i = start;
    while i < b
        invariant
            start <= i <= b <= v@.len(),
            a <= start,
            s@ == v@.subrange(a as int, b as int),
            body@ == (if neg { s@.drop_first() } else { s@ }),
            neg == (s@.len() > 0 && s@[0] == '-'),
            neg ==> start == a + 1,
            !neg ==> start == a,
            forall|k: int| a <= k < b ==> ('0' <= #[trigger] v@[k] <= '9') || v@[k] == '-',
            body@ == v@.subrange(start as int, b as int),
            forall|k: int| start <= k < i ==> '0' <= #[trigger] v@[k] <= '9',
        decreases b - i,
    {
        if v[i] == '-' {
            proof {
                assert(body@[i - start] == v@[i as int]);
                assert(!('0' <= body@[i - start] <= '9'));
                let sb = if neg { s@.drop_first() } else { s@ };
                assert(sb == body@);
                assert(!all_digits(sb));
            }
            return None;
        }
        i = i + 1;
    }
    proof {
        assert(forall|k: int| 0 <= k < body@.len() ==> '0' <= #[trigger] body@[k] <= '9') by {
            assert forall|k: int| 0 <= k < body@.len() implies '0' <= #[trigger] body@[k] <= '9' by {
                assert(body@[k] == v@[start + k]);
            }
        }
    }
    let mut acc: i128 = 0;
    let mut j = start;
    while j < b
        invariant
            start <= j <= b <= v@.len(),
            forall|k: int| start <= k < b ==> '0' <= #[trigger] v@[k] <= '9',
            body@ == v@.subrange(start as int, b as int),
            s@ == v@.subrange(a as int, b as int),
            body@ == (if neg { s@.drop_first() } else { s@ }),
            neg == (s@.len() > 0 && s@[0] == '-'),
            body@.len() > 0,
            acc == decimal_value(v@.subrange(start as int, j as int)),
            0 <= acc <= 0x8000_0000_0000_0000,
        decreases b - j,
    {
        let d = (v[j] as u32 - '0' as u32) as i128;
        proof {
            assert(v@.subrange(start as int, j + 1).drop_last() =~= v@.subrange(start as int, j as int));
            assert(v@.subrange(start as int, j + 1).last() == v@[j as int]);
        }
        let next = acc * 10 + d;
        if next > 0x8000_0000_0000_0000 {
            proof {
                lemma_decimal_monotone(body@, (j - start + 1) as int);
                assert(body@.take((j - start + 1) as int) =~= v@.subrange(start as int, j + 1));
                assert(forall|k: int| 0 <= k < body@.len() ==> '0' <= #[trigger] body@[k] <= '9') by {
                    assert forall|k: int| 0 <= k < body@.len() implies '0' <= #[trigger] body@[k] <= '9' by {
                        assert(body@[k] == v@[start + k]);
                    }
                }
            }
            return None;
        }
        acc = next;
        j = j + 1;
    }
    proof {
        assert(v@.subrange(start as int, b as int) == body@);
    }
    if neg {
        Some((0 - acc) as i64)
    } else if acc > 0x7fff_ffff_ffff_ffff {
        None
    } else {
        Some(acc as i64)
    }
}

/// Adding digits never lowers the decimal value.
proof fn lemma_decimal_monotone(s: Seq<char>, n: int)
    requires
        0 <= n <= s.len(),
        forall|k: int| 0 <= k < s.len() ==> '0' <= #[trigger] s[k] <= '9',
    ensures
        decimal_value(s) >= decimal_value(s.take(n)),
    decreases s.len() - n,
{
    if n < s.len() {
        lemma_decimal_monotone(s, n + 1);
        assert(s.take(n + 1).drop_last() == s.take(n));
        lemma_decimal_nonneg(s.take(n));
        assert(decimal_value(s.take(n + 1)) == decimal_value(s.take(n)) * 10 + (s[n] as int
            - '0' as int));
    } else {
        assert(s.take(n) == s);
    }
}

proof fn lemma_decimal_nonneg(s: Seq<char>)
    requires
        forall|k: int| 0 <= k < s.len() ==> '0' <= #[trigger] s[k] <= '9',
    ensures
        decimal_value(s) >= 0,
    decreases s.len(),
{
    if s.len() > 0 {
        lemma_decimal_nonneg(s.drop_last());
    }
}

/// Wrap a handler body so it sees the host bindings as parameters.
pub fn wrap_with_host_bindings(body: &str) -> (r: String)
    ensures
        r@ == "(function() {\nconst __h = globalThis[Symbol.for('deka.host.internal')];\n(function(__deka_host, __bridge, __bridge_async, __deka_wasm_call, __deka_wasm_call_async, __deka_to_result) {\n"@
            + body@
            + "\n})(__h && __h.host, __h && __h.bridge, __h && __h.bridgeAsync, __h && __h.wasmCall, __h && __h.wasmCallAsync, __h && __h.toResult);\n})();"@,
{
    let mut out = owned(
        "(function() {\nconst __h = globalThis[Symbol.for('deka.host.internal')];\n(function(__deka_host, __bridge, __bridge_async, __deka_wasm_call, __deka_wasm_call_async, __deka_to_result) {\n",
    );
    out.append(body);
    out.append(
        "\n})(__h && __h.host, __h && __h.bridge, __h && __h.bridgeAsync, __h && __h.wasmCall, __h && __h.wasmCallAsync, __h && __h.toResult);\n})();",
    );
    out
}

/// Process-wide description of a compiled copy of a source tree.
#[derive(Clone, Debug)]
pub struct SourceOverrideHint {
    pub compiled_root: String,
    pub original_root: String,
}

/// The slot the source-override hint is installed into: the first install
/// wins, later ones are ignored.
pub struct SourceOverrideSlot {
    pub hint: Option<SourceOverrideHint>,
}

impl SourceOverrideSlot {
    pub fn new() -> (r: Self)
        ensures
            r.hint is None,
    {
        SourceOverrideSlot { hint: None }
    }
}

/// Install the source-override hint; a hint that is already present stays.
pub fn install_source_override_hint(slot: &mut SourceOverrideSlot, hint: SourceOverrideHint)
    ensures
        final(slot).hint == (match old(slot).hint {
            Some(h) => Some(h),
            None => Some(hint),
        }),
{
    if slot.hint.is_none() {
        slot.hint = Some(hint);
    }
}

} // verus!
