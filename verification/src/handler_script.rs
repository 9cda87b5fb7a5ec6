//! The scripts a worker runs in a handler's isolate: how an inline handler
//! is prepared, which call starts each kind of execution, and how a failed
//! script run is reported.

use vstd::prelude::*;
use crate::paths::{replace, replace_all};
use crate::pool_types::{parse_exit_code, spec_exit_code, wrap_with_host_bindings, ExecutionMode};
use crate::text::{chars_of, has_prefix_at, owned, skip_white_space, trim_start};

verus! {

pub open spec fn starts_with_text(s: Seq<char>, p: Seq<char>) -> bool {
    s.len() >= p.len() && s.take(p.len() as int) == p
}

/// A bundler-made handler that already is a self-contained IIFE.
pub open spec fn pre_bundled(code: Seq<char>) -> bool {
    starts_with_text(trim_start(code), "(async function()"@) || starts_with_text(
        trim_start(code),
        "(function()"@,
    )
}

/// Whether the handler code, after leading white space, is an IIFE the
/// bundler produced (`(async function()` or `(function()`), to be run
/// as it is.
pub fn is_pre_bundled_iife(code: &str) -> (r: bool)
    ensures
        r == pre_bundled(code@),
{
    let v = chars_of(code);
    let k = skip_white_space(&v, 0);
    proof {
        assert(v@.skip(0) =~= v@);
        let t = trim_start(code@);
        assert(t =~= v@.skip(k as int));
        assert forall|p: Seq<char>| #![auto] k + p.len() <= v@.len() implies (v@.subrange(
            k as int,
            k + p.len(),
        ) == p <==> t.take(p.len() as int) == p) by {
            assert(v@.subrange(k as int, k + p.len()) =~= t.take(p.len() as int));
        }
    }
    has_prefix_at(&v, k, "(async function()") || has_prefix_at(&v, k, "(function()")
}

/// The module imports an inline handler may use, each replaced by the
/// runtime global that provides it, applied in this order.
pub open spec fn handler_rewrites() -> Seq<(Seq<char>, Seq<char>)> {
    seq![
        ("import { Router, cors, logger, prettyJSON } from 'deka/router'"@, "const { Router, cors, logger, prettyJSON } = globalThis.__dekaRouter;"@),
        ("import { Router, cors, logger, prettyJSON } from \"deka/router\""@, "const { Router, cors, logger, prettyJSON } = globalThis.__dekaRouter;"@),
        ("import { Router } from 'deka/router'"@, "const { Router } = globalThis.__dekaRouter;"@),
        ("import { Router } from \"deka/router\""@, "const { Router } = globalThis.__dekaRouter;"@),
        ("import { Database, Statement } from 'deka/sqlite'"@, "const { Database, Statement } = globalThis.__dekaSqlite;"@),
        ("import { Database, Statement } from \"deka/sqlite\""@, "const { Database, Statement } = globalThis.__dekaSqlite;"@),
        ("import { Database } from 'deka/sqlite'"@, "const { Database } = globalThis.__dekaSqlite;"@),
        ("import { Database } from \"deka/sqlite\""@, "const { Database } = globalThis.__dekaSqlite;"@),
        ("import { t4, T4Client, T4File, write } from 'deka/t4'"@, "const { t4, T4Client, T4File, write } = globalThis.__dekaT4;"@),
        ("import { t4, T4Client, T4File, write } from \"deka/t4\""@, "const { t4, T4Client, T4File, write } = globalThis.__dekaT4;"@),
        ("import { t4 } from 'deka/t4'"@, "const { t4 } = globalThis.__dekaT4;"@),
        ("import { t4 } from \"deka/t4\""@, "const { t4 } = globalThis.__dekaT4;"@),
        ("import { Mesh, IsolatePool, Isolate, serve } from 'deka'"@, "const { Mesh, IsolatePool, Isolate, serve } = globalThis.__deka;"@),
        ("import { Mesh, IsolatePool, Isolate, serve } from \"deka\""@, "const { Mesh, IsolatePool, Isolate, serve } = globalThis.__deka;"@),
        ("export default app"@, "// export default app"@),
        ("export default "@, "const __dekaDefault = "@),
    ]
}

/// `s` with each rewrite applied in turn (every occurrence of its pattern).
pub open spec fn apply_rewrites(s: Seq<char>, rules: Seq<(Seq<char>, Seq<char>)>) -> Seq<char>
    decreases rules.len(),
{
    if rules.len() == 0 {
        s
    } else {
        replace_all(apply_rewrites(s, rules.drop_last()), rules.last().0, rules.last().1)
    }
}

/// What the inline handler leaves in `globalThis.app`: the default export
/// (adapted when it is an Express-style app, served when it is a route
/// table), else an `app` binding.
pub open spec fn app_capture() -> Seq<char> {
    "\nif (typeof globalThis.app === 'undefined') { if (typeof __dekaDefault !== 'undefined') { if (typeof __dekaDefault === 'function' && typeof globalThis.__dekaNodeExpressAdapter === 'function' && (typeof __dekaDefault.handle === 'function' || typeof __dekaDefault.listen === 'function')) { globalThis.app = globalThis.__dekaNodeExpressAdapter(__dekaDefault); } else if (__dekaDefault && typeof __dekaDefault === 'object' && typeof __dekaDefault.fetch === 'function') { globalThis.app = __dekaDefault; } else if (__dekaDefault && typeof __dekaDefault === 'object' && !__dekaDefault.__dekaServer && typeof __dekaDefault.routes === 'object' && globalThis.__deka && typeof globalThis.__deka.serve === 'function') { globalThis.app = globalThis.__deka.serve(__dekaDefault); } else { globalThis.app = __dekaDefault; } } else if (typeof app !== 'undefined') { if (typeof app === 'function' && typeof globalThis.__dekaNodeExpressAdapter === 'function' && (typeof app.handle === 'function' || typeof app.listen === 'function')) { globalThis.app = globalThis.__dekaNodeExpressAdapter(app); } else { globalThis.app = app; } } }"@
}

pub open spec fn host_bound(body: Seq<char>) -> Seq<char> {
    "(function() {\nconst __h = globalThis[Symbol.for('deka.host.internal')];\n(function(__deka_host, __bridge, __bridge_async, __deka_wasm_call, __deka_wasm_call_async, __deka_to_result) {\n"@
        + body
        + "\n})(__h && __h.host, __h && __h.bridge, __h && __h.bridgeAsync, __h && __h.wasmCall, __h && __h.wasmCallAsync, __h && __h.toResult);\n})();"@
}

fn rewrite_table() -> (r: Vec<(String, String)>)
    ensures
        r@.map_values(|p: (String, String)| (p.0@, p.1@)) == handler_rewrites(),
{
    let t = vec![
        (owned("import { Router, cors, logger, prettyJSON } from 'deka/router'"), owned("const { Router, cors, logger, prettyJSON } = globalThis.__dekaRouter;")),
        (owned("import { Router, cors, logger, prettyJSON } from \"deka/router\""), owned("const { Router, cors, logger, prettyJSON } = globalThis.__dekaRouter;")),
        (owned("import { Router } from 'deka/router'"), owned("const { Router } = globalThis.__dekaRouter;")),
        (owned("import { Router } from \"deka/router\""), owned("const { Router } = globalThis.__dekaRouter;")),
        (owned("import { Database, Statement } from 'deka/sqlite'"), owned("const { Database, Statement } = globalThis.__dekaSqlite;")),
        (owned("import { Database, Statement } from \"deka/sqlite\""), owned("const { Database, Statement } = globalThis.__dekaSqlite;")),
        (owned("import { Database } from 'deka/sqlite'"), owned("const { Database } = globalThis.__dekaSqlite;")),
        (owned("import { Database } from \"deka/sqlite\""), owned("const { Database } = globalThis.__dekaSqlite;")),
        (owned("import { t4, T4Client, T4File, write } from 'deka/t4'"), owned("const { t4, T4Client, T4File, write } = globalThis.__dekaT4;")),
        (owned("import { t4, T4Client, T4File, write } from \"deka/t4\""), owned("const { t4, T4Client, T4File, write } = globalThis.__dekaT4;")),
        (owned("import { t4 } from 'deka/t4'"), owned("const { t4 } = globalThis.__dekaT4;")),
        (owned("import { t4 } from \"deka/t4\""), owned("const { t4 } = globalThis.__dekaT4;")),
        (owned("import { Mesh, IsolatePool, Isolate, serve } from 'deka'"), owned("const { Mesh, IsolatePool, Isolate, serve } = globalThis.__deka;")),
        (owned("import { Mesh, IsolatePool, Isolate, serve } from \"deka\""), owned("const { Mesh, IsolatePool, Isolate, serve } = globalThis.__deka;")),
        (owned("export default app"), owned("// export default app")),
        (owned("export default "), owned("const __dekaDefault = ")),
    ];
    proof {
        assert(t@.map_values(|p: (String, String)| (p.0@, p.1@)) =~= handler_rewrites());
    }
    t
}

/// The script an inline (non-module) handler runs as: its runtime imports
/// rewritten to globals, its default export or `app` captured into
/// `globalThis.app`, all with the host dispatchers bound.
pub fn legacy_handler_script(code: &str) -> (r: String)
    ensures
        r@ == host_bound(apply_rewrites(code@, handler_rewrites()) + app_capture()),
{
    let table = rewrite_table();
    let ghost rules = handler_rewrites();
    let mut text = owned(code);
    let mut i: usize = 0;
    while i < table.len()
        invariant
            i <= table@.len(),
            table@.map_values(|p: (String, String)| (p.0@, p.1@)) == rules,
            rules == handler_rewrites(),
            text@ == apply_rewrites(code@, rules.take(i as int)),
        decreases table@.len() - i,
    {
        proof {
            assert(rules.take(i + 1).drop_last() =~= rules.take(i as int));
            assert(rules.take(i + 1).last() == (table@[i as int].0@, table@[i as int].1@));
        }
        text = replace(text.as_str(), table[i].0.as_str(), table[i].1.as_str());
        i = i + 1;
    }
    proof {
        assert(rules.take(rules.len() as int) =~= rules);
    }
    text.append("\nif (typeof globalThis.app === 'undefined') { if (typeof __dekaDefault !== 'undefined') { if (typeof __dekaDefault === 'function' && typeof globalThis.__dekaNodeExpressAdapter === 'function' && (typeof __dekaDefault.handle === 'function' || typeof __dekaDefault.listen === 'function')) { globalThis.app = globalThis.__dekaNodeExpressAdapter(__dekaDefault); } else if (__dekaDefault && typeof __dekaDefault === 'object' && typeof __dekaDefault.fetch === 'function') { globalThis.app = __dekaDefault; } else if (__dekaDefault && typeof __dekaDefault === 'object' && !__dekaDefault.__dekaServer && typeof __dekaDefault.routes === 'object' && globalThis.__deka && typeof globalThis.__deka.serve === 'function') { globalThis.app = globalThis.__deka.serve(__dekaDefault); } else { globalThis.app = __dekaDefault; } } else if (typeof app !== 'undefined') { if (typeof app === 'function' && typeof globalThis.__dekaNodeExpressAdapter === 'function' && (typeof app.handle === 'function' || typeof app.listen === 'function')) { globalThis.app = globalThis.__dekaNodeExpressAdapter(app); } else { globalThis.app = app; } } }");
    wrap_with_host_bindings(text.as_str())
}

/// The name the runtime is told for an execution mode.
pub open spec fn mode_name(mode: ExecutionMode) -> Seq<char> {
    match mode {
        ExecutionMode::Module => "module"@,
        ExecutionMode::StaticRender => "static-render"@,
        ExecutionMode::Build => "build"@,
        ExecutionMode::Request => "request"@,
    }
}

pub fn exec_mode_name(mode: ExecutionMode) -> (r: &'static str)
    ensures
        r@ == mode_name(mode),
{
    match mode {
        ExecutionMode::Module => "module",
        ExecutionMode::StaticRender => "static-render",
        ExecutionMode::Build => "build",
        ExecutionMode::Request => "request",
    }
}

/// The script that tells the runtime the execution mode: the mode's name
/// as a JSON string, or `"request"` should serialization fail.
pub fn exec_mode_script(mode: ExecutionMode) -> (r: String)
    ensures
        r@ == "globalThis.__dekaExecMode = "@ + match crate::islands::serde_json_string(mode_name(mode)) {
            Some(t) => t,
            None => "\"request\""@,
        } + ";"@,
{
    let mut out = owned("globalThis.__dekaExecMode = ");
    match crate::islands::serde_json_to_string(exec_mode_name(mode)) {
        Some(t) => out.append(t.as_str()),
        None => out.append("\"request\""),
    }
    out.append(";");
    out
}

/// The script that starts an execution in each mode.
pub open spec fn mode_call(mode: ExecutionMode) -> Seq<char> {
    match mode {
        ExecutionMode::Module => "undefined"@,
        ExecutionMode::StaticRender => "globalThis.__dekaStaticRender()"@,
        ExecutionMode::Build => "(async () => { if (typeof globalThis.__dekaBuild !== 'function') { throw new Error('build entry must export a default async function'); } const value = await globalThis.__dekaBuild(); return JSON.stringify(value, (_key, item) => item instanceof Uint8Array ? { __deka_bytes: Array.from(item) } : item); })()"@,
        ExecutionMode::Request => "globalThis.__dekaExecuteRequest()"@,
    }
}

pub fn execution_call(mode: ExecutionMode) -> (r: &'static str)
    ensures
        r@ == mode_call(mode),
{
    match mode {
        ExecutionMode::Module => "undefined",
        ExecutionMode::StaticRender => "globalThis.__dekaStaticRender()",
        ExecutionMode::Build => "(async () => { if (typeof globalThis.__dekaBuild !== 'function') { throw new Error('build entry must export a default async function'); } const value = await globalThis.__dekaBuild(); return JSON.stringify(value, (_key, item) => item instanceof Uint8Array ? { __deka_bytes: Array.from(item) } : item); })()",
        ExecutionMode::Request => "globalThis.__dekaExecuteRequest()",
    }
}

/// A failed handler script: an exit requested through a `DekaExit:` marker
/// ends the request with that code, anything else is a failure.
pub fn script_failure(error: &str) -> (r: Result<i64, String>)
    ensures
        match spec_exit_code(error@) {
            Some(c) => r == Ok::<i64, String>(c),
            None => r matches Err(m) && m@ == "Handler execution failed: "@ + error@,
        },
{
    match parse_exit_code(error) {
        Some(c) => Ok(c),
        None => {
            let mut m = owned("Handler execution failed: ");
            m.append(error);
            Err(m)
        },
    }
}


// ---- The bootstrap script ---------------------------------------------------

/// The bootstrap script with its three markers filled in: the shared enum
/// prelude, the `__deka_to_result` helper, and the WinterTC shims.
pub open spec fn bootstrap_text(
    template: Seq<char>,
    prelude: Seq<char>,
    to_result: Seq<char>,
    wintertc: Seq<char>,
) -> Seq<char> {
    crate::paths::replace_all(
        crate::paths::replace_all(
            crate::paths::replace_all(template, "/*__DEKA_POOL_ENUM_PRELUDE__*/"@, prelude),
            "__DEKA_TO_RESULT__"@,
            to_result,
        ),
        "/*__DEKA_WINTERTC__*/"@,
        wintertc,
    )
}

/// Assemble the bootstrap script. Every marker must have been replaced: a
/// text that still holds one is outside what this accepts.
pub fn bootstrap_source(template: &str, prelude: &str, to_result: &str, wintertc: &str) -> (r: String)
    requires
        !crate::islands::contains_text(
            bootstrap_text(template@, prelude@, to_result@, wintertc@),
            "__DEKA_POOL_ENUM_PRELUDE__"@,
        ),
        !crate::islands::contains_text(
            bootstrap_text(template@, prelude@, to_result@, wintertc@),
            "__DEKA_TO_RESULT__"@,
        ),
        !crate::islands::contains_text(
            bootstrap_text(template@, prelude@, to_result@, wintertc@),
            "__DEKA_WINTERTC__"@,
        ),
    ensures
        r@ == bootstrap_text(template@, prelude@, to_result@, wintertc@),
{
    let a = crate::paths::replace(template, "/*__DEKA_POOL_ENUM_PRELUDE__*/", prelude);
    let b = crate::paths::replace(a.as_str(), "__DEKA_TO_RESULT__", to_result);
    crate::paths::replace(b.as_str(), "/*__DEKA_WINTERTC__*/", wintertc)
}

/// Whether the assembled bootstrap script still holds a marker, which the
/// worker refuses to boot with.
pub fn bootstrap_has_marker(source: &str) -> (r: bool)
    ensures
        r == (crate::islands::contains_text(source@, "__DEKA_POOL_ENUM_PRELUDE__"@)
            || crate::islands::contains_text(source@, "__DEKA_TO_RESULT__"@)
            || crate::islands::contains_text(source@, "__DEKA_WINTERTC__"@)),
{
    let v = crate::text::chars_of(source);
    let m1 = crate::text::chars_of("__DEKA_POOL_ENUM_PRELUDE__");
    let m2 = crate::text::chars_of("__DEKA_TO_RESULT__");
    let m3 = crate::text::chars_of("__DEKA_WINTERTC__");
    crate::islands::find_sub_from(&v, &m1, 0).is_some() || crate::islands::find_sub_from(&v, &m2, 0).is_some()
        || crate::islands::find_sub_from(&v, &m3, 0).is_some()
}


/// The bootstrap script, or `None` where a marker survives the assembly
/// (the worker refuses to boot then).
pub fn assemble_bootstrap(template: &str, prelude: &str, to_result: &str, wintertc: &str) -> (r: Option<String>)
    ensures
        match r {
            Some(t) => t@ == bootstrap_text(template@, prelude@, to_result@, wintertc@) && !(
            crate::islands::contains_text(t@, "__DEKA_POOL_ENUM_PRELUDE__"@)
                || crate::islands::contains_text(t@, "__DEKA_TO_RESULT__"@)
                || crate::islands::contains_text(t@, "__DEKA_WINTERTC__"@)),
            None => {
                let t = bootstrap_text(template@, prelude@, to_result@, wintertc@);
                crate::islands::contains_text(t, "__DEKA_POOL_ENUM_PRELUDE__"@)
                    || crate::islands::contains_text(t, "__DEKA_TO_RESULT__"@)
                    || crate::islands::contains_text(t, "__DEKA_WINTERTC__"@)
            },
        },
{
    let a = crate::paths::replace(template, "/*__DEKA_POOL_ENUM_PRELUDE__*/", prelude);
    let b = crate::paths::replace(a.as_str(), "__DEKA_TO_RESULT__", to_result);
    let c = crate::paths::replace(b.as_str(), "/*__DEKA_WINTERTC__*/", wintertc);
    if bootstrap_has_marker(c.as_str()) {
        None
    } else {
        Some(c)
    }
}

} // verus!
