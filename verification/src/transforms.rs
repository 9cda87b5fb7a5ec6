//! Source transforms for loaded modules: the entry wrapper that hands the
//! entry's exported app to the runtime, the per-module host-bindings
//! preamble that carries a package's granted host kinds, and the entry
//! footer that exports a bare `app` binding.

use vstd::prelude::*;
use crate::text::string_views;
use crate::text::owned;
use crate::paths::{replace, replace_all};

verus! {

/// The entry wrapper module, with `__ENTRY__` standing for the entry's
/// specifier.
pub const ENTRY_WRAPPER_TEMPLATE: &'static str = "import * as __jsx from \"ui/jsx\";\n\
import * as __server from \"ui/server\";\n\
import * as __reactive from \"ui/reactive\";\n\
import * as __suspense from \"ui/suspense\";\n\
import * as __router from \"ui/router\";\n\
globalThis.deka = globalThis.deka || {};\n\
globalThis.deka.ui = Object.freeze({\n\
  ...(globalThis.deka.ui || {}),\n\
  ...__jsx,\n\
  ...__server,\n\
  ...__reactive,\n\
  ...__suspense,\n\
  ...__router,\n\
});\n\
const __dekaMain = await import(\"__ENTRY__\");\n\
globalThis.__dekaStaticRender =\n\
  typeof __dekaMain.StaticRender === \"function\"\n\
    ? __dekaMain.StaticRender\n\
    : undefined;\n\
globalThis.__dekaBuild =\n\
  typeof __dekaMain.default === \"function\"\n\
    ? __dekaMain.default\n\
    : undefined;\n\
const __candidate = typeof __dekaMain.default !== \"undefined\"\n\
  ? __dekaMain.default\n\
  : typeof __dekaMain.app !== \"undefined\"\n\
  ? __dekaMain.app\n\
  : typeof __dekaMain.App !== \"undefined\"\n\
  ? __dekaMain.App\n\
  : typeof __dekaMain.handler !== \"undefined\"\n\
  ? __dekaMain.handler\n\
  : __dekaMain;\n\
if (typeof globalThis.app === \"undefined\" && typeof __candidate !== \"undefined\") {\n\
  if (typeof __candidate === \"function\" && typeof globalThis.__dekaNodeExpressAdapter === \"function\" && (typeof __candidate.handle === \"function\" || typeof __candidate.listen === \"function\")) {\n\
    globalThis.app = globalThis.__dekaNodeExpressAdapter(__candidate);\n\
  } else if (__candidate && typeof __candidate === \"object\" && typeof __candidate.fetch === \"function\") {\n\
    globalThis.app = __candidate;\n\
  } else if (__candidate && typeof __candidate === \"object\" && !__candidate.__dekaServer && typeof __candidate.routes === \"object\" && globalThis.__deka && typeof globalThis.__deka.serve === \"function\") {\n\
    globalThis.app = globalThis.__deka.serve(__candidate);\n\
  } else {\n\
    globalThis.app = __candidate;\n\
  }\n\
}\n";

/// The opening of the host-bindings preamble, up to the grants list.
pub const HOST_BINDINGS_HEAD: &'static str = "const __dekaHostBindings = globalThis[Symbol.for('deka.host.internal')];\n\
         const __dekaModuleGrants = Object.freeze(";

/// The rest of the host-bindings preamble, after the grants list.
pub const HOST_BINDINGS_TAIL: &'static str = ");\n\
         const __deka_host = __dekaHostBindings && ((k, a, args) => __dekaHostBindings.host(k, a, args, __dekaModuleGrants));\n\
         const __deka_to_result = __dekaHostBindings && __dekaHostBindings.toResult;\n";

/// The footer that exports a bare `app` binding of the entry module.
pub const ENTRY_FOOTER: &'static str = "\nif (typeof globalThis.app === \"undefined\" && typeof app !== \"undefined\") {\n\
  const __candidate = app;\n\
  if (typeof __candidate === \"function\" && typeof globalThis.__dekaNodeExpressAdapter === \"function\" && (typeof __candidate.handle === \"function\" || typeof __candidate.listen === \"function\")) {\n\
    globalThis.app = globalThis.__dekaNodeExpressAdapter(__candidate);\n\
  } else if (__candidate && typeof __candidate === \"object\" && typeof __candidate.fetch === \"function\") {\n\
    globalThis.app = __candidate;\n\
  } else if (__candidate && typeof __candidate === \"object\" && !__candidate.__dekaServer && typeof __candidate.routes === \"object\" && globalThis.__deka && typeof globalThis.__deka.serve === \"function\") {\n\
    globalThis.app = globalThis.__deka.serve(__candidate);\n\
  } else {\n\
    globalThis.app = __candidate;\n\
  }\n\
}\n";

/// The entry wrapper module for the entry at `entry_specifier`.
pub fn entry_wrapper_source(entry_specifier: &str) -> (r: String)
    ensures
        r@ == replace_all(ENTRY_WRAPPER_TEMPLATE@, "__ENTRY__"@, entry_specifier@),
{
    replace(ENTRY_WRAPPER_TEMPLATE, "__ENTRY__", entry_specifier)
}

/// The string literals of a list, joined by `,`.
pub open spec fn json_items(items: Seq<Seq<char>>) -> Seq<char>
    decreases items.len(),
{
    if items.len() == 0 {
        Seq::empty()
    } else if items.len() == 1 {
        crate::islands::json_quote(items[0])
    } else {
        json_items(items.drop_last()) + seq![','] + crate::islands::json_quote(items.last())
    }
}

/// What `serde_json::to_string` gives for a list of strings: always the
/// JSON array of their string literals, without spaces.
pub open spec fn serde_json_string_list(items: Seq<Seq<char>>) -> Option<Seq<char>> {
    Some(seq!['['] + json_items(items) + seq![']'])
}

/// `serde_json::to_string` on a list of strings: writing into memory does
/// not fail, and the text is the compact array [`serde_json_string_list`]
/// describes.
#[verifier::external_body]
fn serde_json_list_to_string(items: &Vec<String>) -> (r: Option<String>)
    ensures
        r is Some,
        r matches Some(t) ==> serde_json_string_list(string_views(items@)) == Some(t@),
{
    match serde_json::to_string(items) {
        Ok(t) => Some(t),
        Err(_) => None,
    }
}

/// The JSON list of granted kinds, or `[]` should serialization fail.
pub open spec fn grants_text(kinds: Seq<Seq<char>>) -> Seq<char> {
    match serde_json_string_list(kinds) {
        Some(t) => t,
        None => "[]"@,
    }
}

/// The preamble every module gets: a `__deka_host` closure bound to the
/// module's granted kinds.
pub open spec fn host_preamble(kinds: Seq<Seq<char>>) -> Seq<char> {
    HOST_BINDINGS_HEAD@ + grants_text(kinds) + HOST_BINDINGS_TAIL@
}

pub fn host_bindings_preamble(kinds: &Vec<String>) -> (r: String)
    ensures
        r@ == host_preamble(string_views(kinds@)),
{
    let grants = match serde_json_list_to_string(kinds) {
        Some(t) => t,
        None => owned("[]"),
    };
    let mut out = owned(HOST_BINDINGS_HEAD);
    out.append(grants.as_str());
    out.append(HOST_BINDINGS_TAIL);
    out
}

/// A module's source with the host-bindings preamble in front.
pub fn prepend_host_bindings(source: &str, kinds: &Vec<String>) -> (r: String)
    ensures
        r@ == host_preamble(string_views(kinds@)) + source@,
{
    let mut text = host_bindings_preamble(kinds);
    text.append(source);
    text
}

/// The entry module's source with the `app` export footer after it.
pub fn append_entry_footer(source: &str) -> (r: String)
    ensures
        r@ == source@ + ENTRY_FOOTER@,
{
    let mut text = owned(source);
    text.append(ENTRY_FOOTER);
    text
}

} // verus!
