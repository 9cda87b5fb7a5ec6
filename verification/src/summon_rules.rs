//! Rules for summoning a JavaScript package from a URL: which sources are
//! accepted, and the vendor name a download gets when its package has none.

use vstd::prelude::*;
use crate::text::string_views;
use vstd::string::StringSliceAdditionalSpecFns;
use crate::text::{chars_of, owned, string_of_span, string_push, trim, trim_span};
use crate::manifest::{get, json_document, json_member, json_text, serde_json_parse, text_value};
use crate::islands::{starts_with, copy_span, append_chars, contains_text};
use crate::releases::{strip_suffixes, trim_end_matches};

verus! {

/// What a summon source asks for: the URL text, or why it is refused.
pub open spec fn summon_target(source: Seq<char>) -> Result<Seq<char>, Seq<char>> {
    if starts_with(source, "jsr:"@) {
        Err("jsr: sources are planned for the next summon stage; use a JavaScript URL"@)
    } else if source == "infer"@ {
        Err("deka summon infer is a separate stage; write the summon block yourself"@)
    } else if starts_with(source, "url:"@) {
        Ok(source.skip(4))
    } else {
        Ok(source)
    }
}

pub fn summon_url_text(source: &str) -> (r: Result<String, String>)
    ensures
        match summon_target(source@) {
            Ok(u) => r matches Ok(s) && s@ == u,
            Err(e) => r matches Err(m) && m@ == e,
        },
{
    proof {
        reveal_strlit("jsr:");
        reveal_strlit("infer");
        reveal_strlit("url:");
        reveal_strlit("jsr: sources are planned for the next summon stage; use a JavaScript URL");
        reveal_strlit("deka summon infer is a separate stage; write the summon block yourself");
    }
    let v = chars_of(source);
    let vl = v.len();
    let jsr = vl >= 4 && v[0] == 'j' && v[1] == 's' && v[2] == 'r' && v[3] == ':';
    let url = vl >= 4 && v[0] == 'u' && v[1] == 'r' && v[2] == 'l' && v[3] == ':';
    let infer = vl == 5 && v[0] == 'i' && v[1] == 'n' && v[2] == 'f' && v[3] == 'e' && v[4] == 'r';
    proof {
        if vl >= 4 {
            let t = v@.take(4);
            assert(t[0] == v@[0] && t[1] == v@[1] && t[2] == v@[2] && t[3] == v@[3]);
            if jsr {
                assert(t =~= "jsr:"@);
            }
            if url {
                assert(t =~= "url:"@);
            }
        }
        if infer {
            assert(v@ =~= "infer"@);
        }
    }
    if jsr {
        return Err(owned("jsr: sources are planned for the next summon stage; use a JavaScript URL"));
    }
    if infer {
        return Err(owned("deka summon infer is a separate stage; write the summon block yourself"));
    }
    if url {
        let rest = copy_span(&v, 4, vl);
        let mut out = String::new();
        append_chars(&mut out, &rest);
        proof {
            assert(rest@ =~= v@.skip(4));
        }
        return Ok(out);
    }
    Ok(owned(source))
}

/// The URL schemes a summon fetches from: `file`, `http` and `https`.
pub open spec fn scheme_ok(scheme: Seq<char>) -> bool {
    scheme == "file"@ || scheme == "http"@ || scheme == "https"@
}

pub fn check_summon_scheme(scheme: &str) -> (r: Result<(), String>)
    ensures
        scheme_ok(scheme@) ==> r is Ok,
        !scheme_ok(scheme@) ==> (r matches Err(e) && e@
            == "unsupported summon source; use url: with http(s):// or file:// (jsr: is next stage)"@),
{
    let s = owned(scheme);
    if s == owned("file") || s == owned("http") || s == owned("https") {
        Ok(())
    } else {
        Err(owned("unsupported summon source; use url: with http(s):// or file:// (jsr: is next stage)"))
    }
}

/// The last non-empty path segment of a URL, or `module`.
pub open spec fn basename_of(segments: Seq<Seq<char>>) -> Seq<char>
    decreases segments.len(),
{
    if segments.len() == 0 {
        "module"@
    } else if segments.last().len() > 0 {
        segments.last()
    } else {
        basename_of(segments.drop_last())
    }
}

pub fn url_basename(segments: &Vec<String>) -> (r: String)
    ensures
        r@ == basename_of(string_views(segments@)),
{
    let mut i = segments.len();
    let ghost sv = string_views(segments@);
    proof {
        assert(sv.take(i as int) =~= sv);
    }
    while i > 0
        invariant
            i <= segments@.len(),
            sv == string_views(segments@),
            basename_of(sv.take(i as int)) == basename_of(sv),
        decreases i,
    {
        proof {
            assert(sv.take(i as int).last() == segments@[i - 1]@);
            assert(sv.take(i as int).drop_last() =~= sv.take(i - 1));
        }
        if !segments[i - 1].as_str().is_empty() {
            return segments[i - 1].clone();
        }
        i = i - 1;
    }
    proof {
        reveal_strlit("module");
        assert(sv.take(0) =~= Seq::<Seq<char>>::empty());
    }
    owned("module")
}

/// A download that is a package tarball.
pub open spec fn archive_name(b: Seq<char>) -> bool {
    crate::jsr::ends_with(b, ".tgz"@) || crate::jsr::ends_with(b, ".tar.gz"@)
}

pub fn is_archive_name(basename: &str) -> (r: bool)
    ensures
        r == archive_name(basename@),
{
    let v = chars_of(basename);
    crate::jsr::ends_with_chars(&v, ".tgz") || crate::jsr::ends_with_chars(&v, ".tar.gz")
}

/// `is_ascii_alphanumeric`, `-` or `_`; anything else becomes `-`.
pub open spec fn vendor_char(c: char) -> char {
    if ('a' <= c <= 'z') || ('A' <= c <= 'Z') || ('0' <= c <= '9') || c == '-' || c == '_' {
        c
    } else {
        '-'
    }
}

/// The vendor name of a download whose package does not name itself: its
/// basename without archive or script extensions, with every other
/// character turned into `-`.
pub open spec fn default_vendor_name_of(basename: Seq<char>) -> Seq<char> {
    let stem = strip_suffixes(
        strip_suffixes(strip_suffixes(strip_suffixes(basename, ".tar.gz"@), ".tgz"@), ".mjs"@),
        ".js"@,
    );
    stem.map_values(|c: char| vendor_char(c))
}

/// A character that a vendor name keeps: an ASCII letter or digit, `-`
/// or `_`.
pub open spec fn name_char(c: char) -> bool {
    ('a' <= c <= 'z') || ('A' <= c <= 'Z') || ('0' <= c <= '9') || c == '-' || c == '_'
}

proof fn lemma_not_suffix(x: Seq<char>, suf: Seq<char>, k: int)
    requires
        0 <= k < suf.len(),
        x.len() >= suf.len() ==> x[x.len() - suf.len() + k] != suf[k],
    ensures
        strip_suffixes(x, suf) == x,
{
    if suf.len() > 0 && x.len() >= suf.len() {
        assert(x.skip(x.len() - suf.len())[k] == x[x.len() - suf.len() + k]);
    }
}

proof fn lemma_strip_once(stem: Seq<char>, suf: Seq<char>)
    requires
        suf.len() > 0,
        suf[0] == '.',
        forall|i: int| 0 <= i < stem.len() ==> name_char(#[trigger] stem[i]),
    ensures
        strip_suffixes(stem + suf, suf) == stem,
{
    let x = stem + suf;
    assert(x.skip(x.len() - suf.len()) =~= suf);
    assert(x.take(x.len() - suf.len()) =~= stem);
    if stem.len() >= suf.len() {
        assert(!name_char('.'));
        lemma_not_suffix(stem, suf, 0);
    } else {
        lemma_not_suffix(stem, suf, 0);
    }
}

/// A download named after its package (letters, digits, `-` and `_`)
/// with a `.js`, `.mjs`, `.tgz` or `.tar.gz` extension, or none, is
/// vendored under that name: the extension never turns into part of the
/// name. A basename that ends in none of these extensions keeps its length,
/// with each character outside letters, digits, `-` and `_` turned into
/// `-`.
pub proof fn law_default_vendor_name_drops_the_extension(stem: Seq<char>, ext: Seq<char>, basename: Seq<char>)
    requires
        forall|i: int| 0 <= i < stem.len() ==> name_char(#[trigger] stem[i]),
        ext == seq!['.', 'j', 's'] || ext == seq!['.', 'm', 'j', 's'] || ext == seq!['.', 't', 'g', 'z'] || ext
            == seq!['.', 't', 'a', 'r', '.', 'g', 'z'] || ext.len() == 0,
    ensures
        default_vendor_name_of(stem + ext) == stem,
        basename.len() == 0 || (basename.last() != 's' && basename.last() != 'z') ==> {
            &&& default_vendor_name_of(basename).len() == basename.len()
            &&& forall|i: int|
                0 <= i < basename.len() ==> #[trigger] default_vendor_name_of(basename)[i] == if name_char(
                    basename[i],
                ) {
                    basename[i]
                } else {
                    '-'
                }
        },
{
    reveal_strlit(".tar.gz");
    reveal_strlit(".tgz");
    reveal_strlit(".mjs");
    reveal_strlit(".js");
    let tar: Seq<char> = seq!['.', 't', 'a', 'r', '.', 'g', 'z'];
    let tgz: Seq<char> = seq!['.', 't', 'g', 'z'];
    let mjs: Seq<char> = seq!['.', 'm', 'j', 's'];
    let js: Seq<char> = seq!['.', 'j', 's'];
    assert(".tar.gz"@ =~= tar);
    assert(".tgz"@ =~= tgz);
    assert(".mjs"@ =~= mjs);
    assert(".js"@ =~= js);
    let x = stem + ext;
    // Each extension strips to the stem; the others are not suffixes.
    if ext == js {
        lemma_not_suffix(x, tar, 6);
        lemma_not_suffix(x, tgz, 3);
        if x.len() >= 4 {
            if stem.len() > 0 {
                assert(x[x.len() - 4] == stem[stem.len() - 1]);
                assert(!name_char('.'));
            }
        }
        lemma_not_suffix(x, mjs, 0);
        lemma_strip_once(stem, js);
    } else if ext == mjs {
        lemma_not_suffix(x, tar, 6);
        lemma_not_suffix(x, tgz, 3);
        lemma_strip_once(stem, mjs);
        lemma_not_suffix(stem, js, 0);
    } else if ext == tgz {
        lemma_not_suffix(x, tar, 4);
        lemma_strip_once(stem, tgz);
        lemma_not_suffix(stem, mjs, 0);
        lemma_not_suffix(stem, js, 0);
    } else if ext == tar {
        lemma_strip_once(stem, tar);
        lemma_not_suffix(stem, tgz, 0);
        lemma_not_suffix(stem, mjs, 0);
        lemma_not_suffix(stem, js, 0);
    } else {
        assert(x =~= stem);
        lemma_not_suffix(stem, tar, 0);
        lemma_not_suffix(stem, tgz, 0);
        lemma_not_suffix(stem, mjs, 0);
        lemma_not_suffix(stem, js, 0);
    }
    assert(stem.map_values(|c: char| vendor_char(c)) =~= stem);
    if basename.len() == 0 || (basename.last() != 's' && basename.last() != 'z') {
        lemma_not_suffix(basename, tar, 6);
        lemma_not_suffix(basename, tgz, 3);
        lemma_not_suffix(basename, mjs, 3);
        lemma_not_suffix(basename, js, 2);
    }
}

pub fn default_vendor_name(basename: &str) -> (r: String)
    ensures
        r@ == default_vendor_name_of(basename@),
{
    let a = trim_end_matches(basename, ".tar.gz");
    let b = trim_end_matches(a.as_str(), ".tgz");
    let c = trim_end_matches(b.as_str(), ".mjs");
    let d = trim_end_matches(c.as_str(), ".js");
    let v = chars_of(d.as_str());
    let mut out = String::new();
    let mut i: usize = 0;
    while i < v.len()
        invariant
            i <= v@.len(),
            out@ == v@.take(i as int).map_values(|c: char| vendor_char(c)),
        decreases v@.len() - i,
    {
        let ch = v[i];
        let m = if ('a' <= ch && ch <= 'z') || ('A' <= ch && ch <= 'Z') || ('0' <= ch && ch <= '9')
            || ch == '-' || ch == '_' {
            ch
        } else {
            '-'
        };
        string_push(&mut out, m);
        i = i + 1;
        proof {
            assert(out@ =~= v@.take(i as int).map_values(|c: char| vendor_char(c)));
        }
    }
    proof {
        assert(v@.take(v@.len() as int) =~= v@);
    }
    out
}

/// The parts of a summon URL the minified-build check reads: the host, and
/// the serialized URL split around its path.
pub struct UrlParts {
    pub host: Option<String>,
    pub before_path: String,
    pub path: String,
    pub after_path: String,
}

pub open spec fn newline() -> u8 {
    10u8
}

/// `[a, b)` is one line of `s` as `str::lines` cuts it: it starts the text
/// or follows a `\n`, and runs to the end of the text or to the next `\n`.
pub open spec fn is_line(s: Seq<u8>, a: int, b: int) -> bool {
    &&& 0 <= a <= b <= s.len()
    &&& (a == 0 || s[a - 1] == newline())
    &&& (b == s.len() || s[b] == newline())
    &&& forall|k: int| a <= k < b ==> s[k] != newline()
}

/// The byte length of the line `[a, b)` without a `\r` that ends it before
/// its `\n`.
pub open spec fn line_len(s: Seq<u8>, a: int, b: int) -> int {
    if b < s.len() && b > a && s[b - 1] == 13u8 {
        b - a - 1
    } else {
        b - a
    }
}

/// Some line of the text is longer than 1000 bytes.
pub open spec fn has_long_line(s: Seq<u8>) -> bool {
    exists|a: int, b: int| #[trigger] is_line(s, a, b) && line_len(s, a, b) > 1000
}

fn long_line_in(b: &[u8]) -> (r: bool)
    ensures
        r == has_long_line(b@),
{
    let n = b.len();
    let mut a: usize = 0;
    let mut i: usize = 0;
    while i < n
        invariant
            n == b@.len(),
            a <= i <= n,
            a == 0 || b@[a - 1] == newline(),
            forall|k: int| a <= k < i ==> b@[k] != newline(),
            forall|x: int, y: int| #[trigger] is_line(b@, x, y) && y < a ==> line_len(b@, x, y) <= 1000,
        decreases n - i,
    {
        if b[i] == 10u8 {
            let len = if i > a && b[i - 1] == 13u8 {
                i - a - 1
            } else {
                i - a
            };
            if len > 1000 {
                proof {
                    assert(is_line(b@, a as int, i as int));
                }
                return true;
            }
            proof {
                assert forall|x: int, y: int| #[trigger] is_line(b@, x, y) && y < i + 1 implies line_len(b@, x, y) <= 1000 by {
                    if y >= a {
                        assert(y == i) by {
                            if y < i {
                                assert(b@[y] != newline());
                            }
                        }
                        assert(x == a) by {
                            if x < a {
                                assert(b@[a - 1] == newline());
                            } else if x > a {
                                assert(b@[x - 1] != newline());
                            }
                        }
                    }
                }
            }
            a = i + 1;
        }
        i = i + 1;
    }
    let len = n - a;
    proof {
        assert forall|x: int, y: int| #[trigger] is_line(b@, x, y) && y >= a implies y == n && x == a by {
            if y < n {
                assert(b@[y] != newline());
            }
            if x < a {
                assert(b@[a - 1] == newline());
            } else if x > a {
                assert(b@[x - 1] != newline());
            }
        }
        if len > 1000 {
            assert(is_line(b@, a as int, n as int));
        }
    }
    len > 1000
}

pub open spec fn minified_notice() -> Seq<char> {
    "minified distribution detected; prefer a readable ES module build for review"@
}

/// A suggestion is offered for `.min.js` files on the two CDNs known to
/// publish a module build beside them.
pub open spec fn module_build_host(host: Option<String>) -> bool {
    match host {
        Some(h) => h@ == "cdn.jsdelivr.net"@ || h@ == "unpkg.com"@,
        None => false,
    }
}

/// The warnings a summoned entry file raises: one, when its URL path names
/// a `.min.` build or one of its lines is longer than 1000 bytes, with the
/// likely module-build URL appended on the CDNs that publish one.
pub open spec fn minified_warnings(url: UrlParts, source: Seq<u8>) -> Seq<Seq<char>> {
    if !contains_text(url.path@, ".min."@) && !has_long_line(source) {
        Seq::empty()
    } else if module_build_host(url.host) && contains_text(url.path@, ".min.js"@) {
        seq![minified_notice() + "; possible module build URL (check availability): "@
            + url.before_path@ + crate::paths::replace_all(url.path@, ".min.js"@, ".module.js"@)
            + url.after_path@]
    } else {
        seq![minified_notice()]
    }
}

fn contains_exec(s: &str, pat: &str) -> (r: bool)
    ensures
        r == contains_text(s@, pat@),
{
    let v = chars_of(s);
    let p = chars_of(pat);
    crate::islands::find_sub_from(&v, &p, 0).is_some()
}

/// Warn about a minified distribution, without fetching anything.
pub fn minified_warning(url: &UrlParts, source: &str) -> (r: Vec<String>)
    ensures
        string_views(r@) == minified_warnings(*url, source.spec_bytes()),
{
    proof {
        reveal_strlit("cdn.jsdelivr.net");
        reveal_strlit("unpkg.com");
    }
    if !contains_exec(url.path.as_str(), ".min.") && !long_line_in(source.as_bytes()) {
        let none: Vec<String> = Vec::new();
        proof {
            assert(string_views(none@) =~= Seq::<Seq<char>>::empty());
        }
        return none;
    }
    let mut warning = owned(
        "minified distribution detected; prefer a readable ES module build for review",
    );
    let known_host = match &url.host {
        Some(h) => *h == owned("cdn.jsdelivr.net") || *h == owned("unpkg.com"),
        None => false,
    };
    if known_host && contains_exec(url.path.as_str(), ".min.js") {
        warning.append("; possible module build URL (check availability): ");
        warning.append(url.before_path.as_str());
        let suggested = crate::paths::replace(url.path.as_str(), ".min.js", ".module.js");
        warning.append(suggested.as_str());
        warning.append(url.after_path.as_str());
    }
    let out = vec![warning];
    proof {
        assert(string_views(out@) =~= seq![out@[0]@]);
    }
    out
}

/// The error for a summoned module graph with imports that stay outside the
/// vendored package and its locked `@js/` peers: each distinct one, in
/// ascending order.
pub fn unresolved_summon_imports_error(missing: &Vec<String>) -> (r: String)
    ensures
        r@ == "no transitive fetching: unresolved inner imports (summon each explicitly, then reference its @js/<name> in a vetted module):\n"@
            + crate::jsr::indented_lines(crate::versions::sorted_set(string_views(missing@))),
{
    crate::jsr::indented_report(
        "no transitive fetching: unresolved inner imports (summon each explicitly, then reference its @js/<name> in a vetted module):\n",
        missing,
    )
}


// ---- Size, names and conflicts ---------------------------------------------

/// The most a summoned source or JSR package may weigh: 64 MiB.
pub const MAX_SUMMON_BYTES: u64 = 67108864;

/// A downloaded source over the size limit is refused.
pub fn check_summon_size(len: u64) -> (r: Result<(), String>)
    ensures
        r is Err <==> len > MAX_SUMMON_BYTES,
        r matches Err(e) ==> e@ == "summon source exceeds 64 MiB"@,
{
    if len > MAX_SUMMON_BYTES {
        Err(owned("summon source exceeds 64 MiB"))
    } else {
        Ok(())
    }
}

/// The name a summoned package is first vendored under: the string `name`
/// of its `package.json` (whose text is given when the file exists), else
/// the download's basename made into a vendor name.
pub open spec fn initial_vendor_name_of(
    package_json: Option<Seq<char>>,
    basename: Seq<char>,
) -> Result<Seq<char>, Seq<char>> {
    match package_json {
        None => Ok(default_vendor_name_of(basename)),
        Some(t) => match serde_json_parse(t) {
            Err(e) => Err(e),
            Ok(doc) => match get(doc, "name"@) {
                Some(v) => match text_value(Some(v)) {
                    Some(n) => Ok(n),
                    None => Err("package.json name must be a string"@),
                },
                None => Ok(default_vendor_name_of(basename)),
            },
        },
    }
}

pub fn initial_vendor_name(package_json: Option<&str>, basename: &str) -> (r: Result<String, String>)
    ensures
        match initial_vendor_name_of(
            match package_json {
                Some(t) => Some(t@),
                None => None,
            },
            basename@,
        ) {
            Ok(n) => r matches Ok(s) && s@ == n,
            Err(e) => r matches Err(m) && m@ == e,
        },
{
    match package_json {
        None => Ok(default_vendor_name(basename)),
        Some(t) => match json_document(t) {
            Err(e) => Err(e),
            Ok(doc) => match json_member(&doc, "name") {
                Some(v) => match json_text(Some(v)) {
                    Some(n) => Ok(n),
                    None => Err(owned("package.json name must be a string")),
                },
                None => Ok(default_vendor_name(basename)),
            },
        },
    }
}

/// What `format!("{:?}", s)` gives for a string: its Rust debug literal.
pub uninterp spec fn rust_debug_str(s: Seq<char>) -> Seq<char>;

/// `format!("{:?}", s)`.
#[verifier::external_body]
fn debug_text(s: &str) -> (r: String)
    ensures
        r@ == rust_debug_str(s@),
{
    format!("{s:?}")
}

/// What a vendor name asks of the summon: `valid` says whether `@js/<name>`
/// is a summoned package name, `taken` whether the project already has it.
/// An invalid name is refused; a taken one asks the conflict handler for
/// another (`Ok(true)`); a free one is used (`Ok(false)`).
pub fn vendor_name_check(name: &str, valid: bool, taken: bool) -> (r: Result<bool, String>)
    ensures
        !valid ==> (r matches Err(e) && e@ == "invalid vendor name "@ + rust_debug_str(name@)
            + "; @js/ requires an unscoped name containing letters, digits, '-' or '_'"@),
        valid ==> r == Ok::<bool, String>(taken),
{
    if !valid {
        let mut e = owned("invalid vendor name ");
        e.append(debug_text(name).as_str());
        e.append("; @js/ requires an unscoped name containing letters, digits, '-' or '_'");
        return Err(e);
    }
    Ok(taken)
}

/// The conflict handler's answer for a taken name: the same name again
/// ends the summon.
pub fn conflict_answer(name: &str, next: String) -> (r: Result<String, String>)
    ensures
        next@ == name@ ==> (r matches Err(e) && e@ == "summon conflict: @js/"@ + name@
            + " already exists; choose a different name"@),
        next@ != name@ ==> (r matches Ok(n) && n@ == next@),
{
    let v = chars_of(name);
    let w = chars_of(next.as_str());
    if chars_equal(&v, &w) {
        let mut e = owned("summon conflict: @js/");
        e.append(name);
        e.append(" already exists; choose a different name");
        Err(e)
    } else {
        Ok(next)
    }
}

fn chars_equal(v: &Vec<char>, w: &Vec<char>) -> (r: bool)
    ensures
        r == (v@ == w@),
{
    if v.len() != w.len() {
        return false;
    }
    let mut k: usize = 0;
    while k < v.len()
        invariant
            v@.len() == w@.len(),
            k <= v@.len(),
            forall|m: int| 0 <= m < k ==> v@[m] == w@[m],
        decreases v@.len() - k,
    {
        if v[k] != w[k] {
            return false;
        }
        k = k + 1;
    }
    proof {
        assert(v@ =~= w@);
    }
    true
}

/// Without an interactive prompt a conflict is refused with a hint.
pub fn unprompted_conflict(name: &str) -> (r: String)
    ensures
        r@ == "summon conflict: @js/"@ + name@
            + " already exists; use --prompt to choose a different vendor name"@,
{
    let mut e = owned("summon conflict: @js/");
    e.append(name);
    e.append(" already exists; use --prompt to choose a different vendor name");
    e
}

/// The vendor name typed at the conflict prompt: trimmed, and a blank
/// answer cancels the summon.
pub fn prompt_answer(answer: &str) -> (r: Result<String, String>)
    ensures
        trim(answer@).len() == 0 ==> (r matches Err(e) && e@ == "summon cancelled; existing package unchanged"@),
        trim(answer@).len() > 0 ==> (r matches Ok(n) && n@ == trim(answer@)),
{
    let v = chars_of(answer);
    let (a, b) = trim_span(&v, 0, v.len());
    proof {
        assert(v@.subrange(0, v@.len() as int) =~= v@);
    }
    if a == b {
        Err(owned("summon cancelled; existing package unchanged"))
    } else {
        Ok(string_of_span(&v, a, b))
    }
}


// ---- Choosing the vendor name ------------------------------------------------

/// The package spec a vendor name is summoned under.
pub open spec fn js_spec(name: Seq<char>) -> Seq<char> {
    "@js/"@ + name
}

fn js_spec_of(name: &str) -> (r: String)
    ensures
        r@ == js_spec(name@),
{
    let mut s = owned("@js/");
    s.append(name);
    s
}

/// Whether a vendor name is taken: `@js/<name>` is a dependency in
/// `deka.json` (`deps`, its dependency names) or a package in `deka.lock`
/// (`locked`, its package names), or `js_modules/<name>` exists
/// (`vendored`).
pub fn vendor_name_taken(name: &str, deps: &Vec<String>, locked: &Vec<String>, vendored: bool) -> (r: bool)
    ensures
        r == (string_views(deps@).contains(js_spec(name@)) || string_views(locked@).contains(
            js_spec(name@),
        ) || vendored),
{
    let spec = js_spec_of(name);
    crate::text::listed(deps, &spec) || crate::text::listed(locked, &spec) || vendored
}

/// What the summon does next with a vendor name.
pub enum SummonAction {
    /// The name is taken: ask the conflict handler for another.
    AskConflict { name: String },
    /// Try the handler's answer as the vendor name.
    Retry { name: String },
    /// Install the package under this free spec.
    Install { spec: String },
    /// Stop with this error.
    Fail { error: String },
}

/// One step of choosing a vendor name. `valid` says whether `@js/<name>`
/// is a summoned package name, `taken` whether the project already has it
/// (see [`vendor_name_taken`]), and `answer` is the conflict handler's
/// reply once it was asked about this name. An invalid name is refused; a
/// free one is installed; a taken one is asked about, and the answer is
/// tried next unless it repeats the name. A package is only ever installed
/// under a name that is not taken: existing packages are never overwritten.
pub fn summon_step(name: &str, valid: bool, taken: bool, answer: Option<String>) -> (r: SummonAction)
    ensures
        !valid ==> (r matches SummonAction::Fail { error } && error@ == "invalid vendor name "@
            + rust_debug_str(name@)
            + "; @js/ requires an unscoped name containing letters, digits, '-' or '_'"@),
        valid && !taken ==> (r matches SummonAction::Install { spec } && spec@ == js_spec(name@)),
        valid && taken && answer is None ==> (r matches SummonAction::AskConflict { name: n } && n@
            == name@),
        valid && taken && (answer matches Some(a) && a@ == name@) ==> (r matches SummonAction::Fail {
            error,
        } && error@ == "summon conflict: @js/"@ + name@ + " already exists; choose a different name"@),
        valid && taken && (answer matches Some(a) && a@ != name@) ==> (r matches SummonAction::Retry {
            name: n,
        } && n@ == answer->0@),
        r is Install ==> valid && !taken,
{
    match vendor_name_check(name, valid, taken) {
        Err(e) => SummonAction::Fail { error: e },
        Ok(false) => SummonAction::Install { spec: js_spec_of(name) },
        Ok(true) => match answer {
            None => SummonAction::AskConflict { name: owned(name) },
            Some(a) => match conflict_answer(name, a) {
                Ok(n) => SummonAction::Retry { name: n },
                Err(e) => SummonAction::Fail { error: e },
            },
        },
    }
}

/// The `deka.json` dependency a summoned package is recorded with.
pub fn summon_dependency(url: &str) -> (r: String)
    ensures
        r@ == "url:"@ + url@,
{
    let mut s = owned("url:");
    s.append(url);
    s
}

/// The `files` record of a summoned package: each file's path (relative,
/// `/`-separated) with its `sha256-` digest, in the order given (path
/// order, as the JSON map keeps them).
pub open spec fn files_view(files: Seq<(Seq<char>, Seq<char>)>) -> Seq<(Seq<char>, crate::manifest::JsonView)> {
    files.map_values(|f: (Seq<char>, Seq<char>)| (f.0, crate::manifest::JsonView::Str(f.1)))
}

/// The lock metadata of a summoned package:
/// `{"files": {...}, "integrity": <digest>, "source": "url"}`.
pub open spec fn summon_metadata_view(integrity: Seq<char>, files: Seq<(Seq<char>, Seq<char>)>) -> crate::manifest::JsonView {
    crate::manifest::JsonView::Object(
        seq![
            ("files"@, crate::manifest::JsonView::Object(files_view(files))),
            ("integrity"@, crate::manifest::JsonView::Str(integrity)),
            ("source"@, crate::manifest::JsonView::Str("url"@)),
        ],
    )
}

/// The lock metadata a summoned package is recorded with.
pub fn summon_metadata(integrity: &str, files: &Vec<(String, String)>) -> (r: crate::manifest::JsonValue)
    ensures
        crate::manifest::jview(r) == summon_metadata_view(
            integrity@,
            files@.map_values(|f: (String, String)| (f.0@, f.1@)),
        ),
{
    let mut members: Vec<(String, crate::manifest::JsonValue)> = Vec::new();
    let ghost fv = files@.map_values(|f: (String, String)| (f.0@, f.1@));
    let mut i: usize = 0;
    while i < files.len()
        invariant
            i <= files@.len(),
            fv == files@.map_values(|f: (String, String)| (f.0@, f.1@)),
            crate::manifest::jfields(members@) == files_view(fv.take(i as int)),
        decreases files@.len() - i,
    {
        let ghost before = members@;
        members.push((owned(files[i].0.as_str()), crate::manifest::JsonValue::Str(owned(files[i].1.as_str()))));
        proof {
            assert(members@.drop_last() =~= before);
            assert(fv.take(i + 1) =~= fv.take(i as int).push(fv[i as int]));
            assert(files_view(fv.take(i + 1)) =~= files_view(fv.take(i as int)).push(
                (fv[i as int].0, crate::manifest::JsonView::Str(fv[i as int].1)),
            ));
            assert(crate::manifest::jfields(members@) == crate::manifest::jfields(before).push(
                (members@.last().0@, crate::manifest::jview(members@.last().1)),
            ));
            assert(crate::manifest::jfields(members@) =~= files_view(fv.take(i + 1)));
        }
        i = i + 1;
    }
    proof {
        assert(fv.take(fv.len() as int) =~= fv);
    }
    let f = vec![
        (owned("files"), crate::manifest::JsonValue::Object(members)),
        (owned("integrity"), crate::manifest::JsonValue::Str(owned(integrity))),
        (owned("source"), crate::manifest::JsonValue::Str(owned("url"))),
    ];
    proof {
        crate::manifest::lemma_jfields(f@);
        assert(crate::manifest::jfields(f@) =~= seq![
            ("files"@, crate::manifest::JsonView::Object(files_view(fv))),
            ("integrity"@, crate::manifest::JsonView::Str(integrity@)),
            ("source"@, crate::manifest::JsonView::Str("url"@)),
        ]);
    }
    crate::manifest::JsonValue::Object(f)
}

} // verus!
