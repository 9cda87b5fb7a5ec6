//! The project's JSON files as the package manager reads them: a linked
//! package's manifest name, the local link table, the lock's descriptors,
//! the manifest's dependencies, and the staged lock whose `fsGraph` pins
//! are moved to the lowered sources.

use vstd::prelude::*;
use crate::install_rules::{is_valid_scoped_name, manifest_dep_spec, manifest_spec, valid_scoped_name};
use crate::text::{chars_of, owned, string_of_span, trim, trim_span};

verus! {

#[verifier::external_type_specification]
#[verifier::external_body]
pub struct ExJsonValue(serde_json::Value);

/// A JSON document. Object members come in the order the parser keeps
/// them (by key, each key once); numbers keep their text.
pub enum JsonValue {
    Null,
    Bool(bool),
    Number(String),
    Str(String),
    Array(Vec<JsonValue>),
    Object(Vec<(String, JsonValue)>),
}

/// A JSON document as text values: what the contracts speak of.
pub enum JsonView {
    Null,
    Bool(bool),
    Number(Seq<char>),
    Str(Seq<char>),
    Array(Seq<JsonView>),
    Object(Seq<(Seq<char>, JsonView)>),
}

/// The view of a document.
pub open spec fn jview(j: JsonValue) -> JsonView
    decreases j,
{
    match j {
        JsonValue::Null => JsonView::Null,
        JsonValue::Bool(b) => JsonView::Bool(b),
        JsonValue::Number(n) => JsonView::Number(n@),
        JsonValue::Str(t) => JsonView::Str(t@),
        JsonValue::Array(v) => JsonView::Array(jviews(v@)),
        JsonValue::Object(f) => JsonView::Object(jfields(f@)),
    }
}

pub open spec fn jviews(s: Seq<JsonValue>) -> Seq<JsonView>
    decreases s,
{
    if s.len() == 0 {
        Seq::empty()
    } else {
        jviews(s.drop_last()).push(jview(s.last()))
    }
}

pub open spec fn jfields(f: Seq<(String, JsonValue)>) -> Seq<(Seq<char>, JsonView)>
    decreases f,
{
    if f.len() == 0 {
        Seq::empty()
    } else {
        jfields(f.drop_last()).push((f.last().0@, jview(f.last().1)))
    }
}

/// What `serde_json::from_str::<serde_json::Value>` gives for a text: the
/// document, or the text of its error.
pub uninterp spec fn serde_json_parse(text: Seq<char>) -> Result<JsonView, Seq<char>>;

/// What `serde_json::to_string_pretty` gives for a document: its text, or
/// the text of its error.
pub uninterp spec fn serde_json_pretty(doc: JsonView) -> Result<Seq<char>, Seq<char>>;

/// Converts a `serde_json::Value` into the library's document, variant by
/// variant (a number by its text).
#[verifier::external_body]
fn json_of_value(v: serde_json::Value) -> (r: JsonValue) {
    match v {
        serde_json::Value::Null => JsonValue::Null,
        serde_json::Value::Bool(b) => JsonValue::Bool(b),
        serde_json::Value::Number(n) => JsonValue::Number(n.to_string()),
        serde_json::Value::String(s) => JsonValue::Str(s),
        serde_json::Value::Array(a) => JsonValue::Array(a.into_iter().map(json_of_value).collect()),
        serde_json::Value::Object(m) => JsonValue::Object(
            m.into_iter().map(|(k, x)| (k, json_of_value(x))).collect(),
        ),
    }
}

/// Converts the library's document back into a `serde_json::Value`,
/// variant by variant.
#[verifier::external_body]
fn value_of_json(j: JsonValue) -> (r: serde_json::Value) {
    match j {
        JsonValue::Null => serde_json::Value::Null,
        JsonValue::Bool(b) => serde_json::Value::Bool(b),
        JsonValue::Number(n) => serde_json::from_str(&n).unwrap_or(serde_json::Value::Null),
        JsonValue::Str(s) => serde_json::Value::String(s),
        JsonValue::Array(a) => serde_json::Value::Array(a.into_iter().map(value_of_json).collect()),
        JsonValue::Object(m) => serde_json::Value::Object(
            m.into_iter().map(|(k, x)| (k, value_of_json(x))).collect(),
        ),
    }
}

/// `serde_json::from_str` into a `serde_json::Value`; the contract ties the
/// outcome to [`serde_json_parse`] of the text.
#[verifier::external_body]
fn json_parse(text: &str) -> (r: Result<JsonValue, String>)
    ensures
        match r {
            Ok(j) => serde_json_parse(text@) == Ok::<JsonView, Seq<char>>(jview(j)),
            Err(e) => serde_json_parse(text@) == Err::<JsonView, Seq<char>>(e@),
        },
{
    match serde_json::from_str::<serde_json::Value>(text) {
        Ok(v) => Ok(json_of_value(v)),
        Err(e) => Err(e.to_string()),
    }
}

/// `serde_json::to_string_pretty` of a document; the contract ties the
/// outcome to [`serde_json_pretty`] of the document.
#[verifier::external_body]
fn json_pretty(doc: JsonValue) -> (r: Result<String, String>)
    ensures
        match r {
            Ok(t) => serde_json_pretty(jview(doc)) == Ok::<Seq<char>, Seq<char>>(t@),
            Err(e) => serde_json_pretty(jview(doc)) == Err::<Seq<char>, Seq<char>>(e@),
        },
{
    serde_json::to_string_pretty(&value_of_json(doc)).map_err(|e| e.to_string())
}

pub(crate) proof fn lemma_jfields(f: Seq<(String, JsonValue)>)
    ensures
        jfields(f).len() == f.len(),
        forall|i: int| 0 <= i < f.len() ==> #[trigger] jfields(f)[i] == (f[i].0@, jview(f[i].1)),
    decreases f.len(),
{
    if f.len() > 0 {
        lemma_jfields(f.drop_last());
        assert forall|i: int| 0 <= i < f.len() implies #[trigger] jfields(f)[i] == (f[i].0@, jview(f[i].1)) by {
            if i < f.len() - 1 {
                assert(f.drop_last()[i] == f[i]);
            }
        }
    }
}

pub(crate) proof fn lemma_jviews(s: Seq<JsonValue>)
    ensures
        jviews(s).len() == s.len(),
        forall|i: int| 0 <= i < s.len() ==> #[trigger] jviews(s)[i] == jview(s[i]),
    decreases s.len(),
{
    if s.len() > 0 {
        lemma_jviews(s.drop_last());
        assert forall|i: int| 0 <= i < s.len() implies #[trigger] jviews(s)[i] == jview(s[i]) by {
            if i < s.len() - 1 {
                assert(s.drop_last()[i] == s[i]);
            }
        }
    }
}

// ---- Reading documents --------------------------------------------------

/// The first member named `key`, from index `i` on.
pub open spec fn member_from(f: Seq<(Seq<char>, JsonView)>, key: Seq<char>, i: int) -> Option<int>
    decreases f.len() - i,
{
    if 0 <= i < f.len() {
        if f[i].0 == key {
            Some(i)
        } else {
            member_from(f, key, i + 1)
        }
    } else {
        None
    }
}

/// `Value::get(key)`: the member of an object; nothing for other values.
pub open spec fn get(j: JsonView, key: Seq<char>) -> Option<JsonView> {
    match j {
        JsonView::Object(f) => match member_from(f, key, 0) {
            Some(i) => Some(f[i].1),
            None => None,
        },
        _ => None,
    }
}

/// `Value::get(i)`: the element of an array; nothing for other values.
pub open spec fn at(j: JsonView, i: int) -> Option<JsonView> {
    match j {
        JsonView::Array(v) => if 0 <= i < v.len() {
            Some(v[i])
        } else {
            None
        },
        _ => None,
    }
}

/// `as_str` of a value that may be missing.
pub open spec fn text_value(j: Option<JsonView>) -> Option<Seq<char>> {
    match j {
        Some(JsonView::Str(s)) => Some(s),
        _ => None,
    }
}

proof fn lemma_member_from(f: Seq<(Seq<char>, JsonView)>, key: Seq<char>, i: int)
    requires
        0 <= i,
    ensures
        member_from(f, key, i) matches Some(k) ==> i <= k < f.len() && f[k].0 == key,
    decreases f.len() - i,
{
    if i < f.len() && f[i].0 != key {
        lemma_member_from(f, key, i + 1);
    }
}

pub(crate) fn member_pos(fields: &Vec<(String, JsonValue)>, key: &str) -> (r: Option<usize>)
    ensures
        r matches Some(k) ==> member_from(jfields(fields@), key@, 0) == Some(k as int) && k < fields@.len(),
        r is None ==> member_from(jfields(fields@), key@, 0) is None,
{
    proof {
        lemma_jfields(fields@);
        lemma_member_from(jfields(fields@), key@, 0);
    }
    let k = owned(key);
    let mut i: usize = 0;
    while i < fields.len()
        invariant
            i <= fields@.len(),
            k@ == key@,
            jfields(fields@).len() == fields@.len(),
            forall|m: int| 0 <= m < fields@.len() ==> #[trigger] jfields(fields@)[m] == (fields@[m].0@, jview(fields@[m].1)),
            member_from(jfields(fields@), key@, i as int) == member_from(jfields(fields@), key@, 0),
        decreases fields@.len() - i,
    {
        proof {
            assert(jfields(fields@)[i as int].0 == fields@[i as int].0@);
        }
        if fields[i].0 == k {
            return Some(i);
        }
        i = i + 1;
    }
    None
}

pub(crate) fn get_exec<'a>(j: &'a JsonValue, key: &str) -> (r: Option<&'a JsonValue>)
    ensures
        match get(jview(*j), key@) {
            Some(v) => r matches Some(x) && jview(*x) == v,
            None => r is None,
        },
{
    match j {
        JsonValue::Object(f) => {
            proof {
                lemma_jfields(f@);
            }
            match member_pos(f, key) {
                Some(i) => Some(&f[i].1),
                None => None,
            }
        },
        _ => None,
    }
}

pub(crate) fn at_exec<'a>(j: &'a JsonValue, i: usize) -> (r: Option<&'a JsonValue>)
    ensures
        match at(jview(*j), i as int) {
            Some(v) => r matches Some(x) && jview(*x) == v,
            None => r is None,
        },
{
    match j {
        JsonValue::Array(v) => {
            proof {
                lemma_jviews(v@);
            }
            if i < v.len() {
                Some(&v[i])
            } else {
                None
            }
        },
        _ => None,
    }
}

fn text_exec(j: Option<&JsonValue>) -> (r: Option<String>)
    ensures
        match text_value(match j {
            Some(x) => Some(jview(*x)),
            None => None,
        }) {
            Some(t) => r matches Some(s) && s@ == t,
            None => r is None,
        },
{
    match j {
        Some(JsonValue::Str(s)) => Some(owned(s.as_str())),
        _ => None,
    }
}

/// A document parsed from its text (`serde_json::from_str`).
pub fn json_document(text: &str) -> (r: Result<JsonValue, String>)
    ensures
        match r {
            Ok(j) => serde_json_parse(text@) == Ok::<JsonView, Seq<char>>(jview(j)),
            Err(e) => serde_json_parse(text@) == Err::<JsonView, Seq<char>>(e@),
        },
{
    json_parse(text)
}

/// The member `key` of an object document.
pub fn json_member<'a>(j: &'a JsonValue, key: &str) -> (r: Option<&'a JsonValue>)
    ensures
        match get(jview(*j), key@) {
            Some(v) => r matches Some(x) && jview(*x) == v,
            None => r is None,
        },
{
    get_exec(j, key)
}

/// The text of a string value.
pub fn json_text(j: Option<&JsonValue>) -> (r: Option<String>)
    ensures
        match text_value(match j {
            Some(x) => Some(jview(*x)),
            None => None,
        }) {
            Some(t) => r matches Some(s) && s@ == t,
            None => r is None,
        },
{
    text_exec(j)
}

/// The member names of an object, in order; none for any other value or a
/// missing one.
pub open spec fn member_names(j: Option<JsonView>) -> Seq<Seq<char>> {
    match j {
        Some(JsonView::Object(f)) => f.map_values(|e: (Seq<char>, JsonView)| e.0),
        _ => Seq::empty(),
    }
}

/// The member names of an object value.
pub fn object_keys(j: Option<&JsonValue>) -> (r: Vec<String>)
    ensures
        crate::text::string_views(r@) == member_names(
            match j {
                Some(x) => Some(jview(*x)),
                None => None,
            },
        ),
{
    let mut out: Vec<String> = Vec::new();
    match j {
        Some(JsonValue::Object(f)) => {
            proof {
                lemma_jfields(f@);
            }
            let mut i: usize = 0;
            while i < f.len()
                invariant
                    i <= f@.len(),
                    jfields(f@).len() == f@.len(),
                    forall|m: int| 0 <= m < f@.len() ==> #[trigger] jfields(f@)[m] == (f@[m].0@, jview(f@[m].1)),
                    crate::text::string_views(out@) == jfields(f@).take(i as int).map_values(
                        |e: (Seq<char>, JsonView)| e.0,
                    ),
                decreases f@.len() - i,
            {
                let ghost before = out@;
                out.push(owned(f[i].0.as_str()));
                proof {
                    assert(crate::text::string_views(out@) =~= crate::text::string_views(before).push(f@[i as int].0@));
                    assert(jfields(f@).take(i + 1) =~= jfields(f@).take(i as int).push(jfields(f@)[i as int]));
                    assert(crate::text::string_views(out@) =~= jfields(f@).take(i + 1).map_values(
                        |e: (Seq<char>, JsonView)| e.0,
                    ));
                }
                i = i + 1;
            }
            proof {
                assert(jfields(f@).take(f@.len() as int) =~= jfields(f@));
            }
            out
        },
        _ => {
            proof {
                assert(crate::text::string_views(out@) =~= Seq::<Seq<char>>::empty());
            }
            out
        },
    }
}

fn trimmed(s: &str) -> (r: String)
    ensures
        r@ == trim(s@),
{
    let v = chars_of(s);
    let (a, b) = trim_span(&v, 0, v.len());
    proof {
        assert(v@.subrange(0, v@.len() as int) =~= v@);
    }
    string_of_span(&v, a, b)
}

// ---- Linked packages ----------------------------------------------------

/// The name a linked package's manifest gives it: the manifest must parse,
/// carry a non-empty (trimmed) string `name`, and that name must be
/// `@scope/name`.
pub open spec fn link_name_result(parsed: Result<JsonView, Seq<char>>, manifest_path: Seq<char>) -> Result<
    Seq<char>,
    Seq<char>,
> {
    match parsed {
        Err(_) => Err("linked package manifest is invalid: "@ + manifest_path),
        Ok(j) => match text_value(get(j, "name"@)) {
            Some(n) if trim(n).len() > 0 => if valid_scoped_name(trim(n)) {
                Ok(trim(n))
            } else {
                Err("linked package name must use @scope/name format: `"@ + trim(n) + "`"@)
            },
            _ => Err("linked package deka.json must contain a non-empty `name`"@),
        },
    }
}

/// The package name a link records, read from the linked tree's manifest
/// text (read from `manifest_path`).
pub fn linked_package_name(manifest_text: &str, manifest_path: &str) -> (r: Result<String, String>)
    ensures
        match link_name_result(serde_json_parse(manifest_text@), manifest_path@) {
            Ok(n) => r matches Ok(s) && s@ == n,
            Err(e) => r matches Err(m) && m@ == e,
        },
{
    let doc = match json_parse(manifest_text) {
        Ok(d) => d,
        Err(_) => {
            let mut e = owned("linked package manifest is invalid: ");
            e.append(manifest_path);
            return Err(e);
        },
    };
    match text_exec(get_exec(&doc, "name")) {
        Some(n) => {
            let t = trimmed(n.as_str());
            if chars_of(t.as_str()).len() > 0 {
                if is_valid_scoped_name(t.as_str()) {
                    return Ok(t);
                }
                let mut e = owned("linked package name must use @scope/name format: `");
                e.append(t.as_str());
                e.append("`");
                return Err(e);
            }
            Err(owned("linked package deka.json must contain a non-empty `name`"))
        },
        None => Err(owned("linked package deka.json must contain a non-empty `name`")),
    }
}

/// The link table after unlinking, and the unlinked target: the package is
/// named by `canonical` (what the module-spec rules map `package` to), which
/// must be `@scope/name` and have a link.
pub open spec fn unlink_result(
    links: Seq<(Seq<char>, Seq<char>)>,
    package: Seq<char>,
    canonical: Option<Seq<char>>,
) -> Result<(Seq<(Seq<char>, Seq<char>)>, Seq<char>), Seq<char>> {
    match canonical {
        Some(name) if valid_scoped_name(name) => match link_target(links, name) {
            Some(t) => Ok((unlinked(links, name), t)),
            None => Err("no local link registered for "@ + name),
        },
        _ => Err("invalid linked package name `"@ + package + "` (expected @scope/name)"@),
    }
}

/// The links other than those of `name`.
pub open spec fn unlinked(links: Seq<(Seq<char>, Seq<char>)>, name: Seq<char>) -> Seq<(Seq<char>, Seq<char>)> {
    links.filter(other_than(name))
}

/// Whether a link is for some package other than `name`.
pub open spec fn other_than(name: Seq<char>) -> spec_fn((Seq<char>, Seq<char>)) -> bool {
    |e: (Seq<char>, Seq<char>)| e.0 != name
}

/// The target linked for `name`, if any.
pub open spec fn link_target(links: Seq<(Seq<char>, Seq<char>)>, name: Seq<char>) -> Option<Seq<char>>
    decreases links.len(),
{
    if links.len() == 0 {
        None
    } else if links[0].0 == name {
        Some(links[0].1)
    } else {
        link_target(links.drop_first(), name)
    }
}

pub open spec fn link_views(v: Seq<(String, String)>) -> Seq<(Seq<char>, Seq<char>)> {
    v.map_values(|e: (String, String)| (e.0@, e.1@))
}

/// Record a link of `name` to the directory `target`: the link table (kept
/// in name order) with the entry for `name` added or replaced.
pub fn record_link(links: Vec<(String, String)>, name: &str, target: &str) -> (r: Vec<(String, String)>)
    ensures
        link_views(r@) == crate::install_rules::upsert(link_views(links@), name@, target@),
{
    let mut links = links;
    let ghost tv = link_views(links@);
    let nk = chars_of(name);
    let mut p: usize = 0;
    while p < links.len() && !crate::project::same_chars(&chars_of(links[p].0.as_str()), &nk)
        && crate::versions::text_lt_chars(&chars_of(links[p].0.as_str()), &nk)
        invariant
            p <= links@.len(),
            nk@ == name@,
            tv == link_views(links@),
            forall|m: int| 0 <= m < p ==> #[trigger] tv[m].0 != name@ && crate::versions::text_lt(
                tv[m].0,
                name@,
            ),
        decreases links@.len() - p,
    {
        proof {
            assert(tv[p as int].0 == links@[p as int].0@);
        }
        p = p + 1;
    }
    let replace = p < links.len() && crate::project::same_chars(&chars_of(links[p].0.as_str()), &nk);
    proof {
        if p < links@.len() {
            assert(tv[p as int].0 == links@[p as int].0@);
        }
        crate::install_rules::lemma_upsert_at(tv, name@, target@, p as int);
    }
    if replace {
        links.set(p, (owned(name), owned(target)));
        proof {
            assert(link_views(links@) =~= tv.update(p as int, (name@, target@)));
        }
    } else {
        links.insert(p, (owned(name), owned(target)));
        proof {
            assert(link_views(links@) =~= tv.take(p as int) + seq![(name@, target@)] + tv.skip(p as int));
        }
    }
    links
}

proof fn lemma_upsert_link(links: Seq<(Seq<char>, Seq<char>)>, name: Seq<char>, target: Seq<char>)
    ensures
        link_target(crate::install_rules::upsert(links, name, target), name) == Some(target),
        unlinked(crate::install_rules::upsert(links, name, target), name) == unlinked(links, name),
    decreases links.len(),
{
    let u = crate::install_rules::upsert(links, name, target);
    let keep = other_than(name);
    if links.len() == 0 {
        assert(u =~= seq![(name, target)]);
        assert(u =~= seq![(name, target)] + Seq::<(Seq<char>, Seq<char>)>::empty());
        Seq::<(Seq<char>, Seq<char>)>::empty().lemma_filter_prepend((name, target), keep);
    } else if links[0].0 == name {
        let rest = links.drop_first();
        assert(links =~= seq![links[0]] + rest);
        links.drop_first().lemma_filter_prepend((name, target), keep);
        rest.lemma_filter_prepend(links[0], keep);
    } else if crate::versions::text_lt(links[0].0, name) {
        let rest = links.drop_first();
        lemma_upsert_link(rest, name, target);
        let ur = crate::install_rules::upsert(rest, name, target);
        assert(links =~= seq![links[0]] + rest);
        assert(u.drop_first() =~= ur);
        ur.lemma_filter_prepend(links[0], keep);
        rest.lemma_filter_prepend(links[0], keep);
    } else {
        links.lemma_filter_prepend((name, target), keep);
    }
}

/// Linking a package and then unlinking it gives back the directory it was
/// linked to, and leaves every other link as it was.
pub proof fn law_unlink_undoes_link(
    links: Seq<(Seq<char>, Seq<char>)>,
    package: Seq<char>,
    name: Seq<char>,
    target: Seq<char>,
)
    requires
        valid_scoped_name(name),
    ensures
        unlink_result(crate::install_rules::upsert(links, name, target), package, Some(name)) == Ok::<
            (Seq<(Seq<char>, Seq<char>)>, Seq<char>),
            Seq<char>,
        >((unlinked(links, name), target)),
{
    lemma_upsert_link(links, name, target);
}

/// Remove a project-local link: the remaining links and the target that was
/// linked.
pub fn unlink_entry(links: &Vec<(String, String)>, package: &str, canonical: Option<&str>) -> (r: Result<
    (Vec<(String, String)>, String),
    String,
>)
    ensures
        match unlink_result(link_views(links@), package@, match canonical {
            Some(c) => Some(c@),
            None => None,
        }) {
            Ok((rest, t)) => r matches Ok((v, s)) && link_views(v@) == rest && s@ == t,
            Err(e) => r matches Err(m) && m@ == e,
        },
{
    let name = match canonical {
        Some(c) => {
            if !is_valid_scoped_name(c) {
                let mut e = owned("invalid linked package name `");
                e.append(package);
                e.append("` (expected @scope/name)");
                return Err(e);
            }
            owned(c)
        },
        None => {
            let mut e = owned("invalid linked package name `");
            e.append(package);
            e.append("` (expected @scope/name)");
            return Err(e);
        },
    };
    let ghost lv = link_views(links@);
    let mut rest: Vec<(String, String)> = Vec::new();
    let mut target: Option<String> = None;
    let mut i: usize = 0;
    proof {
        assert(lv.take(0) =~= Seq::<(Seq<char>, Seq<char>)>::empty());
        assert(link_views(rest@) =~= unlinked(lv.take(0), name@));
    }
    while i < links.len()
        invariant
            i <= links@.len(),
            lv == link_views(links@),
            link_views(rest@) == unlinked(lv.take(i as int), name@),
            match target {
                Some(t) => link_target(lv.take(i as int), name@) == Some(t@),
                None => link_target(lv.take(i as int), name@) is None,
            },
        decreases links@.len() - i,
    {
        let ghost rb = rest@;
        proof {
            reveal_with_fuel(Seq::filter, 1);
            let t = lv.take(i + 1);
            assert(t.drop_last() =~= lv.take(i as int));
            assert(t.last() == (links@[i as int].0@, links@[i as int].1@));
            assert(t =~= lv.take(i as int).push(t.last()));
            lemma_link_target_push(lv.take(i as int), t.last(), name@);
        }
        if links[i].0 == name {
            if target.is_none() {
                target = Some(links[i].1.clone());
            }
        } else {
            rest.push((links[i].0.clone(), links[i].1.clone()));
            proof {
                assert(link_views(rest@) =~= link_views(rb).push((links@[i as int].0@, links@[i as int].1@)));
            }
        }
        i = i + 1;
    }
    proof {
        assert(lv.take(links@.len() as int) =~= lv);
    }
    match target {
        Some(t) => Ok((rest, t)),
        None => {
            let mut e = owned("no local link registered for ");
            e.append(name.as_str());
            Err(e)
        },
    }
}

proof fn lemma_link_target_push(s: Seq<(Seq<char>, Seq<char>)>, e: (Seq<char>, Seq<char>), name: Seq<char>)
    ensures
        link_target(s, name) is Some ==> link_target(s.push(e), name) == link_target(s, name),
        link_target(s, name) is None && e.0 == name ==> link_target(s.push(e), name) == Some(e.1),
        link_target(s, name) is None && e.0 != name ==> link_target(s.push(e), name) is None,
    decreases s.len(),
{
    if s.len() > 0 {
        assert(s.push(e)[0] == s[0]);
        assert(s.push(e).drop_first() =~= s.drop_first().push(e));
        lemma_link_target_push(s.drop_first(), e, name);
    } else {
        assert(s.push(e)[0] == e);
        assert(s.push(e).drop_first() =~= Seq::<(Seq<char>, Seq<char>)>::empty());
        assert(link_target(s.push(e).drop_first(), name) is None);
    }
}

// ---- Lock descriptors and manifest dependencies ----------------------------

/// `(name, descriptor)` for each lock entry whose first element is a string.
pub open spec fn descriptors_of(fields: Seq<(Seq<char>, JsonView)>) -> Seq<(Seq<char>, Seq<char>)>
    decreases fields.len(),
{
    if fields.len() == 0 {
        Seq::empty()
    } else {
        let rest = descriptors_of(fields.drop_last());
        match text_value(at(fields.last().1, 0)) {
            Some(d) => rest.push((fields.last().0, d)),
            None => rest,
        }
    }
}

/// The descriptors a lock text records under `packages`; nothing when the
/// text does not parse or has no `packages` object.
pub open spec fn lock_descriptors(parsed: Result<JsonView, Seq<char>>) -> Seq<(Seq<char>, Seq<char>)> {
    match parsed {
        Ok(j) => match get(j, "packages"@) {
            Some(JsonView::Object(f)) => descriptors_of(f),
            _ => Seq::empty(),
        },
        Err(_) => Seq::empty(),
    }
}

/// The `(name, descriptor)` pairs of a lock file's text.
pub fn locked_descriptors(lock_text: &str) -> (r: Vec<(String, String)>)
    ensures
        link_views(r@) == lock_descriptors(serde_json_parse(lock_text@)),
{
    let mut out: Vec<(String, String)> = Vec::new();
    let doc = match json_parse(lock_text) {
        Ok(d) => d,
        Err(_) => {
            proof {
                assert(link_views(out@) =~= Seq::<(Seq<char>, Seq<char>)>::empty());
            }
            return out;
        },
    };
    match get_exec(&doc, "packages") {
        Some(JsonValue::Object(f)) => {
            let ghost jf = jfields(f@);
            proof {
                lemma_jfields(f@);
                assert(jf.take(0) =~= Seq::<(Seq<char>, JsonView)>::empty());
                assert(link_views(out@) =~= descriptors_of(jf.take(0)));
            }
            let mut i: usize = 0;
            while i < f.len()
                invariant
                    i <= f@.len(),
                    jf == jfields(f@),
                    jf.len() == f@.len(),
                    forall|m: int| 0 <= m < f@.len() ==> #[trigger] jf[m] == (f@[m].0@, jview(f@[m].1)),
                    link_views(out@) == descriptors_of(jf.take(i as int)),
                decreases f@.len() - i,
            {
                let ghost ob = out@;
                proof {
                    assert(jf.take(i + 1).drop_last() =~= jf.take(i as int));
                    assert(jf.take(i + 1).last() == jf[i as int]);
                }
                match text_exec(at_exec(&f[i].1, 0)) {
                    Some(d) => {
                        out.push((owned(f[i].0.as_str()), d));
                        proof {
                            assert(link_views(out@) =~= link_views(ob).push((f@[i as int].0@, d@)));
                        }
                    },
                    None => {},
                }
                i = i + 1;
            }
            proof {
                assert(jf.take(f@.len() as int) =~= jf);
            }
            out
        },
        _ => {
            proof {
                assert(link_views(out@) =~= Seq::<(Seq<char>, Seq<char>)>::empty());
            }
            out
        },
    }
}

/// The install spec of each manifest dependency, in the manifest's order.
pub open spec fn dep_specs_of(fields: Seq<(Seq<char>, JsonView)>) -> Seq<Seq<char>> {
    fields.map_values(|e: (Seq<char>, JsonView)| manifest_spec(e.0, text_value(Some(e.1))))
}

/// The install specs a manifest text declares under `dependencies`; an
/// error when it does not parse.
pub open spec fn manifest_deps(parsed: Result<JsonView, Seq<char>>, manifest_path: Seq<char>) -> Result<
    Seq<Seq<char>>,
    Seq<char>,
> {
    match parsed {
        Err(_) => Err("failed to parse "@ + manifest_path),
        Ok(j) => match get(j, "dependencies"@) {
            Some(JsonView::Object(f)) => Ok(dep_specs_of(f)),
            _ => Ok(Seq::empty()),
        },
    }
}

/// The install specs of a manifest's text (read from `manifest_path`).
pub fn manifest_dependency_specs(manifest_text: &str, manifest_path: &str) -> (r: Result<Vec<String>, String>)
    ensures
        match manifest_deps(serde_json_parse(manifest_text@), manifest_path@) {
            Ok(specs) => r matches Ok(v) && crate::text::string_views(v@) == specs,
            Err(e) => r matches Err(m) && m@ == e,
        },
{
    let doc = match json_parse(manifest_text) {
        Ok(d) => d,
        Err(_) => {
            let mut e = owned("failed to parse ");
            e.append(manifest_path);
            return Err(e);
        },
    };
    let mut out: Vec<String> = Vec::new();
    match get_exec(&doc, "dependencies") {
        Some(JsonValue::Object(f)) => {
            let ghost jf = jfields(f@);
            proof {
                lemma_jfields(f@);
            }
            let mut i: usize = 0;
            while i < f.len()
                invariant
                    i <= f@.len(),
                    jf == jfields(f@),
                    jf.len() == f@.len(),
                    forall|m: int| 0 <= m < f@.len() ==> #[trigger] jf[m] == (f@[m].0@, jview(f@[m].1)),
                    crate::text::string_views(out@) == dep_specs_of(jf.take(i as int)),
                decreases f@.len() - i,
            {
                let ghost ob = out@;
                let version = text_exec(Some(&f[i].1));
                let entry_spec = match version {
                    Some(v) => manifest_dep_spec(f[i].0.as_str(), Some(v.as_str())),
                    None => manifest_dep_spec(f[i].0.as_str(), None),
                };
                out.push(entry_spec);
                proof {
                    assert(dep_specs_of(jf.take(i + 1)) =~= dep_specs_of(jf.take(i as int)).push(
                        manifest_spec(jf[i as int].0, text_value(Some(jf[i as int].1))),
                    ));
                    assert(crate::text::string_views(out@) =~= crate::text::string_views(ob).push(entry_spec@));
                }
                i = i + 1;
            }
            proof {
                assert(jf.take(f@.len() as int) =~= jf);
            }
            Ok(out)
        },
        _ => {
            proof {
                assert(crate::text::string_views(out@) =~= Seq::<Seq<char>>::empty());
            }
            Ok(out)
        },
    }
}


// ---- The staged lock ------------------------------------------------------

/// The `fsGraph` hash a lock records for `name`:
/// `packages[name][2].fsGraph.hash`, when it is a string.
pub open spec fn fs_hash_of(doc: JsonView, name: Seq<char>) -> Option<Seq<char>> {
    match get(doc, "packages"@) {
        Some(p) => match get(p, name) {
            Some(e) => match at(e, 2) {
                Some(h) => match get(h, "fsGraph"@) {
                    Some(g) => text_value(get(g, "hash"@)),
                    None => None,
                },
                None => None,
            },
            None => None,
        },
        None => None,
    }
}

/// `g` with its member `hash` set to `staged`.
pub open spec fn set_leaf(g: JsonView, staged: Seq<char>) -> JsonView {
    match g {
        JsonView::Object(m) => match member_from(m, "hash"@, 0) {
            Some(i) => JsonView::Object(m.update(i, (m[i].0, JsonView::Str(staged)))),
            None => g,
        },
        _ => g,
    }
}

/// `h` with `fsGraph.hash` set to `staged`.
pub open spec fn set_fs(h: JsonView, staged: Seq<char>) -> JsonView {
    match h {
        JsonView::Object(m) => match member_from(m, "fsGraph"@, 0) {
            Some(i) => JsonView::Object(m.update(i, (m[i].0, set_leaf(m[i].1, staged)))),
            None => h,
        },
        _ => h,
    }
}

/// A lock entry with the `fsGraph` hash of its hashes (element 2) set.
pub open spec fn set_entry(e: JsonView, staged: Seq<char>) -> JsonView {
    match e {
        JsonView::Array(a) => if a.len() > 2 {
            JsonView::Array(a.update(2, set_fs(a[2], staged)))
        } else {
            e
        },
        _ => e,
    }
}

/// The `packages` object with the entry of `name` re-pinned.
pub open spec fn set_pkg(p: JsonView, name: Seq<char>, staged: Seq<char>) -> JsonView {
    match p {
        JsonView::Object(m) => match member_from(m, name, 0) {
            Some(i) => JsonView::Object(m.update(i, (m[i].0, set_entry(m[i].1, staged)))),
            None => p,
        },
        _ => p,
    }
}

/// The lock with `packages[name][2].fsGraph.hash` set to `staged`.
pub open spec fn set_hash(doc: JsonView, name: Seq<char>, staged: Seq<char>) -> JsonView {
    match doc {
        JsonView::Object(m) => match member_from(m, "packages"@, 0) {
            Some(i) => JsonView::Object(m.update(i, (m[i].0, set_pkg(m[i].1, name, staged)))),
            None => doc,
        },
        _ => doc,
    }
}

pub open spec fn mismatch_text(marker: Seq<char>, modules_dir: Seq<char>, name: Seq<char>) -> Seq<char> {
    marker + "❌ Integrity Mismatch\n\n    module '"@ + name + "' in "@ + modules_dir
        + "/ does not match deka.lock\n\n    = help: run `deka install` or `deka add "@ + name
        + "`. dsc does not fetch packages or write deka.lock."@
}

pub open spec fn pin_views(p: Seq<(String, String, String, String)>) -> Seq<(Seq<char>, Seq<char>, Seq<char>, Seq<char>)> {
    p.map_values(|x: (String, String, String, String)| (x.0@, x.1@, x.2@, x.3@))
}

/// Re-pinning a lock package by package, each `(modules_dir, name, real,
/// staged)`: the lock must record the real tree's `fsGraph` hash (else the
/// integrity mismatch is reported), and then records the staged tree's.
pub open spec fn repin_run(
    doc: JsonView,
    pins: Seq<(Seq<char>, Seq<char>, Seq<char>, Seq<char>)>,
    marker: Seq<char>,
) -> Result<JsonView, Seq<char>>
    decreases pins.len(),
{
    if pins.len() == 0 {
        Ok(doc)
    } else {
        match repin_run(doc, pins.drop_last(), marker) {
            Err(e) => Err(e),
            Ok(cur) => {
                let p = pins.last();
                if fs_hash_of(cur, p.1) != Some(p.2) {
                    Err(mismatch_text(marker, p.0, p.1))
                } else {
                    Ok(set_hash(cur, p.1, p.3))
                }
            },
        }
    }
}

/// The staged lock's text: the real lock re-pinned, pretty-printed.
pub open spec fn repin_result(
    parsed: Result<JsonView, Seq<char>>,
    pins: Seq<(Seq<char>, Seq<char>, Seq<char>, Seq<char>)>,
    marker: Seq<char>,
    lock_path: Seq<char>,
) -> Result<Seq<char>, Seq<char>> {
    match parsed {
        Err(e) => Err(marker + "failed to parse "@ + lock_path + ": "@ + e),
        Ok(doc) => match repin_run(doc, pins, marker) {
            Err(m) => Err(m),
            Ok(out) => serde_json_pretty(out),
        },
    }
}

pub(crate) fn replace_value(m: Vec<(String, JsonValue)>, i: usize, v: JsonValue) -> (r: Vec<(String, JsonValue)>)
    requires
        i < m@.len(),
    ensures
        jfields(r@) == jfields(m@).update(i as int, (m@[i as int].0@, jview(v))),
{
    let mut m = m;
    let ghost o = m@;
    let (k, _old) = m.remove(i);
    m.insert(i, (k, v));
    proof {
        assert(m@ =~= o.update(i as int, (o[i as int].0, v)));
        lemma_jfields(m@);
        lemma_jfields(o);
        assert(jfields(m@) =~= jfields(o).update(i as int, (o[i as int].0@, jview(v))));
    }
    m
}

fn set_leaf_exec(g: JsonValue, staged: &str) -> (r: JsonValue)
    ensures
        jview(r) == set_leaf(jview(g), staged@),
{
    match g {
        JsonValue::Object(m) => match member_pos(&m, "hash") {
            Some(i) => {
                proof {
                    lemma_jfields(m@);
                }
                JsonValue::Object(replace_value(m, i, JsonValue::Str(owned(staged))))
            },
            None => JsonValue::Object(m),
        },
        other => other,
    }
}

fn set_fs_exec(h: JsonValue, staged: &str) -> (r: JsonValue)
    ensures
        jview(r) == set_fs(jview(h), staged@),
{
    match h {
        JsonValue::Object(m) => match member_pos(&m, "fsGraph") {
            Some(i) => {
                proof {
                    lemma_jfields(m@);
                }
                let mut m = m;
                let ghost o = m@;
                let (k, old_inner) = m.remove(i);
                let inner = set_leaf_exec(old_inner, staged);
                m.insert(i, (k, inner));
                proof {
                    assert(m@ =~= o.update(i as int, (o[i as int].0, inner)));
                    lemma_jfields(m@);
                    lemma_jfields(o);
                    assert(jfields(m@) =~= jfields(o).update(i as int, (o[i as int].0@, jview(inner))));
                }
                JsonValue::Object(m)
            },
            None => JsonValue::Object(m),
        },
        other => other,
    }
}

fn set_entry_exec(e: JsonValue, staged: &str) -> (r: JsonValue)
    ensures
        jview(r) == set_entry(jview(e), staged@),
{
    match e {
        JsonValue::Array(a) => {
            proof {
                lemma_jviews(a@);
            }
            if a.len() > 2 {
                let mut a = a;
                let ghost o = a@;
                let old_inner = a.remove(2);
                let inner = set_fs_exec(old_inner, staged);
                a.insert(2, inner);
                proof {
                    assert(a@ =~= o.update(2, inner));
                    lemma_jviews(a@);
                    lemma_jviews(o);
                    assert(jviews(a@) =~= jviews(o).update(2, jview(inner)));
                }
                JsonValue::Array(a)
            } else {
                JsonValue::Array(a)
            }
        },
        other => other,
    }
}

fn set_pkg_exec(p: JsonValue, name: &str, staged: &str) -> (r: JsonValue)
    ensures
        jview(r) == set_pkg(jview(p), name@, staged@),
{
    match p {
        JsonValue::Object(m) => match member_pos(&m, name) {
            Some(i) => {
                proof {
                    lemma_jfields(m@);
                }
                let mut m = m;
                let ghost o = m@;
                let (k, old_inner) = m.remove(i);
                let inner = set_entry_exec(old_inner, staged);
                m.insert(i, (k, inner));
                proof {
                    assert(m@ =~= o.update(i as int, (o[i as int].0, inner)));
                    lemma_jfields(m@);
                    lemma_jfields(o);
                    assert(jfields(m@) =~= jfields(o).update(i as int, (o[i as int].0@, jview(inner))));
                }
                JsonValue::Object(m)
            },
            None => JsonValue::Object(m),
        },
        other => other,
    }
}

fn set_hash_exec(doc: JsonValue, name: &str, staged: &str) -> (r: JsonValue)
    ensures
        jview(r) == set_hash(jview(doc), name@, staged@),
{
    match doc {
        JsonValue::Object(m) => match member_pos(&m, "packages") {
            Some(i) => {
                proof {
                    lemma_jfields(m@);
                }
                let mut m = m;
                let ghost o = m@;
                let (k, old_inner) = m.remove(i);
                let inner = set_pkg_exec(old_inner, name, staged);
                m.insert(i, (k, inner));
                proof {
                    assert(m@ =~= o.update(i as int, (o[i as int].0, inner)));
                    lemma_jfields(m@);
                    lemma_jfields(o);
                    assert(jfields(m@) =~= jfields(o).update(i as int, (o[i as int].0@, jview(inner))));
                }
                JsonValue::Object(m)
            },
            None => JsonValue::Object(m),
        },
        other => other,
    }
}

fn fs_hash_exec(doc: &JsonValue, name: &str) -> (r: Option<String>)
    ensures
        match fs_hash_of(jview(*doc), name@) {
            Some(h) => r matches Some(s) && s@ == h,
            None => r is None,
        },
{
    match get_exec(doc, "packages") {
        Some(p) => match get_exec(p, name) {
            Some(e) => match at_exec(e, 2) {
                Some(h) => match get_exec(h, "fsGraph") {
                    Some(g) => text_exec(get_exec(g, "hash")),
                    None => None,
                },
                None => None,
            },
            None => None,
        },
        None => None,
    }
}

/// The staged lock for a compile root whose packages were lowered: the real
/// lock's text (read from `lock_path`), each `(modules_dir, name, real,
/// staged)` checked against the real tree's `fsGraph` hash and re-pinned to
/// the staged tree's, pretty-printed. `marker` prefixes the failures.
pub fn repin_staged_lock(
    lock_text: &str,
    lock_path: &str,
    marker: &str,
    pins: &Vec<(String, String, String, String)>,
) -> (r: Result<String, String>)
    ensures
        match repin_result(serde_json_parse(lock_text@), pin_views(pins@), marker@, lock_path@) {
            Ok(t) => r matches Ok(s) && s@ == t,
            Err(e) => r matches Err(m) && m@ == e,
        },
{
    let mut doc = match json_parse(lock_text) {
        Ok(d) => d,
        Err(e) => {
            let mut m = owned(marker);
            m.append("failed to parse ");
            m.append(lock_path);
            m.append(": ");
            m.append(e.as_str());
            return Err(m);
        },
    };
    let ghost d0 = jview(doc);
    let ghost pv = pin_views(pins@);
    let mut i: usize = 0;
    proof {
        assert(pv.take(0) =~= Seq::<(Seq<char>, Seq<char>, Seq<char>, Seq<char>)>::empty());
    }
    while i < pins.len()
        invariant
            i <= pins@.len(),
            pv == pin_views(pins@),
            serde_json_parse(lock_text@) == Ok::<JsonView, Seq<char>>(d0),
            repin_run(d0, pv.take(i as int), marker@) == Ok::<JsonView, Seq<char>>(jview(doc)),
        decreases pins@.len() - i,
    {
        proof {
            assert(pv.take(i + 1).drop_last() =~= pv.take(i as int));
            assert(pv.take(i + 1).last() == pv[i as int]);
            assert(pv[i as int] == (pins@[i as int].0@, pins@[i as int].1@, pins@[i as int].2@, pins@[i as int].3@));
        }
        let locked = fs_hash_exec(&doc, pins[i].1.as_str());
        let mismatch = match &locked {
            Some(h) => !(*h == pins[i].2),
            None => true,
        };
        if mismatch {
            let mut m = owned(marker);
            m.append("❌ Integrity Mismatch\n\n    module '");
            m.append(pins[i].1.as_str());
            m.append("' in ");
            m.append(pins[i].0.as_str());
            m.append("/ does not match deka.lock\n\n    = help: run `deka install` or `deka add ");
            m.append(pins[i].1.as_str());
            m.append("`. dsc does not fetch packages or write deka.lock.");
            proof {
                assert(repin_run(d0, pv.take(i + 1), marker@) == Err::<JsonView, Seq<char>>(m@));
                lemma_repin_err_stays(d0, pv, marker@, i + 1);
                assert(repin_run(d0, pv.take(pv.len() as int), marker@) == repin_run(d0, pv.take(i + 1), marker@));
                assert(pv.take(pv.len() as int) =~= pv);
                assert(repin_run(d0, pv, marker@) == Err::<JsonView, Seq<char>>(m@));
            }
            return Err(m);
        }
        doc = set_hash_exec(doc, pins[i].1.as_str(), pins[i].3.as_str());
        i = i + 1;
    }
    proof {
        assert(pv.take(pins@.len() as int) =~= pv);
    }
    json_pretty(doc)
}

proof fn lemma_repin_err_stays(
    d0: JsonView,
    pv: Seq<(Seq<char>, Seq<char>, Seq<char>, Seq<char>)>,
    marker: Seq<char>,
    n: int,
)
    requires
        0 <= n <= pv.len(),
        repin_run(d0, pv.take(n), marker) is Err,
    ensures
        forall|k: int| n <= k <= pv.len() ==> repin_run(d0, pv.take(k), marker) == repin_run(d0, pv.take(n), marker),
    decreases pv.len() - n,
{
    if n < pv.len() {
        assert(pv.take(n + 1).drop_last() =~= pv.take(n));
        lemma_repin_err_stays(d0, pv, marker, n + 1);
    }
}

} // verus!
