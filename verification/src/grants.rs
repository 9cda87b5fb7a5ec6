//! Host-grant delivery: the grant table an install derives for the locked
//! official packages, and what the installer does with the table on disk.
//!
//! Kinds come only from the host catalog (every kind whose grant owner is
//! exactly the package identity), and each record is keyed by the lock's
//! `fsGraph` digest of the installed tree.

use vstd::prelude::*;
use crate::text::string_views;
use crate::install_rules::starts_with_text;
use crate::islands::starts_with;
use crate::lockfile::{metadata_hash, usable_hash, LockEntry};
use crate::text::{chars_of, owned, string_of_span};

verus! {

/// One host-bridge catalog kind and the package identity it is granted to.
pub struct HostKind {
    pub name: String,
    pub grant_owner: String,
}

/// One grant record: the package, its locked version, the fs-graph digest
/// the grant is keyed by, and the kinds it unlocks.
pub struct HostGrant {
    pub name: String,
    pub version: String,
    pub digest: String,
    pub kinds: Vec<String>,
}

/// The project grant table.
pub struct GrantTable {
    pub grants: Vec<HostGrant>,
}

/// What the installer does with `deka.grants.json`.
pub enum GrantTablePlan {
    /// Write (or replace) the file with this table.
    Write(GrantTable),
    /// Remove a stale file: the derived table is empty.
    Remove,
    /// The file already matches; leave it untouched.
    Unchanged,
}

/// A grant record as plain values.
pub open spec fn grant_view(g: HostGrant) -> (Seq<char>, Seq<char>, Seq<char>, Seq<Seq<char>>) {
    (g.name@, g.version@, g.digest@, string_views(g.kinds@))
}

/// A grant table as plain values.
pub open spec fn table_view(t: GrantTable) -> Seq<(Seq<char>, Seq<char>, Seq<char>, Seq<Seq<char>>)> {
    t.grants@.map_values(|g: HostGrant| grant_view(g))
}

/// The kinds the catalog grants to `name`, in catalog order.
pub open spec fn kinds_for(catalog: Seq<HostKind>, name: Seq<char>) -> Seq<Seq<char>>
    decreases catalog.len(),
{
    if catalog.len() == 0 {
        Seq::empty()
    } else {
        let rest = kinds_for(catalog.drop_last(), name);
        if catalog.last().grant_owner@ == name {
            rest.push(catalog.last().name@)
        } else {
            rest
        }
    }
}

/// Bridge kinds the catalog grants to the package identity `name`: every
/// kind whose grant owner is exactly `name`.
pub fn catalog_kinds_for_package(catalog: &Vec<HostKind>, name: &str) -> (r: Vec<String>)
    ensures
        string_views(r@) == kinds_for(catalog@, name@),
{
    let wanted = owned(name);
    let mut out: Vec<String> = Vec::new();
    let mut i: usize = 0;
    while i < catalog.len()
        invariant
            i <= catalog@.len(),
            wanted@ == name@,
            string_views(out@) == kinds_for(catalog@.take(i as int), name@),
        decreases catalog@.len() - i,
    {
        proof {
            assert(catalog@.take(i + 1).drop_last() =~= catalog@.take(i as int));
            assert(catalog@.take(i + 1).last() == catalog@[i as int]);
        }
        if catalog[i].grant_owner == wanted {
            out.push(catalog[i].name.clone());
        }
        i = i + 1;
        proof {
            assert(string_views(out@) =~= kinds_for(catalog@.take(i as int), name@));
        }
    }
    proof {
        assert(catalog@.take(catalog@.len() as int) =~= catalog@);
    }
    out
}

/// The version a grant records: the descriptor after `name@` when that
/// leaves something, else the whole descriptor.
pub open spec fn grant_version(name: Seq<char>, descriptor: Seq<char>) -> Seq<char> {
    let p = name + seq!['@'];
    if starts_with(descriptor, p) && descriptor.len() > p.len() {
        descriptor.skip(p.len() as int)
    } else {
        descriptor
    }
}

/// The grant records derived from the installed entries: one per package
/// the catalog assigns kinds to and whose lock pins an fs-graph digest.
pub open spec fn derived_grants(catalog: Seq<HostKind>, installed: Seq<(String, LockEntry)>) -> Seq<
    (Seq<char>, Seq<char>, Seq<char>, Seq<Seq<char>>),
>
    decreases installed.len(),
{
    if installed.len() == 0 {
        Seq::empty()
    } else {
        let rest = derived_grants(catalog, installed.drop_last());
        let name = installed.last().0@;
        let e = installed.last().1;
        let kinds = kinds_for(catalog, name);
        if kinds.len() == 0 {
            rest
        } else {
            match usable_hash(e.fs_graph_hash) {
                None => rest,
                Some(d) => rest.push((name, grant_version(name, e.descriptor@), d, kinds)),
            }
        }
    }
}

fn grant_version_exec(name: &str, descriptor: &str) -> (r: String)
    ensures
        r@ == grant_version(name@, descriptor@),
{
    let d = chars_of(descriptor);
    let mut p = chars_of(name);
    p.push('@');
    proof {
        assert(p@ =~= name@ + seq!['@']);
    }
    if starts_with_text(&d, &p) && d.len() > p.len() {
        let r = string_of_span(&d, p.len(), d.len());
        proof {
            assert(d@.subrange(p@.len() as int, d@.len() as int) =~= d@.skip(p@.len() as int));
        }
        r
    } else {
        owned(descriptor)
    }
}

/// Derive the grant table for exactly the installed graph (its entries in
/// key order): one record per installed package the catalog assigns kinds
/// to, keyed by the lock's `fsGraph` hash. Packages with no catalog kinds
/// or no pinned digest contribute no record.
pub fn derive_grant_table(catalog: &Vec<HostKind>, installed: &Vec<(String, LockEntry)>) -> (r:
    GrantTable)
    ensures
        table_view(r) == derived_grants(catalog@, installed@),
{
    let mut grants: Vec<HostGrant> = Vec::new();
    let mut i: usize = 0;
    while i < installed.len()
        invariant
            i <= installed@.len(),
            grants@.map_values(|g: HostGrant| grant_view(g)) == derived_grants(
                catalog@,
                installed@.take(i as int),
            ),
        decreases installed@.len() - i,
    {
        let ghost before = grants@;
        proof {
            assert(installed@.take(i + 1).drop_last() =~= installed@.take(i as int));
            assert(installed@.take(i + 1).last() == installed@[i as int]);
        }
        let name = installed[i].0.as_str();
        let kinds = catalog_kinds_for_package(catalog, name);
        if kinds.len() > 0 {
            match metadata_hash(&installed[i].1.fs_graph_hash) {
                Some(digest) => {
                    let version = grant_version_exec(name, installed[i].1.descriptor.as_str());
                    let g = HostGrant { name: owned(name), version, digest, kinds };
                    grants.push(g);
                    proof {
                        assert(grants@.map_values(|g: HostGrant| grant_view(g)) =~= before.map_values(
                            |g: HostGrant| grant_view(g),
                        ).push(grant_view(g)));
                    }
                },
                None => {},
            }
        }
        i = i + 1;
    }
    proof {
        assert(installed@.take(installed@.len() as int) =~= installed@);
    }
    GrantTable { grants }
}

fn same_strings(a: &Vec<String>, b: &Vec<String>) -> (r: bool)
    ensures
        r == (string_views(a@) == string_views(b@)),
{
    if a.len() != b.len() {
        proof {
            assert(string_views(a@).len() != string_views(b@).len());
        }
        return false;
    }
    let mut i: usize = 0;
    while i < a.len()
        invariant
            a@.len() == b@.len(),
            i <= a@.len(),
            forall|k: int| 0 <= k < i ==> a@[k]@ == b@[k]@,
        decreases a@.len() - i,
    {
        if a[i] != b[i] {
            proof {
                assert(string_views(a@)[i as int] != string_views(b@)[i as int]);
            }
            return false;
        }
        i = i + 1;
    }
    proof {
        assert(string_views(a@) =~= string_views(b@));
    }
    true
}

fn same_grant(a: &HostGrant, b: &HostGrant) -> (r: bool)
    ensures
        r == (grant_view(*a) == grant_view(*b)),
{
    a.name == b.name && a.version == b.version && a.digest == b.digest && same_strings(
        &a.kinds,
        &b.kinds,
    )
}

/// Whether two grant tables hold the same records in the same order.
pub fn same_table(a: &GrantTable, b: &GrantTable) -> (r: bool)
    ensures
        r == (table_view(*a) == table_view(*b)),
{
    if a.grants.len() != b.grants.len() {
        proof {
            assert(table_view(*a).len() != table_view(*b).len());
        }
        return false;
    }
    let mut i: usize = 0;
    while i < a.grants.len()
        invariant
            a.grants@.len() == b.grants@.len(),
            i <= a.grants@.len(),
            forall|k: int| 0 <= k < i ==> grant_view(a.grants@[k]) == grant_view(b.grants@[k]),
        decreases a.grants@.len() - i,
    {
        if !same_grant(&a.grants[i], &b.grants[i]) {
            proof {
                assert(table_view(*a)[i as int] != table_view(*b)[i as int]);
            }
            return false;
        }
        i = i + 1;
    }
    proof {
        assert(table_view(*a) =~= table_view(*b));
    }
    true
}

fn copy_strings(v: &Vec<String>) -> (r: Vec<String>)
    ensures
        string_views(r@) == string_views(v@),
{
    let mut out: Vec<String> = Vec::new();
    let mut i: usize = 0;
    while i < v.len()
        invariant
            i <= v@.len(),
            string_views(out@) == string_views(v@.take(i as int)),
        decreases v@.len() - i,
    {
        let ghost before = out@;
        out.push(v[i].clone());
        proof {
            assert(string_views(out@) =~= string_views(before).push(v@[i as int]@));
            assert(string_views(v@.take(i + 1)) =~= string_views(v@.take(i as int)).push(
                v@[i as int]@,
            ));
        }
        i = i + 1;
    }
    proof {
        assert(v@.take(v@.len() as int) =~= v@);
    }
    out
}

/// A copy of the table with the same records.
pub fn copy_table(t: &GrantTable) -> (r: GrantTable)
    ensures
        table_view(r) == table_view(*t),
{
    let mut grants: Vec<HostGrant> = Vec::new();
    let mut i: usize = 0;
    while i < t.grants.len()
        invariant
            i <= t.grants@.len(),
            grants@.map_values(|g: HostGrant| grant_view(g)) == table_view(*t).take(i as int),
        decreases t.grants@.len() - i,
    {
        let ghost before = grants@;
        let src = &t.grants[i];
        let g = HostGrant {
            name: src.name.clone(),
            version: src.version.clone(),
            digest: src.digest.clone(),
            kinds: copy_strings(&src.kinds),
        };
        grants.push(g);
        proof {
            assert(string_views(g.kinds@) == string_views(src.kinds@));
            assert(grant_view(g) == grant_view(t.grants@[i as int]));
            assert(grants@.map_values(|g: HostGrant| grant_view(g)) =~= before.map_values(
                |g: HostGrant| grant_view(g),
            ).push(grant_view(g)));
            assert(table_view(*t).take(i + 1) =~= table_view(*t).take(i as int).push(
                grant_view(t.grants@[i as int]),
            ));
        }
        i = i + 1;
    }
    proof {
        assert(table_view(*t).take(t.grants@.len() as int) =~= table_view(*t));
    }
    GrantTable { grants }
}

/// The plan for a derived table against the table on disk (`None` when
/// the file is missing or malformed): the canonical state is the file
/// holding exactly the derived records when there are any, and no file
/// when there are none.
pub open spec fn grant_plan(derived: GrantTable, existing: Option<GrantTable>) -> GrantPlanKind {
    if derived.grants@.len() == 0 {
        match existing {
            None => GrantPlanKind::Unchanged,
            Some(_) => GrantPlanKind::Remove,
        }
    } else {
        match existing {
            Some(t) => if table_view(t) == table_view(derived) {
                GrantPlanKind::Unchanged
            } else {
                GrantPlanKind::Write
            },
            None => GrantPlanKind::Write,
        }
    }
}

/// The three plans, without the table a write carries.
pub enum GrantPlanKind {
    Write,
    Remove,
    Unchanged,
}

/// Decide what to do with the grant-table file for a derived table.
pub fn plan_grant_table_write(derived: &GrantTable, existing: Option<&GrantTable>) -> (r:
    GrantTablePlan)
    ensures
        match grant_plan(
            *derived,
            match existing {
                Some(t) => Some(*t),
                None => None,
            },
        ) {
            GrantPlanKind::Write => r matches GrantTablePlan::Write(t) && table_view(t) == table_view(
                *derived,
            ),
            GrantPlanKind::Remove => r is Remove,
            GrantPlanKind::Unchanged => r is Unchanged,
        },
{
    if derived.grants.len() == 0 {
        match existing {
            None => GrantTablePlan::Unchanged,
            Some(_) => GrantTablePlan::Remove,
        }
    } else {
        match existing {
            Some(t) => if same_table(t, derived) {
                GrantTablePlan::Unchanged
            } else {
                GrantTablePlan::Write(copy_table(derived))
            },
            None => GrantTablePlan::Write(copy_table(derived)),
        }
    }
}

/// Whether some installed entry of package `name` pins the fs-graph digest
/// `digest`.
pub open spec fn pins_digest(installed: Seq<(String, LockEntry)>, name: Seq<char>, digest: Seq<char>) -> bool {
    exists|j: int|
        0 <= j < installed.len() && #[trigger] installed[j].0@ == name && usable_hash(
            installed[j].1.fs_graph_hash,
        ) == Some(digest)
}

/// Every derived grant unlocks exactly the kinds the catalog assigns to its
/// package (never none), and is keyed by a non-empty fs-graph digest that
/// an installed entry of that package pins.
pub proof fn law_grants_come_from_catalog_and_lock(
    catalog: Seq<HostKind>,
    installed: Seq<(String, LockEntry)>,
)
    ensures
        forall|k: int|
            0 <= k < derived_grants(catalog, installed).len() ==> {
                let g = #[trigger] derived_grants(catalog, installed)[k];
                &&& g.3 == kinds_for(catalog, g.0)
                &&& g.3.len() > 0
                &&& g.2.len() > 0
                &&& pins_digest(installed, g.0, g.2)
            },
    decreases installed.len(),
{
    if installed.len() > 0 {
        let prev = installed.drop_last();
        law_grants_come_from_catalog_and_lock(catalog, prev);
        let d = derived_grants(catalog, installed);
        let dp = derived_grants(catalog, prev);
        assert forall|k: int| 0 <= k < d.len() implies {
            let g = #[trigger] d[k];
            &&& g.3 == kinds_for(catalog, g.0)
            &&& g.3.len() > 0
            &&& g.2.len() > 0
            &&& pins_digest(installed, g.0, g.2)
        } by {
            if k < dp.len() {
                assert(d[k] == dp[k]);
                let g = dp[k];
                assert(pins_digest(prev, g.0, g.2));
                let j = choose|j: int|
                    0 <= j < prev.len() && #[trigger] prev[j].0@ == g.0 && usable_hash(
                        prev[j].1.fs_graph_hash,
                    ) == Some(g.2);
                assert(installed[j] == prev[j]);
            } else {
                let n = installed.len() - 1;
                assert(installed[n] == installed.last());
                assert(installed[n].0@ == d[k].0);
            }
        }
    }
}

/// Once the plan is carried out, planning again leaves the file as it is:
/// a written table matches, and a removed file is absent.
pub proof fn law_grant_plan_settles(derived: GrantTable, existing: Option<GrantTable>)
    ensures
        grant_plan(derived, existing) is Write ==> grant_plan(derived, Some(derived)) is Unchanged,
        grant_plan(derived, existing) is Remove ==> grant_plan(derived, None) is Unchanged,
{
}

} // verus!
