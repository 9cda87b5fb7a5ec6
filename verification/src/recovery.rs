//! Reports on install-transaction recovery backups: which backups a journal
//! references, and how the ones still on disk are named to the user.

use vstd::prelude::*;
use crate::text::{join_lines, pair_views, opt_view};
use crate::text::owned;

verus! {

/// The recovery backups an install journal references, with what each is a
/// backup of: the lock file's, the manifest's (when it had one), and the
/// grant table's.
pub fn journal_backups(
    lock_backup: Option<String>,
    manifest: Option<(String, Option<String>)>,
    grant_backup: Option<String>,
) -> (r: Vec<(String, String)>)
    ensures
        pair_views(r@) == journal_backup_list(
            opt_view(lock_backup),
            match manifest {
                Some((_, b)) => opt_view(b),
                None => None,
            },
            opt_view(grant_backup),
        ),
{
    proof {
        reveal_strlit("previous deka.lock");
        reveal_strlit("previous deka.json");
        reveal_strlit("previous deka.grants.json");
    }
    let mut out: Vec<(String, String)> = Vec::new();
    let ghost e0 = pair_views(out@);
    if let Some(b) = lock_backup {
        out.push((b, owned("previous deka.lock")));
    }
    let ghost e1 = pair_views(out@);
    if let Some((_, Some(b))) = manifest {
        out.push((b, owned("previous deka.json")));
    }
    let ghost e2 = pair_views(out@);
    if let Some(b) = grant_backup {
        out.push((b, owned("previous deka.grants.json")));
    }
    proof {
        assert(pair_views(out@) =~= journal_backup_list(
            opt_view(lock_backup),
            match manifest {
                Some((_, b)) => opt_view(b),
                None => None,
            },
            opt_view(grant_backup),
        ));
    }
    out
}

pub open spec fn opt_entry(o: Option<Seq<char>>, purpose: Seq<char>) -> Seq<(Seq<char>, Seq<char>)> {
    match o {
        Some(p) => seq![(p, purpose)],
        None => Seq::empty(),
    }
}

pub open spec fn journal_backup_list(
    lock: Option<Seq<char>>,
    manifest: Option<Seq<char>>,
    grant: Option<Seq<char>>,
) -> Seq<(Seq<char>, Seq<char>)> {
    opt_entry(lock, "previous deka.lock"@) + opt_entry(manifest, "previous deka.json"@) + opt_entry(
        grant,
        "previous deka.grants.json"@,
    )
}

/// One line naming a surviving backup.
pub open spec fn backup_line(path: Seq<char>, purpose: Seq<char>) -> Seq<char> {
    "  - "@ + path + " (recovery backup of "@ + purpose + ")"@
}

/// The lines of the backups still on disk, in order.
pub open spec fn surviving_lines(backups: Seq<(Seq<char>, Seq<char>, bool)>) -> Seq<Seq<char>>
    decreases backups.len(),
{
    if backups.len() == 0 {
        Seq::empty()
    } else {
        let prev = surviving_lines(backups.drop_last());
        let (path, purpose, present) = backups.last();
        if present {
            prev.push(backup_line(path, purpose))
        } else {
            prev
        }
    }
}

/// The report of surviving backups: empty when none survived.
pub open spec fn backups_report(backups: Seq<(Seq<char>, Seq<char>, bool)>) -> Seq<char> {
    let lines = surviving_lines(backups);
    if lines.len() == 0 {
        Seq::empty()
    } else {
        "\nA recovery backup was left behind and can be used to restore prior state:\n"@
            + join_lines(lines)
    }
}

pub open spec fn backup_views(v: Seq<(String, String, bool)>) -> Seq<(Seq<char>, Seq<char>, bool)> {
    v.map_values(|b: (String, String, bool)| (b.0@, b.1@, b.2))
}

/// Name the backups, among `backups` as `(path, purpose, still on disk)`,
/// that a failed rollback left behind.
pub fn format_backups(backups: &Vec<(String, String, bool)>) -> (r: String)
    ensures
        r@ == backups_report(backup_views(backups@)),
{
    proof {
        reveal_strlit("  - ");
        reveal_strlit(" (recovery backup of ");
        reveal_strlit(")");
        reveal_strlit("\nA recovery backup was left behind and can be used to restore prior state:\n");
    }
    let ghost bv = backup_views(backups@);
    let mut body = String::new();
    let mut count: usize = 0;
    let mut i: usize = 0;
    while i < backups.len()
        invariant
            i <= backups@.len(),
            bv == backup_views(backups@),
            count == surviving_lines(bv.take(i as int)).len(),
            count <= i,
            body@ == join_lines(surviving_lines(bv.take(i as int))),
        decreases backups@.len() - i,
    {
        proof {
            assert(bv.take(i + 1).drop_last() =~= bv.take(i as int));
            assert(bv.take(i + 1).last() == (backups@[i as int].0@, backups@[i as int].1@, backups@[i as int].2));
        }
        if backups[i].2 {
            let ghost prev = body@;
            if count > 0 {
                crate::text::string_push(&mut body, '\n');
            }
            body.append("  - ");
            body.append(backups[i].0.as_str());
            body.append(" (recovery backup of ");
            body.append(backups[i].1.as_str());
            body.append(")");
            proof {
                let lines = surviving_lines(bv.take(i + 1));
                let line = backup_line(backups@[i as int].0@, backups@[i as int].1@);
                assert(lines == surviving_lines(bv.take(i as int)).push(line));
                if count == 0 {
                    assert(body@ =~= line);
                } else {
                    assert(lines.drop_last() =~= surviving_lines(bv.take(i as int)));
                    assert(body@ =~= prev + seq!['\n'] + line);
                }
            }
            count = count + 1;
        }
        i = i + 1;
    }
    proof {
        assert(bv.take(bv.len() as int) =~= bv);
    }
    if count == 0 {
        return String::new();
    }
    let mut out = owned("\nA recovery backup was left behind and can be used to restore prior state:\n");
    out.append(body.as_str());
    out
}

/// The warning for a backup a successful install could not remove.
pub fn backup_removal_warning(path: &str, error: &str) -> (r: String)
    ensures
        r@ == "failed to remove backup file "@ + path@ + " after successful install: "@ + error@,
{
    let mut out = owned("failed to remove backup file ");
    out.append(path);
    out.append(" after successful install: ");
    out.append(error);
    out
}


proof fn lemma_no_survivors(b: Seq<(Seq<char>, Seq<char>, bool)>)
    requires
        forall|i: int| 0 <= i < b.len() ==> !(#[trigger] b[i]).2,
    ensures
        surviving_lines(b).len() == 0,
    decreases b.len(),
{
    if b.len() > 0 {
        assert(!b[b.len() - 1].2);
        lemma_no_survivors(b.drop_last());
    }
}

/// When no backup is still on disk there is nothing to report.
pub proof fn law_no_survivors_no_report(backups: Seq<(Seq<char>, Seq<char>, bool)>)
    requires
        forall|i: int| 0 <= i < backups.len() ==> !(#[trigger] backups[i]).2,
    ensures
        backups_report(backups) == Seq::<char>::empty(),
{
    lemma_no_survivors(backups);
}

} // verus!
