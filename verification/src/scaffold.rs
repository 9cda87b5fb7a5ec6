//! What `deka init` lays down in a new project: the scaffold's files and
//! their order, the project's name, the manifest filled in with it, which
//! files a run writes, and what it reports afterwards.

use vstd::prelude::*;
use crate::loader_paths::file_name_of;
use crate::paths::{replace, replace_all, spec_file_name};
use crate::text::{chars_of, owned, string_views, trim, trim_span};

verus! {

/// The scaffold's files, relative to the project directory, in the order
/// they are written.
pub open spec fn scaffold_paths() -> Seq<Seq<char>> {
    seq![
        "deka.json"@,
        "deka.lock"@,
        ".gitignore"@,
        "index.html"@,
        "app/layout.dsx"@,
        "app/page.dsx"@,
        "app/Counter.dsx"@,
        "public/style.css"@,
        "public/404.html"@,
    ]
}

/// The scaffold's files, in the order they are written.
pub fn scaffold_files() -> (r: Vec<String>)
    ensures
        string_views(r@) == scaffold_paths(),
{
    let r = vec![
        owned("deka.json"),
        owned("deka.lock"),
        owned(".gitignore"),
        owned("index.html"),
        owned("app/layout.dsx"),
        owned("app/page.dsx"),
        owned("app/Counter.dsx"),
        owned("public/style.css"),
        owned("public/404.html"),
    ];
    proof {
        assert(string_views(r@) =~= scaffold_paths());
    }
    r
}

/// A project is named after its directory: the directory's last component
/// unless there is none or it is blank, in which case `app`.
pub open spec fn project_name_of(target: Seq<char>) -> Seq<char> {
    match spec_file_name(target) {
        Some(n) => if trim(n).len() > 0 {
            n
        } else {
            "app"@
        },
        None => "app"@,
    }
}

pub fn project_name(target: &str) -> (r: String)
    ensures
        r@ == project_name_of(target@),
{
    match file_name_of(target) {
        Some(n) => {
            let v = chars_of(n.as_str());
            let (a, b) = trim_span(&v, 0, v.len());
            proof {
                assert(v@.subrange(0, v@.len() as int) =~= v@);
            }
            if a < b {
                n
            } else {
                owned("app")
            }
        },
        None => owned("app"),
    }
}

/// The scaffold's `deka.json`: its template with every `__APP_NAME__`
/// replaced by the project's name.
pub fn scaffold_manifest(template: &str, name: &str) -> (r: String)
    ensures
        r@ == replace_all(template@, "__APP_NAME__"@, name@),
{
    replace(template, "__APP_NAME__", name)
}

/// The scaffold files among the first `n` that do not exist yet, in order.
pub open spec fn missing_files(exists: Seq<bool>, n: int) -> Seq<Seq<char>>
    decreases n,
{
    if n <= 0 {
        Seq::empty()
    } else if exists[n - 1] {
        missing_files(exists, n - 1)
    } else {
        missing_files(exists, n - 1).push(scaffold_paths()[n - 1])
    }
}

proof fn lemma_missing_files(exists: Seq<bool>, n: int, x: Seq<char>)
    requires
        0 <= n <= exists.len(),
        exists.len() == scaffold_paths().len(),
    ensures
        missing_files(exists, n).contains(x) <==> (exists|i: int|
            0 <= i < n && !exists[i] && #[trigger] scaffold_paths()[i] == x),
    decreases n,
{
    if n > 0 {
        lemma_missing_files(exists, n - 1, x);
        let prev = missing_files(exists, n - 1);
        if !exists[n - 1] {
            let cur = prev.push(scaffold_paths()[n - 1]);
            if prev.contains(x) {
                let k = choose|k: int| 0 <= k < prev.len() && prev[k] == x;
                assert(cur[k] == x);
            }
            if scaffold_paths()[n - 1] == x {
                assert(cur[cur.len() - 1] == x);
            }
            if cur.contains(x) {
                let k = choose|k: int| 0 <= k < cur.len() && cur[k] == x;
                if k < prev.len() {
                    assert(prev[k] == x);
                }
            }
        }
    }
}

/// A run of `init` writes exactly the scaffold files that do not exist
/// yet: a file that exists is never listed (and so never rewritten), and a
/// run over a complete scaffold writes nothing.
pub proof fn law_existing_scaffold_files_are_never_written(exists: Seq<bool>)
    requires
        exists.len() == scaffold_paths().len(),
    ensures
        forall|k: int|
            0 <= k < scaffold_paths().len() ==> (missing_files(exists, scaffold_paths().len() as int).contains(
                #[trigger] scaffold_paths()[k],
            ) <==> !exists[k]),
        (forall|k: int| 0 <= k < exists.len() ==> #[trigger] exists[k]) ==> missing_files(
            exists,
            scaffold_paths().len() as int,
        ).len() == 0,
{
    reveal_strlit("deka.json");
    reveal_strlit("deka.lock");
    reveal_strlit(".gitignore");
    reveal_strlit("index.html");
    reveal_strlit("app/layout.dsx");
    reveal_strlit("app/page.dsx");
    reveal_strlit("app/Counter.dsx");
    reveal_strlit("public/style.css");
    reveal_strlit("public/404.html");
    let ps = scaffold_paths();
    assert forall|i: int, j: int| 0 <= i < j < ps.len() implies ps[i] != ps[j] by {
        if ps[i] == ps[j] {
            assert(ps[i].len() == ps[j].len());
            assert(ps[i][0] == ps[j][0]);
            assert(ps[i][5] == ps[j][5]);
        }
    }
    assert forall|k: int| 0 <= k < ps.len() implies (missing_files(exists, ps.len() as int).contains(
        #[trigger] ps[k],
    ) <==> !exists[k]) by {
        lemma_missing_files(exists, ps.len() as int, ps[k]);
    }
    if forall|k: int| 0 <= k < exists.len() ==> #[trigger] exists[k] {
        lemma_missing_none(exists, ps.len() as int);
    }
}

proof fn lemma_missing_none(exists: Seq<bool>, n: int)
    requires
        0 <= n <= exists.len(),
        forall|k: int| 0 <= k < exists.len() ==> #[trigger] exists[k],
    ensures
        missing_files(exists, n).len() == 0,
    decreases n,
{
    if n > 0 {
        lemma_missing_none(exists, n - 1);
    }
}

/// The files a run of `init` writes, given which scaffold files already
/// exist (one flag per file, in scaffold order): an existing file is left
/// as it is.
pub fn files_to_write(exists: &Vec<bool>) -> (r: Vec<String>)
    requires
        exists@.len() == scaffold_paths().len(),
    ensures
        string_views(r@) == missing_files(exists@, scaffold_paths().len() as int),
{
    let all = scaffold_files();
    let mut out: Vec<String> = Vec::new();
    let mut i: usize = 0;
    while i < all.len()
        invariant
            i <= all@.len(),
            all@.len() == exists@.len(),
            string_views(all@) == scaffold_paths(),
            string_views(out@) == missing_files(exists@, i as int),
        decreases all@.len() - i,
    {
        if !exists[i] {
            let ghost before = out@;
            out.push(owned(all[i].as_str()));
            proof {
                assert(string_views(all@)[i as int] == all@[i as int]@);
                assert(string_views(out@) =~= string_views(before).push(all@[i as int]@));
            }
        }
        i = i + 1;
    }
    out
}

/// What `init` prints once the scaffold is in place: that nothing was
/// needed, or how to start the app (with a `cd` into a named directory
/// other than `.`).
pub open spec fn init_report_of(dir_arg: Option<Seq<char>>, touched: nat) -> Seq<Seq<char>> {
    if touched == 0 {
        seq!["[init] project is already initialized"@]
    } else {
        match dir_arg {
            Some(d) => if d != "."@ && d.len() > 0 {
                seq!["[init] DekaScript app ready"@, "  cd "@ + d, "  deka serve"@]
            } else {
                seq!["[init] DekaScript app ready"@, "  deka serve"@, "  deka dev"@]
            },
            None => seq!["[init] DekaScript app ready"@, "  deka serve"@, "  deka dev"@],
        }
    }
}

pub fn init_report(dir_arg: Option<&str>, touched: usize) -> (r: Vec<String>)
    ensures
        string_views(r@) == init_report_of(
            match dir_arg {
                Some(d) => Some(d@),
                None => None,
            },
            touched as nat,
        ),
{
    let ghost d_view = match dir_arg {
        Some(d) => Some(d@),
        None => None,
    };
    let r = if touched == 0 {
        vec![owned("[init] project is already initialized")]
    } else {
        let named = match dir_arg {
            Some(d) => {
                let v = chars_of(d);
                let is_dot = v.len() == 1 && v[0] == '.';
                proof {
                    reveal_strlit(".");
                    if v@.len() == 1 {
                        assert(is_dot ==> v@ =~= "."@);
                        assert(!is_dot ==> v@ != "."@) by {
                            if v@ == "."@ {
                                assert(v@[0] == '.');
                            }
                        }
                    } else {
                        assert(v@ != "."@) by {
                            if v@ == "."@ {
                                assert(v@.len() == 1);
                            }
                        }
                    }
                }
                if !is_dot && v.len() > 0 {
                    let mut cd = owned("  cd ");
                    cd.append(d);
                    Some(cd)
                } else {
                    None
                }
            },
            None => None,
        };
        match named {
            Some(cd) => vec![owned("[init] DekaScript app ready"), cd, owned("  deka serve")],
            None => vec![owned("[init] DekaScript app ready"), owned("  deka serve"), owned("  deka dev")],
        }
    };
    proof {
        assert(string_views(r@) =~= init_report_of(d_view, touched as nat));
    }
    r
}

} // verus!
