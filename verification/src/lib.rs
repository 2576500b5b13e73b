//! A duplicate-file detector: directory trees are scanned, every included
//! file's content is hashed, and files sharing a digest are grouped. Only
//! groups with two or more paths are reported; all but the last path of each
//! group are "removable" — safe to delete while keeping one representative.
use vstd::prelude::*;

pub mod bd;
pub mod hash;

use crate::bd::Bulldozer;
use crate::bd::DigestGroups;
use crate::bd::Entry;
use crate::bd::GroupView;
use crate::bd::ScanError;
use crate::bd::filt_view;
use crate::bd::run_post;

verus! {

/// The command-line request: root paths, an optional extension allow-list,
/// and the flag that skips the interactive confirmation. A thin front end
/// parses the command line into this and performs the prompted deletion.
pub struct Cli {
    /// Paths of the base directories to scan.
    pub base_path: Vec<String>,
    /// Extensions of the files to include; absent means every file.
    pub include_ext: Option<Vec<String>>,
    /// Deletes the removable files without asking.
    pub yes: bool,
}

/// Scans the given roots with the given extension allow-list: the digest
/// groups of the duplicate files, or the first error met.
pub fn cli_run(base_path: Vec<Entry>, include_ext: Option<Vec<String>>) -> (r: Result<
    DigestGroups,
    ScanError,
>)
    ensures
        run_post(base_path@, filt_view(include_ext), r),
{
    let mut bd = Bulldozer::new(base_path);
    bd.set_include_ext(include_ext);
    bd.run()
}

/// The removable paths of a group sequence: every group with two or more
/// paths contributes all its paths but the last, in order.
pub open spec fn removable(gs: Seq<GroupView>) -> Seq<Seq<char>>
    decreases gs.len(),
{
    if gs.len() == 0 {
        Seq::empty()
    } else {
        removable(gs.drop_last()) + (if gs.last().paths.len() > 1 {
            gs.last().paths.drop_last()
        } else {
            Seq::empty()
        })
    }
}

/// The total number of paths in a group sequence.
pub open spec fn total_paths(gs: Seq<GroupView>) -> nat
    decreases gs.len(),
{
    if gs.len() == 0 {
        0
    } else {
        total_paths(gs.drop_last()) + gs.last().paths.len()
    }
}

/// Flattens the duplicate groups to the paths that are safe to delete: for
/// each group all paths but the last, so one representative per group is
/// kept.
pub fn only_one_for_key(map: &DigestGroups) -> (r: Vec<String>)
    ensures
        r.deep_view() == removable(map@),
{
    let mut files: Vec<String> = Vec::new();
    let mut j: usize = 0;
    while j < map.groups.len()
        invariant
            j <= map.groups@.len(),
            files.deep_view() == removable(map@.take(j as int)),
        decreases map.groups@.len() - j,
    {
        let ghost prevj = map@.take(j as int);
        proof {
            assert(map@.take(j + 1int).drop_last() =~= prevj);
            assert(map@.take(j + 1int).last() == map@[j as int]);
        }
        let glen = map.groups[j].1.len();
        if glen > 1 {
            let mut k: usize = 0;
            while k < glen - 1
                invariant
                    map.groups@.len() == map@.len(),
                    j < map@.len(),
                    glen == map@[j as int].paths.len(),
                    glen > 1,
                    k <= glen - 1,
                    files.deep_view() == removable(prevj) + map@[j as int].paths.take(k as int),
                decreases glen - 1 - k,
            {
                let ghost fdv = files.deep_view();
                files.push(map.groups[j].1[k].clone());
                proof {
                    assert(files.deep_view() =~= fdv.push(map@[j as int].paths[k as int]));
                    assert(map@[j as int].paths.take(k + 1int) =~= map@[j as int].paths.take(
                        k as int,
                    ).push(map@[j as int].paths[k as int]));
                    assert(files.deep_view() =~= removable(prevj) + map@[j as int].paths.take(
                        k + 1int,
                    ));
                }
                k = k + 1;
            }
            proof {
                assert(map@[j as int].paths.take(glen - 1int) =~= map@[
                    j as int
                ].paths.drop_last());
                assert(files.deep_view() =~= removable(map@.take(j + 1int)));
            }
        } else {
            proof {
                assert(removable(prevj) + Seq::<Seq<char>>::empty() =~= removable(prevj));
                assert(files.deep_view() =~= removable(map@.take(j + 1int)));
            }
        }
        j = j + 1;
    }
    proof {
        assert(map@.take(map.groups@.len() as int) =~= map@);
    }
    files
}

/// For groups that all hold two or more paths — as every scan result does —
/// the removable paths number exactly the total paths minus one survivor
/// per group.
pub proof fn lemma_removable_count(gs: Seq<GroupView>)
    requires
        forall|j: int| 0 <= j < gs.len() ==> #[trigger] gs[j].paths.len() > 1,
    ensures
        removable(gs).len() + gs.len() == total_paths(gs),
    decreases gs.len(),
{
    if gs.len() > 0 {
        assert(gs.last() == gs[gs.len() - 1]);
        lemma_removable_count(gs.drop_last());
    }
}

} // verus!
