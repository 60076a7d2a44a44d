//! The diff engine: path-level deltas between a tree snapshot and the
//! index.
//!
//! Both inputs are sorted by path, and the engine walks them together,
//! so the output is sorted by path and deterministic. A path only in
//! the index is `Added` (or `Untracked` against an unborn repository,
//! which has no tree at all); a path only in the tree is `Deleted`; a
//! path in both is `Modified` when the digests differ, `Typechange`
//! when only the file-type bits of the mode differ, `Modified` again
//! when only permission bits differ, and `Unmodified` otherwise.
//! `Unmodified` deltas stay in the computed sequence; presentation may
//! suppress them.

use vstd::prelude::*;
use crate::index::{lemma_sorted_paths_unique, lemma_upsert_props, sorted_entries, upsert_seq,
    EntryModel, Index};
use crate::paths::{bytes_cmp, bytes_eq, clone_bytes, lex_lt, lemma_lex_irrefl};
use crate::tree::{tree_entry_of, tree_of, Tree, TreeEntryModel};

verus! {

/// The classification of one path-level difference.
#[derive(Clone, Copy, Debug, PartialEq, Eq, Structural)]
pub enum DeltaStatus {
    Added,
    Modified,
    Deleted,
    Renamed,
    Copied,
    Untracked,
    Ignored,
    Conflicted,
    Unreadable,
    Typechange,
    Unmodified,
}

/// The mathematical model of one delta.
pub struct DeltaModel {
    pub status: DeltaStatus,
    pub old_path: Option<Seq<u8>>,
    pub new_path: Option<Seq<u8>>,
}

/// One path-level difference between two snapshots.
pub struct Delta {
    pub status: DeltaStatus,
    pub old_path: Option<Vec<u8>>,
    pub new_path: Option<Vec<u8>>,
}

impl View for Delta {
    type V = DeltaModel;

    open spec fn view(&self) -> DeltaModel {
        DeltaModel {
            status: self.status,
            old_path: match self.old_path {
                Some(p) => Some(p@),
                None => None,
            },
            new_path: match self.new_path {
                Some(p) => Some(p@),
                None => None,
            },
        }
    }
}

/// The models of a vector of deltas.
pub open spec fn deltas_model(s: Seq<Delta>) -> Seq<DeltaModel> {
    s.map_values(|d: Delta| d@)
}

/// The file-type bits of a mode.
pub open spec fn type_bits(mode: u32) -> u32 {
    mode & 0xF000
}

/// The status of a path present in both snapshots.
pub open spec fn both_status(o: TreeEntryModel, n: EntryModel) -> DeltaStatus {
    if o.digest != n.digest {
        DeltaStatus::Modified
    } else if type_bits(o.mode) != type_bits(n.mode) {
        DeltaStatus::Typechange
    } else if o.mode != n.mode {
        DeltaStatus::Modified
    } else {
        DeltaStatus::Unmodified
    }
}

/// The delta of a path present only in the index.
pub open spec fn added_delta(n: EntryModel, unborn: bool) -> DeltaModel {
    DeltaModel {
        status: if unborn {
            DeltaStatus::Untracked
        } else {
            DeltaStatus::Added
        },
        old_path: None,
        new_path: Some(n.path),
    }
}

/// The delta of a path present only in the tree.
pub open spec fn deleted_delta(o: TreeEntryModel) -> DeltaModel {
    DeltaModel { status: DeltaStatus::Deleted, old_path: Some(o.path), new_path: None }
}

/// The delta of a path present in both snapshots.
pub open spec fn both_delta(o: TreeEntryModel, n: EntryModel) -> DeltaModel {
    DeltaModel { status: both_status(o, n), old_path: Some(o.path), new_path: Some(n.path) }
}

/// The delta sequence of two sorted snapshots: a merge walk in path
/// order, classifying each path by where it appears.
pub open spec fn diff_spec(
    o: Seq<TreeEntryModel>,
    n: Seq<EntryModel>,
    unborn: bool,
) -> Seq<DeltaModel>
    decreases o.len() + n.len(),
{
    if o.len() == 0 && n.len() == 0 {
        Seq::empty()
    } else if o.len() == 0 || (n.len() > 0 && lex_lt(n[0].path, o[0].path)) {
        seq![added_delta(n[0], unborn)] + diff_spec(o, n.skip(1), unborn)
    } else if n.len() == 0 || lex_lt(o[0].path, n[0].path) {
        seq![deleted_delta(o[0])] + diff_spec(o.skip(1), n, unborn)
    } else {
        seq![both_delta(o[0], n[0])] + diff_spec(o.skip(1), n.skip(1), unborn)
    }
}

/// The tree model a diff runs against: the tree's entries, or nothing
/// at all for an unborn repository.
pub open spec fn old_model(old_tree: Option<&Tree>) -> Seq<TreeEntryModel> {
    match old_tree {
        Some(t) => t@,
        None => Seq::empty(),
    }
}

/// Computes the ordered delta sequence between `old_tree` (the parent
/// snapshot, or `None` for an unborn repository) and the index.
pub fn diff(old_tree: Option<&Tree>, ix: &Index) -> (r: Vec<Delta>)
    requires
        match old_tree {
            Some(t) => t.wf(),
            None => true,
        },
        ix.wf(),
    ensures
        deltas_model(r@) == diff_spec(old_model(old_tree), ix@, old_tree is None),
{
    let ghost o = old_model(old_tree);
    let ghost n = ix@;
    let ghost unborn = old_tree is None;
    let tlen: usize = match old_tree {
        Some(t) => t.len(),
        None => 0,
    };
    let nlen: usize = ix.len();
    let mut r: Vec<Delta> = Vec::new();
    let mut i: usize = 0;
    let mut j: usize = 0;
    proof {
        assert(o.skip(0) =~= o);
        assert(n.skip(0) =~= n);
        assert(deltas_model(r@) =~= Seq::<DeltaModel>::empty());
    }
    while i < tlen || j < nlen
        invariant
            match old_tree {
                Some(t) => t.wf() && o == t@,
                None => o == Seq::<TreeEntryModel>::empty(),
            },
            ix.wf(),
            n == ix@,
            unborn == (old_tree is None),
            tlen == o.len(),
            nlen == n.len(),
            i <= tlen,
            j <= nlen,
            diff_spec(o, n, unborn) == deltas_model(r@) + diff_spec(
                o.skip(i as int),
                n.skip(j as int),
                unborn,
            ),
        decreases (tlen - i) + (nlen - j),
    {
        let ghost os = o.skip(i as int);
        let ghost ns = n.skip(j as int);
        let ghost dm = deltas_model(r@);
        proof {
            if i < tlen {
                assert(os[0] == o[i as int]);
                assert(os.skip(1) =~= o.skip(i + 1));
            }
            if j < nlen {
                assert(ns[0] == n[j as int]);
                assert(ns.skip(1) =~= n.skip(j + 1));
            }
        }
        // 0: the path stands only in the index; 1: only in the tree;
        // 2: in both
        let side: u8;
        if i >= tlen {
            side = 0;
        } else if j >= nlen {
            side = 1;
        } else {
            let c = match old_tree {
                Some(t) => bytes_cmp(&t.entry_at(i).path, &ix.entry_at(j).path),
                None => 0,
            };
            if c == 1 {
                side = 0;
            } else if c == -1 {
                side = 1;
            } else {
                side = 2;
            }
        }
        if side == 0 {
            {
                let e = ix.entry_at(j);
                let d = Delta {
                    status: if old_tree.is_none() {
                        DeltaStatus::Untracked
                    } else {
                        DeltaStatus::Added
                    },
                    old_path: None,
                    new_path: Some(clone_bytes(&e.path)),
                };
                proof {
                    assert(d@ == added_delta(n[j as int], unborn));
                    assert(diff_spec(os, ns, unborn) == seq![added_delta(n[j as int], unborn)]
                        + diff_spec(os, ns.skip(1), unborn));
                }
                r.push(d);
                proof {
                    assert(deltas_model(r@) =~= dm + seq![added_delta(n[j as int], unborn)]);
                    assert(dm + diff_spec(os, ns, unborn) =~= deltas_model(r@) + diff_spec(
                        os,
                        n.skip(j + 1),
                        unborn,
                    ));
                }
                j += 1;
            }
        } else if side == 1 {
            {
                let te = match old_tree {
                    Some(t) => t.entry_at(i),
                    None => vstd::pervasive::unreached(),
                };
                let d = Delta {
                    status: DeltaStatus::Deleted,
                    old_path: Some(clone_bytes(&te.path)),
                    new_path: None,
                };
                proof {
                    assert(d@ == deleted_delta(o[i as int]));
                    assert(lex_lt(o[i as int].path, n.skip(j as int)[0].path) || j >= nlen);
                    assert(diff_spec(os, ns, unborn) == seq![deleted_delta(o[i as int])]
                        + diff_spec(os.skip(1), ns, unborn));
                }
                r.push(d);
                proof {
                    assert(deltas_model(r@) =~= dm + seq![deleted_delta(o[i as int])]);
                    assert(dm + diff_spec(os, ns, unborn) =~= deltas_model(r@) + diff_spec(
                        o.skip(i + 1),
                        ns,
                        unborn,
                    ));
                }
                i += 1;
            }
        } else {
            {
                let te = match old_tree {
                    Some(t) => t.entry_at(i),
                    None => vstd::pervasive::unreached(),
                };
                let e = ix.entry_at(j);
                let status = if !bytes_eq(&te.digest, &e.digest) {
                    DeltaStatus::Modified
                } else if (te.mode & 0xF000) != (e.mode & 0xF000) {
                    DeltaStatus::Typechange
                } else if te.mode != e.mode {
                    DeltaStatus::Modified
                } else {
                    DeltaStatus::Unmodified
                };
                let d = Delta {
                    status,
                    old_path: Some(clone_bytes(&te.path)),
                    new_path: Some(clone_bytes(&e.path)),
                };
                proof {
                    lemma_lex_irrefl(o[i as int].path);
                    assert(d@ == both_delta(o[i as int], n[j as int]));
                    assert(diff_spec(os, ns, unborn) == seq![both_delta(o[i as int], n[j as int])]
                        + diff_spec(os.skip(1), ns.skip(1), unborn));
                }
                r.push(d);
                proof {
                    assert(deltas_model(r@) =~= dm + seq![both_delta(o[i as int], n[j as int])]);
                    assert(dm + diff_spec(os, ns, unborn) =~= deltas_model(r@) + diff_spec(
                        o.skip(i + 1),
                        n.skip(j + 1),
                        unborn,
                    ));
                }
                i += 1;
                j += 1;
            }
        }
    }
    proof {
        assert(o.skip(i as int).len() == 0);
        assert(n.skip(j as int).len() == 0);
        assert(deltas_model(r@) + diff_spec(o.skip(i as int), n.skip(j as int), unborn)
            =~= deltas_model(r@));
    }
    r
}

/// Every delta of the sequence is `Unmodified`.
pub open spec fn all_unmodified(ds: Seq<DeltaModel>) -> bool {
    forall|i: int| 0 <= i < ds.len() ==> ds[i].status == DeltaStatus::Unmodified
}

/// Whether any delta reports a difference.
pub fn has_changes(ds: &Vec<Delta>) -> (r: bool)
    ensures
        r <==> !all_unmodified(deltas_model(ds@)),
{
    let n: usize = ds.len();
    let mut i: usize = 0;
    while i < n
        invariant
            n == ds@.len(),
            i <= n,
            forall|k: int|
                0 <= k < i ==> deltas_model(ds@)[k].status == DeltaStatus::Unmodified,
        decreases n - i,
    {
        let is_unmodified = match ds[i].status {
            DeltaStatus::Unmodified => true,
            _ => false,
        };
        if !is_unmodified {
            proof {
                assert(deltas_model(ds@)[i as int].status != DeltaStatus::Unmodified);
            }
            return true;
        }
        i += 1;
    }
    false
}

/// The two-column status code of a delta, as the status output prints
/// it; `Unmodified` has none and is suppressed there.
pub fn status_code(status: DeltaStatus) -> (r: &'static str)
    ensures
        status == DeltaStatus::Added ==> r@ == " A"@,
        status == DeltaStatus::Modified ==> r@ == " M"@,
        status == DeltaStatus::Typechange ==> r@ == " M"@,
        status == DeltaStatus::Deleted ==> r@ == " D"@,
        status == DeltaStatus::Renamed ==> r@ == " R"@,
        status == DeltaStatus::Copied ==> r@ == " C"@,
        status == DeltaStatus::Untracked ==> r@ == "??"@,
        status == DeltaStatus::Ignored ==> r@ == "!!"@,
        status == DeltaStatus::Conflicted ==> r@ == "UU"@,
        status == DeltaStatus::Unreadable ==> r@ == "XX"@,
        status == DeltaStatus::Unmodified ==> r@ == ""@,
{
    match status {
        DeltaStatus::Added => " A",
        DeltaStatus::Modified => " M",
        DeltaStatus::Typechange => " M",
        DeltaStatus::Deleted => " D",
        DeltaStatus::Renamed => " R",
        DeltaStatus::Copied => " C",
        DeltaStatus::Untracked => "??",
        DeltaStatus::Ignored => "!!",
        DeltaStatus::Conflicted => "UU",
        DeltaStatus::Unreadable => "XX",
        DeltaStatus::Unmodified => "",
    }
}

/// Against an unborn repository every index entry appears exactly once,
/// tagged `Untracked`, in index order.
pub proof fn lemma_diff_unborn(n: Seq<EntryModel>)
    ensures
        diff_spec(Seq::empty(), n, true).len() == n.len(),
        forall|i: int|
            0 <= i < n.len() ==> diff_spec(Seq::empty(), n, true)[i] == added_delta(n[i], true),
    decreases n.len(),
{
    if n.len() > 0 {
        lemma_diff_unborn(n.skip(1));
        assert(diff_spec(Seq::empty(), n, true) == seq![added_delta(n[0], true)] + diff_spec(
            Seq::empty(),
            n.skip(1),
            true,
        ));
        assert forall|i: int|
            0 <= i < n.len() implies diff_spec(Seq::empty(), n, true)[i] == added_delta(
            n[i],
            true,
        ) by {
            if i > 0 {
                assert(diff_spec(Seq::empty(), n, true)[i] == diff_spec(
                    Seq::empty(),
                    n.skip(1),
                    true,
                )[i - 1]);
                assert(n.skip(1)[i - 1] == n[i]);
            }
        }
    }
}

/// Diffing a tree frozen from the index against that same index yields
/// only `Unmodified` deltas: the stage, commit, status round trip is
/// clean.
pub proof fn lemma_diff_self_clean(n: Seq<EntryModel>)
    ensures
        diff_spec(tree_of(n), n, false).len() == n.len(),
        all_unmodified(diff_spec(tree_of(n), n, false)),
    decreases n.len(),
{
    let t = tree_of(n);
    if n.len() == 0 {
    } else {
        lemma_lex_irrefl(n[0].path);
        assert(t[0] == tree_entry_of(n[0]));
        assert(both_status(t[0], n[0]) == DeltaStatus::Unmodified);
        assert(t.skip(1) =~= tree_of(n.skip(1))) by {
            assert(forall|i: int| 0 <= i < t.len() - 1 ==> t.skip(1)[i] == t[i + 1]);
            assert(forall|i: int|
                0 <= i < n.len() - 1 ==> #[trigger] tree_of(n.skip(1))[i] == tree_entry_of(
                    n[i + 1],
                ));
        }
        lemma_diff_self_clean(n.skip(1));
        assert(diff_spec(t, n, false) == seq![both_delta(t[0], n[0])] + diff_spec(
            tree_of(n.skip(1)),
            n.skip(1),
            false,
        ));
        assert forall|i: int|
            0 <= i < diff_spec(t, n, false).len() implies diff_spec(t, n, false)[i].status
            == DeltaStatus::Unmodified by {
            if i > 0 {
                assert(diff_spec(t, n, false)[i] == diff_spec(tree_of(n.skip(1)), n.skip(1), false)[
                    i - 1]);
            }
        }
    }
}

/// After staging a path, the status against an unborn repository
/// reports that path exactly once, tagged `Untracked`.
pub proof fn lemma_stage_then_unborn_status(s: Seq<EntryModel>, e: EntryModel)
    requires
        sorted_entries(s),
    ensures
        ({
            let ds = diff_spec(Seq::empty(), upsert_seq(s, e), true);
            exists|k: int|
                0 <= k < ds.len() && (#[trigger] ds[k]) == added_delta(e, true) && (forall|j: int|
                    0 <= j < ds.len() && j != k ==> (#[trigger] ds[j]).new_path != Some(e.path))
        }),
{
    let after = upsert_seq(s, e);
    let ds = diff_spec(Seq::empty(), after, true);
    lemma_upsert_props(s, e);
    lemma_diff_unborn(after);
    lemma_sorted_paths_unique(after);
    let k = choose|k: int| 0 <= k < after.len() && after[k] == e;
    assert(ds[k] == added_delta(e, true));
    assert forall|j: int| 0 <= j < ds.len() && j != k implies (#[trigger] ds[j]).new_path != Some(
        e.path,
    ) by {
        assert(ds[j] == added_delta(after[j], true));
        assert(after[j].path != after[k].path);
    }
}

/// The first index entry carrying digest `d` under a path the old tree
/// does not hold: the exact-digest rename heuristic's candidate.
pub open spec fn first_added_with_digest(
    t: Seq<TreeEntryModel>,
    n: Seq<EntryModel>,
    d: Seq<u8>,
) -> Option<Seq<u8>>
    decreases n.len(),
{
    if n.len() == 0 {
        None
    } else if n[0].digest == d && crate::tree::tree_find(t, n[0].path) is None {
        Some(n[0].path)
    } else {
        first_added_with_digest(t, n.skip(1), d)
    }
}

/// The rename candidate of a deleted path, under the exact-digest
/// heuristic: the first added path (present in the index, absent from
/// the old tree) whose content digest equals the deleted file's. A
/// similarity search beyond equal content is not attempted.
pub fn rename_candidate(t: &Tree, ix: &Index, deleted_path: &Vec<u8>) -> (r: Option<Vec<u8>>)
    ensures
        match crate::tree::tree_find(t@, deleted_path@) {
            None => r is None,
            Some(te) => match r {
                Some(q) => first_added_with_digest(t@, ix@, te.digest) == Some(q@),
                None => first_added_with_digest(t@, ix@, te.digest) is None,
            },
        },
{
    let te = match t.find(deleted_path) {
        None => {
            return None;
        },
        Some(te) => te,
    };
    let n: usize = ix.len();
    let mut i: usize = 0;
    proof {
        assert(ix@.skip(0) =~= ix@);
    }
    while i < n
        invariant
            n == ix@.len(),
            i <= n,
            crate::tree::tree_find(t@, deleted_path@) == Some(te@),
            first_added_with_digest(t@, ix@, te.digest@) == first_added_with_digest(
                t@,
                ix@.skip(i as int),
                te.digest@,
            ),
        decreases n - i,
    {
        proof {
            assert(ix@.skip(i as int)[0] == ix@[i as int]);
            assert(ix@.skip(i as int).skip(1) =~= ix@.skip(i + 1));
        }
        let e = ix.entry_at(i);
        if bytes_eq(&e.digest, &te.digest) {
            if t.find(&e.path).is_none() {
                return Some(clone_bytes(&e.path));
            }
        }
        i += 1;
    }
    None
}

} // verus!
