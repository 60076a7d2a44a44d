//! The index: the ordered table of staged paths.
//!
//! Entries are kept strictly sorted by path, so iteration order, diff
//! output and the trees frozen from the index are deterministic.

use vstd::prelude::*;
use crate::paths::{bytes_cmp, clone_bytes, lex_lt, lemma_lex_trans, lemma_lex_trichotomy};
use crate::tree::{tree_entry_of, tree_find, tree_of, Tree, TreeEntryModel};
use crate::OpError;

verus! {

/// The mathematical model of one staged entry.
pub struct EntryModel {
    pub path: Seq<u8>,
    pub digest: Seq<u8>,
    pub mode: u32,
    pub uid: u32,
    pub gid: u32,
    pub ino: u32,
    pub dev: u32,
    pub size: u32,
    pub ctime: i32,
    pub mtime: i32,
}

/// One staged path with its content digest and filesystem metadata.
pub struct IndexEntry {
    pub path: Vec<u8>,
    pub digest: Vec<u8>,
    pub mode: u32,
    pub uid: u32,
    pub gid: u32,
    pub ino: u32,
    pub dev: u32,
    pub size: u32,
    pub ctime: i32,
    pub mtime: i32,
}

impl View for IndexEntry {
    type V = EntryModel;

    open spec fn view(&self) -> EntryModel {
        EntryModel {
            path: self.path@,
            digest: self.digest@,
            mode: self.mode,
            uid: self.uid,
            gid: self.gid,
            ino: self.ino,
            dev: self.dev,
            size: self.size,
            ctime: self.ctime,
            mtime: self.mtime,
        }
    }
}

/// Filesystem metadata as the platform reports it, before the width
/// checks of [`Index::stage`].
#[derive(Clone, Copy)]
pub struct RawMetadata {
    pub mode: u32,
    pub uid: u32,
    pub gid: u32,
    pub ino: u64,
    pub dev: u64,
    pub size: u64,
    pub ctime: i64,
    pub mtime: i64,
}

/// Entries strictly sorted by path.
pub open spec fn sorted_entries(s: Seq<EntryModel>) -> bool {
    forall|i: int, j: int| 0 <= i < j < s.len() ==> lex_lt(s[i].path, s[j].path)
}

/// Every entry's path is a valid relative path.
pub open spec fn entry_paths_valid(s: Seq<EntryModel>) -> bool {
    forall|i: int| 0 <= i < s.len() ==> is_valid_rel_path((#[trigger] s[i]).path)
}

/// `s` with `e` inserted at its sorted position, replacing an entry
/// that already carries the same path.
pub open spec fn upsert_seq(s: Seq<EntryModel>, e: EntryModel) -> Seq<EntryModel>
    decreases s.len(),
{
    if s.len() == 0 {
        seq![e]
    } else if lex_lt(e.path, s[0].path) {
        seq![e] + s
    } else if e.path == s[0].path {
        seq![e] + s.skip(1)
    } else {
        seq![s[0]] + upsert_seq(s.skip(1), e)
    }
}

/// `s` with the entry carrying path `p` removed, if any.
pub open spec fn remove_path_seq(s: Seq<EntryModel>, p: Seq<u8>) -> Seq<EntryModel>
    decreases s.len(),
{
    if s.len() == 0 {
        s
    } else if s[0].path == p {
        s.skip(1)
    } else {
        seq![s[0]] + remove_path_seq(s.skip(1), p)
    }
}

/// In a sorted entry sequence no two positions carry the same path.
pub proof fn lemma_sorted_paths_unique(s: Seq<EntryModel>)
    requires
        sorted_entries(s),
    ensures
        forall|i: int, j: int|
            0 <= i < s.len() && 0 <= j < s.len() && i != j ==> s[i].path != s[j].path,
{
    assert forall|i: int, j: int|
        0 <= i < s.len() && 0 <= j < s.len() && i != j implies s[i].path != s[j].path by {
        if i < j {
            lemma_lex_trichotomy(s[i].path, s[j].path);
        } else {
            lemma_lex_trichotomy(s[j].path, s[i].path);
        }
    }
}

/// The shape of [`upsert_seq`] at the insertion position `k`, and the
/// sortedness of its result.
pub proof fn lemma_upsert_at(s: Seq<EntryModel>, e: EntryModel, k: int)
    requires
        sorted_entries(s),
        0 <= k <= s.len(),
        forall|i: int| 0 <= i < k ==> lex_lt(s[i].path, e.path),
        k < s.len() ==> !lex_lt(s[k].path, e.path),
    ensures
        k < s.len() && s[k].path == e.path ==> upsert_seq(s, e) == s.take(k) + seq![e] + s.skip(
            k + 1,
        ),
        !(k < s.len() && s[k].path == e.path) ==> upsert_seq(s, e) == s.take(k) + seq![e] + s.skip(
            k,
        ),
        sorted_entries(upsert_seq(s, e)),
    decreases k,
{
    if k == 0 {
        if s.len() == 0 {
            assert(upsert_seq(s, e) =~= s.take(0) + seq![e] + s.skip(0));
            assert(sorted_entries(upsert_seq(s, e)));
        } else if s[0].path == e.path {
            assert(upsert_seq(s, e) =~= s.take(0) + seq![e] + s.skip(1));
            assert forall|i: int, j: int|
                0 <= i < j < upsert_seq(s, e).len() implies lex_lt(
                upsert_seq(s, e)[i].path,
                upsert_seq(s, e)[j].path,
            ) by {
                if i == 0 {
                    assert(upsert_seq(s, e)[j] == s[j]);
                    assert(lex_lt(s[0].path, s[j].path));
                } else {
                    assert(upsert_seq(s, e)[i] == s[i]);
                    assert(upsert_seq(s, e)[j] == s[j]);
                }
            }
        } else {
            lemma_lex_trichotomy(s[0].path, e.path);
            assert(lex_lt(e.path, s[0].path));
            assert(upsert_seq(s, e) =~= s.take(0) + seq![e] + s.skip(0));
            assert forall|i: int, j: int|
                0 <= i < j < upsert_seq(s, e).len() implies lex_lt(
                upsert_seq(s, e)[i].path,
                upsert_seq(s, e)[j].path,
            ) by {
                if i == 0 {
                    assert(upsert_seq(s, e)[j] == s[j - 1]);
                    if j > 1 {
                        lemma_lex_trans(e.path, s[0].path, s[j - 1].path);
                    }
                } else {
                    assert(upsert_seq(s, e)[i] == s[i - 1]);
                    assert(upsert_seq(s, e)[j] == s[j - 1]);
                }
            }
        }
    } else {
        assert(lex_lt(s[0].path, e.path));
        let tail = s.skip(1);
        assert(sorted_entries(tail)) by {
            assert(forall|i: int, j: int|
                0 <= i < j < tail.len() ==> lex_lt(tail[i].path, tail[j].path)) by {
                assert(forall|i: int| 0 <= i < tail.len() ==> tail[i] == s[i + 1]);
            }
        }
        assert(forall|i: int| 0 <= i < k - 1 ==> lex_lt(tail[i].path, e.path)) by {
            assert(forall|i: int| 0 <= i < tail.len() ==> tail[i] == s[i + 1]);
        }
        assert(k - 1 < tail.len() ==> !lex_lt(tail[k - 1].path, e.path));
        lemma_upsert_at(tail, e, k - 1);
        lemma_lex_trichotomy(e.path, s[0].path);
        assert(upsert_seq(s, e) == seq![s[0]] + upsert_seq(tail, e));
        if k < s.len() && s[k].path == e.path {
            assert(tail[k - 1].path == e.path);
            assert(upsert_seq(tail, e) == tail.take(k - 1) + seq![e] + tail.skip(k));
            assert(upsert_seq(s, e) =~= s.take(k) + seq![e] + s.skip(k + 1));
        } else {
            assert(!(k - 1 < tail.len() && tail[k - 1].path == e.path));
            assert(upsert_seq(tail, e) == tail.take(k - 1) + seq![e] + tail.skip(k - 1));
            assert(upsert_seq(s, e) =~= s.take(k) + seq![e] + s.skip(k));
        }
        // sortedness: head below everything in the sorted tail result
        let r = upsert_seq(s, e);
        let rt = upsert_seq(tail, e);
        assert forall|i: int, j: int| 0 <= i < j < r.len() implies lex_lt(
            r[i].path,
            r[j].path,
        ) by {
            if i == 0 {
                assert(r[j] == rt[j - 1]);
                if k < s.len() && s[k].path == e.path {
                    assert(rt == tail.take(k - 1) + seq![e] + tail.skip(k));
                } else {
                    assert(rt == tail.take(k - 1) + seq![e] + tail.skip(k - 1));
                }
                if rt[j - 1].path == e.path {
                    assert(lex_lt(s[0].path, e.path));
                } else {
                    // every entry of the tail result other than e comes
                    // from the tail, above s[0]
                    if j - 1 < k - 1 {
                        assert(rt[j - 1] == tail[j - 1]);
                        assert(lex_lt(s[0].path, tail[j - 1].path));
                    } else if k < s.len() && s[k].path == e.path {
                        if j - 1 > k - 1 {
                            assert(rt[j - 1] == tail[j - 1]);
                        }
                    } else {
                        if j - 1 > k - 1 {
                            assert(rt[j - 1] == tail[j - 2]);
                        }
                    }
                }
            } else {
                assert(r[i] == rt[i - 1]);
                assert(r[j] == rt[j - 1]);
            }
        }
    }
}

/// The sequence of entry models that a vector of entries denotes.
pub open spec fn entries_model(s: Seq<IndexEntry>) -> Seq<EntryModel> {
    s.map_values(|e: IndexEntry| e@)
}

/// The staging area: an ordered table of staged paths, each with the
/// digest of its content and its filesystem metadata.
pub struct Index {
    entries: Vec<IndexEntry>,
}

impl View for Index {
    type V = Seq<EntryModel>;

    closed spec fn view(&self) -> Seq<EntryModel> {
        entries_model(self.entries@)
    }
}

/// A path the index accepts: nonempty and relative.
pub open spec fn is_valid_rel_path(p: Seq<u8>) -> bool {
    p.len() > 0 && p[0] != 47u8
}

/// Whether every numeric metadata field fits the width the index
/// stores it in.
pub open spec fn meta_fits(m: RawMetadata) -> bool {
    m.ino <= u32::MAX && m.dev <= u32::MAX && m.size <= u32::MAX && i32::MIN <= m.ctime
        <= i32::MAX && i32::MIN <= m.mtime <= i32::MAX
}

/// The entry model that staging `path` with `digest` and metadata `m`
/// produces.
pub open spec fn staged_entry(path: Seq<u8>, digest: Seq<u8>, m: RawMetadata) -> EntryModel {
    EntryModel {
        path: path,
        digest: digest,
        mode: m.mode,
        uid: m.uid,
        gid: m.gid,
        ino: m.ino as u32,
        dev: m.dev as u32,
        size: m.size as u32,
        ctime: m.ctime as i32,
        mtime: m.mtime as i32,
    }
}

/// A seconds-precision timestamp in the width the index stores, or
/// [`OpError::MetadataOverflow`] when `time` does not fit it.
pub fn to_index_time(time: i64) -> (r: Result<i32, OpError>)
    ensures
        i32::MIN <= time <= i32::MAX ==> r == Ok::<i32, OpError>(time as i32),
        !(i32::MIN <= time <= i32::MAX) ==> r == Err::<i32, OpError>(OpError::MetadataOverflow),
{
    if time >= i32::MIN as i64 && time <= i32::MAX as i64 {
        Ok(time as i32)
    } else {
        Err(OpError::MetadataOverflow)
    }
}

impl Index {
    /// Entries strictly sorted by path, each path a valid relative one.
    pub open spec fn wf(&self) -> bool {
        sorted_entries(self@) && entry_paths_valid(self@)
    }

    /// An empty index.
    pub fn new() -> (r: Index)
        ensures
            r@ == Seq::<EntryModel>::empty(),
            r.wf(),
    {
        let r = Index { entries: Vec::new() };
        proof {
            assert(r@ =~= Seq::<EntryModel>::empty());
        }
        r
    }

    /// The number of staged paths.
    pub fn len(&self) -> (r: usize)
        ensures
            r == self@.len(),
    {
        self.entries.len()
    }

    /// Whether nothing is staged.
    pub fn is_empty(&self) -> (r: bool)
        ensures
            r == (self@.len() == 0),
    {
        self.entries.len() == 0
    }

    /// The entry at position `i` in sorted path order.
    pub fn entry_at(&self, i: usize) -> (r: &IndexEntry)
        requires
            i < self@.len(),
        ensures
            r@ == self@[i as int],
    {
        &self.entries[i]
    }

    /// The position the path would occupy, and whether an entry already
    /// carries it.
    fn find_pos(&self, path: &Vec<u8>) -> (r: (usize, bool))
        requires
            self.wf(),
        ensures
            r.0 <= self@.len(),
            forall|i: int| 0 <= i < r.0 ==> lex_lt(self@[i].path, path@),
            r.1 <==> r.0 < self@.len() && self@[r.0 as int].path == path@,
            !r.1 && r.0 < self@.len() ==> lex_lt(path@, self@[r.0 as int].path),
    {
        let n: usize = self.entries.len();
        let mut k: usize = 0;
        while k < n
            invariant
                self.wf(),
                n == self@.len(),
                k <= n,
                forall|i: int| 0 <= i < k ==> lex_lt(self@[i].path, path@),
            decreases n - k,
        {
            let c = bytes_cmp(&self.entries[k].path, path);
            if c == 0 {
                return (k, true);
            }
            if c == 1 {
                return (k, false);
            }
            proof {
                assert(lex_lt(self@[k as int].path, path@));
            }
            k += 1;
        }
        (k, false)
    }

    /// Inserts `e` at its sorted position, replacing any entry with the
    /// same path.
    fn upsert(&mut self, e: IndexEntry)
        requires
            old(self).wf(),
            is_valid_rel_path(e@.path),
        ensures
            final(self).wf(),
            final(self)@ == upsert_seq(old(self)@, e@),
    {
        let (k, found) = self.find_pos(&e.path);
        let ghost pre = self@;
        proof {
            if (k as int) < pre.len() {
                lemma_lex_trichotomy(pre[k as int].path, e@.path);
            }
            lemma_upsert_at(pre, e@, k as int);
        }
        if found {
            self.entries.remove(k);
            self.entries.insert(k, e);
            proof {
                assert(self@ =~= pre.take(k as int) + seq![e@] + pre.skip(k as int + 1));
            }
        } else {
            self.entries.insert(k, e);
            proof {
                assert(self@ =~= pre.take(k as int) + seq![e@] + pre.skip(k as int));
            }
        }
        proof {
            assert forall|i: int|
                0 <= i < self@.len() implies is_valid_rel_path((#[trigger] self@[i]).path) by {
                if i != k {
                    if found {
                        assert(self@[i] == pre[i]);
                    } else {
                        assert(self@[i] == (if i < k { pre[i] } else { pre[i - 1] }));
                    }
                }
            }
        }
    }

    /// Stages `path` with the digest of its content and its metadata:
    /// upserts the entry at its sorted position. Rejects a path that is
    /// not relative and nonempty with [`OpError::PathOutsideRoot`], and
    /// metadata fields that do not fit their stored width with
    /// [`OpError::MetadataOverflow`]; a failure leaves the index
    /// unchanged.
    pub fn stage(&mut self, path: Vec<u8>, digest: Vec<u8>, meta: RawMetadata) -> (r: Result<
        (),
        OpError,
    >)
        requires
            old(self).wf(),
        ensures
            final(self).wf(),
            !is_valid_rel_path(path@) ==> r == Err::<(), OpError>(OpError::PathOutsideRoot),
            is_valid_rel_path(path@) && !meta_fits(meta) ==> r == Err::<(), OpError>(
                OpError::MetadataOverflow,
            ),
            is_valid_rel_path(path@) && meta_fits(meta) ==> r is Ok && final(self)@ == upsert_seq(
                old(self)@,
                staged_entry(path@, digest@, meta),
            ),
            r is Err ==> final(self)@ == old(self)@,
    {
        if path.len() == 0 || path[0] == 47u8 {
            return Err(OpError::PathOutsideRoot);
        }
        if meta.ino > u32::MAX as u64 || meta.dev > u32::MAX as u64 || meta.size > u32::MAX as u64 {
            return Err(OpError::MetadataOverflow);
        }
        let ctime = match to_index_time(meta.ctime) {
            Ok(t) => t,
            Err(e) => {
                return Err(e);
            },
        };
        let mtime = match to_index_time(meta.mtime) {
            Ok(t) => t,
            Err(e) => {
                return Err(e);
            },
        };
        let e = IndexEntry {
            path: path,
            digest: digest,
            mode: meta.mode,
            uid: meta.uid,
            gid: meta.gid,
            ino: meta.ino as u32,
            dev: meta.dev as u32,
            size: meta.size as u32,
            ctime: ctime,
            mtime: mtime,
        };
        self.upsert(e);
        Ok(())
    }

    /// Discards every staged entry.
    pub fn clear(&mut self)
        ensures
            final(self).wf(),
            final(self)@ == Seq::<EntryModel>::empty(),
    {
        self.entries.clear();
        proof {
            assert(self@ =~= Seq::<EntryModel>::empty());
        }
    }

    /// Every staged path, in sorted order.
    pub fn paths(&self) -> (r: Vec<Vec<u8>>)
        ensures
            r@.len() == self@.len(),
            forall|i: int| 0 <= i < r@.len() ==> r@[i]@ == self@[i].path,
    {
        let n: usize = self.entries.len();
        let mut r: Vec<Vec<u8>> = Vec::new();
        let mut i: usize = 0;
        while i < n
            invariant
                n == self@.len(),
                i <= n,
                r@.len() == i,
                forall|k: int| 0 <= k < i ==> r@[k]@ == self@[k].path,
            decreases n - i,
        {
            r.push(clone_bytes(&self.entries[i].path));
            i += 1;
        }
        r
    }
}

/// The index entry that restoring a tree entry yields: its path,
/// digest and mode, with the volatile metadata cleared.
pub open spec fn entry_of_tree(te: TreeEntryModel) -> EntryModel {
    EntryModel {
        path: te.path,
        digest: te.digest,
        mode: te.mode,
        uid: 0,
        gid: 0,
        ino: 0,
        dev: 0,
        size: 0,
        ctime: 0,
        mtime: 0,
    }
}

/// The index contents that restoring a whole tree yields.
pub open spec fn index_of_tree(s: Seq<TreeEntryModel>) -> Seq<EntryModel> {
    s.map_values(|te: TreeEntryModel| entry_of_tree(te))
}

/// What resetting an index to a tree yields: the restored tree
/// contents, whatever was staged before.
pub open spec fn reset_model(s: Seq<EntryModel>, t: Seq<TreeEntryModel>) -> Seq<EntryModel> {
    index_of_tree(t)
}

/// The models of a vector of paths.
pub open spec fn paths_model(ps: Seq<Vec<u8>>) -> Seq<Seq<u8>> {
    ps.map_values(|p: Vec<u8>| p@)
}

/// Restoring one path: the tree's entry replaces the staged one, and a
/// path the tree does not hold leaves the index.
pub open spec fn apply_reset_one(
    s: Seq<EntryModel>,
    p: Seq<u8>,
    t: Seq<TreeEntryModel>,
) -> Seq<EntryModel> {
    match tree_find(t, p) {
        Some(te) => upsert_seq(s, entry_of_tree(te)),
        None => remove_path_seq(s, p),
    }
}

/// Restoring the named paths in order, leaving all others untouched.
pub open spec fn reset_paths_model(
    s: Seq<EntryModel>,
    ps: Seq<Seq<u8>>,
    t: Seq<TreeEntryModel>,
) -> Seq<EntryModel>
    decreases ps.len(),
{
    if ps.len() == 0 {
        s
    } else {
        reset_paths_model(apply_reset_one(s, ps[0], t), ps.skip(1), t)
    }
}

/// Restoring one more path continues from the state the earlier paths
/// left behind.
pub proof fn lemma_reset_paths_split(
    s: Seq<EntryModel>,
    ps: Seq<Seq<u8>>,
    p: Seq<u8>,
    t: Seq<TreeEntryModel>,
)
    ensures
        reset_paths_model(s, ps.push(p), t) == apply_reset_one(reset_paths_model(s, ps, t), p, t),
    decreases ps.len(),
{
    if ps.len() == 0 {
        assert(ps.push(p)[0] == p);
        assert(ps.push(p).skip(1) =~= Seq::<Seq<u8>>::empty());
        assert(reset_paths_model(s, ps.push(p), t) == reset_paths_model(
            apply_reset_one(s, p, t),
            Seq::<Seq<u8>>::empty(),
            t,
        ));
        assert(reset_paths_model(apply_reset_one(s, p, t), Seq::<Seq<u8>>::empty(), t)
            == apply_reset_one(s, p, t));
        assert(reset_paths_model(s, ps, t) == s);
    } else {
        assert(ps.push(p)[0] == ps[0]);
        assert(ps.push(p).skip(1) =~= ps.skip(1).push(p));
        lemma_reset_paths_split(apply_reset_one(s, ps[0], t), ps.skip(1), p, t);
        assert(reset_paths_model(s, ps.push(p), t) == reset_paths_model(
            apply_reset_one(s, ps[0], t),
            ps.skip(1).push(p),
            t,
        ));
        assert(reset_paths_model(s, ps, t) == reset_paths_model(
            apply_reset_one(s, ps[0], t),
            ps.skip(1),
            t,
        ));
    }
}

/// The shape of [`remove_path_seq`] at the position `k` of the path,
/// and the sortedness of its result.
pub proof fn lemma_remove_at(s: Seq<EntryModel>, p: Seq<u8>, k: int)
    requires
        sorted_entries(s),
        0 <= k <= s.len(),
        forall|i: int| 0 <= i < k ==> lex_lt(s[i].path, p),
        k < s.len() ==> !lex_lt(s[k].path, p),
    ensures
        k < s.len() && s[k].path == p ==> remove_path_seq(s, p) == s.take(k) + s.skip(k + 1),
        !(k < s.len() && s[k].path == p) ==> remove_path_seq(s, p) == s,
        sorted_entries(remove_path_seq(s, p)),
    decreases s.len(),
{
    if s.len() == 0 {
        assert(remove_path_seq(s, p) == s);
    } else if s[0].path == p {
        // k must be 0 here: earlier entries would be below p
        assert(k == 0) by {
            if k > 0 {
                lemma_lex_trichotomy(s[0].path, p);
            }
        }
        assert(remove_path_seq(s, p) == s.skip(1));
        assert(remove_path_seq(s, p) =~= s.take(0) + s.skip(1));
        assert forall|i: int, j: int| 0 <= i < j < s.skip(1).len() implies lex_lt(
            s.skip(1)[i].path,
            s.skip(1)[j].path,
        ) by {
            assert(s.skip(1)[i] == s[i + 1]);
            assert(s.skip(1)[j] == s[j + 1]);
        }
    } else {
        let tail = s.skip(1);
        assert(sorted_entries(tail)) by {
            assert(forall|i: int| 0 <= i < tail.len() ==> tail[i] == s[i + 1]);
        }
        assert(remove_path_seq(s, p) == seq![s[0]] + remove_path_seq(tail, p));
        if k == 0 {
            // p is below every entry, or distinct from s[0] yet not above it
            lemma_lex_trichotomy(s[0].path, p);
            assert(lex_lt(p, s[0].path));
            assert forall|i: int| 0 <= i < tail.len() implies tail[i].path != p by {
                assert(tail[i] == s[i + 1]);
                lemma_lex_trans(p, s[0].path, s[i + 1].path);
                lemma_lex_trichotomy(s[i + 1].path, p);
            }
            assert(0 < tail.len() ==> !lex_lt(tail[0].path, p)) by {
                if 0 < tail.len() {
                    lemma_lex_trans(p, s[0].path, s[1].path);
                    lemma_lex_trichotomy(tail[0].path, p);
                }
            }
            lemma_remove_at(tail, p, 0);
            assert(remove_path_seq(s, p) =~= s);
        } else {
            assert(forall|i: int| 0 <= i < k - 1 ==> tail[i] == s[i + 1]);
            assert(k - 1 < tail.len() ==> !lex_lt(tail[k - 1].path, p));
            lemma_remove_at(tail, p, k - 1);
            if k < s.len() && s[k].path == p {
                assert(tail[k - 1].path == p);
                assert(remove_path_seq(tail, p) == tail.take(k - 1) + tail.skip(k));
                assert(remove_path_seq(s, p) =~= s.take(k) + s.skip(k + 1));
                let r = remove_path_seq(s, p);
                assert forall|i: int, j: int| 0 <= i < j < r.len() implies lex_lt(
                    r[i].path,
                    r[j].path,
                ) by {
                    assert(r[i] == if i < k { s[i] } else { s[i + 1] });
                    assert(r[j] == if j < k { s[j] } else { s[j + 1] });
                }
            } else {
                assert(!(k - 1 < tail.len() && tail[k - 1].path == p));
                assert(remove_path_seq(tail, p) == tail);
                assert(remove_path_seq(s, p) =~= s);
            }
        }
    }
}

impl Index {
    /// Removes the entry carrying `path`, if one is staged.
    fn remove_entry(&mut self, path: &Vec<u8>)
        requires
            old(self).wf(),
        ensures
            final(self).wf(),
            final(self)@ == remove_path_seq(old(self)@, path@),
    {
        let (k, found) = self.find_pos(path);
        let ghost pre = self@;
        proof {
            if (k as int) < pre.len() {
                lemma_lex_trichotomy(pre[k as int].path, path@);
            }
            lemma_remove_at(pre, path@, k as int);
        }
        if found {
            self.entries.remove(k);
            proof {
                assert(self@ =~= pre.take(k as int) + pre.skip(k as int + 1));
            }
        }
        proof {
            assert forall|i: int|
                0 <= i < self@.len() implies is_valid_rel_path((#[trigger] self@[i]).path) by {
                if found {
                    assert(self@[i] == (if i < k { pre[i] } else { pre[i + 1] }));
                }
            }
        }
    }

    /// Replaces the whole index with the contents of `tree`, restoring
    /// each path with the tree's digest and mode and cleared metadata.
    pub fn reset_to_tree(&mut self, tree: &Tree)
        requires
            tree.wf(),
        ensures
            final(self).wf(),
            final(self)@ == reset_model(old(self)@, tree@),
    {
        self.entries.clear();
        let n: usize = tree.len();
        let mut i: usize = 0;
        while i < n
            invariant
                tree.wf(),
                n == tree@.len(),
                i <= n,
                self.entries@.len() == i,
                forall|j: int|
                    0 <= j < i ==> (#[trigger] self.entries@[j])@ == entry_of_tree(tree@[j]),
            decreases n - i,
        {
            let te = tree.entry_at(i);
            self.entries.push(
                IndexEntry {
                    path: clone_bytes(&te.path),
                    digest: clone_bytes(&te.digest),
                    mode: te.mode,
                    uid: 0,
                    gid: 0,
                    ino: 0,
                    dev: 0,
                    size: 0,
                    ctime: 0,
                    mtime: 0,
                },
            );
            i += 1;
        }
        proof {
            assert forall|j: int| 0 <= j < n implies self@[j] == #[trigger] index_of_tree(tree@)[j]
                by {
                assert(self.entries@[j]@ == entry_of_tree(tree@[j]));
            }
            assert(self@ =~= index_of_tree(tree@));
            assert forall|j: int|
                0 <= j < self@.len() implies is_valid_rel_path((#[trigger] self@[j]).path) by {
                assert(self@[j].path == tree@[j].path);
            }
            assert forall|i2: int, j2: int| 0 <= i2 < j2 < self@.len() implies lex_lt(
                self@[i2].path,
                self@[j2].path,
            ) by {
                assert(self@[i2].path == tree@[i2].path);
                assert(self@[j2].path == tree@[j2].path);
            }
        }
    }

    /// Restores only the named paths from `tree`: each named path takes
    /// the tree's digest and mode again, and a named path the tree does
    /// not hold leaves the index; all other entries stay untouched.
    pub fn reset_paths(&mut self, paths: &Vec<Vec<u8>>, tree: &Tree)
        requires
            old(self).wf(),
            tree.wf(),
        ensures
            final(self).wf(),
            final(self)@ == reset_paths_model(old(self)@, paths_model(paths@), tree@),
    {
        let ghost pre = self@;
        let n: usize = paths.len();
        let mut i: usize = 0;
        proof {
            assert(paths_model(paths@).take(0) =~= Seq::<Seq<u8>>::empty());
        }
        while i < n
            invariant
                tree.wf(),
                n == paths@.len(),
                i <= n,
                self.wf(),
                self@ == reset_paths_model(pre, paths_model(paths@).take(i as int), tree@),
            decreases n - i,
        {
            let ghost done = paths_model(paths@).take(i as int);
            let ghost cur = self@;
            match tree.find(&paths[i]) {
                Some(te) => {
                    proof {
                        crate::tree::lemma_tree_find_mem(tree@, paths@[i as int]@);
                        let idx = choose|idx: int|
                            0 <= idx < tree@.len() && tree@[idx] == te@;
                        assert(is_valid_rel_path(tree@[idx].path));
                    }
                    let e = IndexEntry {
                        path: clone_bytes(&te.path),
                        digest: clone_bytes(&te.digest),
                        mode: te.mode,
                        uid: 0,
                        gid: 0,
                        ino: 0,
                        dev: 0,
                        size: 0,
                        ctime: 0,
                        mtime: 0,
                    };
                    proof {
                        assert(tree_find(tree@, paths@[i as int]@) matches Some(m) ==> e@
                            == entry_of_tree(m));
                    }
                    self.upsert(e);
                },
                None => {
                    self.remove_entry(&paths[i]);
                },
            }
            proof {
                assert(self@ == apply_reset_one(cur, paths@[i as int]@, tree@));
                lemma_reset_paths_split(pre, done, paths@[i as int]@, tree@);
                assert(paths_model(paths@).take(i + 1) =~= done.push(paths@[i as int]@));
            }
            i += 1;
        }
        proof {
            assert(paths_model(paths@).take(n as int) =~= paths_model(paths@));
        }
    }
}

/// Upserting into a sorted index keeps it sorted, places the new entry
/// somewhere in it, and adds no entry from anywhere else.
pub proof fn lemma_upsert_props(s: Seq<EntryModel>, e: EntryModel)
    requires
        sorted_entries(s),
    ensures
        sorted_entries(upsert_seq(s, e)),
        exists|k: int| 0 <= k < upsert_seq(s, e).len() && upsert_seq(s, e)[k] == e,
        forall|k: int|
            0 <= k < upsert_seq(s, e).len() ==> upsert_seq(s, e)[k] == e || s.contains(
                #[trigger] upsert_seq(s, e)[k],
            ),
    decreases s.len(),
{
    let r = upsert_seq(s, e);
    if s.len() == 0 {
        assert(r == seq![e]);
        assert(r[0] == e);
    } else if lex_lt(e.path, s[0].path) {
        assert(r == seq![e] + s);
        assert(r[0] == e);
        assert forall|i: int, j: int| 0 <= i < j < r.len() implies lex_lt(
            r[i].path,
            r[j].path,
        ) by {
            assert(r[j] == s[j - 1]);
            if i == 0 {
                if j > 1 {
                    lemma_lex_trans(e.path, s[0].path, s[j - 1].path);
                }
            } else {
                assert(r[i] == s[i - 1]);
            }
        }
        assert forall|k: int| 0 <= k < r.len() implies r[k] == e || s.contains(r[k]) by {
            if k > 0 {
                assert(r[k] == s[k - 1]);
                assert(s.contains(s[k - 1]));
            }
        }
    } else if e.path == s[0].path {
        assert(r == seq![e] + s.skip(1));
        assert(r[0] == e);
        assert forall|i: int, j: int| 0 <= i < j < r.len() implies lex_lt(
            r[i].path,
            r[j].path,
        ) by {
            assert(r[j] == s[j]);
            if i > 0 {
                assert(r[i] == s[i]);
            }
        }
        assert forall|k: int| 0 <= k < r.len() implies r[k] == e || s.contains(r[k]) by {
            if k > 0 {
                assert(r[k] == s[k]);
                assert(s.contains(s[k]));
            }
        }
    } else {
        lemma_lex_trichotomy(e.path, s[0].path);
        assert(lex_lt(s[0].path, e.path));
        let tail = s.skip(1);
        assert(sorted_entries(tail)) by {
            assert(forall|i: int| 0 <= i < tail.len() ==> tail[i] == s[i + 1]);
        }
        lemma_upsert_props(tail, e);
        let ut = upsert_seq(tail, e);
        assert(r == seq![s[0]] + ut);
        let kt = choose|k: int| 0 <= k < ut.len() && ut[k] == e;
        assert(r[kt + 1] == e);
        assert forall|k: int| 0 <= k < r.len() implies r[k] == e || s.contains(r[k]) by {
            if k == 0 {
                assert(s.contains(s[0]));
            } else {
                assert(r[k] == ut[k - 1]);
                if ut[k - 1] != e {
                    assert(tail.contains(ut[k - 1]));
                    let m = choose|m: int| 0 <= m < tail.len() && tail[m] == ut[k - 1];
                    assert(s[m + 1] == ut[k - 1]);
                    assert(s.contains(s[m + 1]));
                }
            }
        }
        assert forall|i: int, j: int| 0 <= i < j < r.len() implies lex_lt(
            r[i].path,
            r[j].path,
        ) by {
            if i == 0 {
                assert(r[j] == ut[j - 1]);
                if ut[j - 1] == e {
                    assert(lex_lt(s[0].path, e.path));
                } else {
                    assert(tail.contains(ut[j - 1]));
                    let m = choose|m: int| 0 <= m < tail.len() && tail[m] == ut[j - 1];
                    assert(tail[m] == s[m + 1]);
                    assert(lex_lt(s[0].path, s[m + 1].path));
                }
            } else {
                assert(r[i] == ut[i - 1]);
                assert(r[j] == ut[j - 1]);
            }
        }
    }
}

/// What a reset restores depends on the tree alone, so resetting to the
/// same tree a second time is a no-op.
pub proof fn lemma_reset_idempotent(s: Seq<EntryModel>, t: Seq<TreeEntryModel>)
    ensures
        reset_model(reset_model(s, t), t) == reset_model(s, t),
{
}

/// A reset index holds the tree's contents bit for bit: freezing it
/// again yields exactly the source tree.
pub proof fn lemma_reset_round_trip(s: Seq<EntryModel>, t: Seq<TreeEntryModel>)
    ensures
        tree_of(reset_model(s, t)) == t,
{
    assert forall|i: int| 0 <= i < t.len() implies #[trigger] tree_of(reset_model(s, t))[i]
        == t[i] by {
        assert(index_of_tree(t)[i] == entry_of_tree(t[i]));
        assert(tree_of(index_of_tree(t))[i] == tree_entry_of(entry_of_tree(t[i])));
    }
    assert(tree_of(reset_model(s, t)) =~= t);
}

} // verus!
