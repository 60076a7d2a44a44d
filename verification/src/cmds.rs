//! The command surface: one value per subcommand, each with a verified
//! `apply` against an in-memory repository. Argument parsing, file
//! reading, prompting and printing stay with the caller, which hands
//! plain values in and takes plain values back.

use vstd::prelude::*;
use crate::deploy::{plan_entry, plan_spec, EntryKind, EntryPlan};
use crate::tree::{push_bytes, push_u64_be, u64_be};
use crate::diff::{deltas_model, Delta};
use crate::index::{is_valid_rel_path, meta_fits, paths_model, reset_model, reset_paths_model,
    staged_entry, upsert_seq, EntryModel, RawMetadata};
use crate::digest::blob_digest_of;
use crate::message::msg_effectively_empty;
use crate::paths::{rel_under, relativize};
use crate::repo::{CommitModel, Repository};
use crate::tree::{encode_tree, tree_of};
use crate::OpError;

verus! {

/// The shared context of one invocation: the paths and host that every
/// subcommand works against.
pub struct Invocation {
    pub user_mode: bool,
    pub root_path: Vec<u8>,
    pub source_path: Vec<u8>,
    pub target_path: Vec<u8>,
    pub hostname: String,
    pub force: bool,
}

/// One tracked file of the persisted state record.
pub struct FileInfo {
    pub path: Vec<u8>,
}

/// The persisted state record: a format version and the tracked files.
pub struct State {
    pub version: u32,
    pub files: Vec<FileInfo>,
}

impl State {
    /// A fresh state record: the current format version, no files yet.
    pub fn new() -> (r: State)
        ensures
            r.version == 1,
            r.files@.len() == 0,
    {
        State { version: 1, files: Vec::new() }
    }

    /// Records one more tracked path, after the ones already recorded.
    pub fn record(&mut self, path: Vec<u8>)
        ensures
            final(self).version == old(self).version,
            final(self).files@.len() == old(self).files@.len() + 1,
            forall|i: int|
                0 <= i < old(self).files@.len() ==> final(self).files@[i] == old(self).files@[i],
            final(self).files@.last().path@ == path@,
    {
        self.files.push(FileInfo { path });
    }

    /// The durable byte encoding of the record, written out atomically
    /// by the caller.
    pub fn encode(&self) -> (r: Vec<u8>)
        ensures
            r@ == state_encoding(self.version, self.files@),
    {
        let mut r: Vec<u8> = Vec::new();
        push_u64_be(&mut r, self.version as u64);
        push_u64_be(&mut r, self.files.len() as u64);
        let n: usize = self.files.len();
        let mut i: usize = 0;
        proof {
            assert(files_encoding(self.files@.take(0)) =~= Seq::<u8>::empty());
            assert(r@ =~= u64_be(self.version as u64) + u64_be(self.files@.len() as u64)
                + files_encoding(self.files@.take(0)));
        }
        while i < n
            invariant
                n == self.files@.len(),
                i <= n,
                r@ == u64_be(self.version as u64) + u64_be(self.files@.len() as u64)
                    + files_encoding(self.files@.take(i as int)),
            decreases n - i,
        {
            let f = &self.files[i];
            push_u64_be(&mut r, f.path.len() as u64);
            push_bytes(&mut r, &f.path);
            proof {
                assert(self.files@.take(i + 1).drop_last() =~= self.files@.take(i as int));
                assert(self.files@.take(i + 1).last() == self.files@[i as int]);
                assert(r@ =~= u64_be(self.version as u64) + u64_be(self.files@.len() as u64)
                    + files_encoding(self.files@.take(i + 1)));
            }
            i += 1;
        }
        proof {
            assert(self.files@.take(n as int) =~= self.files@);
        }
        r
    }

    /// Reads a record back from its byte encoding. A parse succeeds
    /// exactly on bytes that are the encoding of a record: the record
    /// returned re-encodes to the given bytes, and bytes that encode
    /// some record are never refused.
    pub fn decode(buf: &Vec<u8>) -> (r: Option<State>)
        ensures
            r matches Some(st) ==> buf@ == state_encoding(st.version, st.files@),
            forall|ver: u32, fs: Seq<FileInfo>|
                buf@ == #[trigger] state_encoding(ver, fs) ==> r is Some,
    {
        let n: usize = buf.len();
        if n < 16 {
            proof {
                assert forall|ver: u32, fs: Seq<FileInfo>|
                    buf@ == #[trigger] state_encoding(ver, fs) implies false by {
                    assert(state_encoding(ver, fs).len() >= 16);
                }
            }
            return None;
        }
        let ver64 = read_u64_be(buf, 0);
        if ver64 > u32::MAX as u64 {
            proof {
                assert forall|ver: u32, fs: Seq<FileInfo>|
                    buf@ == #[trigger] state_encoding(ver, fs) implies false by {
                    assert(buf@.subrange(0, 8) =~= u64_be(ver as u64));
                    lemma_be_value_round_trip(ver as u64);
                }
            }
            return None;
        }
        let count = read_u64_be(buf, 8);
        let mut files: Vec<FileInfo> = Vec::new();
        let mut pos: usize = 16;
        let mut k: u64 = 0;
        proof {
            lemma_be_bytes_round_trip(buf@.subrange(0, 8));
            lemma_be_bytes_round_trip(buf@.subrange(8, 16));
            assert(files_encoding(files@) =~= Seq::<u8>::empty());
            assert(buf@.take(16) =~= buf@.subrange(0, 8) + buf@.subrange(8, 16));
            assert(buf@.take(pos as int) =~= u64_be(ver64) + u64_be(count) + files_encoding(
                files@,
            ));
            assert forall|ver: u32, fs: Seq<FileInfo>|
                buf@ == #[trigger] state_encoding(ver, fs) implies count as int == fs.len()
                && k as int <= fs.len() && buf@.skip(pos as int) == files_encoding(
                fs.skip(k as int),
            ) by {
                lemma_files_encoding_min_len(fs);
                assert(buf@.len() == 16 + files_encoding(fs).len());
                assert(fs.len() <= u64::MAX);
                assert(buf@.subrange(8, 16) =~= u64_be(fs.len() as u64));
                lemma_be_value_round_trip(fs.len() as u64);
                assert(buf@.skip(16) =~= files_encoding(fs));
                assert(fs.skip(0) =~= fs);
            }
        }
        while k < count
            invariant
                n == buf@.len(),
                pos <= n,
                k <= count,
                files@.len() == k,
                buf@.take(pos as int) == u64_be(ver64) + u64_be(count) + files_encoding(files@),
                forall|ver: u32, fs: Seq<FileInfo>|
                    buf@ == #[trigger] state_encoding(ver, fs) ==> count as int == fs.len()
                        && k as int <= fs.len() && buf@.skip(pos as int) == files_encoding(
                        fs.skip(k as int),
                    ),
            decreases count - k,
        {
            if n - pos < 8 {
                proof {
                    assert forall|ver: u32, fs: Seq<FileInfo>|
                        buf@ == #[trigger] state_encoding(ver, fs) implies false by {
                        assert(fs.skip(k as int).len() > 0);
                        lemma_files_encoding_min_len(fs.skip(k as int));
                        assert(buf@.skip(pos as int).len() >= 8);
                    }
                }
                return None;
            }
            let len64 = read_u64_be(buf, pos);
            if len64 > (n - pos - 8) as u64 {
                proof {
                    assert forall|ver: u32, fs: Seq<FileInfo>|
                        buf@ == #[trigger] state_encoding(ver, fs) implies false by {
                        lemma_files_encoding_front(fs, k as int);
                        let entry_len = fs[k as int].path@.len();
                        assert(buf@.skip(pos as int).len() == 8 + entry_len + files_encoding(
                            fs.skip(k as int + 1),
                        ).len());
                        assert(buf@.subrange(pos as int, pos + 8) =~= u64_be(
                            entry_len as u64,
                        ));
                        lemma_be_value_round_trip(entry_len as u64);
                        assert(len64 <= (n - pos - 8) as u64);
                    }
                }
                return None;
            }
            let len = len64 as usize;
            let path = bytes_range(buf, pos + 8, pos + 8 + len);
            let ghost prefix = buf@.take(pos as int);
            let ghost pre_files = files@;
            files.push(FileInfo { path });
            proof {
                lemma_be_bytes_round_trip(buf@.subrange(pos as int, pos + 8));
                assert(files@.drop_last() =~= pre_files);
                assert(files@.last().path@ == buf@.subrange(pos + 8, pos + 8 + len));
                assert(files@.last().path@.len() == len64);
                assert(files_encoding(files@) == files_encoding(pre_files) + u64_be(len64)
                    + buf@.subrange(pos + 8, pos + 8 + len));
                assert(buf@.take(pos + 8 + len) =~= prefix + buf@.subrange(pos as int, pos + 8)
                    + buf@.subrange(pos + 8, pos + 8 + len));
                assert(buf@.take(pos + 8 + len) =~= u64_be(ver64) + u64_be(count)
                    + files_encoding(files@));
                assert forall|ver: u32, fs: Seq<FileInfo>|
                    buf@ == #[trigger] state_encoding(ver, fs) implies count as int == fs.len()
                    && k as int + 1 <= fs.len() && buf@.skip(pos + 8 + len) == files_encoding(
                    fs.skip(k as int + 1),
                ) by {
                    lemma_files_encoding_front(fs, k as int);
                    let entry_len = fs[k as int].path@.len();
                    assert(buf@.skip(pos as int).len() == 8 + entry_len + files_encoding(
                        fs.skip(k as int + 1),
                    ).len());
                    assert(buf@.subrange(pos as int, pos + 8) =~= u64_be(entry_len as u64));
                    lemma_be_value_round_trip(entry_len as u64);
                    assert(len == entry_len);
                    let rest = files_encoding(fs.skip(k as int + 1));
                    assert(buf@.skip(pos as int) == u64_be(entry_len as u64) + fs[
                        k as int].path@ + rest);
                    assert(buf@.skip(pos + 8 + len).len() == rest.len());
                    assert forall|m: int| 0 <= m < rest.len() implies buf@.skip(pos + 8 + len)[m]
                        == rest[m] by {
                        assert(buf@.skip(pos + 8 + len)[m] == buf@[pos + 8 + len + m]);
                        assert(buf@.skip(pos as int)[8 + len + m] == buf@[pos + 8 + len + m]);
                        assert(buf@.skip(pos as int)[8 + len + m] == rest[m]);
                    }
                    assert(buf@.skip(pos + 8 + len) =~= rest);
                }
            }
            pos = pos + 8 + len;
            k += 1;
        }
        if pos != n {
            proof {
                assert forall|ver: u32, fs: Seq<FileInfo>|
                    buf@ == #[trigger] state_encoding(ver, fs) implies false by {
                    assert(fs.skip(k as int) =~= Seq::<FileInfo>::empty());
                    assert(buf@.skip(pos as int).len() == 0);
                }
            }
            return None;
        }
        let st = State { version: ver64 as u32, files };
        proof {
            assert(buf@.take(pos as int) =~= buf@);
            assert(st.files@.len() as u64 == count);
            assert((st.version as u64) == ver64);
        }
        Some(st)
    }
}

/// The value that eight big-endian bytes encode.
pub open spec fn u64_from_be(s: Seq<u8>) -> u64
    recommends
        s.len() == 8,
{
    ((s[0] as u64) << 56 | (s[1] as u64) << 48 | (s[2] as u64) << 40 | (s[3] as u64) << 32 | (
    s[4] as u64) << 24 | (s[5] as u64) << 16 | (s[6] as u64) << 8 | (s[7] as u64)) as u64
}

/// Eight bytes survive the trip through their big-endian value.
pub proof fn lemma_be_bytes_round_trip(s: Seq<u8>)
    requires
        s.len() == 8,
    ensures
        u64_be(u64_from_be(s)) == s,
{
    let b0 = s[0];
    let b1 = s[1];
    let b2 = s[2];
    let b3 = s[3];
    let b4 = s[4];
    let b5 = s[5];
    let b6 = s[6];
    let b7 = s[7];
    assert(((((b0 as u64) << 56 | (b1 as u64) << 48 | (b2 as u64) << 40 | (b3 as u64) << 32 | (
    b4 as u64) << 24 | (b5 as u64) << 16 | (b6 as u64) << 8 | (b7 as u64)) >> 56) & 0xff) as u8
        == b0) by (bit_vector);
    assert(((((b0 as u64) << 56 | (b1 as u64) << 48 | (b2 as u64) << 40 | (b3 as u64) << 32 | (
    b4 as u64) << 24 | (b5 as u64) << 16 | (b6 as u64) << 8 | (b7 as u64)) >> 48) & 0xff) as u8
        == b1) by (bit_vector);
    assert(((((b0 as u64) << 56 | (b1 as u64) << 48 | (b2 as u64) << 40 | (b3 as u64) << 32 | (
    b4 as u64) << 24 | (b5 as u64) << 16 | (b6 as u64) << 8 | (b7 as u64)) >> 40) & 0xff) as u8
        == b2) by (bit_vector);
    assert(((((b0 as u64) << 56 | (b1 as u64) << 48 | (b2 as u64) << 40 | (b3 as u64) << 32 | (
    b4 as u64) << 24 | (b5 as u64) << 16 | (b6 as u64) << 8 | (b7 as u64)) >> 32) & 0xff) as u8
        == b3) by (bit_vector);
    assert(((((b0 as u64) << 56 | (b1 as u64) << 48 | (b2 as u64) << 40 | (b3 as u64) << 32 | (
    b4 as u64) << 24 | (b5 as u64) << 16 | (b6 as u64) << 8 | (b7 as u64)) >> 24) & 0xff) as u8
        == b4) by (bit_vector);
    assert(((((b0 as u64) << 56 | (b1 as u64) << 48 | (b2 as u64) << 40 | (b3 as u64) << 32 | (
    b4 as u64) << 24 | (b5 as u64) << 16 | (b6 as u64) << 8 | (b7 as u64)) >> 16) & 0xff) as u8
        == b5) by (bit_vector);
    assert(((((b0 as u64) << 56 | (b1 as u64) << 48 | (b2 as u64) << 40 | (b3 as u64) << 32 | (
    b4 as u64) << 24 | (b5 as u64) << 16 | (b6 as u64) << 8 | (b7 as u64)) >> 8) & 0xff) as u8
        == b6) by (bit_vector);
    assert((((b0 as u64) << 56 | (b1 as u64) << 48 | (b2 as u64) << 40 | (b3 as u64) << 32 | (
    b4 as u64) << 24 | (b5 as u64) << 16 | (b6 as u64) << 8 | (b7 as u64)) & 0xff) as u8
        == b7) by (bit_vector);
    assert(u64_be(u64_from_be(s)) =~= s);
}

/// The bytes of a value survive the trip through their big-endian
/// encoding.
pub proof fn lemma_be_value_round_trip(n: u64)
    ensures
        u64_from_be(u64_be(n)) == n,
{
    assert((((((n >> 56) & 0xff) as u8) as u64) << 56 | ((((n >> 48) & 0xff) as u8) as u64) << 48
        | ((((n >> 40) & 0xff) as u8) as u64) << 40 | ((((n >> 32) & 0xff) as u8) as u64) << 32 | (
    (((n >> 24) & 0xff) as u8) as u64) << 24 | ((((n >> 16) & 0xff) as u8) as u64) << 16 | ((((n
        >> 8) & 0xff) as u8) as u64) << 8 | (((n & 0xff) as u8) as u64)) == n) by (bit_vector);
}

/// The encoding of the tracked files: each path length-prefixed.
pub open spec fn files_encoding(files: Seq<FileInfo>) -> Seq<u8>
    decreases files.len(),
{
    if files.len() == 0 {
        Seq::empty()
    } else {
        files_encoding(files.drop_last()) + u64_be(files.last().path@.len() as u64)
            + files.last().path@
    }
}

/// The file encoding is a concatenation morphism.
pub proof fn lemma_files_encoding_concat(a: Seq<FileInfo>, b: Seq<FileInfo>)
    ensures
        files_encoding(a + b) == files_encoding(a) + files_encoding(b),
    decreases b.len(),
{
    if b.len() == 0 {
        assert(a + b =~= a);
        assert(files_encoding(a) + files_encoding(b) =~= files_encoding(a));
    } else {
        assert((a + b).drop_last() =~= a + b.drop_last());
        assert((a + b).last() == b.last());
        lemma_files_encoding_concat(a, b.drop_last());
        assert(files_encoding(a + b) =~= files_encoding(a) + files_encoding(b));
    }
}

/// The first file's record stands at the front of the encoding.
pub proof fn lemma_files_encoding_front(fs: Seq<FileInfo>, k: int)
    requires
        0 <= k < fs.len(),
    ensures
        files_encoding(fs.skip(k)) == u64_be(fs[k].path@.len() as u64) + fs[k].path@
            + files_encoding(fs.skip(k + 1)),
{
    let head = seq![fs[k]];
    assert(fs.skip(k) =~= head + fs.skip(k + 1));
    lemma_files_encoding_concat(head, fs.skip(k + 1));
    assert(head.len() == 1 && head.last() == fs[k]);
    assert(files_encoding(head) == files_encoding(head.drop_last()) + u64_be(
        head.last().path@.len() as u64,
    ) + head.last().path@);
    assert(head.drop_last() =~= Seq::<FileInfo>::empty());
    assert(files_encoding(head.drop_last()) == Seq::<u8>::empty());
    assert(files_encoding(head) =~= u64_be(fs[k].path@.len() as u64) + fs[k].path@);
}

/// Each file contributes at least its length prefix to the encoding.
pub proof fn lemma_files_encoding_min_len(fs: Seq<FileInfo>)
    ensures
        files_encoding(fs).len() >= 8 * fs.len(),
    decreases fs.len(),
{
    if fs.len() > 0 {
        lemma_files_encoding_min_len(fs.drop_last());
    }
}

/// The encoding of a whole state record: version, file count, then the
/// length-prefixed paths.
pub open spec fn state_encoding(version: u32, files: Seq<FileInfo>) -> Seq<u8> {
    u64_be(version as u64) + u64_be(files.len() as u64) + files_encoding(files)
}

/// Reads the big-endian value at `pos`.
fn read_u64_be(v: &Vec<u8>, pos: usize) -> (r: u64)
    requires
        pos + 8 <= v@.len() <= usize::MAX,
    ensures
        r == u64_from_be(v@.subrange(pos as int, pos + 8)),
{
    let ghost s = v@.subrange(pos as int, pos + 8);
    proof {
        assert(forall|i: int| 0 <= i < 8 ==> s[i] == v@[pos + i]);
    }
    (v[pos] as u64) << 56 | (v[pos + 1] as u64) << 48 | (v[pos + 2] as u64) << 40 | (v[pos
        + 3] as u64) << 32 | (v[pos + 4] as u64) << 24 | (v[pos + 5] as u64) << 16 | (v[pos
        + 6] as u64) << 8 | (v[pos + 7] as u64)
}

/// The bytes of `v` from `from` up to `to`.
fn bytes_range(v: &Vec<u8>, from: usize, to: usize) -> (r: Vec<u8>)
    requires
        from <= to <= v@.len(),
    ensures
        r@ == v@.subrange(from as int, to as int),
{
    let mut r: Vec<u8> = Vec::new();
    let mut i: usize = from;
    while i < to
        invariant
            from <= i <= to <= v@.len(),
            r@ =~= v@.subrange(from as int, i as int),
        decreases to - i,
    {
        r.push(v[i]);
        i += 1;
    }
    proof {
        assert(r@ =~= v@.subrange(from as int, to as int));
    }
    r
}

/// One file handed to `add`: its absolute path, its content and its
/// filesystem metadata, as the caller read them.
pub struct StagedFile {
    pub abs_path: Vec<u8>,
    pub content: Vec<u8>,
    pub meta: RawMetadata,
}

/// What staging one file decides from the paths and metadata alone:
/// the relative path it is staged under, or the error.
pub open spec fn stage_outcome(root: Seq<u8>, f: StagedFile) -> Result<Seq<u8>, OpError> {
    match rel_under(f.abs_path@, root) {
        None => Err(OpError::PathOutsideRoot),
        Some(rel) => {
            if !is_valid_rel_path(rel) {
                Err(OpError::PathOutsideRoot)
            } else if !meta_fits(f.meta) {
                Err(OpError::MetadataOverflow)
            } else {
                Ok(rel)
            }
        },
    }
}

/// The index, store and first failure of a staging run.
pub struct AddState {
    pub index: Seq<EntryModel>,
    pub store: Map<Seq<u8>, Seq<u8>>,
    pub err: Option<OpError>,
}

/// One staging step: on success the entry is upserted and the blob
/// stored (nothing is written when its digest is already present); on
/// failure the state carries the error unchanged.
pub open spec fn add_step(st: AddState, root: Seq<u8>, f: StagedFile) -> AddState {
    match stage_outcome(root, f) {
        Err(e) => AddState { index: st.index, store: st.store, err: Some(e) },
        Ok(rel) => AddState {
            index: upsert_seq(st.index, staged_entry(rel, blob_digest_of(f.content@), f.meta)),
            store: if st.store.contains_key(blob_digest_of(f.content@)) {
                st.store
            } else {
                st.store.insert(blob_digest_of(f.content@), f.content@)
            },
            err: None,
        },
    }
}

/// Staging the files in order, stopping at the first failure.
pub open spec fn apply_adds(st: AddState, root: Seq<u8>, files: Seq<StagedFile>) -> AddState
    decreases files.len(),
{
    if files.len() == 0 || st.err is Some {
        st
    } else {
        apply_adds(add_step(st, root, files[0]), root, files.skip(1))
    }
}

/// Staging one more file continues from the state the earlier files
/// left behind.
pub proof fn lemma_apply_adds_push(
    st: AddState,
    root: Seq<u8>,
    files: Seq<StagedFile>,
    f: StagedFile,
)
    ensures
        apply_adds(st, root, files.push(f)) == (if apply_adds(st, root, files).err is Some {
            apply_adds(st, root, files)
        } else {
            add_step(apply_adds(st, root, files), root, f)
        }),
    decreases files.len(),
{
    if st.err is Some {
        assert(apply_adds(st, root, files.push(f)) == st);
    } else if files.len() == 0 {
        assert(files.push(f)[0] == f);
        assert(files.push(f).skip(1) =~= Seq::<StagedFile>::empty());
        assert(apply_adds(st, root, files.push(f)) == apply_adds(
            add_step(st, root, f),
            root,
            Seq::<StagedFile>::empty(),
        ));
    } else {
        assert(files.push(f)[0] == files[0]);
        assert(files.push(f).skip(1) =~= files.skip(1).push(f));
        lemma_apply_adds_push(add_step(st, root, files[0]), root, files.skip(1), f);
        assert(apply_adds(st, root, files.push(f)) == apply_adds(
            add_step(st, root, files[0]),
            root,
            files.skip(1).push(f),
        ));
    }
}

/// `add <paths...>`: stage files into the index.
pub struct AddCmd {
    pub paths: Vec<Vec<u8>>,
}

impl AddCmd {
    /// Stages the given files in order: each absolute path is expressed
    /// relative to the repository root, its content stored, its index
    /// entry upserted. The caller reads one [`StagedFile`] per named
    /// path. The run stops at the first failure, leaving the files
    /// already staged in place and the failing one out.
    pub fn apply(&self, repo: &mut Repository, root: &Vec<u8>, files: &Vec<StagedFile>) -> (r:
        Result<(), OpError>)
        requires
            old(repo).wf(),
        ensures
            final(repo).wf(),
            final(repo).commits_model() == old(repo).commits_model(),
            ({
                let start = AddState {
                    index: old(repo).index@,
                    store: old(repo).store@,
                    err: None,
                };
                let end = apply_adds(start, root@, files@);
                &&& (r is Ok ==> end.err is None && final(repo).index@ == end.index && final(repo).store@ == end.store)
                &&& (r matches Err(e) ==> exists|k: int|
                    {
                        let part = #[trigger] apply_adds(start, root@, files@.take(k));
                        &&& 0 <= k < files@.len()
                        &&& part.err is None
                        &&& final(repo).index@ == part.index
                        &&& final(repo).store@ == part.store
                        &&& match stage_outcome(root@, files@[k]) {
                            Ok(_) => e == OpError::DigestFailed,
                            Err(e2) => e == e2,
                        }
                    })
            }),
    {
        let ghost start = AddState { index: old(repo).index@, store: old(repo).store@, err: None };
        let n: usize = files.len();
        let mut i: usize = 0;
        proof {
            assert(files@.take(0) =~= Seq::<StagedFile>::empty());
        }
        while i < n
            invariant
                repo.wf(),
                n == files@.len(),
                i <= n,
                start == (AddState { index: old(repo).index@, store: old(repo).store@, err: None }),
                apply_adds(start, root@, files@.take(i as int)).err is None,
                repo.index@ == apply_adds(start, root@, files@.take(i as int)).index,
                repo.store@ == apply_adds(start, root@, files@.take(i as int)).store,
                repo.commits_model() == old(repo).commits_model(),
            decreases n - i,
        {
            let ghost done = files@.take(i as int);
            let f = &files[i];
            proof {
                lemma_apply_adds_push(start, root@, done, files@[i as int]);
                assert(files@.take(i + 1) =~= done.push(files@[i as int]));
            }
            let rel = match relativize(&f.abs_path, root) {
                Ok(rel) => rel,
                Err(e) => {
                    proof {
                        assert(stage_outcome(root@, files@[i as int]) == Err::<Seq<u8>, OpError>(
                            OpError::PathOutsideRoot,
                        ));
                    }
                    return Err(e);
                },
            };
            match repo.stage_file(rel, &f.content, f.meta) {
                Ok(()) => {},
                Err(e) => {
                    return Err(e);
                },
            }
            i += 1;
        }
        proof {
            assert(files@.take(n as int) =~= files@);
        }
        Ok(())
    }
}

/// `commit [--message TEXT] [--amend]`: snapshot the index.
pub struct CommitCmd {
    pub message: Option<Vec<u8>>,
    pub amend: bool,
}

impl CommitCmd {
    /// The message the commit uses: the one given on the command line,
    /// or the fallback the caller solicited.
    pub open spec fn chosen_message(&self, fallback: Seq<u8>) -> Seq<u8> {
        match self.message {
            Some(m) => m@,
            None => fallback,
        }
    }

    /// Creates a commit from the index with the chosen message, or
    /// amends the most recent one when `--amend` was given: then the
    /// tip's tree and provenance are replaced while its parent is kept.
    /// Fails as the repository operations do; any failure leaves the
    /// repository unchanged.
    pub fn apply(
        &self,
        repo: &mut Repository,
        fallback_message: &Vec<u8>,
        author: &Vec<u8>,
        timestamp: i64,
    ) -> (r: Result<Vec<u8>, OpError>)
        requires
            old(repo).wf(),
        ensures
            final(repo).wf(),
            r is Err ==> *final(repo) == *old(repo),
            !self.amend && old(repo).nothing_to_commit() ==> r == Err::<Vec<u8>, OpError>(
                OpError::NothingToCommit,
            ),
            !self.amend && !old(repo).nothing_to_commit() && msg_effectively_empty(
                self.chosen_message(fallback_message@),
            ) ==> r == Err::<Vec<u8>, OpError>(OpError::EmptyMessage),
            self.amend && old(repo).commits_model().len() == 0 ==> r == Err::<Vec<u8>, OpError>(
                OpError::UnbornRepository,
            ),
            self.amend && old(repo).commits_model().len() > 0 && msg_effectively_empty(
                self.chosen_message(fallback_message@),
            ) ==> r == Err::<Vec<u8>, OpError>(OpError::EmptyMessage),
            !self.amend && !old(repo).nothing_to_commit() && !msg_effectively_empty(
                self.chosen_message(fallback_message@),
            ) ==> (r matches Err(e) ==> e == OpError::DigestFailed),
            self.amend && old(repo).commits_model().len() > 0 && !msg_effectively_empty(
                self.chosen_message(fallback_message@),
            ) ==> (r matches Err(e) ==> e == OpError::DigestFailed),
            r matches Ok(id) ==> final(repo).index@ == old(repo).index@ && final(repo).store@
                == old(repo).store@ && final(repo).head_model() == Some(id@),
            !self.amend ==> (r matches Ok(id) ==> final(repo).commits_model() == old(repo).commits_model().push(
                CommitModel {
                    id: id@,
                    tree: tree_of(old(repo).index@),
                    tree_id: blob_digest_of(encode_tree(tree_of(old(repo).index@))),
                    parent: old(repo).head_model(),
                    author: author@,
                    message: self.chosen_message(fallback_message@),
                    timestamp: timestamp,
                },
            )),
            self.amend ==> (r matches Ok(id) ==> old(repo).commits_model().len() > 0 && final(repo).commits_model() == old(repo).commits_model().drop_last().push(
                CommitModel {
                    id: id@,
                    tree: tree_of(old(repo).index@),
                    tree_id: blob_digest_of(encode_tree(tree_of(old(repo).index@))),
                    parent: old(repo).commits_model().last().parent,
                    author: author@,
                    message: self.chosen_message(fallback_message@),
                    timestamp: timestamp,
                },
            )),
    {
        let msg: &Vec<u8> = match &self.message {
            Some(m) => m,
            None => fallback_message,
        };
        if self.amend {
            repo.amend(msg, author, timestamp)
        } else {
            repo.commit(msg, author, timestamp)
        }
    }
}

/// `init`: ensure the versioned store exists.
pub struct InitCmd {}

impl InitCmd {
    /// A fresh, unborn repository; initialising an existing store is
    /// the caller's concern, and doing so again changes nothing there.
    pub fn apply(&self) -> (r: Repository)
        ensures
            r.wf(),
            r.store@ == Map::<Seq<u8>, Seq<u8>>::empty(),
            r.index@.len() == 0,
            r.commits_model().len() == 0,
    {
        Repository::new()
    }
}

/// `list`: print every staged path.
pub struct ListCmd {}

impl ListCmd {
    /// Every staged path, in sorted order.
    pub fn apply(&self, repo: &Repository) -> (r: Vec<Vec<u8>>)
        ensures
            r@.len() == repo.index@.len(),
            forall|i: int| 0 <= i < r@.len() ==> r@[i]@ == repo.index@[i].path,
    {
        repo.index.paths()
    }
}

/// `log`: list the commit history.
pub struct LogCmd {
    pub flags: Vec<String>,
}

impl LogCmd {
    /// The commit identities, newest first; presentation flags are the
    /// caller's concern.
    pub fn apply(&self, repo: &Repository) -> (r: Vec<Vec<u8>>)
        ensures
            r@.len() == repo.commits_model().len(),
            forall|i: int|
                0 <= i < r@.len() ==> r@[i]@ == repo.commits_model()[repo.commits_model().len() - 1
                    - i].id,
    {
        repo.log()
    }
}

/// `reset [paths...]`: restore the index from the latest commit.
pub struct ResetCmd {
    pub paths: Vec<Vec<u8>>,
}

impl ResetCmd {
    /// With no paths, restores the whole index from the current
    /// commit's tree (clearing it while unborn); with paths, restores
    /// only those, which needs a commit to restore from.
    pub fn apply(&self, repo: &mut Repository) -> (r: Result<(), OpError>)
        requires
            old(repo).wf(),
        ensures
            final(repo).wf(),
            final(repo).store@ == old(repo).store@,
            final(repo).commits_model() == old(repo).commits_model(),
            self.paths@.len() == 0 && old(repo).commits_model().len() == 0 ==> r is Ok && final(repo).index@ == Seq::<EntryModel>::empty(),
            self.paths@.len() == 0 && old(repo).commits_model().len() > 0 ==> r is Ok && final(repo).index@ == reset_model(old(repo).index@, old(repo).commits_model().last().tree),
            self.paths@.len() > 0 && old(repo).commits_model().len() == 0 ==> r == Err::<
                (),
                OpError,
            >(OpError::UnbornRepository) && *final(repo) == *old(repo),
            self.paths@.len() > 0 && old(repo).commits_model().len() > 0 ==> r is Ok && final(repo).index@ == reset_paths_model(
                old(repo).index@,
                paths_model(self.paths@),
                old(repo).commits_model().last().tree,
            ),
    {
        if self.paths.len() == 0 {
            repo.reset_all();
            Ok(())
        } else {
            repo.reset_named_paths(&self.paths)
        }
    }
}

/// `status [--all]`: print the deltas between index and latest commit,
/// or every staged path.
pub struct StatusCmd {
    pub all: bool,
}

impl StatusCmd {
    /// The status deltas of the repository, in path order.
    pub fn deltas(&self, repo: &Repository) -> (r: Vec<Delta>)
        requires
            repo.wf(),
        ensures
            deltas_model(r@) == repo.status_model(),
    {
        repo.status()
    }

    /// Every staged path unconditionally, for `--all`.
    pub fn all_paths(&self, repo: &Repository) -> (r: Vec<Vec<u8>>)
        ensures
            r@.len() == repo.index@.len(),
            forall|i: int| 0 <= i < r@.len() ==> r@[i]@ == repo.index@[i].path,
    {
        repo.index.paths()
    }
}

/// `unpack [--force]`: run the deployment pipeline.
pub struct UnpackCmd {
    pub force: bool,
}

impl UnpackCmd {
    /// Classifies one discovered entry and resolves its relative
    /// output path.
    pub fn plan(&self, kind: EntryKind, rel_path: &Vec<u8>) -> (r: EntryPlan)
        ensures
            r@ == plan_spec(kind, rel_path@),
    {
        plan_entry(kind, rel_path)
    }

    /// Whether the write to an output path may proceed, under this
    /// command's force flag or the invocation-wide one.
    pub fn allow_overwrite(&self, global_force: bool, path_exists: bool, confirmed: bool) -> (r:
        bool)
        ensures
            r == (self.force || global_force || !path_exists || confirmed),
    {
        crate::deploy::overwrite_allowed(self.force || global_force, path_exists, confirmed)
    }

    /// Whether the operator must confirm the write: the output path
    /// exists and no force flag was given.
    pub fn must_confirm(&self, global_force: bool, path_exists: bool) -> (r: bool)
        ensures
            r == (!(self.force || global_force) && path_exists),
    {
        crate::deploy::needs_confirmation(self.force || global_force, path_exists)
    }
}

} // verus!
