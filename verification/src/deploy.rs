//! The deployment pipeline's decisions.
//!
//! A walk over a host's source directory hands each entry to
//! [`plan_entry`]: directories recurse, non-regular entries are
//! skipped, and a regular file is rendered as a template when it
//! carries the `tera` marker extension (the extension stripped from
//! the output path) or copied verbatim otherwise. Rendering itself
//! goes through the tera engine. Paths here are plain relative byte
//! paths with `/` separators and without `.` or `..` components, as a
//! directory walk reports them.

use vstd::prelude::*;
use vstd::utf8::valid_utf8;
use crate::paths::{join_rel, joined, sub_bytes};

verus! {

/// The position of the last occurrence of `b`, or `-1` when none
/// occurs.
pub open spec fn last_pos(p: Seq<u8>, b: u8) -> int
    decreases p.len(),
{
    if p.len() == 0 {
        -1
    } else if p.last() == b {
        p.len() - 1
    } else {
        last_pos(p.drop_last(), b)
    }
}

/// The final path component: everything after the last separator.
pub open spec fn file_name_of(p: Seq<u8>) -> Seq<u8> {
    p.skip(last_pos(p, 47u8) + 1)
}

/// A position that carries `b` with none after it is exactly
/// [`last_pos`].
pub proof fn lemma_last_pos_at(p: Seq<u8>, b: u8, d: int)
    requires
        -1 <= d < p.len(),
        d >= 0 ==> p[d] == b,
        forall|i: int| d < i < p.len() ==> p[i] != b,
    ensures
        last_pos(p, b) == d,
    decreases p.len(),
{
    if p.len() > 0 {
        if d == p.len() - 1 {
        } else {
            assert(p.last() != b);
            assert forall|i: int| d < i < p.drop_last().len() implies p.drop_last()[i] != b by {
                assert(p.drop_last()[i] == p[i]);
            }
            if d >= 0 {
                assert(p.drop_last()[d] == p[d]);
            }
            lemma_last_pos_at(p.drop_last(), b, d);
        }
    }
}

/// The extension of the final component: the part after its last dot,
/// when that dot stands after the component's first byte.
pub open spec fn ext_of(p: Seq<u8>) -> Option<Seq<u8>> {
    let f = file_name_of(p);
    let d = last_pos(f, 46u8);
    if d > 0 {
        Some(f.skip(d + 1))
    } else {
        None
    }
}

/// The marker extension of a template unit.
pub open spec fn tera_ext() -> Seq<u8> {
    seq![116u8, 101u8, 114u8, 97u8]
}

/// `p` with the extension of its final component removed, when it has
/// one.
pub open spec fn strip_ext(p: Seq<u8>) -> Seq<u8> {
    let f = file_name_of(p);
    let d = last_pos(f, 46u8);
    if d > 0 {
        p.take(last_pos(p, 47u8) + 1 + d)
    } else {
        p
    }
}

/// The position just after the last separator, and the bounds that the
/// scans below rely on.
fn find_name_start(path: &Vec<u8>) -> (r: usize)
    ensures
        r == last_pos(path@, 47u8) + 1,
        r <= path@.len(),
{
    let n: usize = path.len();
    let mut i: usize = n;
    while i > 0
        invariant
            n == path@.len(),
            i <= n,
            forall|m: int| i <= m < n ==> path@[m] != 47u8,
        decreases i,
    {
        if path[i - 1] == 47u8 {
            proof {
                lemma_last_pos_at(path@, 47u8, i - 1);
            }
            return i;
        }
        i -= 1;
    }
    proof {
        lemma_last_pos_at(path@, 47u8, -1);
    }
    0
}

/// Removes the extension of the final path component, leaving a path
/// without one (or with a leading-dot name) unchanged.
pub fn remove_extension(path: &Vec<u8>) -> (r: Vec<u8>)
    ensures
        r@ == strip_ext(path@),
{
    let n: usize = path.len();
    let start = find_name_start(path);
    let ghost f = file_name_of(path@);
    proof {
        assert(f =~= path@.skip(start as int));
    }
    // scan the final component for its last dot
    let mut i: usize = n;
    while i > start
        invariant
            n == path@.len(),
            start <= i <= n,
            start == last_pos(path@, 47u8) + 1,
            f == file_name_of(path@),
            f == path@.skip(start as int),
            forall|m: int| i - start <= m < f.len() ==> f[m] != 46u8,
        decreases i,
    {
        proof {
            assert(f[i - 1 - start] == path@[i - 1]);
        }
        if path[i - 1] == 46u8 {
            proof {
                lemma_last_pos_at(f, 46u8, i - 1 - start);
            }
            if i - 1 - start > 0 {
                let mut r2: Vec<u8> = Vec::new();
                let mut m: usize = 0;
                let stop: usize = i - 1;
                while m < stop
                    invariant
                        stop <= path@.len(),
                        m <= stop,
                        r2@ =~= path@.take(m as int),
                    decreases stop - m,
                {
                    r2.push(path[m]);
                    m += 1;
                }
                proof {
                    assert(r2@ =~= strip_ext(path@));
                }
                return r2;
            } else {
                proof {
                    assert(strip_ext(path@) == path@);
                }
                return crate::paths::clone_bytes(path);
            }
        }
        i -= 1;
    }
    proof {
        lemma_last_pos_at(f, 46u8, -1);
        assert(strip_ext(path@) == path@);
    }
    crate::paths::clone_bytes(path)
}

/// What a walk found at one entry.
#[derive(Clone, Copy, Debug, PartialEq, Eq, Structural)]
pub enum EntryKind {
    File,
    Dir,
    Other,
}

/// The mathematical model of a per-entry plan.
pub enum PlanModel {
    Recurse,
    SkipNonRegular,
    SkipInvalidExt,
    Render { output_rel: Seq<u8> },
    CopyVerbatim { output_rel: Seq<u8> },
}

/// What deployment does with one discovered entry.
#[derive(Debug)]
pub enum EntryPlan {
    /// A directory: walk into it.
    Recurse,
    /// Not a regular file: skip it with a warning.
    SkipNonRegular,
    /// The extension is not valid UTF-8: skip the entry, do not abort
    /// the walk.
    SkipInvalidExt,
    /// A template unit: render it, writing to the output path with the
    /// marker extension stripped.
    Render { output_rel: Vec<u8> },
    /// A plain file: copy its bytes to the same relative path.
    CopyVerbatim { output_rel: Vec<u8> },
}

impl View for EntryPlan {
    type V = PlanModel;

    open spec fn view(&self) -> PlanModel {
        match self {
            EntryPlan::Recurse => PlanModel::Recurse,
            EntryPlan::SkipNonRegular => PlanModel::SkipNonRegular,
            EntryPlan::SkipInvalidExt => PlanModel::SkipInvalidExt,
            EntryPlan::Render { output_rel } => PlanModel::Render { output_rel: output_rel@ },
            EntryPlan::CopyVerbatim { output_rel } => PlanModel::CopyVerbatim {
                output_rel: output_rel@,
            },
        }
    }
}

/// The plan for one entry: directories recurse, non-regular entries
/// are skipped, a file with the `tera` marker extension is rendered to
/// the stripped output path, a file whose extension is not UTF-8 is
/// skipped, and any other file is copied verbatim.
pub open spec fn plan_spec(kind: EntryKind, p: Seq<u8>) -> PlanModel {
    match kind {
        EntryKind::Dir => PlanModel::Recurse,
        EntryKind::Other => PlanModel::SkipNonRegular,
        EntryKind::File => match ext_of(p) {
            None => PlanModel::CopyVerbatim { output_rel: p },
            Some(ext) => {
                if !valid_utf8(ext) {
                    PlanModel::SkipInvalidExt
                } else if ext == tera_ext() {
                    PlanModel::Render { output_rel: strip_ext(p) }
                } else {
                    PlanModel::CopyVerbatim { output_rel: p }
                }
            },
        },
    }
}

/// A regular file without the template marker is copied verbatim: its
/// planned output path is its own relative path, unchanged, with no
/// rendering applied. This covers files with no extension and files
/// whose valid-UTF-8 extension is not the marker.
pub proof fn lemma_plain_file_copies_in_place(p: Seq<u8>)
    requires
        match ext_of(p) {
            None => true,
            Some(ext) => valid_utf8(ext) && ext != tera_ext(),
        },
    ensures
        plan_spec(EntryKind::File, p) == (PlanModel::CopyVerbatim { output_rel: p }),
{
}

/// Relies on `std::str::from_utf8`, which succeeds exactly when the
/// bytes are valid UTF-8.
#[verifier::external_body]
fn check_utf8(v: &Vec<u8>) -> (r: bool)
    ensures
        r == valid_utf8(v@),
{
    std::str::from_utf8(v.as_slice()).is_ok()
}

/// Classifies one discovered entry and resolves its relative output
/// path.
pub fn plan_entry(kind: EntryKind, rel_path: &Vec<u8>) -> (r: EntryPlan)
    ensures
        r@ == plan_spec(kind, rel_path@),
{
    match kind {
        EntryKind::Dir => EntryPlan::Recurse,
        EntryKind::Other => EntryPlan::SkipNonRegular,
        EntryKind::File => {
            let n: usize = rel_path.len();
            let start = find_name_start(rel_path);
            let ghost f = file_name_of(rel_path@);
            proof {
                assert(f =~= rel_path@.skip(start as int));
            }
            // scan the final component for its last dot
            let mut i: usize = n;
            while i > start
                invariant
                    kind == EntryKind::File,
                    n == rel_path@.len(),
                    start <= i <= n,
                    start == last_pos(rel_path@, 47u8) + 1,
                    f == file_name_of(rel_path@),
                    f == rel_path@.skip(start as int),
                    forall|m: int| i - start <= m < f.len() ==> f[m] != 46u8,
                decreases i,
            {
                proof {
                    assert(f[i - 1 - start] == rel_path@[i - 1]);
                }
                if rel_path[i - 1] == 46u8 {
                    proof {
                        lemma_last_pos_at(f, 46u8, i - 1 - start);
                    }
                    if i - 1 - start > 0 {
                        let ext = sub_bytes(rel_path, i);
                        proof {
                            assert(ext@ =~= f.skip(i - start));
                            assert(ext_of(rel_path@) == Some(ext@));
                        }
                        if !check_utf8(&ext) {
                            return EntryPlan::SkipInvalidExt;
                        }
                        let is_tera = ext.len() == 4 && ext[0] == 116u8 && ext[1] == 101u8
                            && ext[2] == 114u8 && ext[3] == 97u8;
                        proof {
                            if is_tera {
                                assert(ext@ =~= tera_ext());
                            } else {
                                assert(ext@ != tera_ext());
                            }
                        }
                        if is_tera {
                            return EntryPlan::Render { output_rel: remove_extension(rel_path) };
                        }
                        return EntryPlan::CopyVerbatim {
                            output_rel: crate::paths::clone_bytes(rel_path),
                        };
                    } else {
                        proof {
                            assert(ext_of(rel_path@) is None);
                        }
                        return EntryPlan::CopyVerbatim {
                            output_rel: crate::paths::clone_bytes(rel_path),
                        };
                    }
                }
                i -= 1;
            }
            proof {
                lemma_last_pos_at(f, 46u8, -1);
                assert(ext_of(rel_path@) is None);
            }
            EntryPlan::CopyVerbatim { output_rel: crate::paths::clone_bytes(rel_path) }
        },
    }
}

/// Whether a write may proceed: always under force or to a fresh path,
/// and otherwise only with the operator's consent.
pub fn overwrite_allowed(force: bool, path_exists: bool, confirmed: bool) -> (r: bool)
    ensures
        r == (force || !path_exists || confirmed),
{
    force || !path_exists || confirmed
}

/// Whether the operator must be asked before the write: the output
/// path already exists and force was not given.
pub fn needs_confirmation(force: bool, path_exists: bool) -> (r: bool)
    ensures
        r == (!force && path_exists),
{
    !force && path_exists
}

/// The directory segment that holds one tree per managed host.
pub open spec fn servers_seg() -> Seq<u8> {
    seq![115u8, 101u8, 114u8, 118u8, 101u8, 114u8, 115u8]
}

/// The host-scoped source directory of a deployment:
/// `<source>/servers/<hostname>`.
pub fn server_dir(source_path: &Vec<u8>, hostname: &Vec<u8>) -> (r: Vec<u8>)
    requires
        source_path@.len() + hostname@.len() + 9 <= usize::MAX,
    ensures
        r@ == joined(joined(source_path@, servers_seg()), hostname@),
{
    let mut seg: Vec<u8> = Vec::new();
    seg.push(115u8);
    seg.push(101u8);
    seg.push(114u8);
    seg.push(118u8);
    seg.push(101u8);
    seg.push(114u8);
    seg.push(115u8);
    proof {
        assert(seg@ =~= servers_seg());
    }
    let base = join_rel(source_path, &seg);
    join_rel(&base, hostname)
}

} // verus!
