//! Relative byte paths and their lexicographic order.
//!
//! Paths are byte sequences with `/` as separator. The index and the
//! trees keep their entries strictly sorted by [`lex_lt`], which makes
//! iteration order and diff output deterministic.

use vstd::prelude::*;
use crate::OpError;

verus! {

/// Strict lexicographic order on byte sequences: `a` comes before `b`
/// when `a` is a proper prefix of `b`, or the first differing byte of
/// `a` is smaller.
pub open spec fn lex_lt(a: Seq<u8>, b: Seq<u8>) -> bool
    decreases a.len(),
{
    if b.len() == 0 {
        false
    } else if a.len() == 0 {
        true
    } else if a[0] < b[0] {
        true
    } else if a[0] > b[0] {
        false
    } else {
        lex_lt(a.skip(1), b.skip(1))
    }
}

/// A sequence never comes before itself.
pub proof fn lemma_lex_irrefl(a: Seq<u8>)
    ensures
        !lex_lt(a, a),
    decreases a.len(),
{
    if a.len() > 0 {
        lemma_lex_irrefl(a.skip(1));
    }
}

/// Of two byte sequences, exactly one of `a < b`, `a == b`, `b < a` holds.
pub proof fn lemma_lex_trichotomy(a: Seq<u8>, b: Seq<u8>)
    ensures
        lex_lt(a, b) || lex_lt(b, a) || a == b,
        lex_lt(a, b) ==> !lex_lt(b, a) && a != b,
        lex_lt(b, a) ==> !lex_lt(a, b) && a != b,
    decreases a.len(),
{
    lemma_lex_irrefl(a);
    lemma_lex_irrefl(b);
    if a.len() == 0 && b.len() == 0 {
        assert(a =~= b);
    } else if a.len() > 0 && b.len() > 0 && a[0] == b[0] {
        lemma_lex_trichotomy(a.skip(1), b.skip(1));
        if a.skip(1) == b.skip(1) {
            assert(a =~= b) by {
                assert(forall|i: int| 1 <= i < a.len() ==> a[i] == a.skip(1)[i - 1]);
                assert(forall|i: int| 1 <= i < b.len() ==> b[i] == b.skip(1)[i - 1]);
            }
        }
        if a == b {
            assert(a.skip(1) =~= b.skip(1));
        }
    } else {
        if a == b && a.len() > 0 {
            assert(a[0] == b[0]);
        }
    }
}

/// The lexicographic order is transitive.
pub proof fn lemma_lex_trans(a: Seq<u8>, b: Seq<u8>, c: Seq<u8>)
    requires
        lex_lt(a, b),
        lex_lt(b, c),
    ensures
        lex_lt(a, c),
    decreases a.len() + b.len() + c.len(),
{
    if c.len() == 0 {
        // lex_lt(b, c) is impossible
    } else if a.len() == 0 {
        // lex_lt(a, c) by definition
    } else {
        // a and c nonempty; b nonempty since lex_lt(a, b) with a nonempty
        if a[0] == b[0] && b[0] == c[0] {
            lemma_lex_trans(a.skip(1), b.skip(1), c.skip(1));
        }
    }
}

/// Whether `p` is a prefix of `s`.
pub open spec fn starts_with(s: Seq<u8>, p: Seq<u8>) -> bool {
    p.len() <= s.len() && s.take(p.len() as int) == p
}

/// Whether the byte path is absolute (begins with `/`).
pub open spec fn is_absolute(p: Seq<u8>) -> bool {
    p.len() > 0 && p[0] == 47u8
}

/// Exact byte equality of two vectors.
pub fn bytes_eq(a: &Vec<u8>, b: &Vec<u8>) -> (r: bool)
    ensures
        r <==> a@ == b@,
{
    if a.len() != b.len() {
        return false;
    }
    let n: usize = a.len();
    let mut i: usize = 0;
    while i < n
        invariant
            n == a@.len() && n == b@.len(),
            i <= n,
            forall|k: int| 0 <= k < i ==> a@[k] == b@[k],
        decreases n - i,
    {
        if a[i] != b[i] {
            return false;
        }
        i += 1;
    }
    proof {
        assert(a@ =~= b@);
    }
    true
}

/// Three-way comparison in the order of [`lex_lt`]: `-1` when `a` comes
/// first, `0` on equality, `1` when `b` comes first.
pub fn bytes_cmp(a: &Vec<u8>, b: &Vec<u8>) -> (o: i8)
    ensures
        -1 <= o <= 1,
        o == -1 <==> lex_lt(a@, b@),
        o == 0 <==> a@ == b@,
        o == 1 <==> lex_lt(b@, a@),
{
    proof {
        lemma_lex_trichotomy(a@, b@);
        assert(a@.skip(0) =~= a@);
        assert(b@.skip(0) =~= b@);
    }
    let alen: usize = a.len();
    let blen: usize = b.len();
    let mut i: usize = 0;
    while i < alen && i < blen
        invariant
            alen == a@.len() && blen == b@.len(),
            i <= alen && i <= blen,
            forall|k: int| 0 <= k < i ==> a@[k] == b@[k],
            lex_lt(a@, b@) <==> lex_lt(a@.skip(i as int), b@.skip(i as int)),
            lex_lt(b@, a@) <==> lex_lt(b@.skip(i as int), a@.skip(i as int)),
        decreases alen - i,
    {
        let x = a[i];
        let y = b[i];
        if x < y {
            return -1;
        }
        if x > y {
            return 1;
        }
        proof {
            assert(a@.skip(i as int).skip(1) =~= a@.skip(i + 1));
            assert(b@.skip(i as int).skip(1) =~= b@.skip(i + 1));
        }
        i += 1;
    }
    if alen == blen {
        proof {
            assert(a@ =~= b@);
            lemma_lex_irrefl(a@);
        }
        0
    } else if alen < blen {
        proof {
            assert(a@.skip(i as int).len() == 0);
            assert(b@.skip(i as int).len() > 0);
        }
        -1
    } else {
        proof {
            assert(b@.skip(i as int).len() == 0);
            assert(a@.skip(i as int).len() > 0);
        }
        1
    }
}

/// Whether `p` is a prefix of `s`, byte for byte.
pub fn begins_with(s: &Vec<u8>, p: &Vec<u8>) -> (r: bool)
    ensures
        r == starts_with(s@, p@),
{
    let plen: usize = p.len();
    if plen > s.len() {
        proof {
            assert(!starts_with(s@, p@));
        }
        return false;
    }
    let mut i: usize = 0;
    while i < plen
        invariant
            plen == p@.len(),
            plen <= s@.len(),
            i <= plen,
            forall|k: int| 0 <= k < i ==> s@[k] == p@[k],
        decreases plen - i,
    {
        if s[i] != p[i] {
            proof {
                assert(s@.take(plen as int)[i as int] != p@[i as int]);
            }
            return false;
        }
        i += 1;
    }
    proof {
        assert(s@.take(plen as int) =~= p@);
    }
    true
}

/// The suffix of `v` from position `from` on.
pub fn sub_bytes(v: &Vec<u8>, from: usize) -> (r: Vec<u8>)
    requires
        from <= v@.len(),
    ensures
        r@ == v@.skip(from as int),
{
    let n: usize = v.len();
    let mut r: Vec<u8> = Vec::new();
    let mut i: usize = from;
    while i < n
        invariant
            n == v@.len(),
            from <= i <= n,
            r@ =~= v@.subrange(from as int, i as int),
        decreases n - i,
    {
        r.push(v[i]);
        i += 1;
    }
    proof {
        assert(r@ =~= v@.skip(from as int));
    }
    r
}

/// A copy of the byte vector.
pub fn clone_bytes(v: &Vec<u8>) -> (r: Vec<u8>)
    ensures
        r@ == v@,
{
    let r = sub_bytes(v, 0);
    proof {
        assert(v@.skip(0) =~= v@);
    }
    r
}

/// The relative path that `abs` has under `root`, when `abs` lies
/// strictly below `root`: the part after the separator.
pub open spec fn rel_under(abs: Seq<u8>, root: Seq<u8>) -> Option<Seq<u8>> {
    if root.len() > 0 && root[root.len() - 1] == 47u8 {
        if starts_with(abs, root) && abs.len() > root.len() {
            Some(abs.skip(root.len() as int))
        } else {
            None
        }
    } else {
        if starts_with(abs, root + seq![47u8]) && abs.len() > root.len() + 1 {
            Some(abs.skip(root.len() as int + 1))
        } else {
            None
        }
    }
}

/// The model of an optional byte vector.
pub open spec fn opt_bytes(o: Option<Vec<u8>>) -> Option<Seq<u8>> {
    match o {
        Some(v) => Some(v@),
        None => None,
    }
}

/// Expresses `abs` relative to the repository root, or fails with
/// [`OpError::PathOutsideRoot`] when `abs` does not lie strictly below
/// `root`.
pub fn relativize(abs: &Vec<u8>, root: &Vec<u8>) -> (r: Result<Vec<u8>, OpError>)
    ensures
        r matches Ok(p) ==> rel_under(abs@, root@) == Some(p@),
        r matches Err(e) ==> rel_under(abs@, root@) is None && e == OpError::PathOutsideRoot,
{
    let rlen: usize = root.len();
    if rlen > 0 && root[rlen - 1] == 47u8 {
        if abs.len() > rlen && begins_with(abs, root) {
            Ok(sub_bytes(abs, rlen))
        } else {
            Err(OpError::PathOutsideRoot)
        }
    } else {
        if abs.len() > rlen && rlen < usize::MAX {
            let mut root_slash = clone_bytes(root);
            root_slash.push(47u8);
            proof {
                assert(root_slash@ =~= root@ + seq![47u8]);
            }
            if abs.len() > rlen + 1 && begins_with(abs, &root_slash) {
                Ok(sub_bytes(abs, rlen + 1))
            } else {
                Err(OpError::PathOutsideRoot)
            }
        } else {
            proof {
                if starts_with(abs@, root@ + seq![47u8]) {
                    assert(abs@.len() >= root@.len() + 1);
                }
            }
            Err(OpError::PathOutsideRoot)
        }
    }
}

/// `base` and `rel` joined with a single separator between them.
pub open spec fn joined(base: Seq<u8>, rel: Seq<u8>) -> Seq<u8> {
    if base.len() > 0 && base[base.len() - 1] == 47u8 {
        base + rel
    } else {
        base + seq![47u8] + rel
    }
}

/// Appends the relative path `rel` under `base`.
pub fn join_rel(base: &Vec<u8>, rel: &Vec<u8>) -> (r: Vec<u8>)
    requires
        base@.len() + rel@.len() + 1 <= usize::MAX,
    ensures
        r@ == joined(base@, rel@),
{
    let blen: usize = base.len();
    let mut r = clone_bytes(base);
    if !(blen > 0 && base[blen - 1] == 47u8) {
        r.push(47u8);
    }
    let mut i: usize = 0;
    let n: usize = rel.len();
    while i < n
        invariant
            n == rel@.len(),
            i <= n,
            r@ =~= (if base@.len() > 0 && base@[base@.len() - 1] == 47u8 {
                base@
            } else {
                base@ + seq![47u8]
            }) + rel@.take(i as int),
        decreases n - i,
    {
        r.push(rel[i]);
        i += 1;
    }
    proof {
        assert(rel@.take(n as int) =~= rel@);
        assert(r@ =~= joined(base@, rel@));
    }
    r
}

/// What joining `other` "inside" a base path yields: an absolute `other`
/// is accepted unchanged only when it lies strictly below the base, and
/// a relative `other` is appended under the base.
pub open spec fn join_inside_spec(base: Seq<u8>, other: Seq<u8>) -> Option<Seq<u8>> {
    if is_absolute(other) {
        if rel_under(other, base) is Some {
            Some(other)
        } else {
            None
        }
    } else {
        Some(joined(base, other))
    }
}

/// Joining a path while staying inside the base path.
pub trait PathExt {
    /// The byte-path model of the base value.
    spec fn path_model(&self) -> Seq<u8>;

    /// Appends `other` to `self`; yields nothing when the resulting path
    /// would not fall under `self`.
    fn join_inside(&self, other: &Vec<u8>) -> (r: Option<Vec<u8>>)
        requires
            self.path_model().len() + other@.len() + 1 <= usize::MAX,
        ensures
            opt_bytes(r) == join_inside_spec(self.path_model(), other@);
}

impl PathExt for Vec<u8> {
    open spec fn path_model(&self) -> Seq<u8> {
        self@
    }

    fn join_inside(&self, other: &Vec<u8>) -> (r: Option<Vec<u8>>)
    {
        if other.len() > 0 && other[0] == 47u8 {
            match relativize(other, self) {
                Ok(_) => Some(clone_bytes(other)),
                Err(_) => None,
            }
        } else {
            Some(join_rel(self, other))
        }
    }
}

} // verus!
