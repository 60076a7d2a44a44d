//! Commit message rules.
//!
//! A message counts as empty when every line is blank or a comment
//! line beginning with `#`; such a message is rejected with
//! [`crate::OpError::EmptyMessage`] at commit time.

use vstd::prelude::*;

verus! {

/// ASCII whitespace as message trimming understands it.
pub open spec fn is_space(b: u8) -> bool {
    b == 32 || b == 9 || b == 10 || b == 13
}

/// The position of the first newline of `s`, or its length when none
/// occurs.
pub open spec fn first_nl(s: Seq<u8>) -> int
    decreases s.len(),
{
    if s.len() == 0 {
        0
    } else if s[0] == 10 {
        0
    } else {
        1 + first_nl(s.skip(1))
    }
}

/// [`first_nl`] points at the first newline: no newline stands before
/// it, and one stands at it unless the sequence holds none.
pub proof fn lemma_first_nl(s: Seq<u8>)
    ensures
        0 <= first_nl(s) <= s.len(),
        forall|i: int| 0 <= i < first_nl(s) ==> s[i] != 10,
        first_nl(s) < s.len() ==> s[first_nl(s)] == 10,
    decreases s.len(),
{
    if s.len() > 0 && s[0] != 10 {
        lemma_first_nl(s.skip(1));
        assert forall|i: int| 0 <= i < first_nl(s) implies s[i] != 10 by {
            if i > 0 {
                assert(s.skip(1)[i - 1] == s[i]);
            }
        }
        if first_nl(s) < s.len() {
            assert(s.skip(1)[first_nl(s) - 1] == s[first_nl(s)]);
        }
    }
}

/// A position `d` with no newline before it and a newline (or the end)
/// at it is exactly [`first_nl`].
pub proof fn lemma_first_nl_at(s: Seq<u8>, d: int)
    requires
        0 <= d <= s.len(),
        forall|i: int| 0 <= i < d ==> s[i] != 10,
        d < s.len() ==> s[d] == 10,
    ensures
        first_nl(s) == d,
    decreases d,
{
    if s.len() == 0 {
    } else if d == 0 {
    } else {
        assert(s[0] != 10);
        assert forall|i: int| 0 <= i < d - 1 implies s.skip(1)[i] != 10 by {
            assert(s.skip(1)[i] == s[i + 1]);
        }
        assert(d - 1 < s.skip(1).len() ==> s.skip(1)[d - 1] == 10);
        lemma_first_nl_at(s.skip(1), d - 1);
    }
}

/// A line of nothing but whitespace.
pub open spec fn line_blank(l: Seq<u8>) -> bool {
    forall|i: int| 0 <= i < l.len() ==> is_space(#[trigger] l[i])
}

/// A comment line, ignored by the emptiness check.
pub open spec fn line_ignored(l: Seq<u8>) -> bool {
    l.len() > 0 && l[0] == 35
}

/// Whether the message is empty once whitespace and comment lines are
/// discarded: every line is blank or a comment.
pub open spec fn msg_effectively_empty(s: Seq<u8>) -> bool
    decreases s.len(),
    via msg_effectively_empty_decreases
{
    if s.len() == 0 {
        true
    } else {
        let k = first_nl(s);
        let line = s.take(k);
        let ok = line_ignored(line) || line_blank(line);
        if k >= s.len() {
            ok
        } else {
            ok && msg_effectively_empty(s.skip(k + 1))
        }
    }
}

#[via_fn]
proof fn msg_effectively_empty_decreases(s: Seq<u8>) {
    lemma_first_nl(s);
}

/// Whether the message is empty once whitespace and comment lines are
/// discarded.
pub fn message_is_empty(msg: &Vec<u8>) -> (r: bool)
    ensures
        r == msg_effectively_empty(msg@),
{
    let n: usize = msg.len();
    let mut i: usize = 0;
    proof {
        assert(msg@.skip(0) =~= msg@);
    }
    while i < n
        invariant
            n == msg@.len(),
            i <= n,
            msg_effectively_empty(msg@) == msg_effectively_empty(msg@.skip(i as int)),
        decreases n - i,
    {
        let ghost suffix = msg@.skip(i as int);
        // find the end of the line that starts at i
        let mut k: usize = i;
        while k < n && msg[k] != 10
            invariant
                n == msg@.len(),
                i <= k <= n,
                forall|m: int| i <= m < k ==> msg@[m] != 10,
            decreases n - k,
        {
            k += 1;
        }
        proof {
            assert forall|m: int| 0 <= m < k - i implies suffix[m] != 10 by {
                assert(suffix[m] == msg@[i + m]);
            }
            assert(k - i < suffix.len() ==> suffix[k - i] == msg@[k as int]);
            lemma_first_nl_at(suffix, k - i);
        }
        let ghost line = suffix.take(k - i);
        // check the line: a comment, or nothing but whitespace
        let line_ok: bool;
        if k > i && msg[i] == 35 {
            line_ok = true;
            proof {
                assert(line[0] == msg@[i as int]);
                assert(line_ignored(line));
            }
        } else {
            let mut m: usize = i;
            let mut blank: bool = true;
            while m < k
                invariant
                    n == msg@.len(),
                    i <= m <= k <= n,
                    suffix == msg@.skip(i as int),
                    line == suffix.take(k - i),
                    blank == forall|q: int| 0 <= q < m - i ==> is_space(#[trigger] line[q]),
                decreases k - m,
            {
                let b = msg[m];
                proof {
                    assert(line[m - i] == msg@[m as int]);
                }
                if !(b == 32 || b == 9 || b == 10 || b == 13) {
                    blank = false;
                }
                m += 1;
            }
            line_ok = blank;
            proof {
                assert(line.len() == k - i);
                assert(line_ok == line_blank(line));
                if line_ok {
                    assert(!line_ignored(line)) by {
                        if line.len() > 0 && line[0] == 35 {
                            assert(is_space(line[0]));
                        }
                    }
                }
            }
        }
        if !line_ok {
            proof {
                assert(!msg_effectively_empty(suffix));
            }
            return false;
        }
        if k == n {
            proof {
                assert(first_nl(suffix) == suffix.len());
                assert(msg_effectively_empty(suffix));
            }
            return true;
        }
        proof {
            assert(msg@.skip(i as int).skip(k - i + 1) =~= msg@.skip(k + 1));
            assert(msg_effectively_empty(suffix) == msg_effectively_empty(msg@.skip(k + 1)));
        }
        i = k + 1;
    }
    proof {
        assert(msg@.skip(i as int).len() == 0);
    }
    true
}

} // verus!
