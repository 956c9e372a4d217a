//! Lexicographic order on character sequences, with an executable
//! comparison. This is the deterministic tie-break that registers use so
//! that every replica resolves equal clocks identically.

use vstd::prelude::*;
use crate::keys::Cmp;

verus! {

/// Lexicographic "less than or equal" on character sequences, comparing
/// scalar values position by position; a proper prefix precedes.
pub open spec fn text_le(a: Seq<char>, b: Seq<char>) -> bool
    decreases a.len(),
{
    if a.len() == 0 {
        true
    } else if b.len() == 0 {
        false
    } else if a[0] == b[0] {
        text_le(a.skip(1), b.skip(1))
    } else {
        (a[0] as int) < (b[0] as int)
    }
}

/// The order is total.
pub proof fn lemma_text_le_total(a: Seq<char>, b: Seq<char>)
    ensures
        text_le(a, b) || text_le(b, a),
    decreases a.len(),
{
    if a.len() == 0 {
    } else if b.len() == 0 {
        assert(text_le(b, a));
    } else if a[0] == b[0] {
        lemma_text_le_total(a.skip(1), b.skip(1));
    } else {
        assert((a[0] as int) != (b[0] as int));
        if (a[0] as int) < (b[0] as int) {
            assert(text_le(a, b));
        } else {
            assert(text_le(b, a));
        }
    }
}

/// The order is antisymmetric.
pub proof fn lemma_text_le_antisym(a: Seq<char>, b: Seq<char>)
    requires
        text_le(a, b),
        text_le(b, a),
    ensures
        a == b,
    decreases a.len(),
{
    if a.len() == 0 {
        assert(b.len() == 0);
        assert(a =~= b);
    } else {
        assert(b.len() != 0);
        assert(a[0] == b[0]);
        lemma_text_le_antisym(a.skip(1), b.skip(1));
        assert(a =~= b) by {
            assert forall|i: int| 0 <= i < a.len() implies a[i] == b[i] by {
                if i > 0 {
                    assert(a.skip(1)[i - 1] == a[i]);
                    assert(b.skip(1)[i - 1] == b[i]);
                }
            }
        }
    }
}

/// The order is transitive.
pub proof fn lemma_text_le_trans(a: Seq<char>, b: Seq<char>, c: Seq<char>)
    requires
        text_le(a, b),
        text_le(b, c),
    ensures
        text_le(a, c),
    decreases a.len(),
{
    if a.len() == 0 || b.len() == 0 || c.len() == 0 {
    } else {
        if a[0] == b[0] && b[0] == c[0] {
            lemma_text_le_trans(a.skip(1), b.skip(1), c.skip(1));
        }
    }
}

/// Sequences that agree up to `i` and then diverge with a smaller scalar at
/// `i` are strictly ordered.
proof fn lemma_text_le_diverge(a: Seq<char>, b: Seq<char>, i: int)
    requires
        0 <= i < a.len(),
        i < b.len(),
        forall|j: int| 0 <= j < i ==> a[j] == b[j],
        (a[i] as int) < (b[i] as int),
    ensures
        text_le(a, b),
        a != b,
    decreases i,
{
    assert(a[i] != b[i]);
    if i == 0 {
        assert(text_le(a, b));
    } else {
        assert(a[0] == b[0]);
        lemma_text_le_diverge(a.skip(1), b.skip(1), i - 1);
        assert(a.skip(1)[i - 1] == a[i]);
        assert(b.skip(1)[i - 1] == b[i]);
        assert(forall|j: int| 0 <= j < i - 1 ==> a.skip(1)[j] == a[j + 1] && b.skip(1)[j] == b[j
            + 1]);
    }
}

/// A proper prefix strictly precedes the longer sequence.
proof fn lemma_text_le_prefix(a: Seq<char>, b: Seq<char>)
    requires
        a.len() <= b.len(),
        forall|j: int| 0 <= j < a.len() ==> a[j] == b[j],
    ensures
        text_le(a, b),
    decreases a.len(),
{
    if a.len() != 0 {
        lemma_text_le_prefix(a.skip(1), b.skip(1));
        assert(forall|j: int| 0 <= j < a.skip(1).len() ==> a.skip(1)[j] == a[j + 1] && b.skip(
            1,
        )[j] == b[j + 1]);
    }
}

/// Three-way lexicographic comparison of two strings, agreeing with
/// `text_le` on the views.
pub fn text_compare(a: &str, b: &str) -> (c: Cmp)
    ensures
        match c {
            Cmp::Less => text_le(a@, b@) && a@ != b@,
            Cmp::Equal => a@ == b@,
            Cmp::Greater => text_le(b@, a@) && b@ != a@,
        },
{
    let alen = a.unicode_len();
    let blen = b.unicode_len();
    let mut i: usize = 0;
    while i < alen && i < blen
        invariant
            alen == a@.len(),
            blen == b@.len(),
            i <= alen,
            i <= blen,
            forall|j: int| 0 <= j < i ==> a@[j] == b@[j],
        decreases alen - i,
    {
        let ca = a.get_char(i);
        let cb = b.get_char(i);
        if (ca as u32) < (cb as u32) {
            proof {
                lemma_text_le_diverge(a@, b@, i as int);
            }
            return Cmp::Less;
        }
        if (ca as u32) > (cb as u32) {
            proof {
                lemma_text_le_diverge(b@, a@, i as int);
            }
            return Cmp::Greater;
        }
        proof {
            assert(ca == cb) by {
                assert((ca as u32) == (cb as u32));
            }
        }
        i += 1;
    }
    if alen == blen {
        proof {
            assert(a@ =~= b@);
        }
        Cmp::Equal
    } else if alen < blen {
        proof {
            lemma_text_le_prefix(a@, b@);
        }
        Cmp::Less
    } else {
        proof {
            lemma_text_le_prefix(b@, a@);
        }
        Cmp::Greater
    }
}

} // verus!
