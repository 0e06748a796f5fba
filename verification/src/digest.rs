//! Twenty-byte values: equality, the byte-wise order, and how many of them there are.

use vstd::prelude::*;

verus! {

/// Whether `a` comes before `b` in the byte-wise order: at the first place where the two differ,
/// `a` holds the smaller byte.
pub open spec fn lex_less(a: Seq<u8>, b: Seq<u8>) -> bool {
    exists|k: int| differs_below(a, b, k)
}

/// Whether `a` and `b` agree before place `k` and `a` holds the smaller byte there.
pub open spec fn differs_below(a: Seq<u8>, b: Seq<u8>, k: int) -> bool {
    &&& 0 <= k < a.len()
    &&& k < b.len()
    &&& a[k] < b[k]
    &&& forall|j: int| 0 <= j < k ==> a[j] == b[j]
}

/// No value comes before itself.
pub proof fn lemma_lex_irreflexive(a: Seq<u8>)
    ensures
        !lex_less(a, a),
{
}

/// Of two values, at most one comes before the other.
pub proof fn lemma_lex_asymmetric(a: Seq<u8>, b: Seq<u8>)
    requires
        lex_less(a, b),
    ensures
        !lex_less(b, a),
{
    let k: int = choose|k: int| differs_below(a, b, k);
    if lex_less(b, a) {
        let m: int = choose|m: int| differs_below(b, a, m);
        if m < k {
            assert(a[m] == b[m]);
        } else if k < m {
            assert(b[k] == a[k]);
        }
    }
}

/// The byte-wise order is transitive.
pub proof fn lemma_lex_transitive(a: Seq<u8>, b: Seq<u8>, c: Seq<u8>)
    requires
        lex_less(a, b),
        lex_less(b, c),
    ensures
        lex_less(a, c),
{
    let k: int = choose|k: int| differs_below(a, b, k);
    let m: int = choose|m: int| differs_below(b, c, m);
    if k <= m {
        assert(differs_below(a, c, k));
    } else {
        assert(differs_below(a, c, m));
    }
}

/// Two values of one length are equal, or one comes before the other.
pub proof fn lemma_lex_total(a: Seq<u8>, b: Seq<u8>)
    requires
        a.len() == b.len(),
    ensures
        a == b || lex_less(a, b) || lex_less(b, a),
{
    lemma_first_difference(a, b, 0);
}

proof fn lemma_first_difference(a: Seq<u8>, b: Seq<u8>, from: int)
    requires
        a.len() == b.len(),
        0 <= from <= a.len(),
        forall|j: int| 0 <= j < from ==> a[j] == b[j],
    ensures
        a == b || lex_less(a, b) || lex_less(b, a),
    decreases a.len() - from,
{
    if from == a.len() {
        assert(a =~= b);
    } else if a[from] < b[from] {
        assert(differs_below(a, b, from));
    } else if b[from] < a[from] {
        assert(differs_below(b, a, from));
    } else {
        lemma_first_difference(a, b, from + 1);
    }
}

/// Whether `a` and `b` hold the same bytes.
pub fn bytes_equal(a: &[u8; 20], b: &[u8; 20]) -> (same: bool)
    ensures
        same == (a@ == b@),
        same == (*a == *b),
{
    let mut i: usize = 0;
    while i < 20
        invariant
            i <= 20,
            forall|j: int| 0 <= j < i ==> a@[j] == b@[j],
        decreases 20 - i,
    {
        if a[i] != b[i] {
            return false;
        }
        i += 1;
    }
    assert(a@ =~= b@);
    assert(*a =~= *b);
    true
}

/// Whether `a` comes before `b` in the byte-wise order.
pub fn bytes_less(a: &[u8; 20], b: &[u8; 20]) -> (less: bool)
    ensures
        less == lex_less(a@, b@),
{
    let mut i: usize = 0;
    while i < 20
        invariant
            i <= 20,
            forall|j: int| 0 <= j < i ==> a@[j] == b@[j],
        decreases 20 - i,
    {
        if a[i] < b[i] {
            assert(differs_below(a@, b@, i as int));
            return true;
        }
        if a[i] > b[i] {
            assert(differs_below(b@, a@, i as int));
            proof {
                lemma_lex_asymmetric(b@, a@);
            }
            return false;
        }
        i += 1;
    }
    proof {
        assert(a@ =~= b@);
        lemma_lex_irreflexive(a@);
    }
    false
}

/// The number that the bytes of `s` spell, the first byte weighing most.
pub open spec fn rank(s: Seq<u8>) -> nat
    decreases s.len(),
{
    if s.len() == 0 {
        0
    } else {
        rank(s.drop_last()) * 256 + s.last() as nat
    }
}

/// The number of byte strings of length `n`.
pub open spec fn space(n: nat) -> nat
    decreases n,
{
    if n == 0 {
        1
    } else {
        256 * space((n - 1) as nat)
    }
}

/// The rank of a byte string is below the number of byte strings of its length.
pub proof fn lemma_rank_bound(s: Seq<u8>)
    ensures
        rank(s) < space(s.len()),
    decreases s.len(),
{
    if s.len() > 0 {
        lemma_rank_bound(s.drop_last());
    }
}

/// Byte strings of one length and one rank are equal.
pub proof fn lemma_rank_injective(a: Seq<u8>, b: Seq<u8>)
    requires
        a.len() == b.len(),
        rank(a) == rank(b),
    ensures
        a == b,
    decreases a.len(),
{
    if a.len() == 0 {
        assert(a =~= b);
    } else {
        let x: nat = rank(a.drop_last());
        let y: nat = rank(b.drop_last());
        assert(x * 256 + a.last() as nat == y * 256 + b.last() as nat);
        assert(x == y && a.last() == b.last());
        lemma_rank_injective(a.drop_last(), b.drop_last());
        assert(a =~= a.drop_last().push(a.last()));
        assert(b =~= b.drop_last().push(b.last()));
    }
}

} // verus!
