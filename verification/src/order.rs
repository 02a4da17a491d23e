//! The lexicographic order on byte strings, which is the order of `str`.

use vstd::prelude::*;

verus! {

/// The outcome of a three-way comparison.
#[derive(Clone, Copy, Debug, PartialEq, Eq, Structural)]
pub enum Sign {
    Less,
    Equal,
    Greater,
}

/// `a` and `b` agree on their first `k` bytes and `a` comes first at position `k`:
/// either `a` ends there and `b` goes on, or `a` holds the smaller byte.
pub open spec fn diverges_at(a: Seq<u8>, b: Seq<u8>, k: int) -> bool {
    &&& 0 <= k <= a.len()
    &&& k < b.len()
    &&& forall|i: int| 0 <= i < k ==> a[i] == b[i]
    &&& (k < a.len() ==> a[k] < b[k])
}

/// `a` comes strictly before `b` in lexicographic byte order.
pub open spec fn bytes_lt(a: Seq<u8>, b: Seq<u8>) -> bool {
    exists|k: int| diverges_at(a, b, k)
}

/// No byte string comes before itself.
pub proof fn lemma_bytes_lt_irreflexive(a: Seq<u8>)
    ensures
        !bytes_lt(a, a),
{
    if bytes_lt(a, a) {
        let k = choose|k: int| diverges_at(a, a, k);
        assert(a[k] < a[k]);
    }
}

/// The order is asymmetric.
pub proof fn lemma_bytes_lt_asymmetric(a: Seq<u8>, b: Seq<u8>)
    requires
        bytes_lt(a, b),
    ensures
        !bytes_lt(b, a),
{
    if bytes_lt(b, a) {
        let k = choose|k: int| diverges_at(a, b, k);
        let m = choose|m: int| diverges_at(b, a, m);
        if k < m {
            assert(b[k] == a[k]);
        } else if m < k {
            assert(a[m] == b[m]);
        }
    }
}

/// The order is transitive.
pub proof fn lemma_bytes_lt_transitive(a: Seq<u8>, b: Seq<u8>, c: Seq<u8>)
    requires
        bytes_lt(a, b),
        bytes_lt(b, c),
    ensures
        bytes_lt(a, c),
{
    let k = choose|k: int| diverges_at(a, b, k);
    let m = choose|m: int| diverges_at(b, c, m);
    let n = if k <= m { k } else { m };
    assert forall|i: int| 0 <= i < n implies a[i] == c[i] by {
        assert(a[i] == b[i]);
        assert(b[i] == c[i]);
    }
    assert(diverges_at(a, c, n));
}

/// Two byte strings that agree on their first `k` bytes are equal or ordered.
proof fn lemma_bytes_total_from(a: Seq<u8>, b: Seq<u8>, k: int)
    requires
        0 <= k <= a.len(),
        k <= b.len(),
        forall|i: int| 0 <= i < k ==> a[i] == b[i],
    ensures
        a == b || bytes_lt(a, b) || bytes_lt(b, a),
    decreases a.len() - k,
{
    if k == a.len() {
        if k == b.len() {
            assert(a =~= b);
        } else {
            assert(diverges_at(a, b, k));
        }
    } else if k == b.len() {
        assert(diverges_at(b, a, k));
    } else if a[k] < b[k] {
        assert(diverges_at(a, b, k));
    } else if b[k] < a[k] {
        assert(diverges_at(b, a, k));
    } else {
        lemma_bytes_total_from(a, b, k + 1);
    }
}

/// The order is total: two byte strings are equal or one comes before the other.
pub proof fn lemma_bytes_lt_total(a: Seq<u8>, b: Seq<u8>)
    ensures
        a == b || bytes_lt(a, b) || bytes_lt(b, a),
{
    lemma_bytes_total_from(a, b, 0);
}

/// What a three-way comparison of `a` with `b` returns.
pub open spec fn bytes_sign(a: Seq<u8>, b: Seq<u8>) -> Sign {
    if bytes_lt(a, b) {
        Sign::Less
    } else if a == b {
        Sign::Equal
    } else {
        Sign::Greater
    }
}

/// Compares two byte strings lexicographically.
pub fn compare_bytes(a: &[u8], b: &[u8]) -> (r: Sign)
    ensures
        r == bytes_sign(a@, b@),
        r == Sign::Greater <==> bytes_lt(b@, a@),
{
    let mut i: usize = 0;
    while i < a.len() && i < b.len()
        invariant
            i <= a.len(),
            i <= b.len(),
            forall|j: int| 0 <= j < i ==> a@[j] == b@[j],
        decreases a.len() - i,
    {
        if a[i] < b[i] {
            proof {
                assert(diverges_at(a@, b@, i as int));
                lemma_bytes_lt_asymmetric(a@, b@);
            }
            return Sign::Less;
        }
        if b[i] < a[i] {
            proof {
                assert(diverges_at(b@, a@, i as int));
                lemma_bytes_lt_asymmetric(b@, a@);
                lemma_bytes_lt_irreflexive(a@);
            }
            return Sign::Greater;
        }
        i += 1;
    }
    if i < b.len() {
        proof {
            assert(diverges_at(a@, b@, i as int));
            lemma_bytes_lt_asymmetric(a@, b@);
        }
        Sign::Less
    } else if i < a.len() {
        proof {
            assert(diverges_at(b@, a@, i as int));
            lemma_bytes_lt_asymmetric(b@, a@);
            lemma_bytes_lt_irreflexive(a@);
        }
        Sign::Greater
    } else {
        proof {
            assert(a@ =~= b@);
            lemma_bytes_lt_irreflexive(a@);
        }
        Sign::Equal
    }
}

} // verus!
