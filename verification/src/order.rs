//! The order of denominations: that of their UTF-8 bytes, compared one by one
//! from the left, a proper prefix coming first.
use vstd::prelude::*;
use vstd::utf8::{encode_utf8, encode_utf8_decode_utf8};

verus! {

/// Whether `a` and `b` agree on their first `k` bytes.
pub open spec fn same_prefix(a: Seq<u8>, b: Seq<u8>, k: int) -> bool {
    &&& 0 <= k <= a.len()
    &&& k <= b.len()
    &&& forall|i: int| 0 <= i < k ==> a[i] == b[i]
}

/// Whether position `k` shows that `a` comes before `b`: the two agree before
/// `k`, and there `a` has ended or holds the smaller byte.
pub open spec fn precedes_at(a: Seq<u8>, b: Seq<u8>, k: int) -> bool {
    &&& same_prefix(a, b, k)
    &&& k < b.len()
    &&& (k == a.len() || a[k] < b[k])
}

/// Whether `a` comes before `b` in lexicographic order.
pub open spec fn bytes_precede(a: Seq<u8>, b: Seq<u8>) -> bool {
    exists|k: int| precedes_at(a, b, k)
}

/// Whether the denomination `a` comes before the denomination `b`.
pub open spec fn denom_lt(a: Seq<char>, b: Seq<char>) -> bool {
    bytes_precede(encode_utf8(a), encode_utf8(b))
}

/// No byte string comes before itself.
pub proof fn lemma_bytes_irreflexive(a: Seq<u8>)
    ensures
        !bytes_precede(a, a),
{
}

/// The order of byte strings is transitive.
pub proof fn lemma_bytes_transitive(a: Seq<u8>, b: Seq<u8>, c: Seq<u8>)
    requires
        bytes_precede(a, b),
        bytes_precede(b, c),
    ensures
        bytes_precede(a, c),
{
    let i = choose|k: int| precedes_at(a, b, k);
    let j = choose|k: int| precedes_at(b, c, k);
    let m = if i <= j { i } else { j };
    assert(precedes_at(a, c, m));
}

/// Two byte strings that agree on their first `k` bytes are equal, or one of
/// them comes before the other.
proof fn lemma_bytes_total_from(a: Seq<u8>, b: Seq<u8>, k: int)
    requires
        same_prefix(a, b, k),
    ensures
        a == b || bytes_precede(a, b) || bytes_precede(b, a),
    decreases a.len() - k,
{
    if k == a.len() {
        if k == b.len() {
            assert(a =~= b);
        } else {
            assert(precedes_at(a, b, k));
        }
    } else if k == b.len() {
        assert(precedes_at(b, a, k));
    } else if a[k] < b[k] {
        assert(precedes_at(a, b, k));
    } else if b[k] < a[k] {
        assert(precedes_at(b, a, k));
    } else {
        lemma_bytes_total_from(a, b, k + 1);
    }
}

/// The order of byte strings is total.
pub proof fn lemma_bytes_total(a: Seq<u8>, b: Seq<u8>)
    ensures
        a == b || bytes_precede(a, b) || bytes_precede(b, a),
{
    lemma_bytes_total_from(a, b, 0);
}

/// No denomination comes before itself.
pub proof fn lemma_denom_lt_irreflexive(a: Seq<char>)
    ensures
        !denom_lt(a, a),
{
    lemma_bytes_irreflexive(encode_utf8(a));
}

/// The order of denominations is transitive.
pub proof fn lemma_denom_lt_transitive(a: Seq<char>, b: Seq<char>, c: Seq<char>)
    requires
        denom_lt(a, b),
        denom_lt(b, c),
    ensures
        denom_lt(a, c),
{
    lemma_bytes_transitive(encode_utf8(a), encode_utf8(b), encode_utf8(c));
}

/// Of two denominations that differ, one comes before the other.
pub proof fn lemma_denom_lt_total(a: Seq<char>, b: Seq<char>)
    ensures
        a == b || denom_lt(a, b) || denom_lt(b, a),
{
    lemma_bytes_total(encode_utf8(a), encode_utf8(b));
    if encode_utf8(a) == encode_utf8(b) {
        // Equal bytes are the bytes of equal strings.
        encode_utf8_decode_utf8(a);
        encode_utf8_decode_utf8(b);
    }
}

/// Of two denominations, at most one comes before the other.
pub proof fn lemma_denom_lt_asymmetric(a: Seq<char>, b: Seq<char>)
    requires
        denom_lt(a, b),
    ensures
        !denom_lt(b, a),
        a != b,
{
    lemma_denom_lt_irreflexive(a);
    if denom_lt(b, a) {
        lemma_denom_lt_transitive(a, b, a);
    }
}

/// Tells whether the denomination `a` comes before the denomination `b`.
pub fn denom_precedes(a: &str, b: &str) -> (r: bool)
    ensures
        r == denom_lt(a@, b@),
{
    let x = a.as_bytes();
    let y = b.as_bytes();
    let mut i: usize = 0;
    while i < x.len() && i < y.len() && x[i] == y[i]
        invariant
            same_prefix(x@, y@, i as int),
        decreases x.len() - i,
    {
        i += 1;
    }
    let r = i < y.len() && (i == x.len() || x[i] < y[i]);
    proof {
        if r {
            assert(precedes_at(x@, y@, i as int));
        } else {
            // No position shows that `a` comes first: one before `i` holds
            // equal bytes, and one after `i` would have equal bytes at `i`.
            assert forall|k: int| !precedes_at(x@, y@, k) by {
                if precedes_at(x@, y@, k) && k > i {
                    assert(x@[i as int] == y@[i as int]);
                }
            }
        }
    }
    r
}

} // verus!
