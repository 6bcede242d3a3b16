//! A total order on (encoded type tag, payload bytes) pairs. The content
//! hash sorts each item's payloads by this order, so that the fingerprint
//! does not depend on the order in which the platform reported the types.

use vstd::prelude::*;
use vstd::relations::{sorted_by, total_ordering};
use vstd::seq_lib::lemma_sorted_unique;

verus! {

/// Lexicographic "less than or equal" on byte sequences.
pub open spec fn bytes_leq(a: Seq<u8>, b: Seq<u8>) -> bool
    decreases a.len(),
{
    if a.len() == 0 {
        true
    } else if b.len() == 0 {
        false
    } else if a[0] < b[0] {
        true
    } else if a[0] > b[0] {
        false
    } else {
        bytes_leq(a.drop_first(), b.drop_first())
    }
}

pub proof fn lemma_bytes_leq_reflexive(a: Seq<u8>)
    ensures
        bytes_leq(a, a),
    decreases a.len(),
{
    if a.len() > 0 {
        lemma_bytes_leq_reflexive(a.drop_first());
    }
}

pub proof fn lemma_bytes_leq_antisymmetric(a: Seq<u8>, b: Seq<u8>)
    requires
        bytes_leq(a, b),
        bytes_leq(b, a),
    ensures
        a == b,
    decreases a.len(),
{
    if a.len() == 0 {
        assert(a =~= b);
    } else {
        lemma_bytes_leq_antisymmetric(a.drop_first(), b.drop_first());
        assert forall|j: int| 0 <= j < a.len() implies a[j] == b[j] by {
            if j > 0 {
                assert(a.drop_first()[j - 1] == b.drop_first()[j - 1]);
            }
        }
        assert(a.len() == b.len());
        assert(a =~= b);
    }
}

pub proof fn lemma_bytes_leq_transitive(a: Seq<u8>, b: Seq<u8>, c: Seq<u8>)
    requires
        bytes_leq(a, b),
        bytes_leq(b, c),
    ensures
        bytes_leq(a, c),
    decreases a.len(),
{
    if a.len() > 0 && b.len() > 0 && c.len() > 0 && a[0] == b[0] && b[0] == c[0] {
        lemma_bytes_leq_transitive(a.drop_first(), b.drop_first(), c.drop_first());
    }
}

pub proof fn lemma_bytes_leq_connected(a: Seq<u8>, b: Seq<u8>)
    ensures
        bytes_leq(a, b) || bytes_leq(b, a),
    decreases a.len(),
{
    if a.len() > 0 && b.len() > 0 && a[0] == b[0] {
        lemma_bytes_leq_connected(a.drop_first(), b.drop_first());
    }
}

/// "Less than or equal" on (encoded tag, bytes) pairs: by the tag's bytes
/// first, then by the payload bytes.
pub open spec fn pair_leq(x: (Seq<u8>, Seq<u8>), y: (Seq<u8>, Seq<u8>)) -> bool {
    if x.0 == y.0 {
        bytes_leq(x.1, y.1)
    } else {
        bytes_leq(x.0, y.0)
    }
}

/// The pair order as a first-class relation, for vstd's sorting lemmas.
pub open spec fn pair_order() -> spec_fn((Seq<u8>, Seq<u8>), (Seq<u8>, Seq<u8>)) -> bool {
    |x: (Seq<u8>, Seq<u8>), y: (Seq<u8>, Seq<u8>)| pair_leq(x, y)
}

pub proof fn lemma_pair_order_total()
    ensures
        total_ordering(pair_order()),
{
    let r = pair_order();
    assert forall|x: (Seq<u8>, Seq<u8>)| #[trigger] r(x, x) by {
        lemma_bytes_leq_reflexive(x.1);
    }
    assert forall|x: (Seq<u8>, Seq<u8>), y: (Seq<u8>, Seq<u8>)| #[trigger] r(x, y) && #[trigger] r(
        y,
        x,
    ) implies x == y by {
        if x.0 == y.0 {
            lemma_bytes_leq_antisymmetric(x.1, y.1);
        } else {
            lemma_bytes_leq_antisymmetric(x.0, y.0);
        }
    }
    assert forall|x: (Seq<u8>, Seq<u8>), y: (Seq<u8>, Seq<u8>), z: (Seq<u8>, Seq<u8>)|
        #[trigger] r(x, y) && #[trigger] r(y, z) implies r(x, z) by {
        if x.0 == y.0 && y.0 == z.0 {
            lemma_bytes_leq_transitive(x.1, y.1, z.1);
        } else if x.0 == y.0 {
        } else if y.0 == z.0 {
        } else {
            lemma_bytes_leq_transitive(x.0, y.0, z.0);
            if x.0 == z.0 {
                lemma_bytes_leq_antisymmetric(x.0, y.0);
            }
        }
    }
    assert forall|x: (Seq<u8>, Seq<u8>), y: (Seq<u8>, Seq<u8>)| #[trigger] r(x, y) || #[trigger] r(
        y,
        x,
    ) by {
        if x.0 == y.0 {
            lemma_bytes_leq_connected(x.1, y.1);
        } else {
            lemma_bytes_leq_connected(x.0, y.0);
        }
    }
}

/// The mathematical pair an executable (tag bytes, payload bytes) pair
/// stands for.
pub open spec fn pview(e: (Vec<u8>, Vec<u8>)) -> (Seq<u8>, Seq<u8>) {
    (e.0@, e.1@)
}

/// The mathematical pairs a vector of executable pairs stands for.
pub open spec fn pviews(s: Seq<(Vec<u8>, Vec<u8>)>) -> Seq<(Seq<u8>, Seq<u8>)> {
    s.map_values(|e: (Vec<u8>, Vec<u8>)| pview(e))
}

/// Compares two byte vectors by the lexicographic order.
pub fn bytes_le(a: &Vec<u8>, b: &Vec<u8>) -> (r: bool)
    ensures
        r == bytes_leq(a@, b@),
{
    let mut i: usize = 0;
    proof {
        assert(a@.skip(0) =~= a@);
        assert(b@.skip(0) =~= b@);
    }
    while i < a.len() && i < b.len()
        invariant
            i <= a@.len(),
            i <= b@.len(),
            bytes_leq(a@, b@) == bytes_leq(a@.skip(i as int), b@.skip(i as int)),
            bytes_leq(b@, a@) == bytes_leq(b@.skip(i as int), a@.skip(i as int)),
        decreases a@.len() - i,
    {
        let x = a[i];
        let y = b[i];
        if x < y {
            return true;
        }
        if x > y {
            return false;
        }
        proof {
            assert(a@.skip(i as int).drop_first() =~= a@.skip(i + 1 as int));
            assert(b@.skip(i as int).drop_first() =~= b@.skip(i + 1 as int));
        }
        i = i + 1;
    }
    a.len() <= b.len()
}

/// Compares two (tag bytes, payload bytes) pairs by the pair order.
pub fn pair_le(x: &(Vec<u8>, Vec<u8>), y: &(Vec<u8>, Vec<u8>)) -> (r: bool)
    ensures
        r == pair_leq(pview(*x), pview(*y)),
{
    let tag_le = bytes_le(&x.0, &y.0);
    let tag_ge = bytes_le(&y.0, &x.0);
    if tag_le && tag_ge {
        proof {
            lemma_bytes_leq_antisymmetric(x.0@, y.0@);
        }
        bytes_le(&x.1, &y.1)
    } else {
        proof {
            if x.0@ == y.0@ {
                lemma_bytes_leq_reflexive(x.0@);
            }
        }
        tag_le
    }
}

/// Sorts (tag bytes, payload bytes) pairs by the pair order. The result is
/// exactly the canonical sorted form of the input: the unique permutation
/// that the pair order accepts.
pub fn sort_pairs(v: Vec<(Vec<u8>, Vec<u8>)>) -> (r: Vec<(Vec<u8>, Vec<u8>)>)
    ensures
        pviews(r@) == pviews(v@).sort_by(pair_order()),
{
    broadcast use vstd::seq_lib::group_to_multiset_ensures;
    broadcast use vstd::multiset::group_multiset_axioms;

    let ghost full = pviews(v@);
    let mut rest = v;
    let mut out: Vec<(Vec<u8>, Vec<u8>)> = Vec::new();
    proof {
        lemma_pair_order_total();
        assert(pviews(out@).to_multiset() =~= Seq::<(Seq<u8>, Seq<u8>)>::empty().to_multiset());
        assert(pviews(rest@).to_multiset().add(pviews(out@).to_multiset()) =~= full.to_multiset());
    }
    while rest.len() > 0
        invariant
            sorted_by(pviews(out@), pair_order()),
            pviews(rest@).to_multiset().add(pviews(out@).to_multiset()) == full.to_multiset(),
        decreases rest@.len(),
    {
        let ghost rest0 = pviews(rest@);
        let e = rest.pop().unwrap();
        proof {
            assert(rest0 =~= pviews(rest@).push(pview(e)));
        }
        let pos = sorted_position(&out, &e);
        let ghost out0 = pviews(out@);
        out.insert(pos, e);
        proof {
            assert(pviews(out@) =~= out0.insert(pos as int, pview(e)));
            lemma_insert_sorted(out0, pos as int, pview(e));
            vstd::seq_lib::to_multiset_insert(out0, pos as int, pview(e));
            vstd::seq_lib::to_multiset_build(pviews(rest@), pview(e));
            assert(rest0.to_multiset() == pviews(rest@).push(pview(e)).to_multiset());
            assert(pviews(rest@).to_multiset().add(pviews(out@).to_multiset()) =~= full
                .to_multiset());
        }
    }
    proof {
        assert(pviews(rest@).to_multiset() =~= Seq::<(Seq<u8>, Seq<u8>)>::empty().to_multiset());
        assert(pviews(out@).to_multiset() =~= full.to_multiset());
        full.lemma_sort_by_ensures(pair_order());
        lemma_sorted_unique(pviews(out@), full.sort_by(pair_order()), pair_order());
    }
    out
}

/// Finds the position where a pair belongs in a sorted vector: every pair
/// before it is at most the new one, and the new one is at most every pair
/// from the position on.
fn sorted_position(out: &Vec<(Vec<u8>, Vec<u8>)>, e: &(Vec<u8>, Vec<u8>)) -> (pos: usize)
    requires
        sorted_by(pviews(out@), pair_order()),
    ensures
        pos <= out@.len(),
        forall|k: int| 0 <= k < pos ==> pair_leq(#[trigger] pviews(out@)[k], pview(*e)),
        forall|k: int| pos <= k < out@.len() ==> pair_leq(pview(*e), #[trigger] pviews(out@)[k]),
{
    let mut pos: usize = 0;
    while pos < out.len() && pair_le(&out[pos], e)
        invariant
            pos <= out@.len(),
            sorted_by(pviews(out@), pair_order()),
            forall|k: int| 0 <= k < pos ==> pair_leq(#[trigger] pviews(out@)[k], pview(*e)),
        decreases out@.len() - pos,
    {
        pos = pos + 1;
    }
    proof {
        lemma_pair_order_total();
        let r = pair_order();
        let s = pviews(out@);
        if pos < out@.len() {
            assert forall|k: int| pos <= k < out@.len() implies pair_leq(
                pview(*e),
                #[trigger] s[k],
            ) by {
                assert(!pair_leq(s[pos as int], pview(*e)));
                assert(r(pview(*e), s[pos as int]) || r(s[pos as int], pview(*e)));
                assert(r(pview(*e), s[pos as int]));
                if k > pos {
                    assert(r(s[pos as int], s[k]));
                    assert(r(pview(*e), s[k]));
                }
            }
        }
    }
    pos
}

/// Inserting an element at a position bounded below and above by its
/// neighbours keeps a sequence sorted.
proof fn lemma_insert_sorted(s: Seq<(Seq<u8>, Seq<u8>)>, pos: int, e: (Seq<u8>, Seq<u8>))
    requires
        sorted_by(s, pair_order()),
        0 <= pos <= s.len(),
        forall|k: int| 0 <= k < pos ==> pair_leq(#[trigger] s[k], e),
        forall|k: int| pos <= k < s.len() ==> pair_leq(e, #[trigger] s[k]),
    ensures
        sorted_by(s.insert(pos, e), pair_order()),
{
    lemma_pair_order_total();
    let r = pair_order();
    let t = s.insert(pos, e);
    s.insert_ensures(pos, e);
    assert forall|i: int, j: int| 0 <= i < j < t.len() implies r(t[i], t[j]) by {
        if i < pos && j < pos {
            assert(r(s[i], s[j]));
        } else if i < pos && j == pos {
            assert(pair_leq(s[i], e));
        } else if i < pos && j > pos {
            assert(r(s[i], s[j - 1]));
            assert(t[j] == s[j - 1]);
        } else if i == pos && j > pos {
            assert(pair_leq(e, s[j - 1]));
        } else if i > pos {
            assert(r(s[i - 1], s[j - 1]));
        }
    }
}

} // verus!
