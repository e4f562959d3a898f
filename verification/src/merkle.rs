//! Merkle trees over encoded data, and spot-check path verification.
//!
//! A tree over `n` items is an array of `2 * np2 - 1` hash slots, where
//! `np2` is the next power of two at or above `n`: the leaves sit at
//! `np2 - 1 ..`, unused leaf slots keep the all-zero hash, and every
//! internal slot `i` holds the digest of its two children `2i+1`, `2i+2`.
//!
//! The verifier does not hold the tree.  It keeps a partial map from slot
//! index to the hash first claimed for it ([`PartialTree`]): a path check
//! recomputes hashes from a leaf to the root, records every slot it visits
//! on first use, and rejects on any later disagreement — so inconsistent
//! openings across queries are caught without storing the whole tree.

use crate::field::{le_bytes, Field};
use crate::hash::{bytes_eq, digest_of, hash_bytes};
use crate::tensor::{Tensor2, Tensor3, Tensor4};
use vstd::prelude::*;

verus! {

use vstd::arithmetic::div_mod::{
    lemma_div_denominator, lemma_fundamental_div_mod_converse, lemma_multiply_divide_lt,
};
use vstd::arithmetic::mul::{lemma_mul_inequality, lemma_mul_is_commutative,
    lemma_mul_is_distributive_add_other_way, lemma_mul_strict_inequality};

/// The all-zero hash filling unused leaf slots.
pub open spec fn zero_hash() -> Seq<u8> {
    Seq::new(32, |i: int| 0u8)
}

/// The byte views of a sequence of hash values.
pub open spec fn views_of(s: Seq<Vec<u8>>) -> Seq<Seq<u8>> {
    Seq::new(s.len(), |i: int| s[i]@)
}

/// The smallest power of two at or above `x`, computed by doubling from `y`.
pub open spec fn np2_from(y: nat, x: nat) -> nat
    decreases x - y,
        when y >= 1
{
    if y >= x {
        y
    } else if 2 * y >= x {
        2 * y
    } else {
        np2_from(2 * y, x)
    }
}

/// The smallest power of two at or above `x` (1 for `x <= 1`).
pub open spec fn np2(x: nat) -> nat {
    np2_from(1, x)
}

/// The next power of two at or above `x`.
pub fn next_pow_2(x: usize) -> (r: usize)
    requires
        x <= 0x2000_0000,
    ensures
        r == np2(x as nat),
        r >= x,
        r >= 1,
        r <= 0x4000_0000,
{
    if x <= 1 {
        return 1;
    }
    let mut y: usize = 1;
    while y < x
        invariant
            1 <= y,
            2 <= x <= 0x2000_0000,
            np2(x as nat) == np2_from(y as nat, x as nat),
            y < 2 * x,
            y >= x ==> y == np2(x as nat),
        decreases 2 * x - y,
    {
        y = y * 2;
    }
    y
}

/// `np2` dominates its argument and is at least one.
pub proof fn lemma_np2_from(y: nat, x: nat)
    requires
        y >= 1,
    ensures
        np2_from(y, x) >= x,
        np2_from(y, x) >= y,
    decreases x - y,
{
    if y < x && 2 * y < x {
        lemma_np2_from(2 * y, x);
    }
}


/// Fill every internal slot of `data` with the digest of its two children,
/// from the last internal slot up to the root; the `np2` leaf slots and
/// beyond are untouched.
pub fn build_merkle_tree(data: &mut Vec<Vec<u8>>, np2v: usize)
    requires
        np2v >= 1,
        old(data)@.len() == 2 * np2v - 1,
    ensures
        final (data)@.len() == old(data)@.len(),
        forall|i: int| np2v - 1 <= i < 2 * np2v - 1 ==> final (data)@[i] == old(data)@[i],
        forall|i: int|
            0 <= i < np2v - 1 ==> (#[trigger] final (data)@[i])@ == digest_of(
                final (data)@[2 * i + 1]@ + final (data)@[2 * i + 2]@,
            ),
        forall|i: int| 0 <= i < np2v - 1 ==> (#[trigger] final (data)@[i])@.len() == 32,
{
    let dn = data.len();
    let mut i = np2v - 1;
    while i > 0
        invariant
            i <= np2v - 1,
            np2v >= 1,
            dn == data@.len(),
            data@.len() == 2 * np2v - 1,
            forall|t: int| np2v - 1 <= t < 2 * np2v - 1 ==> data@[t] == old(data)@[t],
            forall|t: int| 0 <= t < i ==> data@[t] == old(data)@[t],
            forall|t: int|
                i <= t < np2v - 1 ==> (#[trigger] data@[t])@ == digest_of(
                    data@[2 * t + 1]@ + data@[2 * t + 2]@,
                ),
            forall|t: int| i <= t < np2v - 1 ==> (#[trigger] data@[t])@.len() == 32,
        decreases i,
    {
        i = i - 1;
        let mut buf: Vec<u8> = Vec::new();
        let mut left = copy_bytes(&data[2 * i + 1]);
        let mut right = copy_bytes(&data[2 * i + 2]);
        buf.append(&mut left);
        buf.append(&mut right);
        let h = hash_bytes(&buf);
        proof {
            assert(buf@ == data@[2 * i + 1]@ + data@[2 * i + 2]@);
        }
        data.set(i, h);
        proof {
            assert forall|t: int|
                i <= t < np2v - 1 implies (#[trigger] data@[t])@ == digest_of(
                data@[2 * t + 1]@ + data@[2 * t + 2]@,
            ) by {
                assert(2 * t + 1 > i);
            }
        }
    }
}

/// A copy of a byte string.
fn copy_bytes(a: &Vec<u8>) -> (r: Vec<u8>)
    ensures
        r@ == a@,
{
    let mut r: Vec<u8> = Vec::new();
    let mut i: usize = 0;
    let n = a.len();
    while i < n
        invariant
            i <= n,
            n == a@.len(),
            r@ =~= a@.subrange(0, i as int),
        decreases n - i,
    {
        r.push(a[i]);
        i = i + 1;
    }
    proof {
        assert(r@ =~= a@);
    }
    r
}

/// The verifier's partial knowledge of one tree: for each slot, the hash
/// first claimed for it, if any.
pub struct PartialTree {
    pub slots: Vec<Option<Vec<u8>>>,
}

impl PartialTree {
    /// The recorded claims, as a map from slot index to hash bytes.
    pub open spec fn view(self) -> Map<int, Seq<u8>> {
        Map::new(
            |i: int| 0 <= i < self.slots@.len() && self.slots@[i] is Some,
            |i: int| self.slots@[i]->0@,
        )
    }

    /// Number of slots.
    pub open spec fn size(self) -> int {
        self.slots@.len() as int
    }

    /// A fresh record over `size` slots, holding only the tree's root.
    pub fn new(root: Vec<u8>, size: usize) -> (r: PartialTree)
        requires
            size >= 1,
        ensures
            r.size() == size,
            r@ == Map::<int, Seq<u8>>::empty().insert(0, root@),
    {
        let mut slots: Vec<Option<Vec<u8>>> = Vec::new();
        slots.push(Some(root));
        let mut i: usize = 1;
        while i < size
            invariant
                1 <= i <= size,
                slots@.len() == i,
                slots@[0] matches Some(b) && b@ == root@,
                forall|t: int| 1 <= t < i ==> slots@[t] is None,
            decreases size - i,
        {
            slots.push(None);
            i = i + 1;
        }
        let r = PartialTree { slots };
        proof {
            assert(r@ =~= Map::<int, Seq<u8>>::empty().insert(0, root@));
        }
        r
    }
}

/// The claimed-path check, as a function: climb from `idx` towards the
/// root, carrying the recomputed hash `cur`; at each slot record `cur` on
/// first visit or reject on disagreement; combine with the sibling from the
/// prover's array `h` to recompute the parent; accept at the root iff the
/// recomputed hash equals the recorded one.  Yields the verdict and the map
/// as it stands afterwards.
pub open spec fn climb(cur: Seq<u8>, idx: int, m: Map<int, Seq<u8>>, h: Seq<Seq<u8>>) -> (
    bool,
    Map<int, Seq<u8>>,
)
    decreases idx,
{
    if idx <= 0 {
        (m.contains_key(0) && cur == m[0], m)
    } else if m.contains_key(idx) && m[idx] != cur {
        (false, m)
    } else {
        let m2 = if m.contains_key(idx) {
            m
        } else {
            m.insert(idx, cur)
        };
        let parent = if idx % 2 == 0 {
            digest_of(h[idx - 1] + cur)
        } else {
            digest_of(cur + h[idx + 1])
        };
        climb(parent, (idx - 1) / 2, m2, h)
    }
}

/// Walk the path from slot `idx` to the root, checking `cur_hash` against
/// the recorded claims in `map` and the siblings in `hashes_vec`; exactly
/// the [`climb`] function, with the claims recorded along the way.
pub fn check_merkle_path(
    cur_hash: Vec<u8>,
    idx: usize,
    map: &mut PartialTree,
    hashes_vec: &Vec<Vec<u8>>,
) -> (r: bool)
    requires
        hashes_vec@.len() % 2 == 1,
        idx < hashes_vec@.len(),
        old(map).size() == hashes_vec@.len(),
    ensures
        final (map).size() == old(map).size(),
        r == climb(cur_hash@, idx as int, old(map)@, views_of(hashes_vec@)).0,
        final (map)@ == climb(cur_hash@, idx as int, old(map)@, views_of(hashes_vec@)).1,
{
    let ghost h = views_of(hashes_vec@);
    let ghost result = climb(cur_hash@, idx as int, old(map)@, h);
    let n = hashes_vec.len();
    let mut cur = cur_hash;
    let mut i = idx;
    while i > 0
        invariant
            i < n,
            n == hashes_vec@.len(),
            n % 2 == 1,
            map.size() == n,
            old(map).size() == n,
            h == views_of(hashes_vec@),
            result == climb(cur_hash@, idx as int, old(map)@, h),
            result == climb(cur@, i as int, map@, h),
        decreases i,
    {
        let recorded = match &map.slots[i] {
            Some(b) => Some(copy_bytes(b)),
            None => None,
        };
        match recorded {
            Some(b) => {
                if !bytes_eq(&b, &cur) {
                    proof {
                        assert(map@.contains_key(i as int) && map@[i as int] == b@);
                        assert(climb(cur@, i as int, map@, h) == (false, map@));
                    }
                    return false;
                }
                proof {
                    assert(map@.contains_key(i as int) && map@[i as int] == cur@);
                }
            },
            None => {
                let c = copy_bytes(&cur);
                proof {
                    assert(!map@.contains_key(i as int));
                }
                let ghost m_old = map@;
                map.slots.set(i, Some(c));
                proof {
                    assert(map@ =~= m_old.insert(i as int, cur@));
                }
            },
        }
        let mut buf: Vec<u8> = Vec::new();
        if i % 2 == 0 {
            let mut sib = copy_bytes(&hashes_vec[i - 1]);
            buf.append(&mut sib);
            let mut c = cur;
            buf.append(&mut c);
            proof {
                assert(buf@ == h[i as int - 1] + cur@);
            }
        } else {
            let mut c = cur;
            buf.append(&mut c);
            let mut sib = copy_bytes(&hashes_vec[i + 1]);
            buf.append(&mut sib);
            proof {
                assert(buf@ == cur@ + h[i as int + 1]);
            }
        }
        cur = hash_bytes(&buf);
        i = (i - 1) / 2;
    }
    let ok = match &map.slots[0] {
        Some(b) => bytes_eq(b, &cur),
        None => false,
    };
    proof {
        if map@.contains_key(0) {
            assert(map@[0] == map.slots@[0]->0@);
        }
    }
    ok
}

/// Every internal node of the tree holds the digest of its two children.
pub open spec fn tree_linked(t: Seq<Seq<u8>>) -> bool {
    forall|q: int|
        0 <= q < (t.len() - 1) / 2 ==> #[trigger] t[q] == digest_of(t[2 * q + 1] + t[2 * q + 2])
}

/// Every recorded claim agrees with the tree itself.
pub open spec fn map_agrees(m: Map<int, Seq<u8>>, t: Seq<Seq<u8>>) -> bool {
    forall|q: int| #[trigger] m.contains_key(q) ==> 0 <= q < t.len() && m[q] == t[q]
}

/// A genuine path always verifies: climbing from any slot with the tree's
/// own hash succeeds whenever the recorded claims agree with the tree, and
/// leaves the claims still agreeing — so any number of honest queries
/// against a shared record all pass.
pub proof fn lemma_climb_complete(t: Seq<Seq<u8>>, idx: int, m: Map<int, Seq<u8>>)
    requires
        t.len() % 2 == 1,
        t.len() >= 1,
        0 <= idx < t.len(),
        tree_linked(t),
        map_agrees(m, t),
        m.contains_key(0),
    ensures
        climb(t[idx], idx, m, t).0 == true,
        map_agrees(climb(t[idx], idx, m, t).1, t),
        climb(t[idx], idx, m, t).1.contains_key(0),
    decreases idx,
{
    if idx <= 0 {
    } else {
        let cur = t[idx];
        let m2 = if m.contains_key(idx) {
            m
        } else {
            m.insert(idx, cur)
        };
        assert forall|q2: int| #[trigger] m2.contains_key(q2) implies 0 <= q2 < t.len()
            && m2[q2] == t[q2] by {
            if q2 == idx {
                if m.contains_key(idx) {
                    assert(m[idx] == t[idx]);
                }
            } else {
                assert(m.contains_key(q2));
                assert(m[q2] == t[q2]);
            }
        }
        assert(map_agrees(m2, t));
        if m.contains_key(idx) {
            assert(m[idx] == t[idx]);
        }
        let q = (idx - 1) / 2;
        if idx % 2 == 0 {
            assert(idx == 2 * q + 2);
            assert(t[q] == digest_of(t[2 * q + 1] + t[2 * q + 2]));
            assert(digest_of(t[idx - 1] + cur) == t[q]);
        } else {
            assert(idx == 2 * q + 1);
            assert(idx + 1 < t.len());
            assert(t[q] == digest_of(t[2 * q + 1] + t[2 * q + 2]));
            assert(digest_of(cur + t[idx + 1]) == t[q]);
        }
        lemma_climb_complete(t, q, m2);
    }
}

/// The canonical bytes of a fiber: each residue's fixed-width little-endian
/// representation, concatenated in index order.
pub open spec fn reprs_cat(vals: Seq<nat>, w: nat) -> Seq<u8>
    decreases vals.len(),
{
    if vals.len() == 0 {
        Seq::empty()
    } else {
        reprs_cat(vals.drop_last(), w) + le_bytes(vals.last(), w)
    }
}

/// The residues of row `i1` of a two-dimensional array.
pub open spec fn row2_vals<F: Field>(m: Tensor2<F>, i1: int) -> Seq<nat> {
    Seq::new(m.d2 as nat, |i2: int| m.at(i1, i2))
}

/// The residues of the last-axis fiber at `(i1, i2)`.
pub open spec fn fiber3_vals<F: Field>(m: Tensor3<F>, i1: int, i2: int) -> Seq<nat> {
    Seq::new(m.d3 as nat, |i3: int| m.at(i1, i2, i3))
}

/// The residues of the last-axis fiber at `(i1, i2, i3)`.
pub open spec fn fiber4_vals<F: Field>(m: Tensor4<F>, i1: int, i2: int, i3: int) -> Seq<nat> {
    Seq::new(m.d4 as nat, |i4: int| m.at(i1, i2, i3, i4))
}

/// The digest of the concatenated canonical bytes of `vals`.
fn hash_vals<F: Field>(vals: &Vec<F>) -> (r: Vec<u8>)
    requires
        crate::sparse::all_inv(vals@),
    ensures
        r@ == digest_of(reprs_cat(crate::sparse::vals_of(vals@), F::repr_len())),
        r@.len() == 32,
{
    let n = vals.len();
    let mut buf: Vec<u8> = Vec::new();
    let mut i: usize = 0;
    proof {
        assert(crate::sparse::vals_of(vals@).subrange(0, 0) =~= Seq::<nat>::empty());
    }
    while i < n
        invariant
            i <= n,
            n == vals@.len(),
            crate::sparse::all_inv(vals@),
            buf@ == reprs_cat(crate::sparse::vals_of(vals@).subrange(0, i as int), F::repr_len()),
        decreases n - i,
    {
        let mut b = vals[i].repr_bytes();
        proof {
            let vs = crate::sparse::vals_of(vals@);
            assert(vs.subrange(0, i as int + 1).drop_last() =~= vs.subrange(0, i as int));
            assert(vs.subrange(0, i as int + 1).last() == vs[i as int]);
            assert(vs[i as int] == vals@[i as int].val());
        }
        buf.append(&mut b);
        i = i + 1;
    }
    proof {
        assert(crate::sparse::vals_of(vals@).subrange(0, n as int) =~= crate::sparse::vals_of(
            vals@,
        ));
    }
    hash_bytes(&buf)
}

/// A fresh all-zero hash value.
fn zero_hash_vec() -> (r: Vec<u8>)
    ensures
        r@ == zero_hash(),
{
    let mut r: Vec<u8> = Vec::new();
    let mut i: usize = 0;
    while i < 32
        invariant
            i <= 32,
            r@.len() == i,
            forall|t: int| 0 <= t < i ==> r@[t] == 0u8,
        decreases 32 - i,
    {
        r.push(0u8);
        i = i + 1;
    }
    proof {
        assert(r@ =~= zero_hash());
    }
    r
}

/// Hash of the row `i1` of a two-dimensional array (one Merkle leaf).
pub fn leaf_hash_2d<F: Field>(m: &Tensor2<F>, i1: usize) -> (r: Vec<u8>)
    requires
        m.wf(),
        i1 < m.d1,
    ensures
        r@ == digest_of(reprs_cat(row2_vals(*m, i1 as int), F::repr_len())),
        r@.len() == 32,
{
    let n = m.d2;
    let mut row: Vec<F> = Vec::new();
    let mut i2: usize = 0;
    while i2 < n
        invariant
            i2 <= n,
            n == m.d2,
            m.wf(),
            i1 < m.d1,
            row@.len() == i2,
            crate::sparse::all_inv(row@),
            forall|t: int| 0 <= t < i2 ==> (#[trigger] row@[t]).val() == m.at(i1 as int, t),
        decreases n - i2,
    {
        row.push(m.get(i1, i2));
        i2 = i2 + 1;
    }
    proof {
        assert(crate::sparse::vals_of(row@) =~= row2_vals(*m, i1 as int));
    }
    hash_vals(&row)
}

/// Hash of the last-axis fiber at `(i1, i2)` (one Merkle leaf).
pub fn leaf_hash_3d<F: Field>(m: &Tensor3<F>, i1: usize, i2: usize) -> (r: Vec<u8>)
    requires
        m.wf(),
        i1 < m.d1,
        i2 < m.d2,
    ensures
        r@ == digest_of(reprs_cat(fiber3_vals(*m, i1 as int, i2 as int), F::repr_len())),
        r@.len() == 32,
{
    let n = m.d3;
    let mut row: Vec<F> = Vec::new();
    let mut i3: usize = 0;
    while i3 < n
        invariant
            i3 <= n,
            n == m.d3,
            m.wf(),
            i1 < m.d1,
            i2 < m.d2,
            row@.len() == i3,
            crate::sparse::all_inv(row@),
            forall|t: int|
                0 <= t < i3 ==> (#[trigger] row@[t]).val() == m.at(i1 as int, i2 as int, t),
        decreases n - i3,
    {
        row.push(m.get(i1, i2, i3));
        i3 = i3 + 1;
    }
    proof {
        assert(crate::sparse::vals_of(row@) =~= fiber3_vals(*m, i1 as int, i2 as int));
    }
    hash_vals(&row)
}

/// Hash of the last-axis fiber at `(i1, i2, i3)` (one Merkle leaf).
pub fn leaf_hash_4d<F: Field>(m: &Tensor4<F>, i1: usize, i2: usize, i3: usize) -> (r: Vec<u8>)
    requires
        m.wf(),
        i1 < m.d1,
        i2 < m.d2,
        i3 < m.d3,
    ensures
        r@ == digest_of(
            reprs_cat(fiber4_vals(*m, i1 as int, i2 as int, i3 as int), F::repr_len()),
        ),
        r@.len() == 32,
{
    let n = m.d4;
    let mut row: Vec<F> = Vec::new();
    let mut i4: usize = 0;
    while i4 < n
        invariant
            i4 <= n,
            n == m.d4,
            m.wf(),
            i1 < m.d1,
            i2 < m.d2,
            i3 < m.d3,
            row@.len() == i4,
            crate::sparse::all_inv(row@),
            forall|t: int|
                0 <= t < i4 ==> (#[trigger] row@[t]).val() == m.at(
                    i1 as int,
                    i2 as int,
                    i3 as int,
                    t,
                ),
        decreases n - i4,
    {
        row.push(m.get(i1, i2, i3, i4));
        i4 = i4 + 1;
    }
    proof {
        assert(crate::sparse::vals_of(row@) =~= fiber4_vals(
            *m,
            i1 as int,
            i2 as int,
            i3 as int,
        ));
    }
    hash_vals(&row)
}


/// Leaf position arithmetic for square leaf grids.
pub proof fn lemma_leaf_index_3d(c: int, i1: int, i2: int)
    requires
        c >= 1,
        0 <= i1 < c,
        0 <= i2 < c,
    ensures
        0 <= i1 + i2 * c < c * c,
        (i1 + i2 * c) % c == i1,
        (i1 + i2 * c) / c == i2,
{
    lemma_mul_inequality(i2, c - 1, c);
    assert((c - 1) * c + c == c * c) by (nonlinear_arith);
    lemma_fundamental_div_mod_converse(i1 + i2 * c, c, i2, i1);
}

/// Leaf position arithmetic for cubic leaf grids.
pub proof fn lemma_leaf_index_4d(c: int, i1: int, i2: int, i3: int)
    requires
        c >= 1,
        0 <= i1 < c,
        0 <= i2 < c,
        0 <= i3 < c,
    ensures
        0 <= i1 + i2 * c + i3 * (c * c) < c * c * c,
        (i1 + i2 * c + i3 * (c * c)) % c == i1,
        ((i1 + i2 * c + i3 * (c * c)) / c) % c == i2,
        (i1 + i2 * c + i3 * (c * c)) / (c * c) == i3,
{
    let t2 = i1 + i2 * c + i3 * (c * c);
    assert(t2 == (i2 + i3 * c) * c + i1 && i2 + i3 * c < c * c && c * c * c == (c * c) * c)
        by (nonlinear_arith)
        requires
            c >= 1 && 0 <= i1 < c && 0 <= i2 < c && 0 <= i3 < c && t2 == i1 + i2 * c + i3 * (c
                * c),
    ;
    lemma_fundamental_div_mod_converse(t2, c, i2 + i3 * c, i1);
    lemma_fundamental_div_mod_converse(i2 + i3 * c, c, i3, i2);
    lemma_div_denominator(t2, c, c);
    assert(t2 < c * c * c) by (nonlinear_arith)
        requires
            c >= 1 && 0 <= i1 < c && 0 <= i2 < c && 0 <= i3 < c && t2 == i1 + i2 * c + i3 * (c
                * c),
    ;
}

/// The full Merkle tree over the rows of a two-dimensional array: leaf `i1`
/// is the hash of row `i1`, unused leaf slots hold the zero hash, and every
/// internal node hashes its children.
#[verifier::rlimit(100)]
#[verifier::spinoff_prover]
pub fn merkle_tree_commit_2d<F: Field>(msg_len: usize, code_len: usize, m_2d: &Tensor2<F>) -> (r:
    Vec<Vec<u8>>)
    requires
        m_2d.wf(),
        m_2d.d1 == code_len,
        m_2d.d2 == msg_len,
        1 <= code_len <= 0x2000_0000,
    ensures
        r@.len() == 2 * np2(code_len as nat) - 1,
        forall|t: int| 0 <= t < r@.len() ==> (#[trigger] r@[t])@.len() == 32,
        forall|i1: int|
            0 <= i1 < code_len ==> (#[trigger] r@[np2(code_len as nat) - 1 + i1])@ == digest_of(
                reprs_cat(row2_vals(*m_2d, i1), F::repr_len()),
            ),
        forall|i1: int|
            code_len <= i1 < np2(code_len as nat) ==> (#[trigger] r@[np2(code_len as nat) - 1
                + i1])@ == zero_hash(),
        tree_linked(views_of(r@)),
{
    let np2v = next_pow_2(code_len);
    let total = 2 * np2v - 1;
    let mut hashes: Vec<Vec<u8>> = Vec::new();
    let mut i: usize = 0;
    while i < total
        invariant
            i <= total,
            total == 2 * np2v - 1,
            hashes@.len() == i,
            forall|t: int| 0 <= t < i ==> (#[trigger] hashes@[t])@ == zero_hash(),
        decreases total - i,
    {
        hashes.push(zero_hash_vec());
        i = i + 1;
    }
    let mut i1: usize = 0;
    while i1 < code_len
        invariant
            i1 <= code_len,
            1 <= code_len,
            m_2d.wf(),
            m_2d.d1 == code_len,
            m_2d.d2 == msg_len,
            np2v == np2(code_len as nat),
            np2v >= code_len,
            np2v <= 0x4000_0000,
            total == 2 * np2v - 1,
            hashes@.len() == total,
            forall|t: int| 0 <= t < total ==> (#[trigger] hashes@[t])@.len() == 32,
            forall|t: int|
                0 <= t < i1 ==> (#[trigger] hashes@[np2v - 1 + t])@ == digest_of(
                    reprs_cat(row2_vals(*m_2d, t), F::repr_len()),
                ),
            forall|t: int|
                code_len <= t < np2v ==> (#[trigger] hashes@[np2v - 1 + t])@ == zero_hash(),
        decreases code_len - i1,
    {
        let h = leaf_hash_2d(m_2d, i1);
        hashes.set(np2v - 1 + i1, h);
        i1 = i1 + 1;
    }
    build_merkle_tree(&mut hashes, np2v);
    proof {
        assert forall|q: int|
            0 <= q < (views_of(hashes@).len() - 1) / 2 implies #[trigger] views_of(hashes@)[q]
            == digest_of(views_of(hashes@)[2 * q + 1] + views_of(hashes@)[2 * q + 2]) by {
            assert(hashes@[q]@ == digest_of(hashes@[2 * q + 1]@ + hashes@[2 * q + 2]@));
        }
        assert forall|t: int| code_len <= t < np2(code_len as nat) implies (#[trigger] hashes@[
        np2(code_len as nat) - 1 + t])@ == zero_hash() by {
            assert(hashes@[np2v - 1 + t]@ == zero_hash());
        }
    }
    hashes
}

/// The full Merkle tree over the last-axis fibers of a three-dimensional
/// array: the fiber at `(i1, i2)` hashes into leaf `i1 + i2 * code_len`.
#[verifier::rlimit(100)]
#[verifier::spinoff_prover]
pub fn merkle_tree_commit_3d<F: Field>(msg_len: usize, code_len: usize, m_3d: &Tensor3<F>) -> (r:
    Vec<Vec<u8>>)
    requires
        m_3d.wf(),
        m_3d.d1 == code_len,
        m_3d.d2 == code_len,
        m_3d.d3 == msg_len,
        1 <= code_len,
        code_len * code_len <= 0x2000_0000,
    ensures
        r@.len() == 2 * np2((code_len * code_len) as nat) - 1,
        forall|t: int| 0 <= t < r@.len() ==> (#[trigger] r@[t])@.len() == 32,
        forall|i1: int, i2: int|
            0 <= i1 < code_len && 0 <= i2 < code_len ==> (#[trigger] r@[np2(
                (code_len * code_len) as nat,
            ) - 1 + i1 + i2 * code_len])@ == digest_of(
                reprs_cat(fiber3_vals(*m_3d, i1, i2), F::repr_len()),
            ),
        forall|t: int|
            code_len * code_len <= t < np2((code_len * code_len) as nat) ==> (#[trigger] r@[np2(
                (code_len * code_len) as nat,
            ) - 1 + t])@ == zero_hash(),
        tree_linked(views_of(r@)),
{
    let item_no = code_len * code_len;
    let np2v = next_pow_2(item_no);
    let total = 2 * np2v - 1;
    let mut hashes: Vec<Vec<u8>> = Vec::new();
    let mut i: usize = 0;
    while i < total
        invariant
            i <= total,
            total == 2 * np2v - 1,
            hashes@.len() == i,
            forall|t: int| 0 <= t < i ==> (#[trigger] hashes@[t])@ == zero_hash(),
        decreases total - i,
    {
        hashes.push(zero_hash_vec());
        i = i + 1;
    }
    let mut t: usize = 0;
    while t < item_no
        invariant
            t <= item_no,
            1 <= code_len,
            item_no == code_len * code_len,
            m_3d.wf(),
            m_3d.d1 == code_len,
            m_3d.d2 == code_len,
            m_3d.d3 == msg_len,
            np2v == np2(item_no as nat),
            np2v >= item_no,
            np2v <= 0x4000_0000,
            total == 2 * np2v - 1,
            hashes@.len() == total,
            forall|t2: int| 0 <= t2 < total ==> (#[trigger] hashes@[t2])@.len() == 32,
            forall|t2: int|
                0 <= t2 < t ==> (#[trigger] hashes@[np2v - 1 + t2])@ == digest_of(
                    reprs_cat(
                        fiber3_vals(*m_3d, t2 % (code_len as int), t2 / (code_len as int)),
                        F::repr_len(),
                    ),
                ),
            forall|t2: int|
                item_no <= t2 < np2v ==> (#[trigger] hashes@[np2v - 1 + t2])@ == zero_hash(),
        decreases item_no - t,
    {
        let i1 = t % code_len;
        let i2 = t / code_len;
        proof {
            lemma_multiply_divide_lt(t as int, code_len as int, code_len as int);
        }
        let h = leaf_hash_3d(m_3d, i1, i2);
        hashes.set(np2v - 1 + t, h);
        t = t + 1;
    }
    build_merkle_tree(&mut hashes, np2v);
    proof {
        assert forall|q: int|
            0 <= q < (views_of(hashes@).len() - 1) / 2 implies #[trigger] views_of(hashes@)[q]
            == digest_of(views_of(hashes@)[2 * q + 1] + views_of(hashes@)[2 * q + 2]) by {
            assert(hashes@[q]@ == digest_of(hashes@[2 * q + 1]@ + hashes@[2 * q + 2]@));
        }
        assert forall|i1: int, i2: int|
            0 <= i1 < code_len && 0 <= i2 < code_len implies (#[trigger] hashes@[np2(
            (code_len * code_len) as nat,
        ) - 1 + i1 + i2 * code_len])@ == digest_of(
            reprs_cat(fiber3_vals(*m_3d, i1, i2), F::repr_len()),
        ) by {
            let c = code_len as int;
            lemma_leaf_index_3d(c, i1, i2);
            let t2 = i1 + i2 * c;
            assert(hashes@[np2v - 1 + t2]@ == digest_of(
                reprs_cat(fiber3_vals(*m_3d, t2 % c, t2 / c), F::repr_len()),
            ));
        }
        assert forall|t2: int|
            code_len * code_len <= t2 < np2((code_len * code_len) as nat) implies (#[trigger] hashes@[
        np2((code_len * code_len) as nat) - 1 + t2])@ == zero_hash() by {
            assert(hashes@[np2v - 1 + t2]@ == zero_hash());
        }
    }
    hashes
}

/// The full Merkle tree over the last-axis fibers of a four-dimensional
/// array: the fiber at `(i1, i2, i3)` hashes into leaf
/// `i1 + i2 * code_len + i3 * code_len^2`.
#[verifier::rlimit(100)]
#[verifier::spinoff_prover]
pub fn merkle_tree_commit_4d<F: Field>(msg_len: usize, code_len: usize, m_4d: &Tensor4<F>) -> (r:
    Vec<Vec<u8>>)
    requires
        m_4d.wf(),
        m_4d.d1 == code_len,
        m_4d.d2 == code_len,
        m_4d.d3 == code_len,
        m_4d.d4 == msg_len,
        1 <= code_len,
        code_len * code_len * code_len <= 0x2000_0000,
    ensures
        r@.len() == 2 * np2((code_len * code_len * code_len) as nat) - 1,
        forall|t: int| 0 <= t < r@.len() ==> (#[trigger] r@[t])@.len() == 32,
        forall|i1: int, i2: int, i3: int|
            0 <= i1 < code_len && 0 <= i2 < code_len && 0 <= i3 < code_len ==> (#[trigger] r@[np2(
                (code_len * code_len * code_len) as nat,
            ) - 1 + i1 + i2 * code_len + i3 * (code_len * code_len)])@ == digest_of(
                reprs_cat(fiber4_vals(*m_4d, i1, i2, i3), F::repr_len()),
            ),
        forall|t: int|
            code_len * code_len * code_len <= t < np2((code_len * code_len * code_len) as nat)
                ==> (#[trigger] r@[np2((code_len * code_len * code_len) as nat) - 1 + t])@
                == zero_hash(),
        tree_linked(views_of(r@)),
{
    proof {
        assert((code_len * code_len) * code_len == code_len * code_len * code_len && code_len
            <= code_len * code_len) by (nonlinear_arith)
            requires
                code_len >= 1,
        ;
    }
    let sq = code_len * code_len;
    let item_no = sq * code_len;
    let np2v = next_pow_2(item_no);
    let total = 2 * np2v - 1;
    let mut hashes: Vec<Vec<u8>> = Vec::new();
    let mut i: usize = 0;
    while i < total
        invariant
            i <= total,
            total == 2 * np2v - 1,
            hashes@.len() == i,
            forall|t: int| 0 <= t < i ==> (#[trigger] hashes@[t])@ == zero_hash(),
        decreases total - i,
    {
        hashes.push(zero_hash_vec());
        i = i + 1;
    }
    let mut t: usize = 0;
    while t < item_no
        invariant
            t <= item_no,
            1 <= code_len,
            sq == code_len * code_len,
            item_no == code_len * code_len * code_len,
            item_no == sq * code_len,
            code_len <= sq,
            m_4d.wf(),
            m_4d.d1 == code_len,
            m_4d.d2 == code_len,
            m_4d.d3 == code_len,
            m_4d.d4 == msg_len,
            np2v == np2(item_no as nat),
            np2v >= item_no,
            np2v <= 0x4000_0000,
            total == 2 * np2v - 1,
            hashes@.len() == total,
            forall|t2: int| 0 <= t2 < total ==> (#[trigger] hashes@[t2])@.len() == 32,
            forall|t2: int|
                0 <= t2 < t ==> (#[trigger] hashes@[np2v - 1 + t2])@ == digest_of(
                    reprs_cat(
                        fiber4_vals(
                            *m_4d,
                            t2 % (code_len as int),
                            (t2 / (code_len as int)) % (code_len as int),
                            t2 / (sq as int),
                        ),
                        F::repr_len(),
                    ),
                ),
            forall|t2: int|
                item_no <= t2 < np2v ==> (#[trigger] hashes@[np2v - 1 + t2])@ == zero_hash(),
        decreases item_no - t,
    {
        let i1 = t % code_len;
        let i2 = (t / code_len) % code_len;
        let i3 = t / sq;
        proof {
            lemma_multiply_divide_lt(t as int, sq as int, code_len as int);
        }
        let h = leaf_hash_4d(m_4d, i1, i2, i3);
        hashes.set(np2v - 1 + t, h);
        t = t + 1;
    }
    build_merkle_tree(&mut hashes, np2v);
    proof {
        assert forall|q: int|
            0 <= q < (views_of(hashes@).len() - 1) / 2 implies #[trigger] views_of(hashes@)[q]
            == digest_of(views_of(hashes@)[2 * q + 1] + views_of(hashes@)[2 * q + 2]) by {
            assert(hashes@[q]@ == digest_of(hashes@[2 * q + 1]@ + hashes@[2 * q + 2]@));
        }
        assert forall|i1: int, i2: int, i3: int|
            0 <= i1 < code_len && 0 <= i2 < code_len && 0 <= i3 < code_len
            implies (#[trigger] hashes@[np2((code_len * code_len * code_len) as nat) - 1 + i1 + i2
            * code_len + i3 * (code_len * code_len)])@ == digest_of(
            reprs_cat(fiber4_vals(*m_4d, i1, i2, i3), F::repr_len()),
        ) by {
            let c = code_len as int;
            lemma_leaf_index_4d(c, i1, i2, i3);
            let t2 = i1 + i2 * c + i3 * (c * c);
            assert(sq == code_len * code_len);
            assert(hashes@[np2v - 1 + t2]@ == digest_of(
                reprs_cat(
                    fiber4_vals(*m_4d, t2 % c, (t2 / c) % c, t2 / (sq as int)),
                    F::repr_len(),
                ),
            ));
        }
        assert forall|t2: int|
            code_len * code_len * code_len <= t2 < np2((code_len * code_len * code_len) as nat)
            implies (#[trigger] hashes@[np2((code_len * code_len * code_len) as nat) - 1 + t2])@
            == zero_hash() by {
            assert(hashes@[np2v - 1 + t2]@ == zero_hash());
        }
    }
    hashes
}

} // verus!
