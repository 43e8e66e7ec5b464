//! The committer: binds the coset digests of one layer into a single root
//! digest, and opens any leaf with an authentication path to that root.

use vstd::prelude::*;

verus! {

use crate::hashing::{blake2s_of, merge, ByteDigest};

/// `n` is a power of two.
pub open spec fn is_pow2(n: nat) -> bool
    decreases n,
{
    if n == 0 {
        false
    } else if n == 1 {
        true
    } else {
        n % 2 == 0 && is_pow2(n / 2)
    }
}

/// A power of two divides every power of two at least as large, with a
/// power-of-two quotient.
pub proof fn lemma_pow2_div_pow2(a: nat, b: nat)
    requires
        is_pow2(a),
        is_pow2(b),
        b <= a,
    ensures
        a % b == 0,
        is_pow2(a / b),
        a / b >= 1,
    decreases b,
{
    if b == 1 {
        assert(a % 1 == 0) by (nonlinear_arith);
        assert(a / 1 == a) by (nonlinear_arith);
    } else {
        assert(b % 2 == 0);
        assert(a >= 2);
        assert(a % 2 == 0);
        lemma_pow2_div_pow2(a / 2, b / 2);
        assert(a == 2 * (a / 2)) by (nonlinear_arith)
            requires a % 2 == 0,
        ;
        assert(b == 2 * (b / 2)) by (nonlinear_arith)
            requires b % 2 == 0,
        ;
        let q = (a / 2) / (b / 2);
        assert(a / 2 == q * (b / 2)) by (nonlinear_arith)
            requires (a / 2) % (b / 2) == 0, q == (a / 2) / (b / 2), b / 2 >= 1,
        ;
        assert(a == q * b) by (nonlinear_arith)
            requires a == 2 * (a / 2), b == 2 * (b / 2), a / 2 == q * (b / 2),
        ;
        assert(a % b == 0 && a / b == q) by (nonlinear_arith)
            requires a == q * b, b >= 1, q >= 0,
        ;
    }
}

/// The bytes of each digest in a sequence.
pub open spec fn digests_view(s: Seq<ByteDigest>) -> Seq<Seq<u8>> {
    s.map(|i: int, d: ByteDigest| d@)
}

/// The root digest over a power-of-two sequence of leaf digests: adjacent
/// pairs are merged upward until one digest is left.
pub open spec fn merkle_root(leaves: Seq<Seq<u8>>) -> Seq<u8>
    recommends
        is_pow2(leaves.len()),
    decreases leaves.len(),
{
    if leaves.len() <= 1 {
        leaves[0]
    } else {
        merkle_root(Seq::new(leaves.len() / 2, |i: int| blake2s_of(leaves[2 * i] + leaves[2 * i + 1])))
    }
}

/// The root recomputed from a leaf digest at index `idx` and the sibling
/// digests along its authentication path.
pub open spec fn climb(d: Seq<u8>, idx: int, path: Seq<Seq<u8>>) -> Seq<u8>
    decreases path.len(),
{
    if path.len() == 0 {
        d
    } else if idx % 2 == 0 {
        climb(blake2s_of(d + path[0]), idx / 2, path.drop_first())
    } else {
        climb(blake2s_of(path[0] + d), idx / 2, path.drop_first())
    }
}

/// Recompute the root from a leaf digest, its index, and its authentication
/// path.
pub fn climb_path(leaf: &ByteDigest, index: usize, path: &Vec<ByteDigest>) -> (r: ByteDigest)
    ensures
        r@ == climb(leaf@, index as int, digests_view(path@)),
{
    let ghost full = digests_view(path@);
    let mut d = *leaf;
    let mut idx = index;
    let mut k: usize = 0;
    proof {
        assert(full.skip(0) =~= full);
    }
    while k < path.len()
        invariant
            k <= path.len(),
            full == digests_view(path@),
            climb(leaf@, index as int, full) == climb(d@, idx as int, full.skip(k as int)),
        decreases path.len() - k,
    {
        proof {
            assert(full.skip(k as int).drop_first() =~= full.skip(k + 1));
            assert(full.skip(k as int)[0] == path@[k as int]@);
        }
        if idx % 2 == 0 {
            d = merge(&d, &path[k]);
        } else {
            d = merge(&path[k], &d);
        }
        idx = idx / 2;
        k += 1;
    }
    proof {
        assert(full.skip(path@.len() as int) =~= Seq::<Seq<u8>>::empty());
    }
    d
}

/// A fully built commitment tree: level 0 holds the leaf digests, each higher
/// level the pairwise merges, the last level the root alone.
pub struct MerkleTree {
    levels: Vec<Vec<ByteDigest>>,
}

impl MerkleTree {
    /// The leaf digests this tree commits to.
    pub closed spec fn leaf_seq(self) -> Seq<Seq<u8>> {
        digests_view(self.levels@[0]@)
    }

    #[verifier::type_invariant]
    spec fn wf(self) -> bool {
        let ls = self.levels@;
        &&& ls.len() >= 1
        &&& ls[ls.len() - 1]@.len() == 1
        &&& forall|l: int|
            0 <= l < ls.len() - 1 ==> (#[trigger] ls[l]@.len()) == 2 * ls[l + 1]@.len()
        &&& forall|l: int, i: int|
            0 <= l < ls.len() - 1 && 0 <= i < ls[l + 1]@.len() ==> (#[trigger] ls[l + 1]@[i])@
                == blake2s_of(ls[l]@[2 * i]@ + ls[l]@[2 * i + 1]@)
        &&& merkle_root(self.leaf_seq()) == ls[ls.len() - 1]@[0]@
    }

    /// How many leaves the tree commits to.
    pub fn leaf_count(&self) -> (r: usize)
        ensures
            r == self.leaf_seq().len(),
    {
        proof {
            use_type_invariant(self);
        }
        self.levels[0].len()
    }

    /// Build the tree over the given leaf digests.
    pub fn new(leaves: Vec<ByteDigest>) -> (t: MerkleTree)
        requires
            is_pow2(leaves@.len() as nat),
        ensures
            t.leaf_seq() == digests_view(leaves@),
    {
        let ghost leaves0 = digests_view(leaves@);
        let mut levels: Vec<Vec<ByteDigest>> = Vec::new();
        levels.push(leaves);
        while levels[levels.len() - 1].len() > 1
            invariant
                levels@.len() >= 1,
                digests_view(levels@[0]@) == leaves0,
                is_pow2(levels@[levels@.len() - 1]@.len() as nat),
                forall|l: int|
                    0 <= l < levels@.len() - 1 ==> (#[trigger] levels@[l]@.len()) == 2 * levels@[l
                        + 1]@.len(),
                forall|l: int, i: int|
                    0 <= l < levels@.len() - 1 && 0 <= i < levels@[l + 1]@.len() ==> (
                    #[trigger] levels@[l + 1]@[i])@ == blake2s_of(
                        levels@[l]@[2 * i]@ + levels@[l]@[2 * i + 1]@,
                    ),
                merkle_root(digests_view(levels@[levels@.len() - 1]@)) == merkle_root(leaves0),
            decreases levels@[levels@.len() - 1]@.len(),
        {
            let cur_idx = levels.len() - 1;
            let cur_len = levels[cur_idx].len();
            let half = cur_len / 2;
            let ghost cur_view = digests_view(levels@[cur_idx as int]@);
            let mut next: Vec<ByteDigest> = Vec::new();
            let mut i: usize = 0;
            while i < half
                invariant
                    i <= half,
                    half == levels@[cur_idx as int]@.len() / 2,
                    cur_idx == levels@.len() - 1,
                    cur_len == levels@[cur_idx as int]@.len(),
                    2 * half == cur_len,
                    next@.len() == i,
                    forall|j: int|
                        0 <= j < i ==> (#[trigger] next@[j])@ == blake2s_of(
                            levels@[cur_idx as int]@[2 * j]@ + levels@[cur_idx as int]@[2 * j
                                + 1]@,
                        ),
                decreases half - i,
            {
                let d = merge(&levels[cur_idx][2 * i], &levels[cur_idx][2 * i + 1]);
                next.push(d);
                i += 1;
            }
            proof {
                assert(digests_view(next@) =~= Seq::new(
                    cur_view.len() / 2,
                    |i: int| blake2s_of(cur_view[2 * i] + cur_view[2 * i + 1]),
                ));
                assert(merkle_root(cur_view) == merkle_root(digests_view(next@)));
            }
            levels.push(next);
        }
        proof {
            assert(merkle_root(leaves0) == levels@[levels@.len() - 1]@[0]@) by {
                let last = digests_view(levels@[levels@.len() - 1]@);
                assert(last.len() == 1);
                assert(merkle_root(last) == last[0]);
            };
        }
        MerkleTree { levels }
    }

    /// The root digest: the layer's commitment.
    pub fn root(&self) -> (r: ByteDigest)
        ensures
            r@ == merkle_root(self.leaf_seq()),
    {
        proof {
            use_type_invariant(self);
        }
        self.levels[self.levels.len() - 1][0]
    }

    /// The authentication path for leaf `index`: the sibling digests from the
    /// leaf level up. Recomputing the root from the leaf and this path gives
    /// back the tree's root, so an honest opening always authenticates.
    pub fn open(&self, index: usize) -> (path: Vec<ByteDigest>)
        requires
            index < self.leaf_seq().len(),
        ensures
            climb(self.leaf_seq()[index as int], index as int, digests_view(path@))
                == merkle_root(self.leaf_seq()),
    {
        proof {
            use_type_invariant(self);
        }
        self.open_from(0, index)
    }

    #[verifier::rlimit(100)]
    fn open_from(&self, lvl: usize, idx: usize) -> (path: Vec<ByteDigest>)
        requires
            self.wf(),
            lvl < self.levels@.len(),
            idx < self.levels@[lvl as int]@.len(),
        ensures
            climb(self.levels@[lvl as int]@[idx as int]@, idx as int, digests_view(path@))
                == merkle_root(self.leaf_seq()),
        decreases self.levels@.len() - lvl,
    {
        if lvl == self.levels.len() - 1 {
            let path: Vec<ByteDigest> = Vec::new();
            proof {
                assert(digests_view(path@) =~= Seq::<Seq<u8>>::empty());
                assert(idx == 0);
            }
            path
        } else {
            let sib = if idx % 2 == 0 {
                self.levels[lvl][idx + 1]
            } else {
                self.levels[lvl][idx - 1]
            };
            let rest = self.open_from(lvl + 1, idx / 2);
            let mut path: Vec<ByteDigest> = Vec::new();
            path.push(sib);
            let mut k: usize = 0;
            let ghost rest0 = rest@;
            while k < rest.len()
                invariant
                    k <= rest@.len(),
                    rest@ == rest0,
                    path@ == seq![sib].add(rest0.take(k as int)),
                decreases rest@.len() - k,
            {
                let d = rest[k];
                path.push(d);
                proof {
                    assert(path@ =~= seq![sib].add(rest0.take(k + 1)));
                }
                k += 1;
            }
            proof {
                assert(rest0.take(rest0.len() as int) =~= rest0);
                let pv = digests_view(path@);
                assert(pv.drop_first() =~= digests_view(rest0));
                assert(pv[0] == sib@);
                let parent = self.levels@[lvl + 1]@[idx as int / 2]@;
                if idx % 2 == 0 {
                    assert(parent == blake2s_of(
                        self.levels@[lvl as int]@[idx as int]@ + sib@,
                    ));
                } else {
                    assert(parent == blake2s_of(
                        sib@ + self.levels@[lvl as int]@[idx as int]@,
                    ));
                }
            }
            path
        }
    }
}

} // verus!
