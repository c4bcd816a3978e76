use crate::field::{FieldElement, FiniteField};
use crate::hash::Hasher;
use crate::polynomial::{all_in, copy_elements};
use std::rc::Rc;
use crate::poly_math::lemma_diff_nonzero;
use vstd::arithmetic::div_mod::{
    lemma_div_denominator, lemma_fundamental_div_mod, lemma_small_mod, lemma_sub_mod_noop,
};
use vstd::prelude::*;

verus! {

pub open spec fn pow2(k: nat) -> nat
    decreases k,
{
    if k == 0 {
        1
    } else {
        2 * pow2((k - 1) as nat)
    }
}

/// `n` is a power of two (so at least one).
pub open spec fn is_pow2(n: nat) -> bool
    decreases n,
{
    if n <= 1 {
        n == 1
    } else {
        n % 2 == 0 && is_pow2(n / 2)
    }
}

pub open spec fn log2(n: nat) -> nat
    decreases n,
{
    if n <= 1 {
        0
    } else {
        1 + log2(n / 2)
    }
}

/// The level above `level`: each pair of siblings summed in the field, then hashed.
pub open spec fn parent_level<H: Hasher>(h: H, level: Seq<FieldElement>) -> Seq<FieldElement> {
    Seq::new(level.len() / 2, |i: int| h.spec_hash(level[2 * i].spec_add(level[2 * i + 1])))
}

/// Level `k` of the tree whose bottom level is `leafs` (already hashed).
pub open spec fn tree_level<H: Hasher>(h: H, leafs: Seq<FieldElement>, k: nat) -> Seq<FieldElement>
    decreases k,
{
    if k == 0 {
        leafs
    } else {
        parent_level(h, tree_level(h, leafs, (k - 1) as nat))
    }
}

/// The bottom level of the tree over the raw leaf values `raw`: each one hashed.
pub open spec fn hashed_leaves<H: Hasher>(h: H, raw: Seq<FieldElement>) -> Seq<FieldElement> {
    Seq::new(raw.len(), |i: int| h.spec_hash(raw[i]))
}

/// Distinct elements of the hasher's field have distinct digests.
pub open spec fn injective_on_field<H: Hasher>(h: H) -> bool {
    forall|a: FieldElement, b: FieldElement|
        a.wf() && b.wf() && a.finite_field == h.field() && b.finite_field == h.field()
            && #[trigger] h.spec_hash(a) == #[trigger] h.spec_hash(b) ==> a == b
}

pub open spec fn sibling(j: int) -> int {
    if j % 2 == 0 {
        j + 1
    } else {
        j - 1
    }
}

/// The authentication path of leaf `j`: its sibling, then its parent's sibling, and so on
/// up to the level below the root.
pub open spec fn auth_path<H: Hasher>(h: H, leafs: Seq<FieldElement>, j: int) -> Seq<FieldElement> {
    Seq::new(
        log2(leafs.len()),
        |l: int| tree_level(h, leafs, l as nat)[sibling(j / (pow2(l as nat) as int))],
    )
}

/// Folds the first `n` entries of `path` into `value`: at step `i` the bit `i` of `index`
/// says whether the running value is the left (0) or the right (1) operand.
pub open spec fn replay<H: Hasher>(
    h: H,
    value: FieldElement,
    path: Seq<FieldElement>,
    index: int,
    n: nat,
) -> FieldElement
    decreases n,
{
    if n == 0 {
        value
    } else {
        let v = replay(h, value, path, index, (n - 1) as nat);
        if (index / (pow2((n - 1) as nat) as int)) % 2 == 0 {
            h.spec_hash(v.spec_add(path[n - 1]))
        } else {
            h.spec_hash(path[n - 1].spec_add(v))
        }
    }
}

pub proof fn lemma_pow2_positive(k: nat)
    ensures
        pow2(k) >= 1,
    decreases k,
{
    if k > 0 {
        lemma_pow2_positive((k - 1) as nat);
    }
}

proof fn lemma_is_pow2(n: nat)
    requires
        is_pow2(n),
    ensures
        n == pow2(log2(n)),
    decreases n,
{
    if n > 1 {
        lemma_is_pow2(n / 2);
    }
}

/// The levels halve in length, from `2^d` leaves to one root.
proof fn lemma_level_len<H: Hasher>(h: H, leafs: Seq<FieldElement>, d: nat, k: nat)
    requires
        leafs.len() == pow2(d),
        k <= d,
    ensures
        tree_level(h, leafs, k).len() == pow2((d - k) as nat),
    decreases k,
{
    if k > 0 {
        lemma_level_len(h, leafs, d, (k - 1) as nat);
    }
}

/// Two canonical elements of one field are `==` exactly when they are the same element.
pub proof fn lemma_congruent_equal(a: FieldElement, b: FieldElement)
    requires
        a.compatible(b),
    ensures
        a.congruent(&b) == (a == b),
{
    lemma_small_mod(a.element as nat, a.prime() as nat);
    lemma_small_mod(b.element as nat, b.prime() as nat);
}

pub struct MerkleTree<H: Hasher> {
    pub finite_field: Rc<FiniteField>,
    pub hasher: H,
    pub leafs: Vec<FieldElement>,
    pub levels: Vec<Vec<FieldElement>>,
    pub root: Option<FieldElement>,
}

impl<H: Hasher> MerkleTree<H> {
    pub open spec fn depth(&self) -> nat {
        log2(self.leafs@.len())
    }

    /// A power-of-two number of hashed leaves of the hasher's field.
    pub open spec fn wf(&self) -> bool {
        &&& self.finite_field.wf()
        &&& self.hasher.wf()
        &&& self.hasher.field() == self.finite_field
        &&& is_pow2(self.leafs@.len())
        &&& all_in(self.leafs@, self.finite_field)
    }

    /// Every level is built from the one below, and the single entry of the top one is the root.
    pub open spec fn committed(&self) -> bool {
        &&& self.wf()
        &&& self.levels@.len() == self.depth() + 1
        &&& forall|k: int|
            0 <= k <= self.depth() ==> (#[trigger] self.levels@[k])@ == tree_level(
                self.hasher,
                self.leafs@,
                k as nat,
            )
        &&& forall|k: int| 0 <= k <= self.depth() ==> all_in(#[trigger] self.levels@[k]@, self.finite_field)
        &&& self.root == Some(tree_level(self.hasher, self.leafs@, self.depth())[0])
    }

    /// Hashes every leaf value; the hashed leaves form the bottom level.
    pub fn new(finite_field: Rc<FiniteField>, hasher: H, leafs: Vec<FieldElement>) -> (r: Self)
        requires
            finite_field.wf(),
            hasher.wf(),
            hasher.field() == finite_field,
            is_pow2(leafs@.len()),
            all_in(leafs@, finite_field),
        ensures
            r.wf(),
            r.finite_field == finite_field,
            r.hasher == hasher,
            r.leafs@ == hashed_leaves(hasher, leafs@),
            r.levels@.len() == 1,
            r.levels@[0]@ == r.leafs@,
            r.root.is_none(),
    {
        let mut hashed: Vec<FieldElement> = Vec::new();
        let mut i: usize = 0;
        while i < leafs.len()
            invariant
                finite_field.wf(),
                hasher.wf(),
                hasher.field() == finite_field,
                all_in(leafs@, finite_field),
                i <= leafs@.len(),
                hashed@.len() == i,
                all_in(hashed@, finite_field),
                forall|k: int| 0 <= k < i ==> #[trigger] hashed@[k] == hasher.spec_hash(leafs@[k]),
            decreases leafs@.len() - i,
        {
            hashed.push(hasher.hash(leafs[i].clone()));
            i = i + 1;
        }
        proof {
            assert(hashed@ =~= hashed_leaves(hasher, leafs@));
        }
        let mut levels: Vec<Vec<FieldElement>> = Vec::new();
        levels.push(copy_elements(&hashed));
        MerkleTree { finite_field, hasher, leafs: hashed, levels, root: None }
    }

    /// Builds every level up to the root and returns the root.
    pub fn commit(&mut self) -> (r: FieldElement)
        requires
            old(self).wf(),
        ensures
            final(self).committed(),
            final(self).finite_field == old(self).finite_field,
            final(self).hasher == old(self).hasher,
            final(self).leafs == old(self).leafs,
            final(self).root == Some(r),
            r.wf(),
            r.finite_field == final(self).finite_field,
    {
        let ghost leafs = self.leafs@;
        let ghost d = self.depth();
        let total = self.leafs.len();
        proof {
            lemma_is_pow2(leafs.len());
        }
        let mut curr = copy_elements(&self.leafs);
        let mut levels: Vec<Vec<FieldElement>> = Vec::new();
        levels.push(copy_elements(&curr));
        let mut k: usize = 0;
        while curr.len() > 1
            invariant
                self.wf(),
                leafs == self.leafs@,
                d == self.depth(),
                leafs.len() == pow2(d),
                leafs.len() == total,
                k <= d,
                curr@ == tree_level(self.hasher, leafs, k as nat),
                curr@.len() == pow2((d - k) as nat),
                all_in(curr@, self.finite_field),
                levels@.len() == k + 1,
                forall|j: int|
                    0 <= j <= k ==> (#[trigger] levels@[j])@ == tree_level(self.hasher, leafs, j as nat),
                forall|j: int| 0 <= j <= k ==> all_in(#[trigger] levels@[j]@, self.finite_field),
            decreases curr@.len(),
        {
            proof {
                if k == d {
                    assert(curr@.len() == pow2(0));
                }
                lemma_pow2_positive((d - k - 1) as nat);
                lemma_level_len(self.hasher, leafs, d, k as nat);
                lemma_pow2_exceeds(d);
                assert(k < d);
            }
            let half = curr.len() / 2;
            let mut parents: Vec<FieldElement> = Vec::new();
            let mut i: usize = 0;
            while i < half
                invariant
                    self.wf(),
                    half == curr@.len() / 2,
                    all_in(curr@, self.finite_field),
                    i <= half,
                    2 * half <= curr@.len() <= usize::MAX,
                    parents@.len() == i,
                    all_in(parents@, self.finite_field),
                    forall|q: int|
                        0 <= q < i ==> #[trigger] parents@[q] == parent_level(self.hasher, curr@)[q],
                decreases half - i,
            {
                assert(2 * i + 1 < curr@.len());
                let sum = curr[2 * i].clone() + curr[2 * i + 1].clone();
                parents.push(self.hasher.hash(sum));
                i = i + 1;
            }
            proof {
                assert(parents@ =~= parent_level(self.hasher, curr@));
            }
            levels.push(copy_elements(&parents));
            curr = parents;
            k = k + 1;
        }
        proof {
            lemma_pow2_positive((d - k) as nat);
            if k < d {
                lemma_pow2_positive((d - k - 1) as nat);
            }
        }
        let root = curr[0].clone();
        self.levels = levels;
        self.root = Some(root.clone());
        root
    }

    /// The authentication path of the first leaf equal to `element` (a hashed leaf value),
    /// or `None` when no leaf is.
    pub fn prove(&self, element: FieldElement) -> (r: Option<Vec<FieldElement>>)
        requires
            self.committed(),
            element.wf(),
            element.finite_field == self.finite_field,
        ensures
            r.is_none() <==> forall|i: int| 0 <= i < self.leafs@.len() ==> self.leafs@[i] != element,
            r.is_some() ==> exists|i: int|
                0 <= i < self.leafs@.len() && self.leafs@[i] == element && (forall|j: int|
                    0 <= j < i ==> self.leafs@[j] != element) && r.unwrap()@ == auth_path(
                    self.hasher,
                    self.leafs@,
                    i,
                ),
            r.is_some() ==> all_in(r.unwrap()@, self.finite_field),
    {
        let ghost leafs = self.leafs@;
        let ghost d = self.depth();
        let bottom = &self.levels[0];
        assert(bottom@ == leafs);
        let mut found: usize = 0;
        let mut hit = false;
        while found < bottom.len() && !hit
            invariant
                self.committed(),
                element.wf(),
                element.finite_field == self.finite_field,
                bottom@ == leafs,
                leafs == self.leafs@,
                found <= leafs.len(),
                hit ==> found < leafs.len() && leafs[found as int] == element,
                forall|j: int| 0 <= j < found ==> leafs[j] != element,
            decreases leafs.len() - found + (if hit { 0int } else { 1int }),
        {
            proof {
                assert(leafs[found as int].wf());
                lemma_congruent_equal(leafs[found as int], element);
            }
            if bottom[found] == element {
                hit = true;
            } else {
                found = found + 1;
            }
        }
        if !hit {
            return None;
        }
        proof {
            lemma_is_pow2(leafs.len());
            assert(pow2(0) == 1);
            assert(found as int / 1 == found);
        }
        let mut path: Vec<FieldElement> = Vec::new();
        let mut idx = found;
        let mut l: usize = 0;
        let top = self.levels.len() - 1;
        while l < top
            invariant
                self.committed(),
                leafs == self.leafs@,
                d == self.depth(),
                top == d,
                leafs.len() == pow2(d),
                found < leafs.len(),
                l <= d,
                idx == found as int / (pow2(l as nat) as int),
                idx < pow2((d - l) as nat),
                path@.len() == l,
                all_in(path@, self.finite_field),
                forall|q: int| 0 <= q < l ==> #[trigger] path@[q] == auth_path(self.hasher, leafs, found as int)[q],
            decreases d - l,
        {
            proof {
                lemma_level_len(self.hasher, leafs, d, l as nat);
                lemma_pow2_positive(l as nat);
                lemma_pow2_positive((d - l - 1) as nat);
                assert(pow2((d - l) as nat) == 2 * pow2((d - l - 1) as nat));
                assert(self.levels@[l as int]@ == tree_level(self.hasher, leafs, l as nat));
            }
            let level = &self.levels[l];
            let sib = if idx % 2 == 0 {
                idx + 1
            } else {
                idx - 1
            };
            path.push(level[sib].clone());
            proof {
                lemma_div_denominator(found as int, pow2(l as nat) as int, 2);
                assert(pow2((l + 1) as nat) == pow2(l as nat) * 2);
            }
            idx = idx / 2;
            l = l + 1;
        }
        proof {
            assert(path@ =~= auth_path(self.hasher, leafs, found as int));
        }
        Some(path)
    }

    /// Replays `path` from `leaf`, taking the order of each pair from the bits of `index`, and
    /// compares the result with `root`.
    pub fn verify(&self, root: &FieldElement, index: usize, path: &Vec<FieldElement>, leaf: &FieldElement) -> (r: bool)
        requires
            self.finite_field.wf(),
            self.hasher.wf(),
            self.hasher.field() == self.finite_field,
            root.wf(),
            root.finite_field == self.finite_field,
            leaf.wf(),
            leaf.finite_field == self.finite_field,
            all_in(path@, self.finite_field),
            index < pow2(path@.len()),
        ensures
            r == (replay(self.hasher, *leaf, path@, index as int, path@.len()) == *root),
    {
        let mut value = leaf.clone();
        let mut idx = index;
        let mut i: usize = 0;
        proof {
            assert(pow2(0) == 1);
            assert(index as int / 1 == index);
        }
        while i < path.len()
            invariant
                self.finite_field.wf(),
                self.hasher.wf(),
                self.hasher.field() == self.finite_field,
                all_in(path@, self.finite_field),
                i <= path@.len(),
                value.wf(),
                value.finite_field == self.finite_field,
                value == replay(self.hasher, *leaf, path@, index as int, i as nat),
                idx == index as int / (pow2(i as nat) as int),
            decreases path@.len() - i,
        {
            proof {
                lemma_pow2_positive(i as nat);
                lemma_div_denominator(index as int, pow2(i as nat) as int, 2);
                assert(pow2((i + 1) as nat) == pow2(i as nat) * 2);
            }
            if idx % 2 == 0 {
                value = self.hasher.hash(value + path[i].clone());
            } else {
                value = self.hasher.hash(path[i].clone() + value);
            }
            idx = idx / 2;
            i = i + 1;
        }
        proof {
            lemma_congruent_equal(value, *root);
        }
        value == *root
    }
}

/// Merkle round trip: in a committed tree, for the hashed leaf at `index`, the authentication
/// path of any position holding that value (in particular the first, which `prove` returns)
/// replayed with the bits of `index` gives the root, so `verify` accepts it.
pub proof fn merkle_round_trip<H: Hasher>(tree: MerkleTree<H>, index: int)
    requires
        tree.committed(),
        0 <= index < tree.leafs@.len(),
    ensures
        forall|j: int|
            0 <= j < tree.leafs@.len() && tree.leafs@[j] == tree.leafs@[index] ==> replay(
                tree.hasher,
                tree.leafs@[index],
                #[trigger] auth_path(tree.hasher, tree.leafs@, j),
                index,
                tree.depth(),
            ) == tree.root.unwrap(),
{
    let leafs = tree.leafs@;
    let d = tree.depth();
    lemma_is_pow2(leafs.len());
    assert forall|j: int|
        0 <= j < leafs.len() && leafs[j] == leafs[index] implies replay(
            tree.hasher,
            leafs[index],
            #[trigger] auth_path(tree.hasher, leafs, j),
            index,
            d,
        ) == tree.root.unwrap() by {
        lemma_replay_path(tree, j, index, d);
        lemma_pow2_positive(d);
        lemma_small_mod(j as nat, pow2(d));
        vstd::arithmetic::div_mod::lemma_basic_div(j, pow2(d) as int);
    }
}

/// Replaying the first `n` steps of leaf `j`'s path reaches its ancestor on level `n`,
/// whatever the index bits say.
proof fn lemma_replay_path<H: Hasher>(tree: MerkleTree<H>, j: int, index: int, n: nat)
    requires
        tree.committed(),
        0 <= j < tree.leafs@.len(),
        n <= tree.depth(),
    ensures
        replay(tree.hasher, tree.leafs@[j], auth_path(tree.hasher, tree.leafs@, j), index, n)
            == tree_level(tree.hasher, tree.leafs@, n)[j / (pow2(n) as int)],
    decreases n,
{
    let h = tree.hasher;
    let leafs = tree.leafs@;
    let d = tree.depth();
    lemma_is_pow2(leafs.len());
    if n == 0 {
        assert(j / 1 == j);
    } else {
        let m = (n - 1) as nat;
        lemma_replay_path(tree, j, index, m);
        let path = auth_path(h, leafs, j);
        let level = tree_level(h, leafs, m);
        let q = j / (pow2(m) as int);
        lemma_pow2_positive(m);
        lemma_pow2_positive((d - m - 1) as nat);
        lemma_level_len(h, leafs, d, m);
        assert(pow2((d - m) as nat) == 2 * pow2((d - m - 1) as nat));
        assert(pow2(n) == pow2(m) * 2);
        lemma_div_denominator(j, pow2(m) as int, 2);
        assert(q < pow2((d - m) as nat)) by {
            lemma_pow2_add(m, (d - m) as nat);
            vstd::arithmetic::div_mod::lemma_multiply_divide_lt(
                j,
                pow2(m) as int,
                pow2((d - m) as nat) as int,
            );
        }
        assert(tree.levels@[m as int]@ == level);
        assert(all_in(tree.levels@[m as int]@, tree.finite_field));
        let v = level[q];
        let s = level[sibling(q)];
        assert(path[m as int] == s);
        assert(v.finite_field == s.finite_field);
        assert(v.spec_add(s) == s.spec_add(v));
        lemma_fundamental_div_mod(q, 2);
    }
}

proof fn lemma_pow2_exceeds(k: nat)
    ensures
        pow2(k) > k,
    decreases k,
{
    if k > 0 {
        lemma_pow2_exceeds((k - 1) as nat);
        lemma_pow2_positive((k - 1) as nat);
    }
}

proof fn lemma_pow2_add(a: nat, b: nat)
    ensures
        pow2(a + b) == pow2(a) * pow2(b),
    decreases a,
{
    if a == 0 {
        assert(pow2(0) == 1);
        assert(a + b == b);
    } else {
        let c = (a - 1) as nat;
        lemma_pow2_add(c, b);
        assert(a + b == (c + b) + 1);
        assert(pow2(((c + b) + 1) as nat) == 2 * pow2(c + b));
        assert(pow2(a) == 2 * pow2(c));
        assert(pow2(a + b) == pow2(((c + b) + 1) as nat));
        assert(2 * (pow2(c) * pow2(b)) == (2 * pow2(c)) * pow2(b)) by (nonlinear_arith);
    }
}

/// Adding a fixed element to two distinct canonical residues gives distinct sums.
proof fn lemma_add_distinct(c: int, a: int, b: int, p: int)
    requires
        0 <= a < p,
        0 <= b < p,
        a != b,
    ensures
        (c + a) % p != (c + b) % p,
{
    lemma_diff_nonzero(a, b, p);
    lemma_sub_mod_noop(c + a, c + b, p);
    if (c + a) % p == (c + b) % p {
        lemma_small_mod(0, p as nat);
        assert((c + a) - (c + b) == a - b);
    }
}

/// Two bottom levels that differ only at `j` give levels that differ only above `j`, the
/// entry above `j` included, when the hash is injective on the field.
proof fn lemma_levels_differ<H: Hasher>(
    h: H,
    l1: Seq<FieldElement>,
    l2: Seq<FieldElement>,
    d: nat,
    j: int,
    k: nat,
)
    requires
        h.wf(),
        h.field().wf(),
        injective_on_field(h),
        l1.len() == pow2(d),
        l2.len() == pow2(d),
        k <= d,
        0 <= j < pow2(d),
        all_in(l1, h.field()),
        all_in(l2, h.field()),
        l1[j] != l2[j],
        forall|i: int| 0 <= i < l1.len() && i != j ==> l1[i] == l2[i],
    ensures
        all_in(tree_level(h, l1, k), h.field()),
        all_in(tree_level(h, l2, k), h.field()),
        tree_level(h, l1, k)[j / (pow2(k) as int)] != tree_level(h, l2, k)[j / (pow2(k) as int)],
        forall|i: int|
            0 <= i < pow2((d - k) as nat) && i != j / (pow2(k) as int) ==> tree_level(h, l1, k)[i]
                == tree_level(h, l2, k)[i],
    decreases k,
{
    lemma_level_len(h, l1, d, k);
    lemma_level_len(h, l2, d, k);
    if k == 0 {
        assert(j / 1 == j);
    } else {
        let m = (k - 1) as nat;
        lemma_levels_differ(h, l1, l2, d, j, m);
        let a = tree_level(h, l1, m);
        let b = tree_level(h, l2, m);
        lemma_level_len(h, l1, d, m);
        lemma_level_len(h, l2, d, m);
        lemma_pow2_positive(m);
        lemma_pow2_positive((d - k) as nat);
        assert(pow2((d - m) as nat) == 2 * pow2((d - k) as nat));
        assert(pow2(k) == pow2(m) * 2);
        lemma_div_denominator(j, pow2(m) as int, 2);
        let q = j / (pow2(m) as int);
        let f = h.field();
        assert(q < pow2((d - m) as nat)) by {
            lemma_pow2_add(m, (d - m) as nat);
            vstd::arithmetic::div_mod::lemma_multiply_divide_lt(
                j,
                pow2(m) as int,
                pow2((d - m) as nat) as int,
            );
        }
        assert forall|i: int| 0 <= i < pow2((d - k) as nat) implies {
            &&& (#[trigger] a[2 * i].spec_add(a[2 * i + 1])).wf()
            &&& a[2 * i].spec_add(a[2 * i + 1]).finite_field == f
            &&& b[2 * i].spec_add(b[2 * i + 1]).wf()
            &&& b[2 * i].spec_add(b[2 * i + 1]).finite_field == f
        } by {
            assert(a[2 * i].wf() && a[2 * i].finite_field == f);
            assert(b[2 * i].wf() && b[2 * i].finite_field == f);
        }
        assert forall|i: int| 0 <= i < pow2((d - k) as nat) implies (#[trigger] tree_level(h, l1, k)[i]).wf()
            && tree_level(h, l1, k)[i].finite_field == f && tree_level(h, l2, k)[i].wf()
            && tree_level(h, l2, k)[i].finite_field == f by {
            assert(a[2 * i].spec_add(a[2 * i + 1]).wf());
            h.lemma_hash_in_field(a[2 * i].spec_add(a[2 * i + 1]));
            h.lemma_hash_in_field(b[2 * i].spec_add(b[2 * i + 1]));
        }
        let top = q / 2;
        let sa = a[2 * top].spec_add(a[2 * top + 1]);
        let sb = b[2 * top].spec_add(b[2 * top + 1]);
        lemma_fundamental_div_mod(q, 2);
        assert(sa.wf());
        assert(sa != sb) by {
            let x0 = a[2 * top];
            let x1 = a[2 * top + 1];
            let y0 = b[2 * top];
            let y1 = b[2 * top + 1];
            assert(x0.wf() && x1.wf() && y0.wf() && y1.wf());
            assert(x0.finite_field == f && y0.finite_field == f);
            let p = f.prime as int;
            if q == 2 * top {
                assert(x1 == y1);
                assert(x0.element != y0.element);
                lemma_add_distinct(x1.element as int, x0.element as int, y0.element as int, p);
                assert(x0.element + x1.element == x1.element + x0.element);
                assert(y0.element + y1.element == x1.element + y0.element);
            } else {
                assert(x0 == y0);
                assert(x1.element != y1.element);
                lemma_add_distinct(x0.element as int, x1.element as int, y1.element as int, p);
            }
        }
        assert(tree_level(h, l1, k)[top] != tree_level(h, l2, k)[top]);
        assert forall|i: int| 0 <= i < pow2((d - k) as nat) && i != top implies tree_level(h, l1, k)[i]
            == tree_level(h, l2, k)[i] by {
            assert(2 * i != q && 2 * i + 1 != q);
            assert(a[2 * i] == b[2 * i]);
            assert(a[2 * i + 1] == b[2 * i + 1]);
        }
    }
}

/// Merkle sensitivity: with a hash that is injective on its field, two trees over raw leaves
/// that differ at exactly one position commit to different roots.
pub proof fn merkle_sensitivity<H: Hasher>(h: H, raw1: Seq<FieldElement>, raw2: Seq<FieldElement>, j: int)
    requires
        h.wf(),
        h.field().wf(),
        injective_on_field(h),
        is_pow2(raw1.len()),
        raw1.len() == raw2.len(),
        all_in(raw1, h.field()),
        all_in(raw2, h.field()),
        0 <= j < raw1.len(),
        raw1[j] != raw2[j],
        forall|i: int| 0 <= i < raw1.len() && i != j ==> raw1[i] == raw2[i],
    ensures
        tree_level(h, hashed_leaves(h, raw1), log2(raw1.len()))[0] != tree_level(
            h,
            hashed_leaves(h, raw2),
            log2(raw2.len()),
        )[0],
{
    let d = log2(raw1.len());
    let l1 = hashed_leaves(h, raw1);
    let l2 = hashed_leaves(h, raw2);
    lemma_is_pow2(raw1.len());
    assert forall|i: int| 0 <= i < l1.len() implies (#[trigger] l1[i]).wf() && l1[i].finite_field
        == h.field() by {
        assert(raw1[i].wf());
        h.lemma_hash_in_field(raw1[i]);
    }
    assert forall|i: int| 0 <= i < l2.len() implies (#[trigger] l2[i]).wf() && l2[i].finite_field
        == h.field() by {
        assert(raw2[i].wf());
        h.lemma_hash_in_field(raw2[i]);
    }
    assert(raw1[j].wf() && raw2[j].wf());
    assert(h.spec_hash(raw1[j]) != h.spec_hash(raw2[j]));
    lemma_levels_differ(h, l1, l2, d, j, d);
    lemma_pow2_positive(d);
    lemma_small_mod(j as nat, pow2(d));
    vstd::arithmetic::div_mod::lemma_basic_div(j, pow2(d) as int);
}

} // verus!
