use crate::utilities::random_int;
use vstd::prelude::*;
use vstd::seq_lib::{to_multiset_update, group_to_multiset_ensures};

verus! {

/// Number of lattice cells along each axis before the noise pattern repeats.
pub const POINT_COUNT: usize = 256;

/// The identity sequence `0, 1, ..., n - 1`.
pub open spec fn identity_seq(n: nat) -> Seq<u32> {
    Seq::new(n, |i: int| i as u32)
}

/// `s` holds each of `0..n` exactly once.
pub open spec fn is_permutation_of_range(s: Seq<u32>, n: nat) -> bool {
    s.to_multiset() == identity_seq(n).to_multiset()
}

/// Shuffles the first `n` entries of `p` in place (Fisher-Yates, from the back).
pub fn permute(p: &mut Vec<u32>, n: usize)
    requires
        n <= old(p).len(),
        n <= 0x8000_0000,
    ensures
        final(p)@.len() == old(p)@.len(),
        final(p)@.to_multiset() == old(p)@.to_multiset(),
        forall|k: int| n <= k < old(p)@.len() ==> final(p)@[k] == old(p)@[k],
{
    let mut i: usize = n;
    while i > 0
        invariant
            i <= n,
            n <= p.len(),
            n <= 0x8000_0000,
            p@.len() == old(p)@.len(),
            p@.to_multiset() == old(p)@.to_multiset(),
            forall|k: int| n <= k < old(p)@.len() ==> p@[k] == old(p)@[k],
        decreases i,
    {
        i = i - 1;
        let target = random_int(0, i as i32) as usize;
        let tmp = p[i];
        let other = p[target];
        let ghost before = p@;
        p.set(i, other);
        p.set(target, tmp);
        proof {
            broadcast use vstd::multiset::group_multiset_axioms;
            let mid = before.update(i as int, other);
            to_multiset_update(before, i as int, other);
            to_multiset_update(mid, target as int, tmp);
            assert(p@ == mid.update(target as int, tmp));
            assert(before.to_multiset().count(tmp) > 0) by {
                broadcast use group_to_multiset_ensures;
                assert(before.contains(tmp));
            }
            assert(p@.to_multiset() =~= before.to_multiset());
        }
    }
}

/// A fresh random permutation of `0..POINT_COUNT`.
pub fn generate_perm() -> (r: Vec<u32>)
    ensures
        r@.len() == POINT_COUNT,
        is_permutation_of_range(r@, POINT_COUNT as nat),
{
    let mut p: Vec<u32> = Vec::new();
    let mut i: usize = 0;
    while i < POINT_COUNT
        invariant
            i <= POINT_COUNT,
            p@ == identity_seq(i as nat),
        decreases POINT_COUNT - i,
    {
        p.push(i as u32);
        i = i + 1;
        assert(p@ =~= identity_seq(i as nat));
    }
    permute(&mut p, POINT_COUNT);
    p
}


/// `x` wrapped onto `0..POINT_COUNT`, the Euclidean remainder.
fn wrap(x: i64) -> (r: usize)
    ensures
        r as int == x as int % 256,
{
    let m = x % 256;
    if m < 0 {
        (m + 256) as usize
    } else {
        m as usize
    }
}

/// The three random permutations that hash an integer lattice point to one of
/// `POINT_COUNT` gradient slots.
pub struct LatticeHash {
    pub perm_x: Vec<u32>,
    pub perm_y: Vec<u32>,
    pub perm_z: Vec<u32>,
}

impl LatticeHash {
    pub open spec fn wf(&self) -> bool {
        &&& self.perm_x@.len() == POINT_COUNT
        &&& self.perm_y@.len() == POINT_COUNT
        &&& self.perm_z@.len() == POINT_COUNT
        &&& is_permutation_of_range(self.perm_x@, POINT_COUNT as nat)
        &&& is_permutation_of_range(self.perm_y@, POINT_COUNT as nat)
        &&& is_permutation_of_range(self.perm_z@, POINT_COUNT as nat)
    }

    /// Gradient slot of lattice point `(x, y, z)`; the pattern repeats every
    /// `POINT_COUNT` cells along each axis.
    pub open spec fn slot(&self, x: int, y: int, z: int) -> u32 {
        self.perm_x@[x % 256] ^ self.perm_y@[y % 256] ^ self.perm_z@[z % 256]
    }

    /// Three fresh random permutations.
    pub fn new() -> (r: Self)
        ensures
            r.wf(),
    {
        let perm_x = generate_perm();
        let perm_y = generate_perm();
        let perm_z = generate_perm();
        LatticeHash { perm_x, perm_y, perm_z }
    }

    /// Gradient slot of lattice point `(x, y, z)`.
    pub fn corner(&self, x: i64, y: i64, z: i64) -> (r: usize)
        requires
            self.wf(),
        ensures
            r == self.slot(x as int, y as int, z as int),
            r < POINT_COUNT,
    {
        let a = self.perm_x[wrap(x)];
        let b = self.perm_y[wrap(y)];
        let c = self.perm_z[wrap(z)];
        proof {
            lemma_entry_below(self.perm_x@, x as int % 256);
            lemma_entry_below(self.perm_y@, y as int % 256);
            lemma_entry_below(self.perm_z@, z as int % 256);
            assert(a < 256u32 && b < 256u32 && c < 256u32 ==> a ^ b ^ c < 256u32) by (bit_vector);
        }
        (a ^ b ^ c) as usize
    }
}

/// Every entry of a permutation of `0..POINT_COUNT` is below `POINT_COUNT`.
proof fn lemma_entry_below(s: Seq<u32>, k: int)
    requires
        is_permutation_of_range(s, POINT_COUNT as nat),
        0 <= k < s.len(),
    ensures
        s[k] < POINT_COUNT,
{
    broadcast use group_to_multiset_ensures;
    let id = identity_seq(POINT_COUNT as nat);
    assert(s.contains(s[k]));
    assert(s.to_multiset().count(s[k]) > 0);
    assert(id.to_multiset().count(s[k]) > 0);
    assert(id.contains(s[k]));
    let j = choose|j: int| 0 <= j < id.len() && id[j] == s[k];
    assert(id[j] == j as u32);
}

} // verus!
