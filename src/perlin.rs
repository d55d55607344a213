use crate::random::random_below;
use vstd::prelude::*;

verus! {

/// Number of lattice gradients, and length of each permutation table.
pub const POINT_COUNT: usize = 256;

/// `p` holds each of `0..n` exactly once.
pub open spec fn is_perm(p: Seq<usize>, n: nat) -> bool {
    &&& p.len() == n
    &&& forall|i: int| 0 <= i < n ==> #[trigger] p[i] < n
    &&& forall|i: int, j: int| 0 <= i < n && 0 <= j < n && i != j ==> #[trigger] p[i] != #[trigger] p[j]
}

/// Slot of the permutation tables that a lattice coordinate falls in: its low eight bits.
pub open spec fn lattice_slot(c: i32) -> int {
    (c & 255) as int
}

/// Permutation tables of Perlin noise, one per axis. Hashing the integer
/// lattice coordinates of a point through them picks one of `POINT_COUNT`
/// gradients.
pub struct Perlin {
    perm_x: Vec<usize>,
    perm_y: Vec<usize>,
    perm_z: Vec<usize>,
}

impl Perlin {
    #[verifier::type_invariant]
    spec fn tables_are_perms(&self) -> bool {
        &&& is_perm(self.perm_x@, POINT_COUNT as nat)
        &&& is_perm(self.perm_y@, POINT_COUNT as nat)
        &&& is_perm(self.perm_z@, POINT_COUNT as nat)
    }

    /// The permutation table of `axis` (0, 1 or 2).
    pub closed spec fn table(&self, axis: int) -> Seq<usize> {
        if axis == 0 {
            self.perm_x@
        } else if axis == 1 {
            self.perm_y@
        } else {
            self.perm_z@
        }
    }

    /// Shuffles positions `0..n` of `p` (Fisher-Yates): from the last position
    /// down, each position trades places with a position drawn at random at or
    /// below it.
    pub fn permute(p: &mut Vec<usize>, n: usize)
        requires
            is_perm(old(p)@, n as nat),
        ensures
            is_perm(final(p)@, n as nat),
    {
        let mut i: usize = n;
        while i > 0
            invariant
                i <= n,
                is_perm(p@, n as nat),
            decreases i,
        {
            let last = i - 1;
            let target = random_below(i);
            let tmp = p[last];
            let other = p[target];
            p.set(last, other);
            p.set(target, tmp);
            i = last;
        }
    }

    /// A random permutation of `0..POINT_COUNT`.
    pub fn perlin_generate_perm() -> (r: Vec<usize>)
        ensures
            is_perm(r@, POINT_COUNT as nat),
    {
        let mut p: Vec<usize> = Vec::new();
        let mut i: usize = 0;
        while i < POINT_COUNT
            invariant
                i <= POINT_COUNT,
                p@.len() == i,
                forall|k: int| 0 <= k < i ==> #[trigger] p@[k] == k,
            decreases POINT_COUNT - i,
        {
            p.push(i);
            i = i + 1;
        }
        Self::permute(&mut p, POINT_COUNT);
        p
    }

    /// Three fresh random permutation tables.
    pub fn new() -> (r: Perlin)
        ensures
            is_perm(r.table(0), POINT_COUNT as nat),
            is_perm(r.table(1), POINT_COUNT as nat),
            is_perm(r.table(2), POINT_COUNT as nat),
    {
        Perlin {
            perm_x: Self::perlin_generate_perm(),
            perm_y: Self::perlin_generate_perm(),
            perm_z: Self::perlin_generate_perm(),
        }
    }

    /// Index of the gradient at lattice point `(i, j, k)`: the exclusive or of
    /// the three tables' entries at the coordinates' low eight bits.
    pub fn hash(&self, i: i32, j: i32, k: i32) -> (r: usize)
        ensures
            r < POINT_COUNT,
            r == self.table(0)[lattice_slot(i)] ^ self.table(1)[lattice_slot(j)] ^ self.table(
                2,
            )[lattice_slot(k)],
    {
        proof {
            use_type_invariant(self);
        }
        assert(0 <= (i & 255i32) < 256) by (bit_vector);
        assert(0 <= (j & 255i32) < 256) by (bit_vector);
        assert(0 <= (k & 255i32) < 256) by (bit_vector);
        let a = self.perm_x[(i & 255) as usize];
        let b = self.perm_y[(j & 255) as usize];
        let c = self.perm_z[(k & 255) as usize];
        assert(a < 256 && b < 256 && c < 256 ==> (a ^ b ^ c) < 256) by (bit_vector);
        a ^ b ^ c
    }
}

} // verus!
