use rand::seq::SliceRandom;
use vstd::prelude::*;

verus! {

broadcast use vstd::seq_lib::group_to_multiset_ensures;

/// The size of each lattice table.
pub const TABLE_SIZE: usize = 256;

/// `s` is a permutation of the byte values: 256 entries, each value present.
pub open spec fn is_permutation(s: Seq<u8>) -> bool {
    s.len() == TABLE_SIZE && forall|v: u8| s.contains(v)
}

/// Relies on rand's `SliceRandom::shuffle` (a Fisher-Yates shuffle by swaps) on the
/// thread-local generator: the entries come out rearranged, none added or lost.
#[verifier::external_body]
fn shuffle_bytes(v: &mut Vec<u8>)
    ensures
        final(v)@.to_multiset() == old(v)@.to_multiset(),
{
    v.shuffle(&mut rand::thread_rng());
}

/// A random permutation of the byte values `0..=255`.
pub fn generate_perm() -> (r: Vec<u8>)
    ensures
        is_permutation(r@),
{
    let mut arr: Vec<u8> = Vec::new();
    let mut i: usize = 0;
    while i < TABLE_SIZE
        invariant
            i <= TABLE_SIZE,
            arr.len() == i,
            forall|j: int| 0 <= j < i ==> arr[j] == j,
        decreases TABLE_SIZE - i,
    {
        arr.push(i as u8);
        i = i + 1;
    }
    let ghost ordered = arr@;
    shuffle_bytes(&mut arr);
    assert(arr@.len() == ordered.len()) by {
        assert(arr@.to_multiset().len() == ordered.to_multiset().len());
    }
    assert forall|v: u8| arr@.contains(v) by {
        assert(ordered[v as int] == v);
        assert(ordered.contains(v));
        assert(ordered.to_multiset().count(v) > 0);
    }
    arr
}

/// Whether `t` is a permutation of the byte values.
fn check_permutation(t: &Vec<u8>) -> (r: bool)
    ensures
        r == is_permutation(t@),
{
    if t.len() != TABLE_SIZE {
        return false;
    }
    let mut seen: Vec<bool> = Vec::new();
    let mut v: usize = 0;
    while v < TABLE_SIZE
        invariant
            v <= TABLE_SIZE,
            seen.len() == v,
            forall|w: int| 0 <= w < v ==> !seen[w],
        decreases TABLE_SIZE - v,
    {
        seen.push(false);
        v = v + 1;
    }
    let mut j: usize = 0;
    while j < t.len()
        invariant
            j <= t.len(),
            seen.len() == TABLE_SIZE,
            forall|w: int|
                0 <= w < TABLE_SIZE ==> (seen[w] <==> exists|i: int| 0 <= i < j && t[i] == w),
        decreases t.len() - j,
    {
        let x = t[j] as usize;
        seen.set(x, true);
        proof {
            assert forall|w: int| 0 <= w < TABLE_SIZE implies (seen[w] <==> exists|i: int|
                0 <= i < j + 1 && t[i] == w) by {
                if w == x {
                    assert(t[j as int] == w);
                }
            }
        }
        j = j + 1;
    }
    let mut w: usize = 0;
    while w < TABLE_SIZE
        invariant
            w <= TABLE_SIZE,
            t.len() == TABLE_SIZE,
            seen.len() == TABLE_SIZE,
            forall|u: int|
                0 <= u < TABLE_SIZE ==> (seen[u] <==> exists|i: int|
                    0 <= i < t.len() && t[i] == u),
            forall|u: u8| u < w ==> t@.contains(u),
        decreases TABLE_SIZE - w,
    {
        if !seen[w] {
            assert(!t@.contains(w as u8));
            return false;
        }
        w = w + 1;
    }
    true
}

/// Lattice tables of gradient noise: a permutation of the byte values for each axis, and 256
/// gradients. The three permutations hash a lattice point to one of the gradients.
pub struct Perlin<G> {
    perm_x: Vec<u8>,
    perm_y: Vec<u8>,
    perm_z: Vec<u8>,
    gradients: Vec<G>,
}

impl<G: Copy> Perlin<G> {
    /// The permutation for axis `0`, `1` or `2`.
    pub closed spec fn perm(&self, axis: int) -> Seq<u8> {
        if axis == 0 {
            self.perm_x@
        } else if axis == 1 {
            self.perm_y@
        } else {
            self.perm_z@
        }
    }

    /// The gradient table.
    pub closed spec fn gradients(&self) -> Seq<G> {
        self.gradients@
    }

    /// Three permutations and 256 gradients.
    pub open spec fn wf(&self) -> bool {
        &&& is_permutation(self.perm(0))
        &&& is_permutation(self.perm(1))
        &&& is_permutation(self.perm(2))
        &&& self.gradients().len() == TABLE_SIZE
    }

    /// The gradient index of lattice point `(i, j, k)`: the three permutations' entries at the
    /// coordinates taken modulo 256, combined by exclusive or.
    pub open spec fn hash(&self, i: int, j: int, k: int) -> int {
        (self.perm(0)[i % 256] ^ self.perm(1)[j % 256] ^ self.perm(2)[k % 256]) as int
    }

    /// Tables with freshly shuffled permutations and the given gradients; `None` unless there
    /// are exactly 256 gradients.
    pub fn new(gradients: Vec<G>) -> (r: Option<Self>)
        ensures
            r is Some <==> gradients.len() == TABLE_SIZE,
            r matches Some(p) ==> p.wf() && p.gradients() == gradients@,
    {
        if gradients.len() != TABLE_SIZE {
            return None;
        }
        let perm_x = generate_perm();
        let perm_y = generate_perm();
        let perm_z = generate_perm();
        Some(Perlin { perm_x, perm_y, perm_z, gradients })
    }

    /// Tables with the given permutations and gradients, for reproducible noise; `None`
    /// unless each of the three is a permutation of the byte values and there are exactly 256
    /// gradients.
    pub fn from_tables(perm_x: Vec<u8>, perm_y: Vec<u8>, perm_z: Vec<u8>, gradients: Vec<G>) -> (r:
        Option<Self>)
        ensures
            r is Some <==> (is_permutation(perm_x@) && is_permutation(perm_y@) && is_permutation(
                perm_z@,
            ) && gradients.len() == TABLE_SIZE),
            r matches Some(p) ==> {
                &&& p.perm(0) == perm_x@
                &&& p.perm(1) == perm_y@
                &&& p.perm(2) == perm_z@
                &&& p.gradients() == gradients@
            },
    {
        if check_permutation(&perm_x) && check_permutation(&perm_y) && check_permutation(&perm_z)
            && gradients.len() == TABLE_SIZE {
            Some(Perlin { perm_x, perm_y, perm_z, gradients })
        } else {
            None
        }
    }

    /// The gradient index of lattice point `(i, j, k)`.
    pub fn corner_index(&self, i: usize, j: usize, k: usize) -> (r: usize)
        requires
            self.wf(),
        ensures
            r == self.hash(i as int, j as int, k as int),
            r < TABLE_SIZE,
    {
        let h = self.perm_x[i % 256] ^ self.perm_y[j % 256] ^ self.perm_z[k % 256];
        h as usize
    }

    /// The gradients at the eight corners of the lattice cell whose lowest corner is
    /// `(i, j, k)`: entry `4 * di + 2 * dj + dk` belongs to corner `(i + di, j + dj, k + dk)`.
    pub fn corners(&self, i: usize, j: usize, k: usize) -> (r: Vec<G>)
        requires
            self.wf(),
        ensures
            r.len() == 8,
            forall|c: int|
                0 <= c < 8 ==> #[trigger] r[c] == self.gradients()[self.hash(
                    i + c / 4,
                    j + (c / 2) % 2,
                    k + c % 2,
                )],
    {
        let mut r: Vec<G> = Vec::new();
        let mut c: usize = 0;
        while c < 8
            invariant
                self.wf(),
                c <= 8,
                r.len() == c,
                forall|t: int|
                    0 <= t < c ==> #[trigger] r[t] == self.gradients()[self.hash(
                        i + t / 4,
                        j + (t / 2) % 2,
                        k + t % 2,
                    )],
            decreases 8 - c,
        {
            let di = c / 4;
            let dj = (c / 2) % 2;
            let dk = c % 2;
            let ii = (i % 256 + di) % 256;
            let jj = (j % 256 + dj) % 256;
            let kk = (k % 256 + dk) % 256;
            proof {
                vstd::arithmetic::div_mod::lemma_add_mod_noop(i as int, di as int, 256);
                vstd::arithmetic::div_mod::lemma_add_mod_noop(j as int, dj as int, 256);
                vstd::arithmetic::div_mod::lemma_add_mod_noop(k as int, dk as int, 256);
                assert(ii == (i + di) % 256);
            }
            let idx = self.corner_index(ii, jj, kk);
            r.push(self.gradients[idx]);
            c = c + 1;
        }
        r
    }
}

} // verus!
