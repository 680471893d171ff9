//! The probe sequence of the hash index table.
//!
//! For a table of `cap` slots (`cap` a power of two) and a hash `h`, the
//! sequence starts at `h mod cap` with `perturb = h`, and goes on with
//! `slot = (5 * slot + 1 + perturb) mod cap`, `perturb = perturb / 32`.
//! After `PERTURB_STEPS` steps `perturb` has run out and the sequence is the
//! recurrence `slot = (5 * slot + 1) mod cap`, which walks through every slot
//! before it repeats. [`lemma_probe_reaches_every_slot`] states this; the
//! table's lookups terminate because of it.

use vstd::arithmetic::div_mod::*;
use vstd::arithmetic::power2::*;
use vstd::prelude::*;
use vstd::set_lib::*;

verus! {

/// The number of steps after which `perturb` is zero, whatever the hash.
pub const PERTURB_STEPS: usize = 13;

/// `1 + 5 + 5^2 + ... + 5^(j-1)`.
pub open spec fn geo(j: nat) -> int
    decreases j,
{
    if j == 0 {
        0
    } else {
        5 * geo((j - 1) as nat) + 1
    }
}

/// One step of the recurrence that the probe sequence settles into.
pub open spec fn lcg_step(x: int, cap: int) -> int {
    (5 * x + 1) % cap
}

/// `j` steps of the recurrence, starting at `x`.
pub open spec fn lcg_iter(x: int, cap: int, j: nat) -> int
    decreases j,
{
    if j == 0 {
        x
    } else {
        lcg_step(lcg_iter(x, cap, (j - 1) as nat), cap)
    }
}

/// What is left of the hash after `n` steps.
pub open spec fn perturb_at(hash: u64, n: nat) -> int
    decreases n,
{
    if n == 0 {
        hash as int
    } else {
        perturb_at(hash, (n - 1) as nat) / 32
    }
}

/// The slot that the probe sequence for `hash` visits at step `n`, in a table
/// of `cap` slots.
pub open spec fn probe_slot(hash: u64, cap: int, n: nat) -> int
    decreases n,
{
    if n == 0 {
        (hash as int) % cap
    } else {
        (5 * probe_slot(hash, cap, (n - 1) as nat) + 1 + perturb_at(hash, (n - 1) as nat)) % cap
    }
}

proof fn lemma_geo_nonneg(j: nat)
    ensures
        geo(j) >= 0,
    decreases j,
{
    if j > 0 {
        lemma_geo_nonneg((j - 1) as nat);
    }
}

/// `geo(i + m) = 5^i * geo(m) + geo(i)`, with `5^i` written as `4 * geo(i) + 1`.
proof fn lemma_geo_add(i: nat, m: nat)
    ensures
        geo(i + m) == (4 * geo(i) + 1) * geo(m) + geo(i),
    decreases m,
{
    let p = 4 * geo(i) + 1;
    if m != 0 {
        let m1 = (m - 1) as nat;
        lemma_geo_add(i, m1);
        let g = geo(m1);
        assert(p * (5 * g + 1) == 5 * (p * g) + p) by (nonlinear_arith);
    }
}

proof fn lemma_geo_double(h: nat)
    ensures
        geo(2 * h) == 2 * (geo(h) * (2 * geo(h) + 1)),
{
    lemma_geo_add(h, h);
    let g = geo(h);
    assert((4 * g + 1) * g + g == 2 * (g * (2 * g + 1))) by (nonlinear_arith);
}

proof fn lemma_odd_times_odd(a: int, b: int)
    requires
        a % 2 == 1,
        b % 2 == 1,
    ensures
        (a * b) % 2 == 1,
{
    let a1 = a / 2;
    let b1 = b / 2;
    assert((2 * a1 + 1) * (2 * b1 + 1) == 2 * (2 * (a1 * b1) + a1 + b1) + 1) by (nonlinear_arith);
}

/// A power of two that divides `a * b` with `b` odd divides `a`.
proof fn lemma_odd_cancel(k: nat, a: int, b: int)
    requires
        a >= 0,
        b >= 0,
        (a * b) % (pow2(k) as int) == 0,
        b % 2 == 1,
    ensures
        a % (pow2(k) as int) == 0,
    decreases k,
{
    lemma_pow2_pos(k);
    if k == 0 {
        lemma2_to64();
    } else {
        let c1 = pow2((k - 1) as nat) as int;
        lemma_pow2_unfold(k);
        lemma_mod_mod(a * b, 2, c1);
        if a % 2 == 1 {
            lemma_odd_times_odd(a, b);
        }
        let a1 = a / 2;
        assert(a * b == 2 * (a1 * b)) by (nonlinear_arith)
            requires
                a == 2 * a1,
        ;
        lemma_truncate_middle(a1 * b, 2, c1);
        lemma_odd_cancel((k - 1) as nat, a1, b);
        lemma_truncate_middle(a1, 2, c1);
    }
}

/// A power of two that divides `geo(m)` divides `m`.
proof fn lemma_geo_divisible(m: nat, k: nat)
    requires
        geo(m) % (pow2(k) as int) == 0,
    ensures
        (m as int) % (pow2(k) as int) == 0,
    decreases k,
{
    lemma_pow2_pos(k);
    if k == 0 {
        lemma2_to64();
    } else {
        let c1 = pow2((k - 1) as nat) as int;
        lemma_pow2_unfold(k);
        lemma_mod_mod(geo(m), 2, c1);
        let h = (m / 2) as nat;
        lemma_geo_double(h);
        lemma_geo_nonneg(h);
        let g = geo(h);
        let y = g * (2 * g + 1);
        lemma_truncate_middle(y, 2, c1);
        lemma_odd_cancel((k - 1) as nat, g, 2 * g + 1);
        lemma_geo_divisible(h, (k - 1) as nat);
        lemma_truncate_middle(h as int, 2, c1);
    }
}

/// `j` steps from `x` end at `5^j * x + geo(j)`, modulo `cap`.
proof fn lemma_lcg_closed_form(x: int, cap: int, j: nat)
    requires
        0 <= x < cap,
    ensures
        lcg_iter(x, cap, j) == ((4 * geo(j) + 1) * x + geo(j)) % cap,
    decreases j,
{
    if j == 0 {
        lemma_small_mod(x as nat, cap as nat);
    } else {
        let j1 = (j - 1) as nat;
        lemma_lcg_closed_form(x, cap, j1);
        let g = geo(j1);
        let e = (4 * g + 1) * x + g;
        lemma_mul_mod_noop_right(5, e, cap);
        lemma_add_mod_noop(5 * (e % cap), 1, cap);
        lemma_add_mod_noop(5 * e, 1, cap);
        assert(5 * ((4 * g + 1) * x + g) + 1 == (4 * (5 * g + 1) + 1) * x + (5 * g + 1))
            by (nonlinear_arith);
    }
}

/// The recurrence does not come back to a value within fewer than `cap` steps.
proof fn lemma_lcg_injective(k: nat, x: int, i: nat, j: nat)
    requires
        0 <= x < pow2(k),
        i < j,
        j - i < pow2(k),
    ensures
        lcg_iter(x, pow2(k) as int, i) != lcg_iter(x, pow2(k) as int, j),
{
    let cap = pow2(k) as int;
    let m = (j - i) as nat;
    let gi = geo(i);
    let gj = geo(j);
    let gm = geo(m);
    let ei = (4 * gi + 1) * x + gi;
    let ej = (4 * gj + 1) * x + gj;
    lemma_lcg_closed_form(x, cap, i);
    lemma_lcg_closed_form(x, cap, j);
    if ei % cap == ej % cap {
        lemma_mod_equivalence(ej, ei, cap);
        lemma_geo_add(i, m);
        let odd = (4 * gi + 1) * (4 * x + 1);
        assert(ej - ei == gm * odd) by (nonlinear_arith)
            requires
                gj == (4 * gi + 1) * gm + gi,
                ei == (4 * gi + 1) * x + gi,
                ej == (4 * gj + 1) * x + gj,
                odd == (4 * gi + 1) * (4 * x + 1),
        ;
        lemma_geo_nonneg(i);
        lemma_geo_nonneg(m);
        lemma_odd_times_odd(4 * gi + 1, 4 * x + 1);
        lemma_odd_cancel(k, gm, odd);
        lemma_geo_divisible(m, k);
        lemma_small_mod(m, cap as nat);
    }
}

/// The values that the recurrence takes in its first `m` steps from `x`.
spec fn orbit(x: int, cap: int, m: nat) -> Set<int>
    decreases m,
{
    if m == 0 {
        Set::empty()
    } else {
        orbit(x, cap, (m - 1) as nat).insert(lcg_iter(x, cap, (m - 1) as nat))
    }
}

proof fn lemma_orbit(k: nat, x: int, m: nat)
    requires
        0 <= x < pow2(k),
        m <= pow2(k),
    ensures
        orbit(x, pow2(k) as int, m).finite(),
        orbit(x, pow2(k) as int, m).len() == m,
        forall|v: int| #[trigger]
            orbit(x, pow2(k) as int, m).contains(v) <==> exists|j: nat|
                j < m && #[trigger] lcg_iter(x, pow2(k) as int, j) == v,
    decreases m,
{
    let cap = pow2(k) as int;
    if m > 0 {
        let m1 = (m - 1) as nat;
        lemma_orbit(k, x, m1);
        let prev = orbit(x, cap, m1);
        let last = lcg_iter(x, cap, m1);
        if prev.contains(last) {
            let j = choose|j: nat| j < m1 && #[trigger] lcg_iter(x, cap, j) == last;
            lemma_lcg_injective(k, x, j, m1);
        }
    }
}

/// Within `cap` steps the recurrence visits every value below `cap`.
pub proof fn lemma_lcg_reaches_every_slot(k: nat, x: int, target: int)
    requires
        0 <= x < pow2(k),
        0 <= target < pow2(k),
    ensures
        exists|j: nat| j < pow2(k) && #[trigger] lcg_iter(x, pow2(k) as int, j) == target,
{
    let cap = pow2(k) as int;
    let all = orbit(x, cap, cap as nat);
    lemma_orbit(k, x, cap as nat);
    lemma_int_range(0, cap);
    lemma_subset_equality(all, set_int_range(0, cap));
    assert(set_int_range(0, cap).contains(target));
}

/// A table capacity: a power of two, at least 8, that a `u64` can mask.
pub open spec fn is_capacity(cap: int) -> bool {
    exists|k: nat| 3 <= k < 64 && cap == #[trigger] pow2(k)
}

/// The exponent of a capacity.
pub open spec fn capacity_bits(cap: int) -> nat {
    choose|k: nat| 3 <= k < 64 && cap == #[trigger] pow2(k)
}

proof fn lemma_perturb_runs_out(hash: u64, n: nat)
    requires
        n >= PERTURB_STEPS,
    ensures
        perturb_at(hash, n) == 0,
    decreases n,
{
    if n == PERTURB_STEPS {
        reveal_with_fuel(perturb_at, 14);
    } else {
        lemma_perturb_runs_out(hash, (n - 1) as nat);
    }
}

/// A capacity is at least 8.
pub proof fn lemma_capacity_min(cap: int)
    requires
        is_capacity(cap),
    ensures
        8 <= cap,
{
    let k = capacity_bits(cap);
    lemma2_to64();
    if k > 3 {
        lemma_pow2_strictly_increases(3, k);
    }
}

/// Twice a capacity is a capacity, if a `u64` can hold it.
pub proof fn lemma_capacity_double(cap: int)
    requires
        is_capacity(cap),
        2 * cap <= u64::MAX,
    ensures
        is_capacity(2 * cap),
{
    let k = capacity_bits(cap);
    lemma_pow2_unfold(k + 1);
    lemma2_to64();
}

/// From step `PERTURB_STEPS` on, the probe sequence is the recurrence.
proof fn lemma_probe_is_lcg(hash: u64, cap: int, j: nat)
    requires
        cap > 0,
    ensures
        probe_slot(hash, cap, PERTURB_STEPS as nat + j) == lcg_iter(
            probe_slot(hash, cap, PERTURB_STEPS as nat),
            cap,
            j,
        ),
    decreases j,
{
    if j > 0 {
        let j1 = (j - 1) as nat;
        lemma_probe_is_lcg(hash, cap, j1);
        lemma_perturb_runs_out(hash, PERTURB_STEPS as nat + j1);
    }
}

/// The probe sequence for any hash visits every slot of the table within
/// `PERTURB_STEPS + cap` steps.
pub proof fn lemma_probe_reaches_every_slot(hash: u64, cap: int, target: int)
    requires
        is_capacity(cap),
        0 <= target < cap,
    ensures
        exists|n: nat| n < PERTURB_STEPS + cap && #[trigger] probe_slot(hash, cap, n) == target,
{
    let k = capacity_bits(cap);
    let start = probe_slot(hash, cap, PERTURB_STEPS as nat);
    lemma_lcg_reaches_every_slot(k, start, target);
    let j = choose|j: nat| j < pow2(k) && #[trigger] lcg_iter(start, pow2(k) as int, j) == target;
    lemma_probe_is_lcg(hash, cap, j);
}

/// Walks the probe sequence of one hash over a table of one capacity.
pub struct GenIndexes {
    hash: u64,
    slot: usize,
    perturb: u64,
    mask: u64,
    step: Ghost<nat>,
}

impl GenIndexes {
    /// The hash whose probe sequence is walked.
    pub closed spec fn hash(&self) -> u64 {
        self.hash
    }

    /// The number of slots of the table that is walked.
    pub closed spec fn capacity(&self) -> int {
        self.mask + 1
    }

    /// The number of steps taken so far.
    pub closed spec fn step(&self) -> nat {
        self.step@
    }

    /// The walk stands where the probe sequence for its hash is after its
    /// number of steps.
    pub closed spec fn inv(&self) -> bool {
        &&& is_capacity(self.capacity())
        &&& self.capacity() <= usize::MAX
        &&& self.slot == probe_slot(self.hash, self.capacity(), self.step@)
        &&& self.perturb == perturb_at(self.hash, self.step@)
    }

    /// Starts the walk for `hash` in a table of `cap` slots.
    pub fn new(hash: u64, cap: usize) -> (g: Self)
        requires
            is_capacity(cap as int),
        ensures
            g.inv(),
            g.hash() == hash,
            g.capacity() == cap,
            g.step() == 0,
    {
        proof {
            lemma_mask_is_mod(hash, cap as int);
        }
        let mask: u64 = (cap - 1) as u64;
        GenIndexes { hash, slot: (hash & mask) as usize, perturb: hash, mask, step: Ghost(0) }
    }

    /// The slot the walk stands on.
    pub fn slot(&self) -> (s: usize)
        requires
            self.inv(),
        ensures
            s == probe_slot(self.hash(), self.capacity(), self.step()),
            0 <= s < self.capacity(),
    {
        self.slot
    }

    /// Takes one step.
    pub fn advance(&mut self)
        requires
            old(self).inv(),
        ensures
            final(self).inv(),
            final(self).hash() == old(self).hash(),
            final(self).capacity() == old(self).capacity(),
            final(self).step() == old(self).step() + 1,
    {
        let ghost cap = self.capacity();
        let ghost k = capacity_bits(cap);
        let ghost e = 5 * self.slot + 1 + self.perturb;
        let a: u64 = (self.slot as u64).wrapping_mul(5);
        let b: u64 = a.wrapping_add(1);
        let wide: u64 = b.wrapping_add(self.perturb);
        proof {
            assert(a as int == (5 * self.slot) % 0x1_0000_0000_0000_0000);
            lemma_mask_is_mod(wide, cap);
            lemma_pow2_adds(k, (64 - k) as nat);
            lemma2_to64();
            lemma_mod_mod(e, cap, pow2((64 - k) as nat) as int);
            let p = self.perturb;
            assert(p >> 5 == p / 32) by (bit_vector);
        }
        self.slot = (wide & self.mask) as usize;
        self.perturb = self.perturb >> 5;
        self.step = Ghost((self.step@ + 1) as nat);
    }
}

/// Masking with `cap - 1` is the remainder modulo `cap`.
proof fn lemma_mask_is_mod(x: u64, cap: int)
    requires
        is_capacity(cap),
    ensures
        (x & ((cap - 1) as u64)) as int == (x as int) % cap,
        0 < cap <= u64::MAX,
{
    let k = capacity_bits(cap);
    lemma_pow2_pos(k);
    lemma_pow2_strictly_increases(k, 64);
    lemma2_to64();
    vstd::bits::lemma_u64_low_bits_mask_is_mod(x, k);
}

} // verus!
