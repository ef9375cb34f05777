//! Seeds and random numbers for data generation.
//!
//! Every game has its own seed, a pure function of the run's seed, the worker and
//! the game, so that resuming is exact: worker 3 game 900 always opens the same
//! way, whether it is reached in one run or after five interruptions.

use vstd::prelude::*;

verus! {

/// SplitMix64: the finalised counter.
pub open spec fn split_mix(x: u64) -> u64 {
    let a = x.wrapping_add(0x9E37_79B9_7F4A_7C15);
    let b = (a ^ (a >> 30)).wrapping_mul(0xBF58_476D_1CE4_E5B9);
    let c = (b ^ (b >> 27)).wrapping_mul(0x94D0_49BB_1331_11EB);
    c ^ (c >> 31)
}

/// SplitMix64, used to turn a counter into a well-separated seed.
///
/// The obvious `seed * K + worker | 1` collapses adjacent workers onto the *same*
/// stream whenever the product is odd.
pub fn splitmix64(x: u64) -> (r: u64)
    ensures
        r == split_mix(x),
{
    let a: u64 = x.wrapping_add(0x9E37_79B9_7F4A_7C15);
    let b: u64 = (a ^ (a >> 30)).wrapping_mul(0xBF58_476D_1CE4_E5B9);
    let c: u64 = (b ^ (b >> 27)).wrapping_mul(0x94D0_49BB_1331_11EB);
    c ^ (c >> 31)
}

/// What the run's seed and the worker contribute to a seed.
pub open spec fn worker_mix(base: u64, worker: u64) -> u64 {
    split_mix(base ^ split_mix(worker).wrapping_mul(0x1000_0000_0000_01B3))
}

/// A game's seed before zero is replaced.
pub open spec fn raw_seed(base: u64, worker: u64, game: u64) -> u64 {
    worker_mix(base, worker) ^ split_mix(game)
}

/// A game's seed: never zero, at which the generator would stand still.
pub open spec fn seed_of(base: u64, worker: u64, game: u64) -> u64 {
    let s = raw_seed(base, worker, game);
    if s == 0 {
        0xDEAD_BEEF
    } else {
        s
    }
}

/// The seed for one game, a pure function of run seed, worker and game index.
pub fn game_seed(base: u64, worker: usize, game: u64) -> (r: u64)
    ensures
        r == seed_of(base, worker as u64, game),
        r != 0,
{
    let s: u64 = splitmix64(base ^ splitmix64(worker as u64).wrapping_mul(0x1000_0000_0000_01B3)) ^ splitmix64(game);
    if s == 0 {
        0xDEAD_BEEF
    } else {
        s
    }
}

/// One step of xorshift64.
pub open spec fn xorshift(x: u64) -> u64 {
    let a = x ^ (x << 13);
    let b = a ^ (a >> 7);
    b ^ (b << 17)
}

/// An xorshift64 generator.
#[derive(Clone, Copy, PartialEq, Eq, Structural, Debug)]
pub struct Rng(pub u64);

impl Rng {
    /// The next number.
    pub fn next(&mut self) -> (r: u64)
        ensures
            r == xorshift(old(self).0),
            final(self).0 == r,
    {
        let a: u64 = self.0 ^ (self.0 << 13);
        let b: u64 = a ^ (a >> 7);
        self.0 = b ^ (b << 17);
        self.0
    }

    /// A number below `n`, or zero if there is none.
    pub fn below(&mut self, n: usize) -> (r: usize)
        ensures
            n == 0 ==> r == 0 && *final(self) == *old(self),
            n > 0 ==> r == xorshift(old(self).0) as int % n as int && r < n && final(self).0 == xorshift(old(self).0),
    {
        if n == 0 {
            0
        } else {
            (self.next() % n as u64) as usize
        }
    }
}

/// A generator that does not stand at zero never gets there.
pub proof fn law_generator_never_stops(x: u64)
    requires
        x != 0,
    ensures
        xorshift(x) != 0,
{
    assert({
        let a = x ^ (x << 13);
        let b = a ^ (a >> 7);
        b ^ (b << 17) != 0
    }) by (bit_vector)
        requires x != 0;
}

/// Multiplying by a number with an inverse loses nothing.
proof fn lemma_mul_injective(x: u64, y: u64, k: u64, inverse: u64)
    requires
        (k as int * inverse as int) % 0x1_0000_0000_0000_0000 == 1,
        x.wrapping_mul(k) == y.wrapping_mul(k),
    ensures
        x == y,
{
    lemma_unmultiply(x, k, inverse);
    lemma_unmultiply(y, k, inverse);
}

proof fn lemma_unmultiply(x: u64, k: u64, inverse: u64)
    requires
        (k as int * inverse as int) % 0x1_0000_0000_0000_0000 == 1,
    ensures
        (x.wrapping_mul(k) as int * inverse as int) % 0x1_0000_0000_0000_0000 == x,
{
    let m: int = 0x1_0000_0000_0000_0000;
    let (a, b, c) = (x as int, k as int, inverse as int);
    assert(x.wrapping_mul(k) as int == (a * b) % m);
    vstd::arithmetic::div_mod::lemma_mul_mod_noop(a * b, c, m);
    vstd::arithmetic::div_mod::lemma_mul_mod_noop_left(a * b, c, m);
    vstd::arithmetic::mul::lemma_mul_is_associative(a, b, c);
    vstd::arithmetic::div_mod::lemma_mul_mod_noop_right(a, b * c, m);
    assert(a * 1 == a);
    vstd::arithmetic::div_mod::lemma_small_mod(a as nat, m as nat);
}

/// SplitMix64 maps different counters to different seeds.
pub proof fn law_splitmix_is_injective(x: u64, y: u64)
    requires
        split_mix(x) == split_mix(y),
    ensures
        x == y,
{
    let (ax, ay) = (x.wrapping_add(0x9E37_79B9_7F4A_7C15), y.wrapping_add(0x9E37_79B9_7F4A_7C15));
    let (px, py) = (ax ^ (ax >> 30), ay ^ (ay >> 30));
    let (bx, by) = (px.wrapping_mul(0xBF58_476D_1CE4_E5B9), py.wrapping_mul(0xBF58_476D_1CE4_E5B9));
    let (qx, qy) = (bx ^ (bx >> 27), by ^ (by >> 27));
    let (cx, cy) = (qx.wrapping_mul(0x94D0_49BB_1331_11EB), qy.wrapping_mul(0x94D0_49BB_1331_11EB));
    assert(cx == cy) by (bit_vector)
        requires cx ^ (cx >> 31) == cy ^ (cy >> 31);
    lemma_mul_injective(qx, qy, 0x94D0_49BB_1331_11EB, 0x3196_42B2_D24D_8EC3);
    assert(bx == by) by (bit_vector)
        requires bx ^ (bx >> 27) == by ^ (by >> 27);
    lemma_mul_injective(px, py, 0xBF58_476D_1CE4_E5B9, 0x96DE_1B17_3F11_9089);
    assert(ax == ay) by (bit_vector)
        requires ax ^ (ax >> 30) == ay ^ (ay >> 30);
}

/// One worker never plays the same game twice: its games have different seeds,
/// but for the two that the replacement of zero may bring together.
pub proof fn law_games_of_a_worker_differ(base: u64, worker: u64, g: u64, h: u64)
    requires
        g != h,
        !(raw_seed(base, worker, g) == 0 && raw_seed(base, worker, h) == 0xDEAD_BEEF),
        !(raw_seed(base, worker, h) == 0 && raw_seed(base, worker, g) == 0xDEAD_BEEF),
    ensures
        seed_of(base, worker, g) != seed_of(base, worker, h),
{
    let (w, a, b) = (worker_mix(base, worker), split_mix(g), split_mix(h));
    if a == b {
        law_splitmix_is_injective(g, h);
    }
    assert(w ^ a != w ^ b) by (bit_vector)
        requires a != b;
}

/// Two workers of a run never play the same game at the same index, but for the
/// two seeds that the replacement of zero may bring together.
pub proof fn law_workers_differ(base: u64, v: u64, w: u64, game: u64)
    requires
        v != w,
        !(raw_seed(base, v, game) == 0 && raw_seed(base, w, game) == 0xDEAD_BEEF),
        !(raw_seed(base, w, game) == 0 && raw_seed(base, v, game) == 0xDEAD_BEEF),
    ensures
        seed_of(base, v, game) != seed_of(base, w, game),
{
    let (sv, sw) = (split_mix(v), split_mix(w));
    let (mv, mw) = (sv.wrapping_mul(0x1000_0000_0000_01B3), sw.wrapping_mul(0x1000_0000_0000_01B3));
    let (xv, xw) = (base ^ mv, base ^ mw);
    let (a, b, g) = (split_mix(xv), split_mix(xw), split_mix(game));
    if a == b {
        law_splitmix_is_injective(xv, xw);
        assert(mv == mw) by (bit_vector)
            requires base ^ mv == base ^ mw;
        lemma_mul_injective(sv, sw, 0x1000_0000_0000_01B3, 0xEAFF_6957_AFF6_957B);
        law_splitmix_is_injective(v, w);
    }
    assert(a ^ g != b ^ g) by (bit_vector)
        requires a != b;
}

/// The counter that SplitMix64 turned into a number.
pub open spec fn unmixed(r: u64) -> u64 {
    let c = r ^ (r >> 31) ^ (r >> 62);
    let q = c.wrapping_mul(0x3196_42B2_D24D_8EC3);
    let b = q ^ (q >> 27) ^ (q >> 54);
    let p = b.wrapping_mul(0x96DE_1B17_3F11_9089);
    (p ^ (p >> 30) ^ (p >> 60)).wrapping_sub(0x9E37_79B9_7F4A_7C15)
}

/// SplitMix64 can be undone: its number tells the counter.
pub proof fn law_splitmix_can_be_undone(x: u64)
    ensures
        unmixed(split_mix(x)) == x,
{
    let a = x.wrapping_add(0x9E37_79B9_7F4A_7C15);
    let p = a ^ (a >> 30);
    let b = p.wrapping_mul(0xBF58_476D_1CE4_E5B9);
    let q = b ^ (b >> 27);
    let c = q.wrapping_mul(0x94D0_49BB_1331_11EB);
    let r = c ^ (c >> 31);
    assert(r ^ (r >> 31) ^ (r >> 62) == c) by (bit_vector)
        requires r == c ^ (c >> 31);
    lemma_unmultiply(q, 0x94D0_49BB_1331_11EB, 0x3196_42B2_D24D_8EC3);
    assert(c.wrapping_mul(0x3196_42B2_D24D_8EC3) == q);
    assert(q ^ (q >> 27) ^ (q >> 54) == b) by (bit_vector)
        requires q == b ^ (b >> 27);
    lemma_unmultiply(p, 0xBF58_476D_1CE4_E5B9, 0x96DE_1B17_3F11_9089);
    assert(b.wrapping_mul(0x96DE_1B17_3F11_9089) == p);
    assert(p ^ (p >> 30) ^ (p >> 60) == a) by (bit_vector)
        requires p == a ^ (a >> 30);
}

/// The next number of the generator is linear in the bits of the last: the sum,
/// without carries, of the last number shifted by each of the ways through the three
/// steps.
pub proof fn law_the_generator_is_linear(x: u64, y: u64)
    ensures
        xorshift(x) == x ^ (x << 13) ^ (x >> 7) ^ ((x << 13) >> 7) ^ (x << 17) ^ (x << 30) ^ ((x >> 7) << 17) ^ (((x
            << 13) >> 7) << 17),
        xorshift(x ^ y) == xorshift(x) ^ xorshift(y),
{
    assert({
        let a = x ^ (x << 13);
        let b = a ^ (a >> 7);
        b ^ (b << 17) == x ^ (x << 13) ^ (x >> 7) ^ ((x << 13) >> 7) ^ (x << 17) ^ (x << 30) ^ ((x >> 7) << 17) ^ (((
        x << 13) >> 7) << 17)
    }) by (bit_vector);
    assert({
        let a = x ^ (x << 13);
        let b = a ^ (a >> 7);
        let c = y ^ (y << 13);
        let d = c ^ (c >> 7);
        let e = (x ^ y) ^ ((x ^ y) << 13);
        let f = e ^ (e >> 7);
        f ^ (f << 17) == (b ^ (b << 17)) ^ (d ^ (d << 17))
    }) by (bit_vector);
}

/// Runs with different seeds do not play the same games, but for the two seeds that
/// the replacement of zero may bring together.
pub proof fn law_runs_differ(a: u64, b: u64, worker: u64, game: u64)
    requires
        a != b,
        !(raw_seed(a, worker, game) == 0 && raw_seed(b, worker, game) == 0xDEAD_BEEF),
        !(raw_seed(b, worker, game) == 0 && raw_seed(a, worker, game) == 0xDEAD_BEEF),
    ensures
        seed_of(a, worker, game) != seed_of(b, worker, game),
{
    let m = split_mix(worker).wrapping_mul(0x1000_0000_0000_01B3);
    let (xa, xb) = (a ^ m, b ^ m);
    assert(xa != xb) by (bit_vector)
        requires a != b, xa == a ^ m, xb == b ^ m;
    let (ra, rb, g) = (split_mix(xa), split_mix(xb), split_mix(game));
    if ra == rb {
        law_splitmix_is_injective(xa, xb);
    }
    assert(ra ^ g != rb ^ g) by (bit_vector)
        requires ra != rb;
}

} // verus!
