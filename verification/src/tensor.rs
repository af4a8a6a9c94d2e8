//! Tensors, the order of single-precision values held as bit patterns,
//! arg-max, and the pseudo-random generator with the shuffle built on it.
use vstd::arithmetic::div_mod::lemma_fundamental_div_mod_converse;
use vstd::prelude::*;

verus! {

// ---------------------------------------------------------------------------
// Single-precision values held as bit patterns
// ---------------------------------------------------------------------------

/// Bit pattern of the single-precision value `0.0`.
pub const ZERO_BITS: u32 = 0u32;

/// Bit pattern of `f32::MIN`, the most negative finite value.
pub const MIN_BITS: u32 = 0xff7f_ffffu32;

/// The magnitude part (exponent and mantissa) of a bit pattern.
pub open spec fn magnitude(b: u32) -> int {
    (b % 0x8000_0000) as int
}

/// Whether a bit pattern encodes a NaN.
pub open spec fn is_nan(b: u32) -> bool {
    magnitude(b) > 0x7f80_0000
}

/// Position of a non-NaN value on the number line: IEEE-754 values are ordered
/// as their sign-magnitude bit patterns, with both zeros at 0.
pub open spec fn order_key(b: u32) -> int {
    if b >= 0x8000_0000 {
        -magnitude(b)
    } else {
        magnitude(b)
    }
}

/// `a > b` on the single-precision values that `a` and `b` encode
/// (false as soon as one of them is a NaN).
pub open spec fn float_gt(a: u32, b: u32) -> bool {
    !is_nan(a) && !is_nan(b) && order_key(a) > order_key(b)
}

/// `a < 0.0` on the value that `a` encodes.
pub open spec fn is_negative(a: u32) -> bool {
    !is_nan(a) && order_key(a) < 0
}

/// `a <= 0.0` on the value that `a` encodes.
pub open spec fn is_non_positive(a: u32) -> bool {
    !is_nan(a) && order_key(a) <= 0
}

fn key_of(b: u32) -> (r: Option<i64>)
    ensures
        r is None <==> is_nan(b),
        r matches Some(k) ==> k == order_key(b),
{
    let m: u32 = b % 0x8000_0000;
    if m > 0x7f80_0000 {
        None
    } else if b >= 0x8000_0000 {
        Some(-(m as i64))
    } else {
        Some(m as i64)
    }
}

/// Whether the bit pattern encodes a NaN.
pub fn is_nan_bits(b: u32) -> (r: bool)
    ensures
        r == is_nan(b),
{
    b % 0x8000_0000 > 0x7f80_0000
}

/// The comparison `a > b` of the two single-precision values given by their bits.
pub fn gt_bits(a: u32, b: u32) -> (r: bool)
    ensures
        r == float_gt(a, b),
{
    match (key_of(a), key_of(b)) {
        (Some(ka), Some(kb)) => ka > kb,
        _ => false,
    }
}

// ---------------------------------------------------------------------------
// Row-major tensor layout
// ---------------------------------------------------------------------------

/// Position of cell `(c, y, x)` in a row-major layout of `h × w` planes.
pub open spec fn flat_index(h: int, w: int, c: int, y: int, x: int) -> int {
    (c * h + y) * w + x
}

/// Every cell of a `n_c × h × w` tensor has its slot inside
/// `0 .. n_c * h * w`.
pub proof fn lemma_flat_index_in_range(n_c: int, h: int, w: int, c: int, y: int, x: int)
    requires
        0 <= c < n_c,
        0 <= y < h,
        0 <= x < w,
    ensures
        0 <= c * h + y < n_c * h,
        0 <= flat_index(h, w, c, y, x) < n_c * h * w,
        0 <= flat_index(h, w, c, y, x) < (c * h + y + 1) * w,
{
    assert(0 <= c * h + y < n_c * h) by (nonlinear_arith)
        requires
            0 <= c < n_c,
            0 <= y < h,
    ;
    let r: int = c * h + y;
    assert(0 <= r * w + x < n_c * h * w && r * w + x < (r + 1) * w) by (nonlinear_arith)
        requires
            0 <= r < n_c * h,
            0 <= x < w,
    ;
}

/// The layout is a bijection: a slot determines its cell.
pub proof fn lemma_flat_index_injective(
    h: int,
    w: int,
    c1: int,
    y1: int,
    x1: int,
    c2: int,
    y2: int,
    x2: int,
)
    requires
        0 <= c1,
        0 <= c2,
        0 <= y1 < h,
        0 <= y2 < h,
        0 <= x1 < w,
        0 <= x2 < w,
        flat_index(h, w, c1, y1, x1) == flat_index(h, w, c2, y2, x2),
    ensures
        c1 == c2,
        y1 == y2,
        x1 == x2,
{
    let f: int = flat_index(h, w, c1, y1, x1);
    lemma_fundamental_div_mod_converse(f, w, c1 * h + y1, x1);
    lemma_fundamental_div_mod_converse(f, w, c2 * h + y2, x2);
    let r: int = c1 * h + y1;
    lemma_fundamental_div_mod_converse(r, h, c1, y1);
    lemma_fundamental_div_mod_converse(r, h, c2, y2);
}

/// Every slot of a `n_c × h × w` layout belongs to a cell.
pub proof fn lemma_flat_index_onto(n_c: int, h: int, w: int, k: int)
    requires
        0 <= k < n_c * h * w,
        h > 0,
        w > 0,
    ensures
        0 <= (k / w) / h < n_c,
        0 <= (k / w) % h < h,
        0 <= k % w < w,
        flat_index(h, w, (k / w) / h, (k / w) % h, k % w) == k,
{
    let q: int = k / w;
    vstd::arithmetic::div_mod::lemma_fundamental_div_mod(k, w);
    vstd::arithmetic::div_mod::lemma_fundamental_div_mod(q, h);
    assert(0 <= q) by {
        vstd::arithmetic::div_mod::lemma_div_pos_is_pos(k, w);
    }
    assert(0 <= q / h) by {
        vstd::arithmetic::div_mod::lemma_div_pos_is_pos(q, h);
    }
    assert(q * w + k % w == k) by (nonlinear_arith)
        requires
            k == w * q + k % w,
    ;
    assert(q < n_c * h) by (nonlinear_arith)
        requires
            k == q * w + k % w,
            0 <= k % w,
            k < n_c * h * w,
            w > 0,
    ;
    assert(q / h < n_c) by (nonlinear_arith)
        requires
            q == h * (q / h) + q % h,
            0 <= q % h,
            q < n_c * h,
            h > 0,
    ;
    assert(flat_index(h, w, q / h, q % h, k % w) == k) by (nonlinear_arith)
        requires
            q == h * (q / h) + q % h,
            k == q * w + k % w,
    ;
}

/// The cell `(c, y, x)` of a `n_c × h × w` tensor that slot `k` belongs to.
pub(crate) fn unflatten(n_c: usize, h: usize, w: usize, k: usize) -> (r: (usize, usize, usize))
    requires
        k < n_c * h * w,
    ensures
        r.0 < n_c,
        r.1 < h,
        r.2 < w,
        flat_index(h as int, w as int, r.0 as int, r.1 as int, r.2 as int) == k,
        r == ((k / w) / h, (k / w) % h, k % w),
{
    proof {
        if h == 0 || w == 0 {
            assert(n_c * h * w == 0) by (nonlinear_arith)
                requires
                    h == 0 || w == 0,
            ;
        }
        lemma_flat_index_onto(n_c as int, h as int, w as int, k as int);
    }
    let q: usize = k / w;
    (q / h, q % h, k % w)
}

/// A 3-D tensor (channels × height × width) of single-precision values,
/// stored row-major, each value held as its IEEE-754 bit pattern.
#[derive(Clone, Debug)]
pub struct Vol {
    pub c: usize,
    pub h: usize,
    pub w: usize,
    pub data: Vec<u32>,
}

impl Vol {
    /// The data holds exactly one value per cell (and, as any `Vec`, fits a `usize` length).
    pub open spec fn wf(&self) -> bool {
        &&& self.data@.len() == self.c * self.h * self.w
        &&& self.data@.len() <= usize::MAX
    }

    /// Cell `(c, y, x)` lies inside the tensor's shape.
    pub open spec fn in_bounds(&self, c: int, y: int, x: int) -> bool {
        0 <= c < self.c && 0 <= y < self.h && 0 <= x < self.w
    }

    /// The slot of cell `(c, y, x)`.
    pub open spec fn slot(&self, c: int, y: int, x: int) -> int {
        flat_index(self.h as int, self.w as int, c, y, x)
    }

    /// The value held at cell `(c, y, x)`.
    pub open spec fn at(&self, c: int, y: int, x: int) -> u32 {
        self.data@[self.slot(c, y, x)]
    }

    /// The slot of `(c, y, x)` is computed without overflow.
    pub open spec fn slot_fits(&self, c: int, y: int, x: int) -> bool {
        &&& c * self.h <= usize::MAX
        &&& c * self.h + y <= usize::MAX
        &&& (c * self.h + y) * self.w <= usize::MAX
        &&& self.slot(c, y, x) <= usize::MAX
    }

    /// Every in-bounds cell of a well-formed tensor has a slot inside its data.
    pub proof fn lemma_in_bounds_slot(&self, c: int, y: int, x: int)
        requires
            self.wf(),
            self.in_bounds(c, y, x),
        ensures
            self.slot_fits(c, y, x),
            0 <= self.slot(c, y, x) < self.data@.len(),
    {
        lemma_flat_index_in_range(self.c as int, self.h as int, self.w as int, c, y, x);
        let r: int = c * self.h + y;
        assert(c * self.h <= r);
        assert(r <= r * self.w) by (nonlinear_arith)
            requires
                r >= 0,
                self.w >= 1,
        ;
    }

    /// A tensor of the given shape, every value `0.0`.
    pub fn zeros(c: usize, h: usize, w: usize) -> (v: Vol)
        requires
            c * h <= usize::MAX,
            c * h * w <= usize::MAX,
        ensures
            v.c == c,
            v.h == h,
            v.w == w,
            v.wf(),
            forall|i: int| 0 <= i < v.data@.len() ==> v.data@[i] == ZERO_BITS,
    {
        let n: usize = c * h * w;
        Vol { c, h, w, data: vec![ZERO_BITS; n] }
    }

    /// The slot of cell `(c, y, x)`.
    pub fn idx(&self, c: usize, y: usize, x: usize) -> (i: usize)
        requires
            self.slot_fits(c as int, y as int, x as int),
        ensures
            i == self.slot(c as int, y as int, x as int),
    {
        (c * self.h + y) * self.w + x
    }

    /// The value at cell `(c, y, x)`.
    pub fn get(&self, c: usize, y: usize, x: usize) -> (v: u32)
        requires
            self.slot_fits(c as int, y as int, x as int),
            self.slot(c as int, y as int, x as int) < self.data@.len(),
        ensures
            v == self.at(c as int, y as int, x as int),
    {
        self.data[self.idx(c, y, x)]
    }

    /// Number of values held.
    pub fn len(&self) -> (n: usize)
        ensures
            n == self.data@.len(),
    {
        self.data.len()
    }

    /// Whether no value is held.
    pub fn is_empty(&self) -> (b: bool)
        ensures
            b <==> self.data@.len() == 0,
    {
        self.data.len() == 0
    }
}

// ---------------------------------------------------------------------------
// Arg-max
// ---------------------------------------------------------------------------

/// `r` is the position that `argmax` reports for `v`: 0 when `v` is empty or
/// starts with a NaN (nothing compares greater than it); otherwise the first
/// position of the largest non-NaN value.
pub open spec fn is_argmax(v: Seq<u32>, r: int) -> bool {
    if v.len() == 0 || is_nan(v[0]) {
        r == 0
    } else {
        &&& 0 <= r < v.len()
        &&& !is_nan(v[r])
        &&& forall|i: int|
            0 <= i < v.len() && !is_nan(#[trigger] v[i]) ==> order_key(v[i]) <= order_key(v[r])
        &&& forall|i: int| 0 <= i < r && !is_nan(#[trigger] v[i]) ==> order_key(v[i]) < order_key(v[r])
    }
}

/// Position of the largest value, the first one on ties.
pub fn argmax(v: &[u32]) -> (r: usize)
    ensures
        is_argmax(v@, r as int),
        v@.len() == 0 ==> r == 0,
        v@.len() > 0 ==> r < v@.len(),
        v@.len() > 0 && !is_nan(v@[0]) ==> {
            &&& !is_nan(v@[r as int])
            &&& forall|i: int| 0 <= i < v@.len() ==> !float_gt(#[trigger] v@[i], v@[r as int])
            &&& forall|i: int|
                0 <= i < r ==> is_nan(#[trigger] v@[i]) || float_gt(v@[r as int], v@[i])
        },
        v@.len() > 0 && is_nan(v@[0]) ==> r == 0,
{
    let mut bi: usize = 0;
    let mut i: usize = 1;
    while i < v.len()
        invariant
            v@.len() > 0 ==> 1 <= i <= v@.len(),
            v@.len() > 0 ==> bi < i,
            v@.len() == 0 ==> bi == 0,
            v@.len() > 0 && is_nan(v@[0]) ==> bi == 0,
            v@.len() > 0 && !is_nan(v@[0]) ==> {
                &&& !is_nan(v@[bi as int])
                &&& forall|k: int|
                    0 <= k < i && !is_nan(#[trigger] v@[k]) ==> order_key(v@[k]) <= order_key(
                        v@[bi as int],
                    )
                &&& forall|k: int|
                    0 <= k < bi && !is_nan(#[trigger] v@[k]) ==> order_key(v@[k]) < order_key(
                        v@[bi as int],
                    )
            },
        decreases v@.len() - i,
    {
        if gt_bits(v[i], v[bi]) {
            bi = i;
        }
        i = i + 1;
    }
    bi
}

// ---------------------------------------------------------------------------
// Pseudo-random numbers
// ---------------------------------------------------------------------------

/// One xorshift step of the generator's state.
pub open spec fn xorshift(s: u64) -> u64 {
    let a: u64 = s ^ (s >> 12u64);
    let b: u64 = a ^ (a << 25u64);
    b ^ (b >> 27u64)
}

/// The output drawn from a state: the state times a fixed odd constant, modulo 2^64.
pub open spec fn scramble(s: u64) -> u64 {
    vstd::wrapping::u64_specs::wrapping_mul(s, 0x2545_F491_4F6C_DD1Du64)
}

/// The state a seed starts from.
pub open spec fn seed_state(seed: u64) -> u64 {
    (seed ^ 0x9E37_79B9_7F4A_7C15u64) | 1u64
}

/// One step of the generator: the state is xorshifted by 12 right, 25 left
/// and 27 right, and the value drawn is the new state times
/// `0x2545F4914F6CDD1D` modulo 2^64; a seed starts from itself xored with
/// `0x9E3779B97F4A7C15`, with the lowest bit set.
pub proof fn lemma_generator_step(s: u64, seed: u64)
    ensures
        ({
            let a: u64 = s ^ (s >> 12u64);
            let b: u64 = a ^ (a << 25u64);
            xorshift(s) == b ^ (b >> 27u64)
        }),
        scramble(s) == (s as nat * 0x2545_F491_4F6C_DD1Dnat) % 0x1_0000_0000_0000_0000nat,
        seed_state(seed) == (seed ^ 0x9E37_79B9_7F4A_7C15u64) | 1u64,
{
}

proof fn lemma_xorshift_nonzero(s: u64)
    requires
        s != 0,
    ensures
        xorshift(s) != 0,
{
    let a: u64 = s ^ (s >> 12u64);
    let b: u64 = a ^ (a << 25u64);
    assert(s != 0 ==> s ^ (s >> 12u64) != 0) by (bit_vector);
    assert(a != 0 ==> a ^ (a << 25u64) != 0) by (bit_vector);
    assert(b != 0 ==> b ^ (b >> 27u64) != 0) by (bit_vector);
}

/// The state reached from `s` after `k` xorshift steps.
pub open spec fn state_after(s: u64, k: nat) -> u64
    decreases k,
{
    if k == 0 {
        s
    } else {
        xorshift(state_after(s, (k - 1) as nat))
    }
}

/// The first `k` values that a generator made from `seed` draws
/// (`next_u64` gives them as they are; `below(n)` gives each modulo `n`).
pub open spec fn draws(seed: u64, k: nat) -> Seq<u64> {
    Seq::new(k, |i: int| scramble(state_after(seed_state(seed), (i + 1) as nat)))
}

/// The draws depend on the seed alone: along any run of calls on a generator
/// made from `seed`, where each call takes one xorshift step and draws the
/// scrambled new state (as `next_u64` and `below` do), the states passed
/// through are `state_after(seed_state(seed), i)` and the values drawn are
/// `draws(seed, k)`, whatever the run.
pub proof fn lemma_draws_depend_only_on_seed(seed: u64, states: Seq<u64>, outs: Seq<u64>)
    requires
        states.len() == outs.len() + 1,
        states[0] == seed_state(seed),
        forall|i: int|
            0 <= i < outs.len() ==> states[i + 1] == xorshift(#[trigger] states[i]) && outs[i]
                == scramble(states[i + 1]),
    ensures
        forall|i: int|
            0 <= i < states.len() ==> #[trigger] states[i] == state_after(seed_state(seed), i as nat),
        outs == draws(seed, outs.len()),
    decreases outs.len(),
{
    if outs.len() > 0 {
        let n: int = outs.len() - 1;
        lemma_draws_depend_only_on_seed(seed, states.take(n + 1), outs.take(n));
        assert(states.take(n + 1)[n] == states[n]);
        assert forall|i: int|
            0 <= i < states.len() implies #[trigger] states[i] == state_after(seed_state(seed), i as nat) by {
            if i <= n {
                assert(states.take(n + 1)[i] == states[i]);
            }
        }
        assert forall|i: int| 0 <= i < outs.len() implies outs[i] == draws(seed, outs.len())[i] by {
            if i < n {
                assert(outs.take(n)[i] == outs[i]);
                assert(draws(seed, n as nat)[i] == draws(seed, outs.len())[i]);
            }
        }
        assert(outs =~= draws(seed, outs.len()));
    } else {
        assert(outs =~= draws(seed, 0));
    }
}

/// Two generators made from the same seed draw the same values, call after call.
pub proof fn lemma_same_seed_same_draws(
    seed: u64,
    states_a: Seq<u64>,
    outs_a: Seq<u64>,
    states_b: Seq<u64>,
    outs_b: Seq<u64>,
)
    requires
        states_a.len() == outs_a.len() + 1,
        states_a[0] == seed_state(seed),
        forall|i: int|
            0 <= i < outs_a.len() ==> states_a[i + 1] == xorshift(#[trigger] states_a[i])
                && outs_a[i] == scramble(states_a[i + 1]),
        states_b.len() == outs_b.len() + 1,
        states_b[0] == seed_state(seed),
        forall|i: int|
            0 <= i < outs_b.len() ==> states_b[i + 1] == xorshift(#[trigger] states_b[i])
                && outs_b[i] == scramble(states_b[i + 1]),
        outs_a.len() == outs_b.len(),
    ensures
        outs_a == outs_b,
        states_a == states_b,
{
    lemma_draws_depend_only_on_seed(seed, states_a, outs_a);
    lemma_draws_depend_only_on_seed(seed, states_b, outs_b);
    assert(states_a =~= states_b);
}

/// A xorshift64* generator; its state is never zero.
pub struct Rng {
    s: u64,
}

impl Rng {
    /// The generator's current state.
    pub closed spec fn state(&self) -> u64 {
        self.s
    }

    #[verifier::type_invariant]
    spec fn state_nonzero(&self) -> bool {
        self.s != 0
    }

    /// A generator started from `seed`.
    pub fn new(seed: u64) -> (r: Self)
        ensures
            r.state() == seed_state(seed),
            r.state() == (seed ^ 0x9E37_79B9_7F4A_7C15u64) | 1u64,
            r.state() != 0,
    {
        let s: u64 = (seed ^ 0x9E37_79B9_7F4A_7C15u64) | 1u64;
        assert(s != 0) by (bit_vector)
            requires
                s == (seed ^ 0x9E37_79B9_7F4A_7C15u64) | 1u64,
        ;
        Self { s }
    }

    /// Advances the state by one xorshift step and returns the scrambled new state.
    pub fn next_u64(&mut self) -> (r: u64)
        ensures
            final(self).state() == xorshift(old(self).state()),
            final(self).state() != 0,
            r == scramble(final(self).state()),
            ({
                let s0: u64 = old(self).state();
                let a: u64 = s0 ^ (s0 >> 12u64);
                let b: u64 = a ^ (a << 25u64);
                final(self).state() == b ^ (b >> 27u64)
            }),
            r == (final(self).state() as nat * 0x2545_F491_4F6C_DD1Dnat) % 0x1_0000_0000_0000_0000nat,
    {
        proof {
            use_type_invariant(&*self);
            lemma_xorshift_nonzero(self.s);
        }
        let mut x: u64 = self.s;
        x = x ^ (x >> 12u64);
        x = x ^ (x << 25u64);
        x = x ^ (x >> 27u64);
        self.s = x;
        x.wrapping_mul(0x2545_F491_4F6C_DD1Du64)
    }

    /// A draw below `n`: the next output modulo `n`.
    pub fn below(&mut self, n: usize) -> (r: usize)
        requires
            n > 0,
        ensures
            final(self).state() == xorshift(old(self).state()),
            r == scramble(final(self).state()) % (n as u64),
            r < n,
    {
        (self.next_u64() % (n as u64)) as usize
    }
}

// ---------------------------------------------------------------------------
// Shuffling
// ---------------------------------------------------------------------------

/// `std`'s `<[T]>::swap`: trusted to exchange the elements at positions `a`
/// and `b` (both in bounds; out-of-bounds positions panic) and change nothing else.
pub assume_specification<Elt>[ <[Elt]>::swap ](slice: &mut [Elt], a: usize, b: usize)
    requires
        a < old(slice)@.len(),
        b < old(slice)@.len(),
    ensures
        final(slice)@ == old(slice)@.update(a as int, old(slice)@[b as int]).update(
            b as int,
            old(slice)@[a as int],
        ),
;

/// `s` with the elements at positions `i` and `j` exchanged.
pub open spec fn swapped<T>(s: Seq<T>, i: int, j: int) -> Seq<T> {
    s.update(i, s[j]).update(j, s[i])
}

/// The Fisher–Yates steps for positions `i, i - 1, …, 1` of `s`, drawing from
/// a generator in `state`: each step swaps position `k` with a draw below
/// `k + 1`. Gives the resulting sequence and the generator's final state.
pub open spec fn shuffled<T>(s: Seq<T>, state: u64, i: nat) -> (Seq<T>, u64)
    decreases i,
{
    if i == 0 {
        (s, state)
    } else {
        let next: u64 = xorshift(state);
        let j: int = (scramble(next) % ((i + 1) as u64)) as int;
        shuffled(swapped(s, i as int, j), next, (i - 1) as nat)
    }
}

/// Exchanging two elements keeps the multiset of elements.
pub proof fn lemma_swapped_same_elements<T>(s: Seq<T>, i: int, j: int)
    requires
        0 <= i < s.len(),
        0 <= j < s.len(),
    ensures
        swapped(s, i, j).to_multiset() =~= s.to_multiset(),
{
    broadcast use vstd::seq_lib::group_to_multiset_ensures;
    broadcast use vstd::multiset::group_multiset_axioms;

    let s1 = s.update(i, s[j]);
    if i == j {
        assert(s1 =~= s);
        assert(swapped(s, i, j) =~= s);
    } else {
        let m = s.to_multiset();
        assert(s.contains(s[i]));
        assert(m.count(s[i]) > 0);
        assert(s1[j] == s[j]);
        let m1 = m.insert(s[j]).remove(s[i]);
        assert(s1.to_multiset() == m1);
        let m2 = m1.insert(s[i]).remove(s[j]);
        assert(swapped(s, i, j).to_multiset() == m2);
        assert forall|v: T| #[trigger] m2.count(v) == m.count(v) by {
            if v == s[i] && v == s[j] {
            } else if v == s[i] {
            } else if v == s[j] {
            }
        }
        assert(m2 =~= m);
    }
}

/// Shuffling rearranges the elements: it keeps their multiset.
pub proof fn lemma_shuffled_same_elements<T>(s: Seq<T>, state: u64, i: nat)
    requires
        i < s.len(),
        s.len() <= usize::MAX,
    ensures
        shuffled(s, state, i).0.to_multiset() =~= s.to_multiset(),
        shuffled(s, state, i).0.len() == s.len(),
    decreases i,
{
    if i > 0 {
        let next: u64 = xorshift(state);
        let j: int = (scramble(next) % ((i + 1) as u64)) as int;
        lemma_swapped_same_elements(s, i as int, j);
        lemma_shuffled_same_elements(swapped(s, i as int, j), next, (i - 1) as nat);
    }
}

/// Every Fisher–Yates step, the last one (position 1) included, exchanges
/// position `i` with the position drawn below `i + 1`, then goes on from the
/// new state; no step is left out.
pub proof fn lemma_shuffled_takes_every_step<T>(s: Seq<T>, state: u64, i: nat)
    requires
        1 <= i < s.len(),
    ensures
        shuffled(s, state, i) == ({
            let next: u64 = xorshift(state);
            let j: int = (scramble(next) % ((i + 1) as u64)) as int;
            shuffled(s.update(i as int, s[j]).update(j, s[i as int]), next, (i - 1) as nat)
        }),
        shuffled(s, state, 0) == (s, state),
{
}

/// Steps below position `k` never touch positions `k` and above.
pub proof fn lemma_shuffled_keeps_upper_positions<T>(s: Seq<T>, state: u64, i: nat, k: int)
    requires
        i < k < s.len(),
        s.len() <= usize::MAX,
    ensures
        shuffled(s, state, i).0[k] == s[k],
        shuffled(s, state, i).0.len() == s.len(),
    decreases i,
{
    if i > 0 {
        let next: u64 = xorshift(state);
        let j: int = (scramble(next) % ((i + 1) as u64)) as int;
        lemma_shuffled_keeps_upper_positions(swapped(s, i as int, j), next, (i - 1) as nat, k);
    }
}

/// Shuffles `v` in place (Fisher–Yates, from the last position down to the
/// second), drawing from `rng`; the elements stay the same.
pub fn shuffle<T>(v: &mut Vec<T>, rng: &mut Rng)
    ensures
        final(v)@.to_multiset() =~= old(v)@.to_multiset(),
        (final(v)@, final(rng).state()) == shuffled(
            old(v)@,
            old(rng).state(),
            (if old(v)@.len() == 0 {
                0
            } else {
                old(v)@.len() - 1
            }) as nat,
        ),
        old(v)@.len() >= 2 ==> final(v)@[old(v)@.len() - 1] == old(v)@[(scramble(
            xorshift(old(rng).state()),
        ) % (old(v)@.len() as u64)) as int],
{
    let ghost target = shuffled(
        v@,
        rng.state(),
        (if v@.len() == 0 {
            0
        } else {
            v@.len() - 1
        }) as nat,
    );
    if v.len() == 0 {
        return ;
    }
    let n: usize = v.len();
    proof {
        lemma_shuffled_same_elements(v@, rng.state(), (n - 1) as nat);
        if n >= 2 {
            let next: u64 = xorshift(rng.state());
            let j: int = (scramble(next) % (n as u64)) as int;
            assert(((n - 1) + 1) as u64 == n as u64);
            lemma_shuffled_keeps_upper_positions(
                swapped(v@, (n - 1) as int, j),
                next,
                (n - 2) as nat,
                (n - 1) as int,
            );
        }
    }
    let mut i: usize = n - 1;
    while i > 0
        invariant
            n == v@.len(),
            i < v@.len(),
            shuffled(v@, rng.state(), i as nat) == target,
        decreases i,
    {
        let j: usize = rng.below(i + 1);
        v.as_mut_slice().swap(i, j);
        i = i - 1;
    }
}

} // verus!
