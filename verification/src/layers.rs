//! Network layers whose decisions are exact: 2 × 2 max pooling, the
//! geometry of zero-padded convolutions, and ReLU.
use crate::tensor::{
    flat_index, float_gt, gt_bits, is_nan, is_negative, is_non_positive, lemma_flat_index_in_range,
    lemma_flat_index_injective, order_key, unflatten, Vol, MIN_BITS, ZERO_BITS,
};
use vstd::prelude::*;

verus! {

// ---------------------------------------------------------------------------
// 2 × 2 max pooling
// ---------------------------------------------------------------------------

/// The four inputs pooled into output cell `(c, oy, ox)`: entry `j` is the
/// input at `(c, 2·oy + j / 2, 2·ox + j % 2)`.
pub open spec fn window(x: Vol, c: int, oy: int, ox: int) -> Seq<u32> {
    seq![
        x.at(c, 2 * oy, 2 * ox),
        x.at(c, 2 * oy, 2 * ox + 1),
        x.at(c, 2 * oy + 1, 2 * ox),
        x.at(c, 2 * oy + 1, 2 * ox + 1),
    ]
}

/// Some entry of the window is greater than `f32::MIN`.
pub open spec fn beats_floor(w: Seq<u32>) -> bool {
    exists|i: int| 0 <= i < w.len() && #[trigger] float_gt(w[i], MIN_BITS)
}

/// `j` is the entry that pooling picks from window `w`: the first entry of
/// largest value among those greater than `f32::MIN`, or entry 0 when none is.
pub open spec fn is_pool_choice(w: Seq<u32>, j: int) -> bool {
    if !beats_floor(w) {
        j == 0
    } else {
        &&& 0 <= j < w.len()
        &&& float_gt(w[j], MIN_BITS)
        &&& forall|i: int|
            0 <= i < w.len() && #[trigger] float_gt(w[i], MIN_BITS) ==> order_key(w[i])
                <= order_key(w[j])
        &&& forall|i: int|
            0 <= i < j && #[trigger] float_gt(w[i], MIN_BITS) ==> order_key(w[i]) < order_key(w[j])
    }
}

/// The pooled value of window `w` when entry `j` is picked: that entry, or
/// `f32::MIN` when no entry is greater than it.
pub open spec fn pool_value(w: Seq<u32>, j: int) -> u32 {
    if beats_floor(w) {
        w[j]
    } else {
        MIN_BITS
    }
}

/// Picks the pooled entry of window `(c, oy, ox)` of `x`.
fn pool_window(x: &Vol, c: usize, oy: usize, ox: usize) -> (r: (usize, u32))
    requires
        x.wf(),
        c < x.c,
        2 * oy + 1 < x.h,
        2 * ox + 1 < x.w,
    ensures
        r.0 < 4,
        is_pool_choice(window(*x, c as int, oy as int, ox as int), r.0 as int),
        r.1 == pool_value(window(*x, c as int, oy as int, ox as int), r.0 as int),
{
    let ghost w = window(*x, c as int, oy as int, ox as int);
    let mut best: u32 = MIN_BITS;
    let mut bi: usize = 0;
    let mut j: usize = 0;
    while j < 4
        invariant
            x.wf(),
            c < x.c,
            2 * oy + 1 < x.h,
            2 * ox + 1 < x.w,
            w == window(*x, c as int, oy as int, ox as int),
            j <= 4,
            bi < 4,
            !(exists|i: int| 0 <= i < j && #[trigger] float_gt(w[i], MIN_BITS)) ==> bi == 0
                && best == MIN_BITS,
            (exists|i: int| 0 <= i < j && #[trigger] float_gt(w[i], MIN_BITS)) ==> {
                &&& bi < j
                &&& best == w[bi as int]
                &&& float_gt(best, MIN_BITS)
                &&& forall|i: int|
                    0 <= i < j && #[trigger] float_gt(w[i], MIN_BITS) ==> order_key(w[i])
                        <= order_key(best)
                &&& forall|i: int|
                    0 <= i < bi && #[trigger] float_gt(w[i], MIN_BITS) ==> order_key(w[i])
                        < order_key(best)
            },
        decreases 4 - j,
    {
        let yy: usize = oy * 2 + j / 2;
        let xx: usize = ox * 2 + j % 2;
        proof {
            x.lemma_in_bounds_slot(c as int, yy as int, xx as int);
            assert(w[j as int] == x.at(c as int, yy as int, xx as int));
        }
        let v: u32 = x.get(c, yy, xx);
        let ghost had = exists|i: int| 0 <= i < j && #[trigger] float_gt(w[i], MIN_BITS);
        if gt_bits(v, best) {
            best = v;
            bi = j;
            assert(float_gt(w[j as int], MIN_BITS));
        } else {
            proof {
                if float_gt(w[j as int], MIN_BITS) {
                    assert(had);
                }
            }
        }
        j = j + 1;
    }
    assert(beats_floor(w) == exists|i: int| 0 <= i < 4 && #[trigger] float_gt(w[i], MIN_BITS));
    (bi, best)
}

/// 2 × 2 max pooling with stride 2; remembers, for every output cell, which
/// entry of its window it took, to route gradients back.
pub struct MaxPool {
    argmax: Vec<usize>,
    in_c: usize,
    in_h: usize,
    in_w: usize,
}

impl MaxPool {
    #[verifier::type_invariant]
    spec fn inv(&self) -> bool {
        &&& self.argmax@.len() == self.in_c * (self.in_h / 2) * (self.in_w / 2)
        &&& self.in_c * self.in_h * self.in_w <= usize::MAX
        &&& forall|i: int| 0 <= i < self.argmax@.len() ==> #[trigger] self.argmax@[i] < 4
    }

    /// Shape `(channels, height, width)` of the last pooled input.
    pub closed spec fn input_shape(&self) -> (int, int, int) {
        (self.in_c as int, self.in_h as int, self.in_w as int)
    }

    /// Window entry taken by each output cell of the last pooling, by slot.
    pub closed spec fn choices(&self) -> Seq<usize> {
        self.argmax@
    }

    /// A pool that has pooled nothing yet.
    pub fn new() -> (p: MaxPool)
        ensures
            p.input_shape() == (0int, 0int, 0int),
            p.choices() == Seq::<usize>::empty(),
    {
        MaxPool { argmax: Vec::new(), in_c: 0, in_h: 0, in_w: 0 }
    }
}

/// What `MaxPool::forward` gives for input `x`: output `out` and pool state `p`.
pub open spec fn pooled(x: Vol, out: Vol, p: MaxPool) -> bool {
    &&& out.c == x.c
    &&& out.h == x.h / 2
    &&& out.w == x.w / 2
    &&& out.wf()
    &&& p.input_shape() == (x.c as int, x.h as int, x.w as int)
    &&& p.choices().len() == out.data@.len()
    &&& forall|c: int, oy: int, ox: int|
        #![trigger out.slot(c, oy, ox)]
        out.in_bounds(c, oy, ox) ==> {
            &&& is_pool_choice(window(x, c, oy, ox), p.choices()[out.slot(c, oy, ox)] as int)
            &&& out.at(c, oy, ox) == pool_value(
                window(x, c, oy, ox),
                p.choices()[out.slot(c, oy, ox)] as int,
            )
        }
}

/// The gradient that reaches input cell `(c, y, x)` from `grad_out`: the
/// gradient of the output cell whose window holds `(c, y, x)`, if pooling took
/// that very entry, and `0.0` otherwise.
pub open spec fn routed_gradient(p: MaxPool, grad_out: Vol, c: int, y: int, x: int) -> u32 {
    if c < grad_out.c && y / 2 < grad_out.h && x / 2 < grad_out.w && p.choices()[grad_out.slot(
        c,
        y / 2,
        x / 2,
    )] == 2 * (y % 2) + x % 2 {
        grad_out.at(c, y / 2, x / 2)
    } else {
        ZERO_BITS
    }
}

/// What `MaxPool::backward` gives for `grad_out` from pool state `p`.
pub open spec fn routed(p: MaxPool, grad_out: Vol, grad_in: Vol) -> bool {
    &&& grad_in.c == p.input_shape().0
    &&& grad_in.h == p.input_shape().1
    &&& grad_in.w == p.input_shape().2
    &&& grad_in.wf()
    &&& forall|c: int, y: int, x: int|
        #![trigger grad_in.slot(c, y, x)]
        grad_in.in_bounds(c, y, x) ==> grad_in.at(c, y, x) == routed_gradient(
            p,
            grad_out,
            c,
            y,
            x,
        )
}

/// The pooled value of an output cell is not below any entry of its window;
/// it is the picked entry (or `f32::MIN` with entry 0 picked when no entry is
/// above `f32::MIN`), and every earlier entry is either smaller or not above
/// `f32::MIN`.
pub proof fn lemma_pool_cell_is_window_max(x: Vol, out: Vol, p: MaxPool, c: int, oy: int, ox: int)
    requires
        pooled(x, out, p),
        out.in_bounds(c, oy, ox),
    ensures
        ({
            let o = out.at(c, oy, ox);
            let a = p.choices()[out.slot(c, oy, ox)] as int;
            &&& !float_gt(x.at(c, 2 * oy, 2 * ox), o)
            &&& !float_gt(x.at(c, 2 * oy, 2 * ox + 1), o)
            &&& !float_gt(x.at(c, 2 * oy + 1, 2 * ox), o)
            &&& !float_gt(x.at(c, 2 * oy + 1, 2 * ox + 1), o)
            &&& 0 <= a < 4
            &&& o == x.at(c, 2 * oy + a / 2, 2 * ox + a % 2) || (o == MIN_BITS && a == 0)
            &&& !is_nan(o)
            &&& forall|i: int|
                0 <= i < a ==> float_gt(o, #[trigger] x.at(c, 2 * oy + i / 2, 2 * ox + i % 2))
                    || !float_gt(x.at(c, 2 * oy + i / 2, 2 * ox + i % 2), MIN_BITS)
        }),
{
    let w = window(x, c, oy, ox);
    let o = out.at(c, oy, ox);
    let a = p.choices()[out.slot(c, oy, ox)] as int;
    assert(w[0] == x.at(c, 2 * oy, 2 * ox));
    assert(w[1] == x.at(c, 2 * oy, 2 * ox + 1));
    assert(w[2] == x.at(c, 2 * oy + 1, 2 * ox));
    assert(w[3] == x.at(c, 2 * oy + 1, 2 * ox + 1));
    assert(is_pool_choice(w, a));
    assert(o == pool_value(w, a));
    assert forall|i: int| 0 <= i < 4 implies #[trigger] w[i] == x.at(c, 2 * oy + i / 2, 2 * ox + i % 2) by {
        if i == 0 {
        } else if i == 1 {
        } else if i == 2 {
        } else {
        }
    }
    if beats_floor(w) {
        assert forall|i: int| 0 <= i < 4 implies !float_gt(#[trigger] w[i], o) by {
            if float_gt(w[i], MIN_BITS) {
            }
        }
        assert(!float_gt(w[0], o));
        assert(!float_gt(w[1], o));
        assert(!float_gt(w[2], o));
        assert(!float_gt(w[3], o));
    } else {
        assert(!float_gt(w[0], MIN_BITS));
        assert(!float_gt(w[1], MIN_BITS));
        assert(!float_gt(w[2], MIN_BITS));
        assert(!float_gt(w[3], MIN_BITS));
    }
}

impl MaxPool {
    /// Pools each 2 × 2 window of `x` into one cell (odd last rows and columns
    /// are dropped) and remembers which entry each output cell took.
    pub fn forward(&mut self, x: &Vol) -> (out: Vol)
        requires
            x.wf(),
            x.c * (x.h / 2) <= usize::MAX,
        ensures
            pooled(*x, out, *final(self)),
            forall|c: int, oy: int, ox: int|
                #![trigger out.at(c, oy, ox)]
                out.in_bounds(c, oy, ox) ==> {
                    let o = out.at(c, oy, ox);
                    let a = final(self).choices()[out.slot(c, oy, ox)] as int;
                    &&& !float_gt(x.at(c, 2 * oy, 2 * ox), o)
                    &&& !float_gt(x.at(c, 2 * oy, 2 * ox + 1), o)
                    &&& !float_gt(x.at(c, 2 * oy + 1, 2 * ox), o)
                    &&& !float_gt(x.at(c, 2 * oy + 1, 2 * ox + 1), o)
                    &&& 0 <= a < 4
                    &&& o == x.at(c, 2 * oy + a / 2, 2 * ox + a % 2) || (o == MIN_BITS && a == 0)
                    &&& !is_nan(o)
                    &&& forall|i: int|
                        0 <= i < a ==> float_gt(o, #[trigger] x.at(c, 2 * oy + i / 2, 2 * ox + i % 2))
                            || !float_gt(x.at(c, 2 * oy + i / 2, 2 * ox + i % 2), MIN_BITS)
                },
    {
        let oh: usize = x.h / 2;
        let ow: usize = x.w / 2;
        proof {
            assert(x.c * oh * ow <= x.c * x.h * x.w) by (nonlinear_arith)
                requires
                    oh <= x.h,
                    ow <= x.w,
            ;
        }
        let n: usize = x.c * oh * ow;
        let mut argmax: Vec<usize> = vec![0usize; n];
        let mut out: Vol = Vol::zeros(x.c, oh, ow);
        let mut k: usize = 0;
        while k < n
            invariant
                x.wf(),
                oh == x.h / 2,
                ow == x.w / 2,
                n == x.c * oh * ow,
                out.c == x.c,
                out.h == oh,
                out.w == ow,
                out.wf(),
                argmax@.len() == n,
                k <= n,
                forall|i: int| 0 <= i < n ==> #[trigger] argmax@[i] < 4,
                forall|c: int, oy: int, ox: int|
                    #![trigger out.slot(c, oy, ox)]
                    out.in_bounds(c, oy, ox) && out.slot(c, oy, ox) < k ==> {
                        &&& is_pool_choice(window(*x, c, oy, ox), argmax@[out.slot(c, oy, ox)] as int)
                        &&& out.at(c, oy, ox) == pool_value(
                            window(*x, c, oy, ox),
                            argmax@[out.slot(c, oy, ox)] as int,
                        )
                    },
            decreases n - k,
        {
            let (c, oy, ox) = unflatten(x.c, oh, ow, k);
            let (bi, best) = pool_window(x, c, oy, ox);
            let ghost old_out = out;
            let ghost old_arg = argmax@;
            out.data.set(k, best);
            argmax.set(k, bi);
            proof {
                assert forall|c2: int, oy2: int, ox2: int|
                    #![trigger out.slot(c2, oy2, ox2)]
                    out.in_bounds(c2, oy2, ox2) && out.slot(c2, oy2, ox2) < k + 1 implies {
                        &&& is_pool_choice(window(*x, c2, oy2, ox2), argmax@[out.slot(c2, oy2, ox2)] as int)
                        &&& out.at(c2, oy2, ox2) == pool_value(
                            window(*x, c2, oy2, ox2),
                            argmax@[out.slot(c2, oy2, ox2)] as int,
                        )
                    } by {
                    lemma_flat_index_in_range(out.c as int, oh as int, ow as int, c2, oy2, ox2);
                    assert(old_out.slot(c2, oy2, ox2) == out.slot(c2, oy2, ox2));
                    assert(old_out.in_bounds(c2, oy2, ox2));
                    if out.slot(c2, oy2, ox2) == k {
                        lemma_flat_index_injective(
                            oh as int,
                            ow as int,
                            c2,
                            oy2,
                            ox2,
                            c as int,
                            oy as int,
                            ox as int,
                        );
                    }
                }
            }
            k = k + 1;
        }
        proof {
            assert forall|c: int, oy: int, ox: int|
                #![trigger out.slot(c, oy, ox)]
                out.in_bounds(c, oy, ox) implies out.slot(c, oy, ox) < k by {
                lemma_flat_index_in_range(out.c as int, oh as int, ow as int, c, oy, ox);
            }
        }
        *self = MaxPool { argmax, in_c: x.c, in_h: x.h, in_w: x.w };
        proof {
            assert forall|c: int, oy: int, ox: int|
                #![trigger out.at(c, oy, ox)]
                out.in_bounds(c, oy, ox) implies {
                    let o = out.at(c, oy, ox);
                    let a = self.choices()[out.slot(c, oy, ox)] as int;
                    &&& !float_gt(x.at(c, 2 * oy, 2 * ox), o)
                    &&& !float_gt(x.at(c, 2 * oy, 2 * ox + 1), o)
                    &&& !float_gt(x.at(c, 2 * oy + 1, 2 * ox), o)
                    &&& !float_gt(x.at(c, 2 * oy + 1, 2 * ox + 1), o)
                    &&& 0 <= a < 4
                    &&& o == x.at(c, 2 * oy + a / 2, 2 * ox + a % 2) || (o == MIN_BITS && a == 0)
                    &&& !is_nan(o)
                    &&& forall|i: int|
                        0 <= i < a ==> float_gt(o, #[trigger] x.at(c, 2 * oy + i / 2, 2 * ox + i % 2))
                            || !float_gt(x.at(c, 2 * oy + i / 2, 2 * ox + i % 2), MIN_BITS)
                } by {
                lemma_pool_cell_is_window_max(*x, out, *self, c, oy, ox);
            }
        }
        out
    }

    /// Routes each gradient of `grad_out` to the input cell that its output
    /// cell took in the last pooling; every other input cell gets `0.0`.
    pub fn backward(&self, grad_out: &Vol) -> (grad_in: Vol)
        requires
            grad_out.wf(),
            grad_out.c <= self.input_shape().0,
            grad_out.h <= self.input_shape().1 / 2,
            grad_out.w <= self.input_shape().2 / 2,
            self.input_shape().0 * self.input_shape().1 <= usize::MAX,
        ensures
            routed(*self, *grad_out, grad_in),
            forall|c: int, y: int, x: int|
                #![trigger grad_in.at(c, y, x)]
                grad_in.in_bounds(c, y, x) ==> grad_in.at(c, y, x) == (if c < grad_out.c && y / 2
                    < grad_out.h && x / 2 < grad_out.w && self.choices()[((c * grad_out.h + y / 2)
                    * grad_out.w + x / 2)] == 2 * (y % 2) + x % 2 {
                    grad_out.data@[(c * grad_out.h + y / 2) * grad_out.w + x / 2]
                } else {
                    ZERO_BITS
                }),
    {
        proof {
            use_type_invariant(self);
        }
        let mut grad_in: Vol = Vol::zeros(self.in_c, self.in_h, self.in_w);
        let gc: usize = grad_out.c;
        let gh: usize = grad_out.h;
        let gw: usize = grad_out.w;
        let n: usize = grad_out.data.len();
        proof {
            assert(gc * gh * gw <= self.in_c * (self.in_h / 2) * (self.in_w / 2)) by (nonlinear_arith)
                requires
                    gc <= self.in_c,
                    gh <= self.in_h / 2,
                    gw <= self.in_w / 2,
            ;
        }
        proof {
            assert forall|c: int, y: int, x: int|
                #![trigger grad_in.slot(c, y, x)]
                grad_in.in_bounds(c, y, x) implies grad_in.at(c, y, x) == ZERO_BITS by {
                grad_in.lemma_in_bounds_slot(c, y, x);
            }
        }
        let mut k: usize = 0;
        while k < n
            invariant
                grad_out.wf(),
                gc == grad_out.c,
                gh == grad_out.h,
                gw == grad_out.w,
                n == gc * gh * gw,
                n <= self.argmax@.len(),
                gc <= self.in_c,
                gh <= self.in_h / 2,
                gw <= self.in_w / 2,
                forall|i: int| 0 <= i < self.argmax@.len() ==> #[trigger] self.argmax@[i] < 4,
                grad_in.c == self.in_c,
                grad_in.h == self.in_h,
                grad_in.w == self.in_w,
                grad_in.wf(),
                k <= n,
                forall|c: int, y: int, x: int|
                    #![trigger grad_in.slot(c, y, x)]
                    grad_in.in_bounds(c, y, x) ==> grad_in.at(c, y, x) == (if c < gc && y / 2 < gh
                        && x / 2 < gw && grad_out.slot(c, y / 2, x / 2) < k && self.argmax@[grad_out.slot(
                        c,
                        y / 2,
                        x / 2,
                    )] == 2 * (y % 2) + x % 2 {
                        grad_out.at(c, y / 2, x / 2)
                    } else {
                        ZERO_BITS
                    }),
            decreases n - k,
        {
            let (c, oy, ox) = unflatten(gc, gh, gw, k);
            let j: usize = self.argmax[k];
            let yy: usize = oy * 2 + j / 2;
            let xx: usize = ox * 2 + j % 2;
            proof {
                grad_in.lemma_in_bounds_slot(c as int, yy as int, xx as int);
            }
            let gi: usize = grad_in.idx(c, yy, xx);
            let g: u32 = grad_out.data[k];
            let ghost old_in = grad_in;
            grad_in.data.set(gi, g);
            proof {
                assert forall|c2: int, y2: int, x2: int|
                    #![trigger grad_in.slot(c2, y2, x2)]
                    grad_in.in_bounds(c2, y2, x2) implies grad_in.at(c2, y2, x2) == (if c2 < gc && y2
                        / 2 < gh && x2 / 2 < gw && grad_out.slot(c2, y2 / 2, x2 / 2) < k + 1
                        && self.argmax@[grad_out.slot(c2, y2 / 2, x2 / 2)] == 2 * (y2 % 2) + x2 % 2 {
                        grad_out.at(c2, y2 / 2, x2 / 2)
                    } else {
                        ZERO_BITS
                    }) by {
                    lemma_flat_index_in_range(
                        grad_in.c as int,
                        grad_in.h as int,
                        grad_in.w as int,
                        c2,
                        y2,
                        x2,
                    );
                    assert(old_in.in_bounds(c2, y2, x2));
                    assert(old_in.slot(c2, y2, x2) == grad_in.slot(c2, y2, x2));
                    if grad_in.slot(c2, y2, x2) == gi {
                        lemma_flat_index_injective(
                            grad_in.h as int,
                            grad_in.w as int,
                            c2,
                            y2,
                            x2,
                            c as int,
                            yy as int,
                            xx as int,
                        );
                    } else if c2 < gc && y2 / 2 < gh && x2 / 2 < gw && grad_out.slot(c2, y2 / 2, x2 / 2)
                        == k {
                        lemma_flat_index_injective(
                            gh as int,
                            gw as int,
                            c2,
                            y2 / 2,
                            x2 / 2,
                            c as int,
                            oy as int,
                            ox as int,
                        );
                        if self.argmax@[grad_out.slot(c2, y2 / 2, x2 / 2)] == 2 * (y2 % 2) + x2 % 2 {
                            assert(y2 == yy && x2 == xx);
                        }
                    }
                }
            }
            k = k + 1;
        }
        proof {
            assert forall|c: int, y: int, x: int|
                #![trigger grad_out.slot(c, y, x)]
                grad_out.in_bounds(c, y, x) implies grad_out.slot(c, y, x) < n by {
                lemma_flat_index_in_range(gc as int, gh as int, gw as int, c, y, x);
            }
        }
        grad_in
    }
}

/// After `x` is pooled into `out`, a gradient of the pooled shape routed
/// back reaches, in each window, exactly the entry that pooling took (the
/// first largest one): that cell gets the output cell's gradient and the
/// other three cells of the window get `0.0`.
pub proof fn lemma_gradient_reaches_pooled_entry(
    x: Vol,
    out: Vol,
    p: MaxPool,
    grad_out: Vol,
    grad_in: Vol,
    c: int,
    oy: int,
    ox: int,
    j: int,
)
    requires
        x.wf(),
        pooled(x, out, p),
        grad_out.c == out.c,
        grad_out.h == out.h,
        grad_out.w == out.w,
        routed(p, grad_out, grad_in),
        out.in_bounds(c, oy, ox),
        0 <= j < 4,
    ensures
        is_pool_choice(window(x, c, oy, ox), p.choices()[out.slot(c, oy, ox)] as int),
        out.at(c, oy, ox) == pool_value(window(x, c, oy, ox), p.choices()[out.slot(c, oy, ox)] as int),
        grad_in.at(c, 2 * oy + j / 2, 2 * ox + j % 2) == (if j == p.choices()[out.slot(c, oy, ox)] {
            grad_out.at(c, oy, ox)
        } else {
            ZERO_BITS
        }),
{
    let y: int = 2 * oy + j / 2;
    let xx: int = 2 * ox + j % 2;
    assert(grad_in.in_bounds(c, y, xx));
    assert(y / 2 == oy && y % 2 == j / 2);
    assert(xx / 2 == ox && xx % 2 == j % 2);
    assert(grad_in.slot(c, y, xx) == grad_in.slot(c, y, xx));
    assert(out.slot(c, oy, ox) == grad_out.slot(c, oy, ox));
}

// ---------------------------------------------------------------------------
// Convolution geometry
// ---------------------------------------------------------------------------

/// Slot of weight `(oc, ic, ky, kx)` among the weights of a convolution with
/// `in_c` input channels and `k × k` kernels, laid out row-major.
pub open spec fn weight_slot(in_c: int, k: int, oc: int, ic: int, ky: int, kx: int) -> int {
    ((oc * in_c + ic) * k + ky) * k + kx
}

/// The weights of an `out_c × in_c × k × k` convolution occupy distinct
/// slots, all inside `0 .. out_c * in_c * k * k`.
pub proof fn lemma_weight_slot_bijective(
    out_c: int,
    in_c: int,
    k: int,
    oc1: int,
    ic1: int,
    ky1: int,
    kx1: int,
    oc2: int,
    ic2: int,
    ky2: int,
    kx2: int,
)
    requires
        0 <= oc1 < out_c,
        0 <= ic1 < in_c,
        0 <= ky1 < k,
        0 <= kx1 < k,
        0 <= oc2 < out_c,
        0 <= ic2 < in_c,
        0 <= ky2 < k,
        0 <= kx2 < k,
    ensures
        0 <= weight_slot(in_c, k, oc1, ic1, ky1, kx1) < out_c * in_c * k * k,
        weight_slot(in_c, k, oc1, ic1, ky1, kx1) == weight_slot(in_c, k, oc2, ic2, ky2, kx2) ==> (
        oc1 == oc2 && ic1 == ic2 && ky1 == ky2 && kx1 == kx2),
{
    lemma_flat_index_in_range(out_c, in_c, 1, oc1, ic1, 0);
    lemma_flat_index_in_range(out_c * in_c, k, k, oc1 * in_c + ic1, ky1, kx1);
    assert(flat_index(k, k, oc1 * in_c + ic1, ky1, kx1) == weight_slot(in_c, k, oc1, ic1, ky1, kx1));
    assert(flat_index(k, k, oc2 * in_c + ic2, ky2, kx2) == weight_slot(in_c, k, oc2, ic2, ky2, kx2));
    assert(out_c * in_c * k * k == (out_c * in_c) * k * k);
    if weight_slot(in_c, k, oc1, ic1, ky1, kx1) == weight_slot(in_c, k, oc2, ic2, ky2, kx2) {
        assert(0 <= oc1 * in_c + ic1) by (nonlinear_arith)
            requires
                0 <= oc1,
                0 <= ic1,
                0 <= in_c,
        ;
        assert(0 <= oc2 * in_c + ic2) by (nonlinear_arith)
            requires
                0 <= oc2,
                0 <= ic2,
                0 <= in_c,
        ;
        lemma_flat_index_injective(k, k, oc1 * in_c + ic1, ky1, kx1, oc2 * in_c + ic2, ky2, kx2);
        lemma_flat_index_injective(in_c, 1, oc1, ic1, 0, oc2, ic2, 0);
    }
}

/// Slot of weight `(oc, ic, ky, kx)` of a convolution with `in_c` input
/// channels and `k × k` kernels.
pub fn weight_index(in_c: usize, k: usize, oc: usize, ic: usize, ky: usize, kx: usize) -> (i: usize)
    requires
        oc * in_c <= usize::MAX,
        oc * in_c + ic <= usize::MAX,
        (oc * in_c + ic) * k <= usize::MAX,
        (oc * in_c + ic) * k + ky <= usize::MAX,
        ((oc * in_c + ic) * k + ky) * k <= usize::MAX,
        weight_slot(in_c as int, k as int, oc as int, ic as int, ky as int, kx as int) <= usize::MAX,
    ensures
        i == weight_slot(in_c as int, k as int, oc as int, ic as int, ky as int, kx as int),
        i == ((oc * in_c + ic) * k + ky) * k + kx,
{
    ((oc * in_c + ic) * k + ky) * k + kx
}

/// The input coordinate that output coordinate `o` reads through kernel
/// offset `kk`, with `pad` cells of zero padding before an axis of length
/// `n`; `None` when that position falls in the padding.
pub fn padded_source(o: usize, kk: usize, pad: usize, n: usize) -> (r: Option<usize>)
    requires
        o + kk <= usize::MAX,
    ensures
        r == (if pad <= o + kk < pad + n {
            Some((o + kk - pad) as usize)
        } else {
            None::<usize>
        }),
{
    let i: usize = o + kk;
    if i < pad || i - pad >= n {
        None
    } else {
        Some(i - pad)
    }
}

/// Kernel position number `t` of a convolution with `k × k` kernels, as
/// `(input channel, kernel row, kernel column)`, numbered row-major.
pub open spec fn kernel_position(k: int, t: int) -> (int, int, int) {
    ((t / k) / k, (t / k) % k, t % k)
}

/// What output cell `(oc, oy, ox)` of a zero-padded convolution over an
/// `h × w` input reads through kernel position `p`: the input slot and the
/// weight slot it multiplies, or `None` when `p` falls in the padding.
pub open spec fn conv_tap(
    in_c: int,
    k: int,
    pad: int,
    h: int,
    w: int,
    oc: int,
    oy: int,
    ox: int,
    p: (int, int, int),
) -> Option<(usize, usize)> {
    if pad <= oy + p.1 < pad + h && pad <= ox + p.2 < pad + w {
        Some(
            (
                flat_index(h, w, p.0, oy + p.1 - pad, ox + p.2 - pad) as usize,
                weight_slot(in_c, k, oc, p.0, p.1, p.2) as usize,
            ),
        )
    } else {
        None
    }
}

/// Every (input slot, weight slot) pair that output cell `(oc, oy, ox)` sums
/// over, by input channel, then kernel row, then kernel column.
pub open spec fn conv_taps_of(
    in_c: int,
    k: int,
    pad: int,
    h: int,
    w: int,
    oc: int,
    oy: int,
    ox: int,
) -> Seq<(usize, usize)> {
    Seq::new((in_c * k * k) as nat, |t: int| kernel_position(k, t)).filter_map(
        |p: (int, int, int)| conv_tap(in_c, k, pad, h, w, oc, oy, ox, p),
    )
}

/// The (input slot, weight slot) pairs that output cell `(oc, oy, ox)` of an
/// `out_c × in_c × k × k` convolution with `pad` cells of zero padding over an
/// `in_c × h × w` input sums over, in summation order.
pub fn conv_taps(
    in_c: usize,
    out_c: usize,
    k: usize,
    pad: usize,
    h: usize,
    w: usize,
    oc: usize,
    oy: usize,
    ox: usize,
) -> (taps: Vec<(usize, usize)>)
    requires
        oc < out_c,
        out_c * in_c <= usize::MAX,
        out_c * in_c * k <= usize::MAX,
        out_c * in_c * k * k <= usize::MAX,
        in_c * h <= usize::MAX,
        in_c * h * w <= usize::MAX,
        oy + k <= usize::MAX,
        ox + k <= usize::MAX,
    ensures
        taps@ == conv_taps_of(
            in_c as int,
            k as int,
            pad as int,
            h as int,
            w as int,
            oc as int,
            oy as int,
            ox as int,
        ),
{
    let ghost f = |p: (int, int, int)|
        conv_tap(in_c as int, k as int, pad as int, h as int, w as int, oc as int, oy as int, ox as int, p);
    let ghost positions = Seq::new((in_c * k * k) as nat, |t: int| kernel_position(k as int, t));
    proof {
        assert(in_c * k <= out_c * in_c * k) by (nonlinear_arith)
            requires
                oc < out_c,
        ;
        assert(in_c * k * k <= out_c * in_c * k * k) by (nonlinear_arith)
            requires
                oc < out_c,
        ;
    }
    let n: usize = in_c * k * k;
    let mut taps: Vec<(usize, usize)> = Vec::new();
    let mut t: usize = 0;
    assert(positions.take(0).filter_map(f) =~= Seq::<(usize, usize)>::empty());
    while t < n
        invariant
            n == in_c * k * k,
            positions == Seq::new((in_c * k * k) as nat, |t: int| kernel_position(k as int, t)),
            f == (|p: (int, int, int)|
                conv_tap(
                    in_c as int,
                    k as int,
                    pad as int,
                    h as int,
                    w as int,
                    oc as int,
                    oy as int,
                    ox as int,
                    p,
                )),
            oc < out_c,
            out_c * in_c <= usize::MAX,
            out_c * in_c * k <= usize::MAX,
            out_c * in_c * k * k <= usize::MAX,
            in_c * h <= usize::MAX,
            in_c * h * w <= usize::MAX,
            oy + k <= usize::MAX,
            ox + k <= usize::MAX,
            t <= n,
            taps@ == positions.take(t as int).filter_map(f),
        decreases n - t,
    {
        let (ic, ky, kx) = unflatten(in_c, k, k, t);
        proof {
            positions.lemma_filter_map_take_succ(f, t as int);
            assert(positions[t as int] == (ic as int, ky as int, kx as int));
        }
        match padded_source(oy, ky, pad, h) {
            Some(yy) => match padded_source(ox, kx, pad, w) {
                Some(xx) => {
                    proof {
                        lemma_flat_index_in_range(in_c as int, h as int, w as int, ic as int, yy as int, xx as int);
                        lemma_weight_slot_bijective(
                            out_c as int,
                            in_c as int,
                            k as int,
                            oc as int,
                            ic as int,
                            ky as int,
                            kx as int,
                            oc as int,
                            ic as int,
                            ky as int,
                            kx as int,
                        );
                        assert((out_c * in_c) * k * k == out_c * in_c * k * k);
                        let a: int = oc * in_c + ic;
                        assert(a * k + ky <= weight_slot(in_c as int, k as int, oc as int, ic as int, ky as int, kx as int)) by (nonlinear_arith)
                            requires
                                a >= 0,
                                k >= 1,
                                ky < k,
                                kx >= 0,
                                weight_slot(in_c as int, k as int, oc as int, ic as int, ky as int, kx as int) == (a * k + ky) * k + kx,
                        ;
                        assert(a <= a * k) by (nonlinear_arith)
                            requires
                                a >= 0,
                                k >= 1,
                        ;
                        assert(oc * in_c <= a * k) by (nonlinear_arith)
                            requires
                                a == oc * in_c + ic,
                                ic >= 0,
                                oc * in_c >= 0,
                                k >= 1,
                        ;
                        assert((a * k + ky) * k <= weight_slot(in_c as int, k as int, oc as int, ic as int, ky as int, kx as int));
                    }
                    let xi: usize = (ic * h + yy) * w + xx;
                    let wi: usize = weight_index(in_c, k, oc, ic, ky, kx);
                    taps.push((xi, wi));
                },
                None => {},
            },
            None => {},
        }
        t = t + 1;
    }
    assert(positions.take(n as int) =~= positions);
    taps
}

// ---------------------------------------------------------------------------
// Rectified linear units
// ---------------------------------------------------------------------------

/// What a ReLU makes of one value: `0.0` for a negative value, the value
/// itself otherwise (NaNs and `-0.0` included).
pub open spec fn relu_value(b: u32) -> u32 {
    if is_negative(b) {
        ZERO_BITS
    } else {
        b
    }
}

/// A ReLU output is never below `0.0`: a value below `0.0` becomes `0.0`
/// and any other value is kept.
pub proof fn lemma_relu_value_never_negative(b: u32)
    ensures
        !float_gt(ZERO_BITS, relu_value(b)),
        float_gt(ZERO_BITS, b) ==> relu_value(b) == ZERO_BITS,
        !float_gt(ZERO_BITS, b) ==> relu_value(b) == b,
{
}

/// Applying a ReLU to its own output changes nothing.
pub proof fn lemma_relu_idempotent(b: u32)
    ensures
        relu_value(relu_value(b)) == relu_value(b),
{
}

/// Replaces every negative value by `0.0` (NaNs and `-0.0` stay).
pub fn relu_inplace(v: &mut Vec<u32>)
    ensures
        final(v)@.len() == old(v)@.len(),
        forall|i: int| 0 <= i < old(v)@.len() ==> #[trigger] final(v)@[i] == relu_value(old(v)@[i]),
        forall|i: int| 0 <= i < old(v)@.len() ==> !float_gt(ZERO_BITS, #[trigger] final(v)@[i]),
        forall|i: int|
            0 <= i < old(v)@.len() && float_gt(ZERO_BITS, #[trigger] old(v)@[i]) ==> final(v)@[i]
                == ZERO_BITS,
        forall|i: int|
            0 <= i < old(v)@.len() && !float_gt(ZERO_BITS, #[trigger] old(v)@[i]) ==> final(v)@[i]
                == old(v)@[i],
{
    let mut i: usize = 0;
    while i < v.len()
        invariant
            i <= v@.len(),
            v@.len() == old(v)@.len(),
            forall|j: int|
                0 <= j < i ==> #[trigger] v@[j] == (if is_negative(old(v)@[j]) {
                    ZERO_BITS
                } else {
                    old(v)@[j]
                }),
            forall|j: int| i <= j < v@.len() ==> #[trigger] v@[j] == old(v)@[j],
        decreases v@.len() - i,
    {
        if gt_bits(ZERO_BITS, v[i]) {
            v.set(i, ZERO_BITS);
        }
        i = i + 1;
    }
}

/// The gradient through a ReLU: zeroes `grad[i]` wherever activation
/// `act[i]` is not positive (`act[i] <= 0.0`; NaN activations pass the
/// gradient on).
pub fn relu_mask_grad(grad: &mut Vec<u32>, act: &[u32])
    requires
        old(grad)@.len() <= act@.len(),
    ensures
        final(grad)@.len() == old(grad)@.len(),
        forall|i: int|
            0 <= i < old(grad)@.len() ==> #[trigger] final(grad)@[i] == (if is_non_positive(act@[i]) {
                ZERO_BITS
            } else {
                old(grad)@[i]
            }),
        forall|i: int|
            0 <= i < old(grad)@.len() && !is_nan(act@[i]) && !float_gt(act@[i], ZERO_BITS)
                ==> #[trigger] final(grad)@[i] == ZERO_BITS,
        forall|i: int|
            0 <= i < old(grad)@.len() && (is_nan(act@[i]) || float_gt(act@[i], ZERO_BITS))
                ==> #[trigger] final(grad)@[i] == old(grad)@[i],
{
    let mut i: usize = 0;
    while i < grad.len()
        invariant
            i <= grad@.len(),
            grad@.len() == old(grad)@.len(),
            old(grad)@.len() <= act@.len(),
            forall|j: int|
                0 <= j < i ==> #[trigger] grad@[j] == (if is_non_positive(act@[j]) {
                    ZERO_BITS
                } else {
                    old(grad)@[j]
                }),
            forall|j: int| i <= j < grad@.len() ==> #[trigger] grad@[j] == old(grad)@[j],
        decreases grad@.len() - i,
    {
        if !gt_bits(act[i], ZERO_BITS) && !crate::tensor::is_nan_bits(act[i]) {
            grad.set(i, ZERO_BITS);
        }
        i = i + 1;
    }
}

} // verus!
