//! Sums of products modulo the order of the group.

use crate::ristretto::{dot, order};
use vstd::arithmetic::div_mod::{
    lemma_add_mod_noop, lemma_mod_twice, lemma_mul_mod_noop_left, lemma_mul_mod_noop_right,
    lemma_small_mod, lemma_sub_mod_noop,
};
use vstd::prelude::*;

verus! {

/// Scaling every entry on the left by `r` scales the sum by `r`.
pub proof fn lemma_dot_scaled(a: Seq<int>, b: Seq<int>, r: int, scaled: Seq<int>)
    requires
        a.len() == b.len(),
        scaled.len() == a.len(),
        forall|i: int| 0 <= i < a.len() ==> #[trigger] scaled[i] == (a[i] * r) % order(),
    ensures
        dot(scaled, b) % order() == (dot(a, b) * r) % order(),
    decreases a.len(),
{
    let n = order();
    if a.len() > 0 {
        let rest = dot(a.drop_last(), b.drop_last());
        lemma_dot_scaled(a.drop_last(), b.drop_last(), r, scaled.drop_last());
        let p = a.last() * r;
        assert(scaled.last() == p % n) by {
            assert(scaled[a.len() - 1] == (a[a.len() - 1] * r) % n);
        }
        lemma_mul_mod_noop_left(p, b.last(), n);
        lemma_add_mod_noop(dot(scaled.drop_last(), b.drop_last()), scaled.last() * b.last(), n);
        lemma_add_mod_noop(rest * r, p * b.last(), n);
        assert(rest * r + a.last() * r * b.last() == (rest + a.last() * b.last()) * r)
            by (nonlinear_arith);
    } else {
        assert(dot(a, b) * r == 0) by (nonlinear_arith)
            requires
                dot(a, b) == 0,
        ;
    }
}

/// The sum is additive on the right.
pub proof fn lemma_dot_shifted(a: Seq<int>, b: Seq<int>, d: Seq<int>, shifted: Seq<int>)
    requires
        a.len() == b.len(),
        d.len() == b.len(),
        shifted.len() == b.len(),
        forall|i: int| 0 <= i < b.len() ==> #[trigger] shifted[i] == (b[i] + d[i]) % order(),
    ensures
        dot(a, shifted) % order() == (dot(a, b) + dot(a, d)) % order(),
    decreases a.len(),
{
    let n = order();
    if a.len() > 0 {
        let a1 = a.drop_last();
        lemma_dot_shifted(a1, b.drop_last(), d.drop_last(), shifted.drop_last());
        let k = a.len() - 1;
        let q = b.last() + d.last();
        assert(shifted.last() == q % n) by {
            assert(shifted[k] == (b[k] + d[k]) % n);
        }
        lemma_mul_mod_noop_right(a.last(), q, n);
        lemma_add_mod_noop(dot(a1, shifted.drop_last()), a.last() * shifted.last(), n);
        lemma_add_mod_noop(dot(a1, b.drop_last()) + dot(a1, d.drop_last()), a.last() * q, n);
        assert(a.last() * q == a.last() * b.last() + a.last() * d.last()) by (nonlinear_arith)
            requires
                q == b.last() + d.last(),
        ;
    }
}

/// Removing the mask `h*r` from `h*r + m` leaves `m`.
pub proof fn lemma_unmask(h: int, r: int, m: int, mask: int)
    requires
        0 <= m < order(),
        mask % order() == (h * r) % order(),
    ensures
        ((h * r + m) % order() - mask) % order() == m,
{
    let n = order();
    lemma_sub_mod_noop((h * r + m) % n, mask, n);
    lemma_mod_twice(h * r + m, n);
    lemma_sub_mod_noop(h * r + m, h * r, n);
    lemma_small_mod(m as nat, n as nat);
}

/// Changing one entry on the right by `c` changes the sum by `c` times the entry on the left.
pub proof fn lemma_dot_moved(a: Seq<int>, b: Seq<int>, j: int, c: int)
    requires
        a.len() == b.len(),
        0 <= j < b.len(),
    ensures
        dot(a, b.update(j, b[j] + c)) == dot(a, b) + a[j] * c,
    decreases a.len(),
{
    let moved = b.update(j, b[j] + c);
    if j < a.len() - 1 {
        lemma_dot_moved(a.drop_last(), b.drop_last(), j, c);
        assert(moved.drop_last() =~= b.drop_last().update(j, b[j] + c));
        assert(moved.last() == b.last());
    } else {
        assert(moved.drop_last() =~= b.drop_last());
        assert(moved.last() == b[j] + c);
        assert(a[j] * (b[j] + c) == a[j] * b[j] + a[j] * c) by (nonlinear_arith);
    }
}

/// A sum of products with 0 is 0.
pub proof fn lemma_dot_with_zeros(a: Seq<int>, b: Seq<int>)
    requires
        a.len() == b.len(),
        forall|i: int| 0 <= i < b.len() ==> #[trigger] b[i] == 0,
    ensures
        dot(a, b) == 0,
    decreases a.len(),
{
    if a.len() > 0 {
        assert forall|i: int| 0 <= i < b.drop_last().len() implies #[trigger] b.drop_last()[i]
            == 0 by {
            assert(b[i] == 0);
        }
        lemma_dot_with_zeros(a.drop_last(), b.drop_last());
        assert(b[b.len() - 1] == 0);
        assert(a.last() * b.last() == 0) by (nonlinear_arith)
            requires
                b.last() == 0,
        ;
    }
}

} // verus!
