use vstd::prelude::*;

verus! {

/// The position of bit `(p, o, c)` in a matrix with `oc` objects.
pub open spec fn cell_index(oc: int, p: int, o: int, c: int) -> int {
    p * oc * oc + o * oc + c
}

proof fn lemma_mul_split(a: int, b: int, c: int, d: int, n: int)
    requires
        0 <= a,
        0 <= b,
        0 <= c < n,
        0 <= d < n,
        a * n + c == b * n + d,
    ensures
        a == b,
        c == d,
{
    if a < b {
        assert(a * n + n <= b * n) by (nonlinear_arith)
            requires
                a < b,
                0 < n,
        ;
    } else if b < a {
        assert(b * n + n <= a * n) by (nonlinear_arith)
            requires
                b < a,
                0 < n,
        ;
    }
}

/// Bits of distinct cells lie at distinct positions, all below `pc * oc * oc`.
pub proof fn lemma_cell_index(oc: int, pc: int, p: int, o: int, c: int, q: int, x: int, d: int)
    requires
        0 <= p < pc,
        0 <= o < oc,
        0 <= c < oc,
        0 <= q < pc,
        0 <= x < oc,
        0 <= d < oc,
    ensures
        0 <= cell_index(oc, p, o, c) < pc * oc * oc,
        cell_index(oc, p, o, c) == cell_index(oc, q, x, d) <==> (p == q && o == x && c == d),
        cell_index(oc, p, o, 0) <= cell_index(oc, q, x, d) < cell_index(oc, p, o, 0) + oc
            <==> (p == q && o == x),
{
    assert(0 <= p * oc * oc + o * oc + c < pc * oc * oc) by (nonlinear_arith)
        requires
            0 <= p < pc,
            0 <= o < oc,
            0 <= c < oc,
    ;
    assert(p * oc * oc + o * oc == (p * oc + o) * oc) by (nonlinear_arith);
    assert(q * oc * oc + x * oc == (q * oc + x) * oc) by (nonlinear_arith);
    assert(0 <= p * oc + o) by (nonlinear_arith)
        requires
            0 <= p,
            0 <= o,
            0 < oc,
    ;
    assert(0 <= q * oc + x) by (nonlinear_arith)
        requires
            0 <= q,
            0 <= x,
            0 < oc,
    ;
    if cell_index(oc, p, o, c) == cell_index(oc, q, x, d) {
        lemma_mul_split(p * oc + o, q * oc + x, c, d, oc);
        lemma_mul_split(p, q, o, x, oc);
    }
    let base = cell_index(oc, p, o, 0);
    let i = cell_index(oc, q, x, d);
    if base <= i < base + oc {
        lemma_mul_split(p * oc + o, q * oc + x, i - base, d, oc);
        lemma_mul_split(p, q, o, x, oc);
    }
}

/// The number of set bits.
pub open spec fn count_true(s: Seq<bool>) -> nat
    decreases s.len(),
{
    if s.len() == 0 {
        0
    } else {
        count_true(s.drop_last()) + if s.last() {
            1nat
        } else {
            0nat
        }
    }
}

/// Clearing bits never adds to the count, and clearing a set bit lowers it.
pub proof fn lemma_count_narrow(s: Seq<bool>, t: Seq<bool>)
    requires
        s.len() == t.len(),
        forall|i: int| 0 <= i < t.len() && #[trigger] t[i] ==> s[i],
    ensures
        count_true(t) <= count_true(s),
        (exists|j: int| 0 <= j < s.len() && s[j] && !t[j]) ==> count_true(t) < count_true(s),
    decreases s.len(),
{
    if s.len() > 0 {
        let s0 = s.drop_last();
        let t0 = t.drop_last();
        assert forall|i: int| 0 <= i < t0.len() && #[trigger] t0[i] implies s0[i] by {
            assert(t[i]);
        }
        lemma_count_narrow(s0, t0);
        if exists|j: int| 0 <= j < s.len() && s[j] && !t[j] {
            let j = choose|j: int| 0 <= j < s.len() && s[j] && !t[j];
            if j < s.len() - 1 {
                assert(s0[j] && !t0[j]);
            }
        }
    }
}

/// No more bits are set than there are bits.
pub proof fn lemma_count_le_len(s: Seq<bool>)
    ensures
        count_true(s) <= s.len(),
    decreases s.len(),
{
    if s.len() > 0 {
        lemma_count_le_len(s.drop_last());
    }
}

/// Writing one bit changes the count by what was there and what is written.
pub proof fn lemma_count_update(s: Seq<bool>, i: int, b: bool)
    requires
        0 <= i < s.len(),
    ensures
        count_true(s.update(i, b)) + (if s[i] {
            1int
        } else {
            0int
        }) == count_true(s) + (if b {
            1int
        } else {
            0int
        }),
    decreases s.len(),
{
    let u = s.update(i, b);
    if i == s.len() - 1 {
        assert(u.drop_last() =~= s.drop_last());
    } else {
        assert(u.drop_last() =~= s.drop_last().update(i, b));
        lemma_count_update(s.drop_last(), i, b);
    }
}

} // verus!
