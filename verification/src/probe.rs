use vstd::prelude::*;
use vstd::arithmetic::div_mod::{
    lemma_fundamental_div_mod, lemma_mod_bound, lemma_mod_multiples_vanish,
};
use vstd::set_lib::{lemma_int_range, lemma_len_subset, set_int_range};
use crate::group::{is_pow2, GROUP_WIDTH};

verus! {

/// The triangular numbers: the strides a probe sequence accumulates.
pub open spec fn tri(t: nat) -> nat
    decreases t,
{
    if t == 0 {
        0
    } else {
        tri((t - 1) as nat) + t
    }
}

/// Twice a triangular number has the familiar closed product form.
pub proof fn lemma_tri_closed(t: nat)
    ensures
        2 * tri(t) == t * (t + 1),
    decreases t,
{
    if t == 0 {
        assert(tri(0) == 0);
    } else {
        let u = (t - 1) as nat;
        lemma_tri_closed(u);
        assert(2 * tri(t) == t * (t + 1)) by (nonlinear_arith)
            requires t >= 1 && u == t - 1 && tri(t) == tri(u) + t && 2 * tri(u) == u * (u + 1);
    }
}

/// Start position of probe step `t` for hash `h` in a table of `buckets`
/// buckets: the walk starts at `h % buckets` and after each step adds one
/// group width more than the step before.
pub open spec fn probe_pos(h: int, buckets: int, t: nat) -> int
    decreases t,
{
    if t == 0 {
        h % buckets
    } else {
        (probe_pos(h, buckets, (t - 1) as nat) + t * GROUP_WIDTH) % buckets
    }
}

/// How many steps the probe walk yields before it gives up: enough for the
/// accumulated stride to reach the bucket mask.
pub open spec fn probe_len(bucket_mask: int) -> int {
    (bucket_mask + GROUP_WIDTH - 1) / (GROUP_WIDTH as int)
}

/// The logical slot at offset `b` of the window probe step `t` scans.
pub open spec fn window_slot(h: int, buckets: int, t: nat, b: int) -> int {
    (probe_pos(h, buckets, t) + b) % buckets
}

/// Whether logical slot `i` lies in the window probe step `t` scans.
pub open spec fn in_window(h: int, buckets: int, t: nat, i: int) -> bool {
    exists|b: int| 0 <= b < GROUP_WIDTH && i == #[trigger] window_slot(h, buckets, t, b)
}

/// Probe positions stay in range.
pub proof fn lemma_probe_pos_bound(h: int, buckets: int, t: nat)
    requires
        buckets >= 1,
        h >= 0,
    ensures
        0 <= probe_pos(h, buckets, t) < buckets,
    decreases t,
{
    if t == 0 {
        lemma_mod_bound(h, buckets);
    } else {
        lemma_probe_pos_bound(h, buckets, (t - 1) as nat);
        lemma_mod_bound(probe_pos(h, buckets, (t - 1) as nat) + t * GROUP_WIDTH, buckets);
        assert(t * GROUP_WIDTH >= 0) by (nonlinear_arith)
            requires t >= 0;
    }
}

/// Each probe position is the start shifted by a group-width multiple of a
/// triangular number.
pub proof fn lemma_probe_pos_tri(h: int, buckets: int, t: nat)
    requires
        buckets >= 1,
        h >= 0,
    ensures
        probe_pos(h, buckets, t) == (h % buckets + (GROUP_WIDTH as int) * tri(t)) % buckets,
    decreases t,
{
    let gw = GROUP_WIDTH as int;
    if t == 0 {
        lemma_mod_bound(h, buckets);
        vstd::arithmetic::div_mod::lemma_small_mod((h % buckets) as nat, buckets as nat);
    } else {
        lemma_probe_pos_tri(h, buckets, (t - 1) as nat);
        let base = h % buckets;
        let prev = (base + gw * tri((t - 1) as nat)) % buckets;
        let full = base + gw * tri((t - 1) as nat);
        lemma_fundamental_div_mod(full, buckets);
        let q = full / buckets;
        assert(prev == full - buckets * q);
        assert(probe_pos(h, buckets, t) == (full - buckets * q + t * gw) % buckets);
        lemma_mod_multiples_vanish(-q, full + t * gw, buckets);
        assert(buckets * -q + (full + t * gw) == full - buckets * q + t * gw)
            by (nonlinear_arith);
        assert(gw * tri(t) == gw * tri((t - 1) as nat) + t * gw) by (nonlinear_arith)
            requires tri(t) == tri((t - 1) as nat) + t;
    }
}

/// In a power-of-two sized product, an odd factor contributes nothing: if
/// `n` divides `a * s` with `s` odd, `n` divides `a`.
proof fn lemma_pow2_divides_odd_product(n: int, a: int, s: int)
    requires
        is_pow2(n),
        s % 2 == 1,
        s >= 1,
        a >= 0,
        (a * s) % n == 0,
    ensures
        a % n == 0,
    decreases n,
{
    if n == 1 {
    } else {
        assert(n % 2 == 0 && n > 1);
        if a % 2 == 1 {
            lemma_fundamental_div_mod(a, 2);
            lemma_fundamental_div_mod(s, 2);
            let x = a / 2;
            let y = s / 2;
            assert(a * s == 2 * (2 * x * y + x + y) + 1) by (nonlinear_arith)
                requires a == 2 * x + 1 && s == 2 * y + 1;
            lemma_fundamental_div_mod(a * s, n);
            let q = (a * s) / n;
            assert(a * s == n * q);
            assert(n * q == 2 * ((n / 2) * q)) by (nonlinear_arith)
                requires n % 2 == 0 && n == 2 * (n / 2);
            assert(2 * ((n / 2) * q) % 2 == 0) by (nonlinear_arith);
            assert((2 * (2 * x * y + x + y) + 1) % 2 == 1) by (nonlinear_arith);
        }
        let a2 = a / 2;
        assert(a == 2 * a2);
        let n2 = n / 2;
        assert(n == 2 * n2);
        lemma_fundamental_div_mod(a * s, n);
        let q = (a * s) / n;
        assert(a * s == n * q);
        assert(a2 * s == n2 * q) by (nonlinear_arith)
            requires a == 2 * a2 && n == 2 * n2 && a * s == n * q;
        assert((a2 * s) % n2 == 0) by {
            lemma_mod_multiples_vanish(q, 0, n2);
            assert(n2 * q + 0 == a2 * s);
        };
        assert(a2 >= 0) by (nonlinear_arith)
            requires a >= 0 && a == 2 * a2;
        lemma_pow2_divides_odd_product(n2, a2, s);
        lemma_fundamental_div_mod(a2, n2);
        let m = a2 / n2;
        assert(a2 == n2 * m);
        assert(a == n * m) by (nonlinear_arith)
            requires a == 2 * a2 && a2 == n2 * m && n == 2 * n2;
        lemma_mod_multiples_vanish(m, 0, n);
        assert(n * m + 0 == a);
    }
}

/// Triangular numbers are distinct modulo a power of two over one period.
pub proof fn lemma_tri_mod_injective(n: int, j: nat, k: nat)
    requires
        is_pow2(n),
        j < k < n,
    ensures
        (tri(j) as int) % n != (tri(k) as int) % n,
{
    if (tri(j) as int) % n == (tri(k) as int) % n {
        let tj = tri(j) as int;
        let tk = tri(k) as int;
        lemma_tri_diff(j, k);
        let d: int = k - j;
        let s: int = (k + j + 1) as int;
        assert(2 * (tk - tj) == d * s);
        lemma_fundamental_div_mod(tj, n);
        lemma_fundamental_div_mod(tk, n);
        let qj = tj / n;
        let qk = tk / n;
        assert(tk - tj == n * (qk - qj)) by (nonlinear_arith)
            requires tj == n * qj + tj % n && tk == n * qk + tk % n && tj % n == tk % n;
        let q = qk - qj;
        assert(d * s == 2 * (n * q));
        assert(d + s == 2 * k + 1);
        lemma_fundamental_div_mod(d, 2);
        lemma_fundamental_div_mod(s, 2);
        lemma_mod_bound(d, 2);
        lemma_mod_bound(s, 2);
        if d % 2 == 1 {
            // the even factor is s; its half is too small to carry n
            assert(s % 2 == 0) by (nonlinear_arith)
                requires d + s == 2 * k + 1 && d % 2 == 1 && d == 2 * (d / 2) + 1 && s == 2 * (s
                / 2) + s % 2 && 0 <= s % 2 < 2;
            let s2 = s / 2;
            assert(s == 2 * s2);
            assert(d * s2 == n * q) by (nonlinear_arith)
                requires s == 2 * s2 && d * s == 2 * (n * q);
            assert((s2 * d) % n == 0) by {
                lemma_mod_multiples_vanish(q, 0, n);
                assert(n * q + 0 == s2 * d) by (nonlinear_arith)
                    requires d * s2 == n * q;
            };
            assert(s2 >= 1) by (nonlinear_arith)
                requires s == 2 * s2 && s >= 2;
            lemma_pow2_divides_odd_product(n, s2, d);
            lemma_fundamental_div_mod(s2, n);
            assert(s2 < n) by (nonlinear_arith)
                requires s == 2 * s2 && s <= 2 * n - 1;
            vstd::arithmetic::div_mod::lemma_small_mod(s2 as nat, n as nat);
        } else {
            assert(s % 2 == 1) by (nonlinear_arith)
                requires d + s == 2 * k + 1 && d % 2 == 0 && d == 2 * (d / 2) && s == 2 * (s / 2)
                + s % 2 && 0 <= s % 2 < 2;
            let d2 = d / 2;
            assert(d == 2 * d2);
            assert(d2 * s == n * q) by (nonlinear_arith)
                requires d == 2 * d2 && d * s == 2 * (n * q);
            assert((d2 * s) % n == 0) by {
                lemma_mod_multiples_vanish(q, 0, n);
                assert(n * q + 0 == d2 * s);
            };
            assert(d2 >= 0) by (nonlinear_arith)
                requires d == 2 * d2 && d >= 1;
            lemma_pow2_divides_odd_product(n, d2, s);
            assert(1 <= d2) by (nonlinear_arith)
                requires d == 2 * d2 && d >= 2 && d % 2 == 0;
            assert(d2 < n) by (nonlinear_arith)
                requires d == 2 * d2 && d < n && n >= 1;
            vstd::arithmetic::div_mod::lemma_small_mod(d2 as nat, n as nat);
        }
    }
}

/// Difference of two triangular numbers, in product form.
proof fn lemma_tri_diff(j: nat, k: nat)
    requires
        j <= k,
    ensures
        2 * ((tri(k) as int) - (tri(j) as int)) == ((k - j) as int) * ((k + j + 1) as int),
{
    lemma_tri_closed(j);
    lemma_tri_closed(k);
    assert(2 * ((tri(k) as int) - (tri(j) as int)) == (k * (k + 1)) as int - (j * (j + 1)) as int);
    assert((k * (k + 1)) as int - (j * (j + 1)) as int == ((k - j) as int) * ((k + j + 1) as int))
        by (nonlinear_arith)
        requires j <= k;
}

/// The residues the triangular numbers reach within one period.
spec fn tri_image(n: int, upto: nat) -> Set<int> {
    Set::new(|x: int| exists|t: nat| t < upto && (tri(t) as int) % n == x)
}

proof fn lemma_tri_image_len(n: int, upto: nat)
    requires
        is_pow2(n),
        upto <= n,
    ensures
        tri_image(n, upto).finite(),
        tri_image(n, upto).len() == upto,
        tri_image(n, upto).subset_of(set_int_range(0, n)),
    decreases upto,
{
    lemma_int_range(0, n);
    if upto == 0 {
        assert(tri_image(n, 0) =~= Set::<int>::empty());
    } else {
        let prev = (upto - 1) as nat;
        lemma_tri_image_len(n, prev);
        let x = (tri(prev) as int) % n;
        lemma_mod_bound(tri(prev) as int, n);
        assert(!tri_image(n, prev).contains(x)) by {
            if tri_image(n, prev).contains(x) {
                let t = choose|t: nat| t < prev && (tri(t) as int) % n == x;
                lemma_tri_mod_injective(n, t, prev);
            }
        };
        assert(tri_image(n, upto) =~= tri_image(n, prev).insert(x)) by {
            assert forall|y: int| tri_image(n, upto).contains(y) implies tri_image(
                n,
                prev,
            ).insert(x).contains(y) by {
                let t = choose|t: nat| t < upto && (tri(t) as int) % n == y;
                if t < prev {
                    assert(tri_image(n, prev).contains(y));
                }
            }
        };
        assert forall|y: int| tri_image(n, upto).contains(y) implies set_int_range(
            0,
            n,
        ).contains(y) by {
            let t = choose|t: nat| t < upto && (tri(t) as int) % n == y;
            lemma_mod_bound(tri(t) as int, n);
        }
    }
}

/// Within one period the triangular residues reach every value.
pub proof fn lemma_tri_mod_surjective(n: int, g: int)
    requires
        is_pow2(n),
        0 <= g < n,
    ensures
        exists|t: nat| t < n && (tri(t) as int) % n == g,
{
    if !(exists|t: nat| t < n && (tri(t) as int) % n == g) {
        lemma_tri_image_len(n, n as nat);
        lemma_int_range(0, n);
        let without = set_int_range(0, n).remove(g);
        assert(tri_image(n, n as nat).subset_of(without)) by {
            assert forall|y: int| tri_image(n, n as nat).contains(y) implies without.contains(
                y,
            ) by {
                let t = choose|t: nat| t < n && (tri(t) as int) % n == y;
                lemma_mod_bound(tri(t) as int, n);
            }
        };
        lemma_len_subset(tri_image(n, n as nat), without);
        assert(without.len() == n - 1) by {
            assert(set_int_range(0, n).contains(g));
        };
    }
}

/// Powers of two divide out: the group count of a larger table is a power
/// of two as well.
pub proof fn lemma_pow2_div_gw(buckets: int)
    requires
        is_pow2(buckets),
        buckets > GROUP_WIDTH,
    ensures
        is_pow2(buckets / 16),
        buckets == 16 * (buckets / 16),
    decreases buckets,
{
    assert(is_pow2(16int)) by {
        reveal_with_fuel(crate::group::is_pow2, 6);
    };
    lemma_pow2_div_gw_rec(buckets, 16);
}

/// Dividing a larger power of two by a smaller one gives a power of two
/// that multiplies back to the dividend.
proof fn lemma_pow2_div_gw_rec(b: int, d: int)
    requires
        is_pow2(b),
        is_pow2(d),
        b > d,
    ensures
        is_pow2(b / d),
        b == d * (b / d),
    decreases d,
{
    if d == 1 {
        assert(b / 1 == b);
    } else {
        assert(d % 2 == 0 && d == 2 * (d / 2));
        assert(b % 2 == 0 && b == 2 * (b / 2));
        assert(b / 2 > d / 2) by (nonlinear_arith)
            requires b > d && b == 2 * (b / 2) && d == 2 * (d / 2);
        lemma_pow2_div_gw_rec(b / 2, d / 2);
        assert((b / 2) / (d / 2) == b / d) by (nonlinear_arith)
            requires b == 2 * (b / 2) && d == 2 * (d / 2) && d / 2 >= 1;
        assert(b == d * (b / d)) by (nonlinear_arith)
            requires b / 2 == (d / 2) * ((b / 2) / (d / 2)) && b == 2 * (b / 2) && d == 2 * (d
            / 2) && (b / 2) / (d / 2) == b / d;
    }
}

/// Every slot of the table lies in some window of every probe walk: the
/// triangular strides visit each group exactly once before the walk ends.
pub proof fn lemma_probe_covers(h: int, buckets: int, i: int)
    requires
        is_pow2(buckets),
        2 <= buckets,
        h >= 0,
        0 <= i < buckets,
    ensures
        exists|t: nat| t < probe_len(buckets - 1) && in_window(h, buckets, t, i),
{
    let gw = GROUP_WIDTH as int;
    let base = h % buckets;
    lemma_mod_bound(h, buckets);
    if buckets <= gw {
        let b = (i - base) % buckets;
        lemma_mod_bound(i - base, buckets);
        assert(i == window_slot(h, buckets, 0, b)) by {
            lemma_fundamental_div_mod(i - base, buckets);
            let q = (i - base) / buckets;
            assert(base + b == i - buckets * q);
            lemma_mod_multiples_vanish(-q, i, buckets);
            assert(buckets * -q + i == base + b) by (nonlinear_arith)
                requires base + b == i - buckets * q;
            vstd::arithmetic::div_mod::lemma_small_mod(i as nat, buckets as nat);
        };
        assert(in_window(h, buckets, 0, i));
        assert(probe_len(buckets - 1) >= 1);
    } else {
        lemma_pow2_div_gw(buckets);
        let n = buckets / 16;
        let delta = (i - base) % buckets;
        lemma_mod_bound(i - base, buckets);
        let g = delta / gw;
        let b = delta % gw;
        lemma_fundamental_div_mod(delta, gw);
        lemma_mod_bound(delta, gw);
        assert(0 <= g < n) by (nonlinear_arith)
            requires delta == gw * g + b && 0 <= b < gw && 0 <= delta < buckets && buckets == gw
            * n;
        lemma_tri_mod_surjective(n, g);
        let t = choose|t: nat| t < n && (tri(t) as int) % n == g;
        lemma_probe_pos_tri(h, buckets, t);
        lemma_fundamental_div_mod(tri(t) as int, n);
        let q = (tri(t) as int) / n;
        assert(tri(t) == n * q + g);
        // position of window t differs from base by gw*tri(t), which is
        // gw*g plus a multiple of the table size
        assert(gw * (tri(t) as int) == buckets * q + gw * g) by (nonlinear_arith)
            requires (tri(t) as int) == n * q + g && buckets == gw * n;
        let pt = probe_pos(h, buckets, t);
        assert(pt == (base + buckets * q + gw * g) % buckets);
        lemma_mod_multiples_vanish(q, base + gw * g, buckets);
        assert(buckets * q + (base + gw * g) == base + buckets * q + gw * g);
        assert(pt == (base + gw * g) % buckets);
        // adding the in-window offset b recovers i
        lemma_fundamental_div_mod(base + gw * g, buckets);
        let q2 = (base + gw * g) / buckets;
        assert(pt == base + gw * g - buckets * q2);
        lemma_mod_multiples_vanish(-q2, base + delta, buckets);
        assert(buckets * -q2 + (base + delta) == pt + b) by (nonlinear_arith)
            requires delta == gw * g + b && pt == base + gw * g - buckets * q2;
        assert((pt + b) % buckets == (base + delta) % buckets);
        lemma_fundamental_div_mod(i - base, buckets);
        let q3 = (i - base) / buckets;
        assert(delta == i - base - buckets * q3);
        lemma_mod_multiples_vanish(-q3, i, buckets);
        assert(buckets * -q3 + i == base + delta) by (nonlinear_arith)
            requires delta == i - base - buckets * q3;
        assert((base + delta) % buckets == i % buckets);
        vstd::arithmetic::div_mod::lemma_small_mod(i as nat, buckets as nat);
        assert(i == window_slot(h, buckets, t, b));
        assert(in_window(h, buckets, t, i));
        assert(t < probe_len(buckets - 1)) by (nonlinear_arith)
            requires t < n && buckets == 16 * n && probe_len(buckets - 1) == (buckets - 1 + 16 - 1)
            / 16;
    }
}

/// A probe walk stops no later than after `buckets` steps: its windows
/// cover the table, so a table holding an EMPTY control byte shows it to
/// the walk within that many steps.
pub proof fn lemma_probe_terminates(h: int, buckets: int, i: int)
    requires
        is_pow2(buckets),
        2 <= buckets,
        h >= 0,
        0 <= i < buckets,
    ensures
        probe_len(buckets - 1) <= buckets,
        exists|t: nat| t < probe_len(buckets - 1) && in_window(h, buckets, t, i),
{
    lemma_probe_covers(h, buckets, i);
}

} // verus!
