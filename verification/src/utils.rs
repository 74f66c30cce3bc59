//! Combinatorics utilities: greatest common divisor, least common multiple,
//! and exhaustive permutation generation.

use vstd::arithmetic::div_mod::{
    lemma_div_by_multiple, lemma_div_is_ordered_by_denominator, lemma_div_nonincreasing,
    lemma_div_pos_is_pos, lemma_fundamental_div_mod, lemma_mod_multiples_basic, lemma_mod_self_0,
    lemma_small_mod,
};
use vstd::prelude::*;

verus! {

/// Euclid's greatest common divisor.
pub open spec fn gcd_nat(a: nat, b: nat) -> nat
    decreases b,
{
    if b == 0 {
        a
    } else {
        gcd_nat(b, a % b)
    }
}

/// Least common multiple, defined through the product and the gcd.
/// Degenerate inputs where either side is zero give zero.
pub open spec fn lcm_nat(a: nat, b: nat) -> nat {
    if a == 0 || b == 0 {
        0
    } else {
        (a * b) / gcd_nat(a, b)
    }
}

pub proof fn lemma_gcd_pos(a: nat, b: nat)
    requires
        a > 0 || b > 0,
    ensures
        gcd_nat(a, b) > 0,
    decreases b,
{
    if b > 0 {
        lemma_gcd_pos(b, a % b);
    }
}

/// The gcd never exceeds a positive argument.
pub proof fn lemma_gcd_le(a: nat, b: nat)
    ensures
        a > 0 ==> gcd_nat(a, b) <= a,
        b > 0 ==> gcd_nat(a, b) <= b,
    decreases b,
{
    if b == 0 {
    } else {
        lemma_gcd_le(b, a % b);
        if a > 0 && a < b {
            lemma_small_mod(a, b);
        }
    }
}

/// Bounds for the least common multiple of positive numbers:
/// it lies between each argument and their product.
pub proof fn lemma_lcm_bounds(a: nat, b: nat)
    requires
        a > 0,
        b > 0,
    ensures
        a <= lcm_nat(a, b),
        b <= lcm_nat(a, b),
        lcm_nat(a, b) <= a * b,
    decreases b,
{
    let g = gcd_nat(a, b);
    lemma_gcd_pos(a, b);
    lemma_gcd_le(a, b);
    lemma_div_nonincreasing((a * b) as int, g as int);
    // a*b / g >= a*b / b == a, and likewise with the roles swapped
    lemma_div_is_ordered_by_denominator((a * b) as int, g as int, b as int);
    lemma_div_is_ordered_by_denominator((a * b) as int, g as int, a as int);
    assert((a * b) as int / (b as int) == a) by (nonlinear_arith)
        requires a > 0 && b > 0;
    assert((a * b) as int / (a as int) == b) by (nonlinear_arith)
        requires a > 0 && b > 0;
}

/// `d` divides `n`.
pub open spec fn divides(d: nat, n: nat) -> bool {
    if d == 0 {
        n == 0
    } else {
        n % d == 0
    }
}

proof fn lemma_divides_mul(d: nat, k: nat)
    ensures
        divides(d, d * k),
{
    if d > 0 {
        lemma_mod_multiples_basic(k as int, d as int);
        assert(d * k == k * d) by (nonlinear_arith);
    } else {
        assert(d * k == 0) by (nonlinear_arith)
            requires
                d == 0,
        ;
    }
}

proof fn lemma_divides_factor(d: nat, n: nat)
    requires
        divides(d, n),
        d > 0,
    ensures
        n == d * (n / d),
{
    lemma_fundamental_div_mod(n as int, d as int);
}

proof fn lemma_divides_add(d: nat, x: nat, y: nat)
    requires
        divides(d, x),
        divides(d, y),
    ensures
        divides(d, x + y),
{
    if d > 0 {
        lemma_divides_factor(d, x);
        lemma_divides_factor(d, y);
        assert(x + y == d * (x / d + y / d)) by (nonlinear_arith)
            requires
                x == d * (x / d) && y == d * (y / d),
        ;
        lemma_divides_mul(d, x / d + y / d);
    }
}

proof fn lemma_divides_sub(d: nat, x: nat, y: nat)
    requires
        divides(d, x),
        divides(d, y),
        y <= x,
    ensures
        divides(d, (x - y) as nat),
{
    if d > 0 {
        lemma_divides_factor(d, x);
        lemma_divides_factor(d, y);
        vstd::arithmetic::div_mod::lemma_div_is_ordered(y as int, x as int, d as int);
        assert((x - y) as nat == d * ((x / d - y / d) as nat)) by (nonlinear_arith)
            requires
                x == d * (x / d) && y == d * (y / d) && y / d <= x / d,
        ;
        lemma_divides_mul(d, (x / d - y / d) as nat);
    }
}

proof fn lemma_divides_mul_left(d: nat, c: nat, x: nat)
    requires
        divides(d, x),
    ensures
        divides(d, c * x),
{
    if d == 0 {
        assert(c * x == 0) by (nonlinear_arith)
            requires
                x == 0,
        ;
    } else {
        lemma_divides_factor(d, x);
        assert(c * x == d * (c * (x / d))) by (nonlinear_arith)
            requires
                x == d * (x / d),
        ;
        lemma_divides_mul(d, c * (x / d));
    }
}

/// Divisibility is transitive.
pub proof fn lemma_divides_trans(x: nat, y: nat, z: nat)
    requires
        divides(x, y),
        divides(y, z),
    ensures
        divides(x, z),
{
    if x == 0 {
    } else if y == 0 {
    } else {
        lemma_divides_factor(x, y);
        lemma_divides_factor(y, z);
        assert(z == x * ((y / x) * (z / y))) by (nonlinear_arith)
            requires
                y == x * (y / x) && z == y * (z / y),
        ;
        lemma_divides_mul(x, (y / x) * (z / y));
    }
}

/// Divisibility is antisymmetric on the naturals.
pub proof fn lemma_divides_antisym(x: nat, y: nat)
    requires
        divides(x, y),
        divides(y, x),
    ensures
        x == y,
{
    if x == 0 || y == 0 {
    } else {
        lemma_divides_factor(x, y);
        lemma_divides_factor(y, x);
        assert(x == y) by (nonlinear_arith)
            requires
                x > 0 && y > 0 && y == x * (y / x) && x == y * (x / y),
        ;
    }
}

/// The gcd divides both of its arguments.
pub proof fn lemma_gcd_divides(a: nat, b: nat)
    ensures
        divides(gcd_nat(a, b), a),
        divides(gcd_nat(a, b), b),
    decreases b,
{
    if b == 0 {
        if a > 0 {
            lemma_mod_self_0(a as int);
            lemma_small_mod(0, a);
        }
    } else {
        lemma_gcd_divides(b, a % b);
        let g = gcd_nat(b, a % b);
        lemma_fundamental_div_mod(a as int, b as int);
        assert(b * (a / b) == (a / b) * b) by (nonlinear_arith);
        lemma_divides_mul_left(g, a / b, b);
        lemma_divides_add(g, (a / b) * b, a % b);
        assert(a == (a / b) * b + a % b);
    }
}

/// Every common divisor divides the gcd.
pub proof fn lemma_divides_gcd(d: nat, a: nat, b: nat)
    requires
        divides(d, a),
        divides(d, b),
    ensures
        divides(d, gcd_nat(a, b)),
    decreases b,
{
    if b > 0 {
        lemma_fundamental_div_mod(a as int, b as int);
        vstd::arithmetic::div_mod::lemma_mod_division_less_than_divisor(a as int, b as int);
        assert(b * (a / b) == (a / b) * b) by (nonlinear_arith);
        lemma_divides_mul_left(d, a / b, b);
        assert(a % b == (a - (a / b) * b) as nat);
        lemma_divides_sub(d, a, (a / b) * b);
        lemma_divides_gcd(d, b, a % b);
    }
}

proof fn lemma_scale_decomp(k: nat, a: nat, b: nat, q: nat, r: nat)
    requires
        a == q * b + r,
        r < b,
        k > 0,
    ensures
        k * a == q * (k * b) + k * r,
        k * r < k * b,
        k * b > 0,
{
    assert(k * a == q * (k * b) + k * r && k * r < k * b && k * b > 0) by (nonlinear_arith)
        requires
            a == q * b + r && r < b && k > 0,
    ;
}

/// The gcd scales with a common factor.
proof fn lemma_gcd_scale(k: nat, a: nat, b: nat)
    requires
        k > 0,
    ensures
        gcd_nat(k * a, k * b) == k * gcd_nat(a, b),
    decreases b,
{
    if b == 0 {
        assert(k * b == 0) by (nonlinear_arith)
            requires
                b == 0,
        ;
    } else {
        lemma_fundamental_div_mod(a as int, b as int);
        vstd::arithmetic::div_mod::lemma_mod_division_less_than_divisor(a as int, b as int);
        assert(b * (a / b) == (a / b) * b) by (nonlinear_arith);
        assert(a == (a / b) * b + a % b);
        lemma_scale_decomp(k, a, b, a / b, a % b);
        vstd::arithmetic::div_mod::lemma_fundamental_div_mod_converse_mod(
            (k * a) as int,
            (k * b) as int,
            (a / b) as int,
            (k * (a % b)) as int,
        );
        assert((k * a) % (k * b) == k * (a % b));
        lemma_gcd_scale(k, b, a % b);
    }
}

/// The lcm of positive numbers is a common multiple.
pub proof fn lemma_lcm_multiple(a: nat, b: nat)
    requires
        a > 0,
        b > 0,
    ensures
        divides(a, lcm_nat(a, b)),
        divides(b, lcm_nat(a, b)),
        lcm_nat(a, b) * gcd_nat(a, b) == a * b,
{
    let g = gcd_nat(a, b);
    lemma_gcd_pos(a, b);
    lemma_gcd_divides(a, b);
    lemma_divides_factor(g, a);
    lemma_divides_factor(g, b);
    let a2 = a / g;
    let b2 = b / g;
    assert(a * b == (a * b2) * g) by (nonlinear_arith)
        requires
            b == g * b2,
    ;
    lemma_div_by_multiple((a * b2) as int, g as int);
    assert(lcm_nat(a, b) == a * b2);
    lemma_divides_mul(a, b2);
    assert(a * b == (b * a2) * g) by (nonlinear_arith)
        requires
            a == g * a2,
    ;
    lemma_div_by_multiple((b * a2) as int, g as int);
    assert(((a * b2) * g) / g == ((b * a2) * g) / g);
    assert(lcm_nat(a, b) == b * a2);
    lemma_divides_mul(b, a2);
    assert(lcm_nat(a, b) * g == a * b) by (nonlinear_arith)
        requires
            lcm_nat(a, b) == a * b2 && b == g * b2,
    ;
}

/// The lcm divides every common multiple: it is the least one.
pub proof fn lemma_lcm_least(a: nat, b: nat, c: nat)
    requires
        a > 0,
        b > 0,
        divides(a, c),
        divides(b, c),
    ensures
        divides(lcm_nat(a, b), c),
{
    let g = gcd_nat(a, b);
    let l = lcm_nat(a, b);
    lemma_gcd_pos(a, b);
    lemma_lcm_bounds(a, b);
    lemma_lcm_multiple(a, b);
    if c == 0 {
        lemma_small_mod(0, l);
    } else {
        lemma_divides_factor(a, c);
        lemma_divides_factor(b, c);
        let s = c / a;
        let t = c / b;
        assert(c * a == (a * b) * t) by (nonlinear_arith)
            requires
                c == b * t,
        ;
        assert(c * b == (a * b) * s) by (nonlinear_arith)
            requires
                c == a * s,
        ;
        lemma_divides_mul(a * b, t);
        lemma_divides_mul(a * b, s);
        lemma_divides_gcd(a * b, c * a, c * b);
        lemma_gcd_scale(c, a, b);
        assert(gcd_nat(c * a, c * b) == c * g);
        assert(divides(a * b, c * g));
        assert(a * b > 0) by (nonlinear_arith)
            requires
                a > 0 && b > 0,
        ;
        lemma_divides_factor(a * b, c * g);
        let k = (c * g) / (a * b);
        assert(c * g == (l * k) * g) by (nonlinear_arith)
            requires
                c * g == (a * b) * k && l * g == a * b,
        ;
        assert(c == l * k) by (nonlinear_arith)
            requires
                c * g == (l * k) * g && g > 0,
        ;
        lemma_divides_mul(l, k);
    }
}

/// The gcd is commutative.
pub proof fn lemma_gcd_comm(a: nat, b: nat)
    ensures
        gcd_nat(a, b) == gcd_nat(b, a),
{
    lemma_gcd_divides(a, b);
    lemma_gcd_divides(b, a);
    lemma_divides_gcd(gcd_nat(a, b), b, a);
    lemma_divides_gcd(gcd_nat(b, a), a, b);
    lemma_divides_antisym(gcd_nat(a, b), gcd_nat(b, a));
}

/// The least common multiple is commutative.
pub proof fn lemma_lcm_comm(a: nat, b: nat)
    ensures
        lcm_nat(a, b) == lcm_nat(b, a),
{
    lemma_gcd_comm(a, b);
    assert(a * b == b * a) by (nonlinear_arith);
}

/// The least common multiple is associative.
pub proof fn lemma_lcm_assoc(x: nat, y: nat, z: nat)
    ensures
        lcm_nat(x, lcm_nat(y, z)) == lcm_nat(lcm_nat(x, y), z),
{
    if x == 0 || y == 0 || z == 0 {
    } else {
        let yz = lcm_nat(y, z);
        let xy = lcm_nat(x, y);
        lemma_lcm_bounds(y, z);
        lemma_lcm_bounds(x, y);
        let l1 = lcm_nat(x, yz);
        let l2 = lcm_nat(xy, z);
        lemma_lcm_bounds(x, yz);
        lemma_lcm_bounds(xy, z);
        lemma_lcm_multiple(y, z);
        lemma_lcm_multiple(x, y);
        lemma_lcm_multiple(x, yz);
        lemma_lcm_multiple(xy, z);
        // every leaf divides l2
        lemma_divides_trans(x, xy, l2);
        lemma_divides_trans(y, xy, l2);
        lemma_lcm_least(y, z, l2);
        lemma_lcm_least(x, yz, l2);
        // and every leaf divides l1
        lemma_divides_trans(z, yz, l1);
        lemma_divides_trans(y, yz, l1);
        lemma_lcm_least(x, y, l1);
        lemma_lcm_least(xy, z, l1);
        lemma_divides_antisym(l1, l2);
    }
}

/// Greatest common divisor of two numbers, by the Euclidean algorithm.
/// Zero arguments are answered directly: the gcd is then the other argument.
pub fn gcd(x: usize, y: usize) -> (r: usize)
    ensures
        r == gcd_nat(x as nat, y as nat),
{
    if x == 0 {
        proof {
            if y != 0 {
                lemma_small_mod(0, y as nat);
                assert(gcd_nat(y as nat, 0) == y);
                assert(gcd_nat(0, y as nat) == gcd_nat(y as nat, 0));
            }
        }
        return y;
    }
    if y == 0 {
        return x;
    }
    let mut max: usize = x;
    let mut min: usize = y;
    if min > max {
        let val: usize = max;
        max = min;
        min = val;
        proof {
            // gcd(x, y) == gcd(y, x) when x < y: the first step of Euclid swaps them
            lemma_small_mod(x as nat, y as nat);
        }
    }
    loop
        invariant
            1 <= min <= max,
            gcd_nat(max as nat, min as nat) == gcd_nat(x as nat, y as nat),
        decreases min,
    {
        let res: usize = max % min;
        if res == 0 {
            proof {
                assert(gcd_nat(min as nat, 0) == min);
                assert(gcd_nat(max as nat, min as nat) == gcd_nat(min as nat, 0));
            }
            return min;
        }
        max = min;
        min = res;
    }
}

/// The factorial function.
pub open spec fn fact(n: nat) -> nat
    decreases n,
{
    if n == 0 {
        1
    } else {
        n * fact((n - 1) as nat)
    }
}

pub proof fn lemma_fact_pos(n: nat)
    ensures
        fact(n) >= 1,
    decreases n,
{
    if n > 0 {
        lemma_fact_pos((n - 1) as nat);
        assert(n * fact((n - 1) as nat) >= 1) by (nonlinear_arith)
            requires
                n >= 1 && fact((n - 1) as nat) >= 1,
        ;
    }
}

/// Every ordering in `ps`, with `x` put in front.
pub open spec fn prepend_each<T>(x: T, ps: Seq<Seq<T>>) -> Seq<Seq<T>> {
    ps.map_values(|p: Seq<T>| seq![x] + p)
}

/// All orderings of `s`: for each position `k` in turn, the orderings that
/// start with `s[k]` and continue with an ordering of the rest.  An empty
/// sequence has exactly one ordering, itself.
pub open spec fn perm_seqs<T>(s: Seq<T>) -> Seq<Seq<T>>
    decreases s.len(), s.len() + 1,
{
    if s.len() == 0 {
        seq![Seq::<T>::empty()]
    } else {
        perm_blocks(s, 0)
    }
}

/// The tail of the enumeration of `perm_seqs(s)`: the orderings whose first
/// element is drawn from position `k` or later.
pub open spec fn perm_blocks<T>(s: Seq<T>, k: int) -> Seq<Seq<T>>
    decreases s.len(), s.len() - k,
{
    if 0 <= k < s.len() {
        prepend_each(s[k], perm_seqs(s.remove(k))) + perm_blocks(s, k + 1)
    } else {
        Seq::<Seq<T>>::empty()
    }
}

/// The sequence of element sequences underlying a list of vectors.
pub open spec fn views_of<T>(vs: Seq<Vec<T>>) -> Seq<Seq<T>> {
    vs.map_values(|v: Vec<T>| v@)
}

proof fn lemma_views_push<T>(vs: Seq<Vec<T>>, v: Vec<T>)
    ensures
        views_of(vs.push(v)) == views_of(vs).push(v@),
{
    assert(views_of(vs.push(v)) =~= views_of(vs).push(v@));
}

/// An input of length `n` has exactly `n!` orderings.
pub proof fn lemma_perm_seqs_len<T>(s: Seq<T>)
    ensures
        perm_seqs(s).len() == fact(s.len()),
    decreases s.len(), s.len() + 1,
{
    if s.len() > 0 {
        lemma_perm_blocks_len(s, 0);
    }
}

proof fn lemma_perm_blocks_len<T>(s: Seq<T>, k: int)
    requires
        0 <= k <= s.len(),
    ensures
        perm_blocks(s, k).len() == (s.len() - k) * fact((s.len() - 1) as nat),
    decreases s.len(), s.len() - k,
{
    if k < s.len() {
        lemma_perm_seqs_len(s.remove(k));
        lemma_perm_blocks_len(s, k + 1);
        let block = prepend_each(s[k], perm_seqs(s.remove(k)));
        assert(s.remove(k).len() == s.len() - 1);
        assert(block.len() == fact((s.len() - 1) as nat));
        assert(perm_blocks(s, k).len() == block.len() + perm_blocks(s, k + 1).len());
        assert((s.len() - k) * fact((s.len() - 1) as nat) == fact((s.len() - 1) as nat) + (s.len()
            - (k + 1)) * fact((s.len() - 1) as nat)) by (nonlinear_arith);
    } else {
        assert(perm_blocks(s, k).len() == 0);
        assert((s.len() - k) * fact((s.len() - 1) as nat) == 0) by (nonlinear_arith)
            requires
                k == s.len(),
        ;
    }
}

/// Each enumerated ordering holds exactly the elements of the input:
/// its multiset of elements is the input's multiset.
pub proof fn lemma_perm_seqs_multiset<T>(s: Seq<T>, i: int)
    requires
        0 <= i < perm_seqs(s).len(),
    ensures
        perm_seqs(s)[i].to_multiset() == s.to_multiset(),
        perm_seqs(s)[i].len() == s.len(),
    decreases s.len(), s.len() + 1,
{
    broadcast use vstd::seq_lib::group_to_multiset_ensures;

    if s.len() == 0 {
        assert(perm_seqs(s)[i] =~= s);
    } else {
        lemma_perm_blocks_multiset(s, 0, i);
        assert(perm_seqs(s)[i].to_multiset().len() == s.to_multiset().len());
    }
}

proof fn lemma_perm_blocks_multiset<T>(s: Seq<T>, k: int, i: int)
    requires
        0 <= k < s.len(),
        0 <= i < perm_blocks(s, k).len(),
    ensures
        perm_blocks(s, k)[i].to_multiset() == s.to_multiset(),
    decreases s.len(), s.len() - k,
{
    broadcast use vstd::seq_lib::group_to_multiset_ensures;

    let rest = s.remove(k);
    let block = prepend_each(s[k], perm_seqs(rest));
    if i < block.len() {
        let q = perm_seqs(rest)[i];
        lemma_perm_seqs_multiset(rest, i);
        assert(block[i] == seq![s[k]] + q);
        assert(seq![s[k]] + q =~= q.insert(0, s[k]));
        assert(q.insert(0, s[k]).to_multiset() =~= q.to_multiset().insert(s[k]));
        assert(rest.to_multiset() == s.to_multiset().remove(s[k]));
        assert(s.to_multiset().count(s[k]) > 0) by {
            assert(s.contains(s[k]));
        }
        assert(s.to_multiset().remove(s[k]).insert(s[k]) =~= s.to_multiset());
    } else {
        assert(perm_blocks(s, k).len() == block.len() + perm_blocks(s, k + 1).len());
        if k + 1 >= s.len() {
            assert(perm_blocks(s, k + 1) =~= Seq::<Seq<T>>::empty());
        }
        lemma_perm_blocks_multiset(s, k + 1, i - block.len());
    }
}

/// Completeness of the enumeration: any sequence holding exactly the
/// elements of `s` occurs among the orderings of `s`.
pub proof fn lemma_perm_seqs_complete<T>(s: Seq<T>, p: Seq<T>)
    requires
        p.to_multiset() == s.to_multiset(),
    ensures
        perm_seqs(s).contains(p),
    decreases s.len(),
{
    broadcast use vstd::seq_lib::group_to_multiset_ensures;

    vstd::seq_lib::to_multiset_len(p);
    vstd::seq_lib::to_multiset_len(s);
    assert(p.len() == s.len());
    if s.len() == 0 {
        assert(p =~= Seq::<T>::empty());
        assert(perm_seqs(s)[0] == p);
    } else {
        let x = p[0];
        assert(p.contains(x));
        assert(s.to_multiset().count(x) > 0);
        assert(s.contains(x));
        let k = choose|k: int| 0 <= k < s.len() && s[k] == x;
        let rest = s.remove(k);
        let q = p.remove(0);
        assert(q.to_multiset() == p.to_multiset().remove(x));
        assert(rest.to_multiset() == s.to_multiset().remove(x));
        lemma_perm_seqs_complete(rest, q);
        let m = choose|m: int| 0 <= m < perm_seqs(rest).len() && perm_seqs(rest)[m] == q;
        let block = prepend_each(s[k], perm_seqs(rest));
        assert(block[m] == seq![x] + q);
        assert(seq![x] + q =~= p);
        assert(block.contains(p));
        lemma_perm_blocks_super(s, 0, k, p);
    }
}

proof fn lemma_perm_blocks_super<T>(s: Seq<T>, j: int, k: int, e: Seq<T>)
    requires
        0 <= j <= k < s.len(),
        prepend_each(s[k], perm_seqs(s.remove(k))).contains(e),
    ensures
        perm_blocks(s, j).contains(e),
    decreases k - j,
{
    let block = prepend_each(s[j], perm_seqs(s.remove(j)));
    if j == k {
        let m = choose|m: int| 0 <= m < block.len() && block[m] == e;
        assert(perm_blocks(s, j)[m] == e);
    } else {
        lemma_perm_blocks_super(s, j + 1, k, e);
        let m = choose|m: int| 0 <= m < perm_blocks(s, j + 1).len() && #[trigger] perm_blocks(
            s,
            j + 1,
        )[m] == e;
        assert(perm_blocks(s, j)[block.len() + m] == e);
    }
}

/// For an input with no repeated elements the enumerated orderings are
/// pairwise distinct: together with their count of `n!` and their element
/// multisets, the enumeration yields exactly the distinct full
/// permutations.
pub proof fn lemma_perm_seqs_distinct<T>(s: Seq<T>, i: int, j: int)
    requires
        forall|m: int, m2: int| 0 <= m < m2 < s.len() ==> s[m] != s[m2],
        0 <= i < j < perm_seqs(s).len(),
    ensures
        perm_seqs(s)[i] != perm_seqs(s)[j],
    decreases s.len(), s.len() + 1,
{
    if s.len() > 0 {
        lemma_perm_blocks_distinct(s, 0, i, j);
    }
}

proof fn lemma_perm_blocks_first<T>(s: Seq<T>, k: int, i: int)
    requires
        0 <= k < s.len(),
        0 <= i < perm_blocks(s, k).len(),
    ensures
        perm_blocks(s, k)[i].len() == s.len(),
        exists|m: int| k <= m < s.len() && perm_blocks(s, k)[i][0] == s[m],
    decreases s.len(), s.len() - k,
{
    broadcast use vstd::seq_lib::group_to_multiset_ensures;

    let block = prepend_each(s[k], perm_seqs(s.remove(k)));
    if i < block.len() {
        let q = perm_seqs(s.remove(k))[i];
        lemma_perm_seqs_multiset(s.remove(k), i);
        assert(block[i] == seq![s[k]] + q);
        assert(block[i][0] == s[k]);
        assert(k <= k < s.len() && perm_blocks(s, k)[i][0] == s[k]);
    } else {
        if k + 1 >= s.len() {
            assert(perm_blocks(s, k + 1) =~= Seq::<Seq<T>>::empty());
        }
        lemma_perm_blocks_first(s, k + 1, i - block.len());
        let m = choose|m: int|
            k + 1 <= m < s.len() && #[trigger] perm_blocks(s, k + 1)[i - block.len()][0] == s[m];
        assert(k <= m < s.len() && perm_blocks(s, k)[i][0] == s[m]);
    }
}

proof fn lemma_perm_blocks_distinct<T>(s: Seq<T>, k: int, i: int, j: int)
    requires
        forall|m: int, m2: int| 0 <= m < m2 < s.len() ==> s[m] != s[m2],
        0 <= k < s.len(),
        0 <= i < j < perm_blocks(s, k).len(),
    ensures
        perm_blocks(s, k)[i] != perm_blocks(s, k)[j],
    decreases s.len(), s.len() - k,
{
    let rest = s.remove(k);
    let block = prepend_each(s[k], perm_seqs(rest));
    if j < block.len() {
        // both in the same block: distinct tails
        let p = perm_seqs(rest)[i];
        let q = perm_seqs(rest)[j];
        s.remove_ensures(k);
        assert forall|m: int, m2: int| 0 <= m < m2 < rest.len() implies rest[m] != rest[m2] by {
            if m < k && m2 < k {
                assert(rest[m] == s[m] && rest[m2] == s[m2]);
            } else if m < k {
                assert(rest[m] == s[m] && rest[m2] == s[m2 + 1]);
            } else {
                assert(rest[m] == s[m + 1] && rest[m2] == s[m2 + 1]);
            }
        }
        lemma_perm_seqs_distinct(rest, i, j);
        assert(block[i] == seq![s[k]] + p);
        assert(block[j] == seq![s[k]] + q);
        if block[i] == block[j] {
            assert(p =~= q) by {
                assert(forall|t: int| 0 <= t < p.len() ==> p[t] == (seq![s[k]] + p)[t + 1]);
                lemma_perm_seqs_multiset(rest, i);
                lemma_perm_seqs_multiset(rest, j);
            }
        }
    } else if i >= block.len() {
        if k + 1 >= s.len() {
            assert(perm_blocks(s, k + 1) =~= Seq::<Seq<T>>::empty());
        }
        lemma_perm_blocks_distinct(s, k + 1, i - block.len(), j - block.len());
    } else {
        // i in the first block, j in a later one: the first elements differ
        let p = perm_seqs(rest)[i];
        lemma_perm_seqs_multiset(rest, i);
        assert(block[i] == seq![s[k]] + p);
        assert(perm_blocks(s, k)[i][0] == s[k]);
        if k + 1 >= s.len() {
            assert(perm_blocks(s, k + 1) =~= Seq::<Seq<T>>::empty());
        }
        lemma_perm_blocks_first(s, k + 1, j - block.len());
        let m = choose|m: int|
            k + 1 <= m < s.len() && #[trigger] perm_blocks(s, k + 1)[j - block.len()][0] == s[m];
        assert(perm_blocks(s, k)[j][0] == s[m]);
        assert(s[k] != s[m]);
    }
}

/// Enumerating the orderings commutes with mapping a function over the
/// elements.
pub proof fn lemma_perm_seqs_map<T, U>(s: Seq<T>, f: spec_fn(T) -> U)
    ensures
        perm_seqs(s.map_values(f)) == perm_seqs(s).map_values(|p: Seq<T>| p.map_values(f)),
    decreases s.len(), s.len() + 1,
{
    if s.len() == 0 {
        assert(perm_seqs(s.map_values(f)) =~= perm_seqs(s).map_values(
            |p: Seq<T>| p.map_values(f),
        )) by {
            assert(s.map_values(f).len() == 0);
            assert(Seq::<T>::empty().map_values(f) =~= Seq::<U>::empty());
        }
    } else {
        lemma_perm_blocks_map(s, 0, f);
        assert(perm_seqs(s.map_values(f)) == perm_blocks(s.map_values(f), 0));
    }
}

proof fn lemma_perm_blocks_map<T, U>(s: Seq<T>, k: int, f: spec_fn(T) -> U)
    requires
        0 <= k <= s.len(),
    ensures
        perm_blocks(s.map_values(f), k) == perm_blocks(s, k).map_values(
            |p: Seq<T>| p.map_values(f),
        ),
    decreases s.len(), s.len() - k,
{
    let g = |p: Seq<T>| p.map_values(f);
    let sm = s.map_values(f);
    if k < s.len() {
        lemma_perm_seqs_map(s.remove(k), f);
        lemma_perm_blocks_map(s, k + 1, f);
        assert(sm.remove(k) =~= s.remove(k).map_values(f));
        let blk = prepend_each(s[k], perm_seqs(s.remove(k)));
        let blkm = prepend_each(sm[k], perm_seqs(sm.remove(k)));
        assert(blkm =~= blk.map_values(g)) by {
            assert forall|i: int| 0 <= i < blk.len() implies blkm[i] == g(blk[i]) by {
                let q = perm_seqs(s.remove(k))[i];
                assert(blkm[i] == seq![f(s[k])] + q.map_values(f));
                assert(g(blk[i]) == (seq![s[k]] + q).map_values(f));
                assert((seq![s[k]] + q).map_values(f) =~= seq![f(s[k])] + q.map_values(f));
            }
        }
        assert(perm_blocks(sm, k) =~= perm_blocks(s, k).map_values(g));
    } else {
        assert(perm_blocks(sm, k) =~= perm_blocks(s, k).map_values(g));
    }
}

/// All orderings of the elements of `list`, one vector per ordering.
/// An empty input yields an empty list of orderings; any other input of
/// length `n` yields its `n!` orderings.
pub fn permutations<T: Eq + Copy>(list: &Vec<T>) -> (r: Vec<Vec<T>>)
    ensures
        list@.len() == 0 ==> r@ == Seq::<Vec<T>>::empty(),
        list@.len() > 0 ==> views_of(r@) == perm_seqs(list@),
{
    if list.len() == 0 {
        let r: Vec<Vec<T>> = Vec::new();
        return r;
    }
    permutation_helper(list)
}

/// Recursive enumeration behind [`permutations`]: here an empty input has
/// one ordering (the empty one), which makes the recursion uniform.
pub fn permutation_helper<T: Eq + Copy>(list: &Vec<T>) -> (r: Vec<Vec<T>>)
    ensures
        views_of(r@) == perm_seqs(list@),
    decreases list@.len(),
{
    let ghost s = list@;
    let mut out: Vec<Vec<T>> = Vec::new();
    if list.len() == 0 {
        let empty: Vec<T> = Vec::new();
        out.push(empty);
        proof {
            assert(views_of(out@) =~= perm_seqs(s));
        }
        return out;
    }
    let n: usize = list.len();
    let mut k: usize = 0;
    while k < n
        invariant
            n == s.len(),
            list@ == s,
            0 <= k <= n,
            views_of(out@) + perm_blocks(s, k as int) == perm_blocks(s, 0),
        decreases n - k,
    {
        // the input with position k taken out
        let mut rest: Vec<T> = Vec::new();
        let mut j: usize = 0;
        while j < n
            invariant
                n == s.len(),
                list@ == s,
                k < n,
                0 <= j <= n,
                rest@ == if j <= k {
                    s.take(j as int)
                } else {
                    s.take(k as int) + s.subrange(k as int + 1, j as int)
                },
            decreases n - j,
        {
            if j != k {
                rest.push(list[j]);
                proof {
                    if j < k {
                        assert(rest@ =~= s.take(j + 1));
                    } else if j == k + 1 {
                        assert(rest@ =~= s.take(k as int) + s.subrange(k as int + 1, j + 1));
                    } else {
                        assert(rest@ =~= s.take(k as int) + s.subrange(k as int + 1, j + 1));
                    }
                }
            } else {
                proof {
                    assert(rest@ =~= s.take(k as int) + s.subrange(k as int + 1, k as int + 1));
                }
            }
            j += 1;
        }
        proof {
            assert(rest@ =~= s.remove(k as int));
        }
        let sub = permutation_helper(&rest);
        let x = list[k];
        let ghost block = prepend_each(s[k as int], perm_seqs(s.remove(k as int)));
        let ghost out0 = out@;
        let mut m: usize = 0;
        while m < sub.len()
            invariant
                views_of(sub@) == perm_seqs(s.remove(k as int)),
                x == s[k as int],
                0 <= m <= sub@.len(),
                block == prepend_each(s[k as int], perm_seqs(s.remove(k as int))),
                out@.len() == out0.len() + m,
                out@.take(out0.len() as int) == out0,
                views_of(out@) == views_of(out0) + block.take(m as int),
            decreases sub@.len() - m,
        {
            let mut p: Vec<T> = Vec::new();
            p.push(x);
            let q: &Vec<T> = &sub[m];
            let mut t: usize = 0;
            while t < q.len()
                invariant
                    0 <= t <= q@.len(),
                    p@ == seq![x] + q@.take(t as int),
                decreases q@.len() - t,
            {
                p.push(q[t]);
                proof {
                    assert(p@ =~= seq![x] + q@.take(t + 1));
                }
                t += 1;
            }
            proof {
                assert(q@.take(q@.len() as int) =~= q@);
                assert(p@ == seq![x] + q@);
                assert(*q == sub@[m as int]);
                assert(views_of(sub@)[m as int] == sub@[m as int]@);
                assert(block[m as int] == seq![x] + sub@[m as int]@);
                assert(p@ == block[m as int]);
            }
            let ghost outp = out@;
            let ghost pv = p@;
            out.push(p);
            proof {
                lemma_views_push(outp, out@[outp.len() as int]);
                assert(out@[outp.len() as int]@ == pv);
                assert(out@ == outp.push(out@[outp.len() as int]));
                assert(views_of(out@) == views_of(outp).push(pv));
                assert(block.take(m + 1) =~= block.take(m as int).push(block[m as int]));
                assert((views_of(out0) + block.take(m as int)).push(pv) =~= views_of(out0)
                    + block.take(m as int).push(pv));
                assert(out@.take(out0.len() as int) =~= out0);
            }
            m += 1;
        }
        proof {
            assert(block.take(block.len() as int) =~= block);
            assert(views_of(out@) == views_of(out0) + block);
            assert(perm_blocks(s, k as int) == block + perm_blocks(s, k as int + 1));
            assert(views_of(out@) + perm_blocks(s, k as int + 1) =~= (views_of(out0)
                + perm_blocks(s, k as int)));
            assert(views_of(out@) + perm_blocks(s, k as int + 1) =~= perm_blocks(s, 0));
        }
        k += 1;
    }
    proof {
        assert(perm_blocks(s, n as int) =~= Seq::<Seq<T>>::empty());
        assert(views_of(out@) =~= views_of(out@) + perm_blocks(s, n as int));
        assert(perm_seqs(s) == perm_blocks(s, 0));
    }
    out
}

/// Lowest common multiple of two numbers, as the product divided by the gcd.
pub fn lcm(x: usize, y: usize) -> (r: usize)
    requires
        !(x == 0 && y == 0),
        x * y <= usize::MAX,
    ensures
        r == lcm_nat(x as nat, y as nat),
{
    proof {
        lemma_gcd_pos(x as nat, y as nat);
        if x == 0 || y == 0 {
            lemma_div_pos_is_pos(0, gcd_nat(x as nat, y as nat) as int);
            lemma_div_nonincreasing(0, gcd_nat(x as nat, y as nat) as int);
        }
    }
    x * y / gcd(x, y)
}

} // verus!
