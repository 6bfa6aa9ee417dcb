//! Digit sequences read as base-36 numbers, and the order of keys.
use vstd::prelude::*;
use vstd::arithmetic::div_mod::{lemma_fundamental_div_mod, lemma_fundamental_div_mod_converse};
use crate::alphabet::valid_digit;

verus! {

/// `36` raised to the power `n`.
pub open spec fn pow36(n: nat) -> int
    decreases n,
{
    if n == 0 {
        1
    } else {
        36 * pow36((n - 1) as nat)
    }
}

/// The integer that `s` denotes in base 36, most significant digit first.
pub open spec fn value(s: Seq<u8>) -> int
    decreases s.len(),
{
    if s.len() == 0 {
        0
    } else {
        value(s.drop_last()) * 36 + s.last() as int
    }
}

/// Every element of `s` is a digit of the alphabet.
pub open spec fn all_digits(s: Seq<u8>) -> bool {
    forall|i: int| 0 <= i < s.len() ==> valid_digit(#[trigger] s[i])
}

/// A well-formed key: non-empty, digits only, and not ending in the smallest digit.
pub open spec fn wf_digits(s: Seq<u8>) -> bool {
    s.len() > 0 && all_digits(s) && s.last() != 0
}

/// The first `n` digits of `s` followed by its implicit suffix of smallest digits.
pub open spec fn pad(s: Seq<u8>, n: nat) -> Seq<u8> {
    Seq::new(n, |i: int| if i < s.len() { s[i] } else { 0u8 })
}

/// The last `n` base-36 digits of `v`.
pub open spec fn digits_of(v: int, n: nat) -> Seq<u8>
    decreases n,
{
    if n == 0 {
        Seq::empty()
    } else {
        digits_of(v / 36, (n - 1) as nat).push((v % 36) as u8)
    }
}

/// `a` and `b` agree before position `j` and `a` is smaller at `j`.
pub open spec fn lt_at(a: Seq<u8>, b: Seq<u8>, j: int) -> bool {
    0 <= j < a.len() && j < b.len() && a.subrange(0, j) == b.subrange(0, j) && a[j] < b[j]
}

/// `a` is a strict prefix of `b`.
pub open spec fn proper_prefix(a: Seq<u8>, b: Seq<u8>) -> bool {
    a.len() < b.len() && a == b.subrange(0, a.len() as int)
}

/// Lexicographic order of digit sequences.
pub open spec fn key_lt(a: Seq<u8>, b: Seq<u8>) -> bool {
    (exists|j: int| lt_at(a, b, j)) || proper_prefix(a, b)
}

pub proof fn lemma_pow36_pos(n: nat)
    ensures
        pow36(n) >= 1,
    decreases n,
{
    if n > 0 {
        lemma_pow36_pos((n - 1) as nat);
    }
}

pub proof fn lemma_all_digits_sub(s: Seq<u8>, a: int, b: int)
    requires
        all_digits(s),
        0 <= a <= b <= s.len(),
    ensures
        all_digits(s.subrange(a, b)),
{
    assert forall|i: int| 0 <= i < b - a implies valid_digit(#[trigger] s.subrange(a, b)[i]) by {
        assert(s.subrange(a, b)[i] == s[a + i]);
    }
}

pub proof fn lemma_pad_digits(s: Seq<u8>, n: nat)
    requires
        all_digits(s),
    ensures
        all_digits(pad(s, n)),
{
    assert forall|i: int| 0 <= i < n implies valid_digit(#[trigger] pad(s, n)[i]) by {
        if i < s.len() {
            assert(valid_digit(s[i]));
        }
    }
}

/// Splitting a sequence at `k` splits its value.
pub proof fn lemma_value_split(s: Seq<u8>, k: int)
    requires
        0 <= k <= s.len(),
    ensures
        value(s) == value(s.subrange(0, k)) * pow36((s.len() - k) as nat) + value(
            s.subrange(k, s.len() as int),
        ),
    decreases s.len(),
{
    let n = s.len() as int;
    if k == n {
        assert(s.subrange(0, k) =~= s);
        assert(s.subrange(k, n).len() == 0);
    } else {
        let d = s.drop_last();
        lemma_value_split(d, k);
        let t = s.subrange(k, n);
        assert(d.subrange(0, k) =~= s.subrange(0, k));
        assert(t.drop_last() =~= d.subrange(k, n - 1));
        let a = value(s.subrange(0, k));
        let p = pow36((n - 1 - k) as nat);
        let vd = value(t.drop_last());
        assert(pow36((n - k) as nat) == 36 * p);
        assert(value(d) == a * p + vd);
        assert(value(t) == vd * 36 + t.last() as int);
        assert((a * p + vd) * 36 == a * (36 * p) + vd * 36) by (nonlinear_arith);
    }
}

/// The value of a sequence of digits is below the next power of 36.
pub proof fn lemma_value_bounds(s: Seq<u8>)
    requires
        all_digits(s),
    ensures
        0 <= value(s) < pow36(s.len()),
    decreases s.len(),
{
    if s.len() > 0 {
        let d = s.drop_last();
        lemma_all_digits_sub(s, 0, s.len() - 1);
        assert(d =~= s.subrange(0, s.len() - 1));
        lemma_value_bounds(d);
        let v = value(d);
        let p = pow36(d.len());
        let l = s.last() as int;
        assert(valid_digit(s[s.len() - 1]));
        assert(0 <= v * 36 + l < p * 36) by (nonlinear_arith)
            requires
                0 <= v < p,
                0 <= l <= 35,
        ;
    }
}

/// Changing one digit changes the value by the difference times its weight.
pub proof fn lemma_value_update(s: Seq<u8>, i: int, x: u8)
    requires
        0 <= i < s.len(),
    ensures
        value(s.update(i, x)) == value(s) + (x - s[i]) * pow36((s.len() - 1 - i) as nat),
{
    let u = s.update(i, x);
    let n = s.len() as int;
    lemma_value_split(s, i + 1);
    lemma_value_split(u, i + 1);
    assert(u.subrange(i + 1, n) =~= s.subrange(i + 1, n));
    assert(u.subrange(0, i + 1).drop_last() =~= s.subrange(0, i + 1).drop_last());
    let p = pow36((n - 1 - i) as nat);
    let pre = value(s.subrange(0, i + 1).drop_last());
    assert(value(s.subrange(0, i + 1)) == pre * 36 + s[i]);
    assert(value(u.subrange(0, i + 1)) == pre * 36 + x);
    assert((pre * 36 + x) * p == (pre * 36 + s[i]) * p + (x - s[i]) * p) by (nonlinear_arith);
}

/// A digit above the smallest one at position `i` gives the sequence at least its weight.
pub proof fn lemma_value_at_least(s: Seq<u8>, i: int)
    requires
        all_digits(s),
        0 <= i < s.len(),
        s[i] > 0,
    ensures
        value(s) >= pow36((s.len() - 1 - i) as nat),
{
    let u = s.update(i, 0);
    lemma_value_update(s, i, 0);
    assert forall|t: int| 0 <= t < u.len() implies valid_digit(#[trigger] u[t]) by {
        assert(valid_digit(s[t]));
    }
    lemma_value_bounds(u);
    let p = pow36((s.len() - 1 - i) as nat);
    lemma_pow36_pos((s.len() - 1 - i) as nat);
    let d = s[i] as int;
    assert(d * p >= p) by (nonlinear_arith)
        requires
            d >= 1,
            p >= 1,
    ;
    assert((0 - d) * p == -(d * p)) by (nonlinear_arith);
}

/// A sequence of smallest digits has value zero.
pub proof fn lemma_value_zeros(s: Seq<u8>)
    requires
        forall|i: int| 0 <= i < s.len() ==> s[i] == 0,
    ensures
        value(s) == 0,
    decreases s.len(),
{
    if s.len() > 0 {
        let d = s.drop_last();
        assert forall|i: int| 0 <= i < d.len() implies d[i] == 0 by {
            assert(d[i] == s[i]);
        }
        lemma_value_zeros(d);
    }
}

/// Of two digit sequences of one length, the one smaller at the first difference has the
/// smaller value.
pub proof fn lemma_value_lt_at(x: Seq<u8>, y: Seq<u8>, j: int)
    requires
        x.len() == y.len(),
        all_digits(x),
        all_digits(y),
        lt_at(x, y, j),
    ensures
        value(x) < value(y),
{
    let n = x.len() as int;
    lemma_value_split(x, j + 1);
    lemma_value_split(y, j + 1);
    let xr = x.subrange(j + 1, n);
    let yr = y.subrange(j + 1, n);
    lemma_all_digits_sub(x, j + 1, n);
    lemma_all_digits_sub(y, j + 1, n);
    lemma_value_bounds(xr);
    lemma_value_bounds(yr);
    assert(x.subrange(0, j + 1).drop_last() =~= x.subrange(0, j));
    assert(y.subrange(0, j + 1).drop_last() =~= y.subrange(0, j));
    let pre = value(x.subrange(0, j));
    let p = pow36((n - 1 - j) as nat);
    let vx = value(xr);
    let vy = value(yr);
    let dx = x[j] as int;
    let dy = y[j] as int;
    assert(value(x.subrange(0, j + 1)) == pre * 36 + dx);
    assert(value(y.subrange(0, j + 1)) == pre * 36 + dy);
    assert((pre * 36 + dx) * p + vx < (pre * 36 + dy) * p + vy) by (nonlinear_arith)
        requires
            dx + 1 <= dy,
            0 <= vx < p,
            0 <= vy,
    ;
}

/// Of two digit sequences of one length, the one of smaller value is smaller at some
/// position where they first differ.
pub proof fn lemma_value_lt_index(x: Seq<u8>, y: Seq<u8>) -> (j: int)
    requires
        x.len() == y.len(),
        all_digits(x),
        all_digits(y),
        value(x) < value(y),
    ensures
        lt_at(x, y, j),
    decreases x.len(),
{
    let n = x.len() as int;
    if n == 0 {
        assert(false);
        0
    } else {
        lemma_value_split(x, 1);
        lemma_value_split(y, 1);
        assert(value(x.subrange(0, 1).drop_last()) == 0);
        assert(value(y.subrange(0, 1).drop_last()) == 0);
        assert(value(x.subrange(0, 1)) == x[0]);
        assert(value(y.subrange(0, 1)) == y[0]);
        assert(x.subrange(0, 0) =~= y.subrange(0, 0));
        if x[0] < y[0] {
            0
        } else if x[0] > y[0] {
            lemma_value_lt_at(y, x, 0);
            0
        } else {
            let xs = x.subrange(1, n);
            let ys = y.subrange(1, n);
            lemma_all_digits_sub(x, 1, n);
            lemma_all_digits_sub(y, 1, n);
            let k = lemma_value_lt_index(xs, ys);
            assert forall|t: int| 0 <= t < k + 1 implies x[t] == y[t] by {
                if t > 0 {
                    assert(xs.subrange(0, k)[t - 1] == ys.subrange(0, k)[t - 1]);
                }
            }
            assert(x.subrange(0, k + 1) =~= y.subrange(0, k + 1));
            k + 1
        }
    }
}

/// Reading a sequence of digits and writing its value back gives the sequence.
pub proof fn lemma_digits_of_value(s: Seq<u8>)
    requires
        all_digits(s),
    ensures
        digits_of(value(s), s.len()) == s,
    decreases s.len(),
{
    if s.len() == 0 {
        assert(digits_of(value(s), 0) =~= s);
    } else {
        let d = s.drop_last();
        lemma_all_digits_sub(s, 0, s.len() - 1);
        assert(d =~= s.subrange(0, s.len() - 1));
        lemma_digits_of_value(d);
        assert(valid_digit(s[s.len() - 1]));
        lemma_fundamental_div_mod_converse(value(s), 36, value(d), s.last() as int);
        assert(d.push(s.last()) =~= s);
    }
}

/// Writing a value in range as digits and reading it back gives the value.
pub proof fn lemma_value_digits_of(v: int, n: nat)
    requires
        0 <= v < pow36(n),
    ensures
        digits_of(v, n).len() == n,
        all_digits(digits_of(v, n)),
        value(digits_of(v, n)) == v,
    decreases n,
{
    if n > 0 {
        let q = v / 36;
        let r = v % 36;
        lemma_fundamental_div_mod(v, 36);
        let p = pow36((n - 1) as nat);
        assert(0 <= q < p && 0 <= r < 36) by (nonlinear_arith)
            requires
                v == 36 * q + r,
                0 <= v < 36 * p,
                r == v % 36,
        ;
        lemma_value_digits_of(q, (n - 1) as nat);
        let ds = digits_of(q, (n - 1) as nat);
        let res = ds.push(r as u8);
        assert(res.drop_last() =~= ds);
        assert forall|i: int| 0 <= i < res.len() implies valid_digit(#[trigger] res[i]) by {
            if i < ds.len() {
                assert(res[i] == ds[i]);
            }
        }
    }
}

/// Growing the padding from `n` to `m` digits scales the value by the weight of the new
/// digits, plus less than one unit of the old last place.
pub proof fn lemma_pad_value(s: Seq<u8>, n: nat, m: nat)
    requires
        all_digits(s),
        n <= m,
    ensures
        value(pad(s, n)) * pow36((m - n) as nat) <= value(pad(s, m)),
        value(pad(s, m)) < (value(pad(s, n)) + 1) * pow36((m - n) as nat),
        n >= s.len() ==> value(pad(s, m)) == value(pad(s, n)) * pow36((m - n) as nat),
{
    let pm = pad(s, m);
    lemma_pad_digits(s, m);
    lemma_value_split(pm, n as int);
    assert(pm.subrange(0, n as int) =~= pad(s, n));
    let rest = pm.subrange(n as int, m as int);
    lemma_all_digits_sub(pm, n as int, m as int);
    lemma_value_bounds(rest);
    if n >= s.len() {
        lemma_value_zeros(rest);
    }
    let a = value(pad(s, n));
    let p = pow36((m - n) as nat);
    assert(a * p + value(rest) < (a + 1) * p) by (nonlinear_arith)
        requires
            value(rest) < p,
    ;
}

/// Padded to a common length, keys compare as their values do.
pub proof fn lemma_key_lt_value(a: Seq<u8>, b: Seq<u8>, n: nat)
    requires
        wf_digits(a),
        wf_digits(b),
        a.len() <= n,
        b.len() <= n,
    ensures
        key_lt(a, b) <==> value(pad(a, n)) < value(pad(b, n)),
{
    let pa = pad(a, n);
    let pb = pad(b, n);
    lemma_pad_digits(a, n);
    lemma_pad_digits(b, n);
    if key_lt(a, b) {
        if exists|j: int| lt_at(a, b, j) {
            let j = choose|j: int| lt_at(a, b, j);
            assert(pa.subrange(0, j) =~= a.subrange(0, j));
            assert(pb.subrange(0, j) =~= b.subrange(0, j));
            assert(lt_at(pa, pb, j));
            lemma_value_lt_at(pa, pb, j);
        } else {
            let m = a.len() as int;
            lemma_value_split(pa, m);
            lemma_value_split(pb, m);
            assert(pa.subrange(0, m) =~= a);
            assert(pb.subrange(0, m) =~= b.subrange(0, m));
            let ra = pa.subrange(m, n as int);
            let rb = pb.subrange(m, n as int);
            lemma_value_zeros(ra);
            lemma_all_digits_sub(pb, m, n as int);
            assert(rb[b.len() - 1 - m] == b.last());
            lemma_value_at_least(rb, b.len() - 1 - m);
            lemma_pow36_pos((rb.len() - 1 - (b.len() - 1 - m)) as nat);
        }
    }
    if value(pa) < value(pb) {
        let j = lemma_value_lt_index(pa, pb);
        if j < a.len() {
            assert(pa.subrange(0, j) =~= a.subrange(0, j));
            assert(pb.subrange(0, j) =~= b.subrange(0, j));
            assert(lt_at(a, b, j));
        } else {
            assert forall|t: int| 0 <= t < a.len() implies a[t] == b[t] by {
                assert(pa.subrange(0, j)[t] == pb.subrange(0, j)[t]);
            }
            assert(a =~= b.subrange(0, a.len() as int));
            assert(proper_prefix(a, b));
        }
    }
}

/// Distinct keys are ordered one way or the other.
pub proof fn lemma_key_lt_total(a: Seq<u8>, b: Seq<u8>)
    requires
        wf_digits(a),
        wf_digits(b),
        a != b,
    ensures
        key_lt(a, b) || key_lt(b, a),
{
    let n = if a.len() >= b.len() { a.len() } else { b.len() };
    lemma_key_lt_value(a, b, n);
    lemma_key_lt_value(b, a, n);
    lemma_pad_digits(a, n);
    lemma_pad_digits(b, n);
    if value(pad(a, n)) == value(pad(b, n)) {
        lemma_digits_of_value(pad(a, n));
        lemma_digits_of_value(pad(b, n));
        if a.len() < b.len() {
            assert(pad(a, n)[b.len() - 1] == pad(b, n)[b.len() - 1]);
        } else if b.len() < a.len() {
            assert(pad(a, n)[a.len() - 1] == pad(b, n)[a.len() - 1]);
        }
        assert forall|t: int| 0 <= t < a.len() implies a[t] == b[t] by {
            assert(pad(a, n)[t] == pad(b, n)[t]);
        }
        assert(a =~= b);
    }
}

/// No key is below itself.
pub proof fn lemma_key_lt_irreflexive(a: Seq<u8>)
    requires
        wf_digits(a),
    ensures
        !key_lt(a, a),
{
    lemma_key_lt_value(a, a, a.len());
}

/// The order of keys is transitive.
pub proof fn lemma_key_lt_transitive(a: Seq<u8>, b: Seq<u8>, c: Seq<u8>)
    requires
        wf_digits(a),
        wf_digits(b),
        wf_digits(c),
        key_lt(a, b),
        key_lt(b, c),
    ensures
        key_lt(a, c),
{
    let n0 = if a.len() >= b.len() { a.len() } else { b.len() };
    let n = if n0 >= c.len() { n0 } else { c.len() };
    lemma_key_lt_value(a, b, n);
    lemma_key_lt_value(b, c, n);
    lemma_key_lt_value(a, c, n);
}

/// Moving 36 units from one position to one unit of the next more significant one keeps
/// the value.
pub proof fn lemma_value_carry(s: Seq<u8>, i: int)
    requires
        0 < i < s.len(),
        s[i] >= 36,
        s[i - 1] < 255,
    ensures
        value(s.update(i, (s[i] - 36) as u8).update(i - 1, (s[i - 1] + 1) as u8)) == value(s),
{
    let n = s.len();
    let u = s.update(i, (s[i] - 36) as u8);
    let w = pow36((n - 1 - i) as nat);
    lemma_value_update(s, i, (s[i] - 36) as u8);
    lemma_value_update(u, i - 1, (s[i - 1] + 1) as u8);
    assert(pow36((n - 1 - (i - 1)) as nat) == 36 * w);
    assert(u[i - 1] == s[i - 1]);
    let d1: int = (s[i] - 36) as u8 - s[i];
    let d2: int = (s[i - 1] + 1) as u8 - u[i - 1];
    assert(d1 == -36 && d2 == 1);
    assert(d1 * w + d2 * (36 * w) == 0) by (nonlinear_arith)
        requires
            d1 == -36,
            d2 == 1,
    ;
}

/// Of two keys, at most one is below the other.
pub proof fn lemma_key_lt_asym(a: Seq<u8>, b: Seq<u8>)
    requires
        wf_digits(a),
        wf_digits(b),
        key_lt(a, b),
    ensures
        !key_lt(b, a),
{
    let n = if a.len() >= b.len() { a.len() } else { b.len() };
    lemma_key_lt_value(a, b, n);
    lemma_key_lt_value(b, a, n);
}

} // verus!
