//! What `before`, `after` and `between` produce, and why each result is a key on the
//! right side of its inputs.
use vstd::prelude::*;
use vstd::arithmetic::div_mod::lemma_fundamental_div_mod_converse;
use crate::alphabet::{valid_digit, MAX, MIN, NEXT_MIN};
use crate::digits::{
    digits_of, key_lt, lemma_all_digits_sub, lemma_key_lt_asym, lemma_key_lt_total,
    lemma_key_lt_value, lemma_pad_digits, lemma_pad_value, lemma_pow36_pos,
    lemma_value_at_least, lemma_value_bounds, lemma_value_digits_of, lemma_value_lt_index,
    lemma_value_update, lt_at, pad, pow36, proper_prefix, value, wf_digits, all_digits,
};

verus! {

/// How many leading digits of `s` `before` keeps, scanning from `i`: up to and including
/// the first digit above the smallest one.
pub open spec fn scan_above_min(s: Seq<u8>, i: int) -> int
    decreases s.len() - i,
{
    if i >= s.len() {
        s.len() as int
    } else if s[i] > MIN {
        i + 1
    } else {
        scan_above_min(s, i + 1)
    }
}

/// How many leading digits of `s` `after` keeps, scanning from `i`: up to and including
/// the first digit below the largest one.
pub open spec fn scan_below_max(s: Seq<u8>, i: int) -> int
    decreases s.len() - i,
{
    if i >= s.len() {
        s.len() as int
    } else if s[i] < MAX {
        i + 1
    } else {
        scan_below_max(s, i + 1)
    }
}

/// The digits of `before`: the kept prefix of `k` padded by `delta` digits, lowered by
/// one unit of its last place, or by two where one would leave the smallest digit last.
pub open spec fn before_digits(k: Seq<u8>, delta: nat) -> Seq<u8> {
    let p = pad(k, (scan_above_min(k, 0) + delta) as nat);
    let step: int = if p.last() == NEXT_MIN { 2 } else { 1 };
    digits_of(value(p) - step, p.len())
}

/// The digits of `after`: the kept prefix of `k` padded by `delta` digits, raised by
/// one unit of its last place, or by two where one would leave the smallest digit last.
pub open spec fn after_digits(k: Seq<u8>, delta: nat) -> Seq<u8> {
    let p = pad(k, (scan_below_max(k, 0) + delta) as nat);
    let step: int = if p.last() == MAX { 2 } else { 1 };
    digits_of(value(p) + step, p.len())
}

/// The longer of the two lengths.
pub open spec fn max_len(a: Seq<u8>, b: Seq<u8>) -> nat {
    if a.len() >= b.len() {
        a.len()
    } else {
        b.len()
    }
}

/// The exact mean of two keys, written with one digit more than the longer key has.
pub open spec fn mean_digits(a: Seq<u8>, b: Seq<u8>) -> Seq<u8> {
    let n = max_len(a, b) + 1;
    digits_of((value(pad(a, n)) + value(pad(b, n))) / 2, n)
}

/// The length of the shortest prefix of `m` that rises above `low` at a position in
/// `[i, end)`; the whole of `m` where none does.
pub open spec fn cut_len(m: Seq<u8>, low: Seq<u8>, i: int, end: int) -> int
    decreases end - i,
{
    if i >= end {
        m.len() as int
    } else if m[i] > low[i] {
        i + 1
    } else {
        cut_len(m, low, i + 1, end)
    }
}

/// The digits of `between`: the mean of the two keys, cut after the first digit where it
/// rises above the smaller key.
pub open spec fn between_digits(a: Seq<u8>, b: Seq<u8>) -> Seq<u8> {
    let low = if key_lt(a, b) { a } else { b };
    let m = mean_digits(a, b);
    m.subrange(0, cut_len(m, pad(low, max_len(a, b) + 1), 0, max_len(a, b) as int))
}

pub proof fn lemma_scan_above_min(s: Seq<u8>, i: int)
    requires
        wf_digits(s),
        0 <= i <= s.len(),
    ensures
        i <= scan_above_min(s, i) <= s.len(),
        1 <= scan_above_min(s, i),
        s[scan_above_min(s, i) - 1] > MIN,
    decreases s.len() - i,
{
    if i < s.len() && s[i] == MIN {
        lemma_scan_above_min(s, i + 1);
    }
}

pub proof fn lemma_scan_below_max(s: Seq<u8>, i: int)
    requires
        s.len() > 0,
        0 <= i <= s.len(),
    ensures
        i <= scan_below_max(s, i) <= s.len(),
        1 <= scan_below_max(s, i),
        s[scan_below_max(s, i) - 1] < MAX || scan_below_max(s, i) == s.len(),
    decreases s.len() - i,
{
    if i < s.len() && s[i] >= MAX {
        lemma_scan_below_max(s, i + 1);
    }
}

proof fn lemma_pow36_at_least_36(m: nat)
    requires
        m >= 1,
    ensures
        pow36(m) >= 36,
{
    lemma_pow36_pos((m - 1) as nat);
}

/// `before` gives a well-formed key below its input.
pub proof fn lemma_before_props(k: Seq<u8>, delta: nat)
    requires
        wf_digits(k),
        delta > 0,
    ensures
        wf_digits(before_digits(k, delta)),
        key_lt(before_digits(k, delta), k),
{
    let q = scan_above_min(k, 0);
    lemma_scan_above_min(k, 0);
    let n = (q + delta) as nat;
    let p = pad(k, n);
    lemma_pad_digits(k, n);
    assert(p[q - 1] == k[q - 1]);
    lemma_value_at_least(p, q - 1);
    lemma_pow36_at_least_36((n - q) as nat);
    lemma_value_bounds(p);
    let step: int = if p.last() == NEXT_MIN { 2 } else { 1 };
    let v = value(p) - step;
    lemma_value_digits_of(v, n);
    let r = digits_of(v, n);
    assert(r == before_digits(k, delta));
    let d = p.drop_last();
    assert(value(p) == value(d) * 36 + p.last() as int);
    if p.last() <= 1 {
        lemma_fundamental_div_mod_converse(v, 36, value(d) - 1, 35);
    } else {
        assert(valid_digit(p[n - 1]));
        lemma_fundamental_div_mod_converse(v, 36, value(d), p.last() - 1);
    }
    assert(r.last() == (v % 36) as u8);
    let m = if n >= k.len() { n } else { k.len() };
    lemma_pad_value(r, n, m);
    assert(pad(r, n) =~= r);
    lemma_pad_value(k, n, m);
    let big = pow36((m - n) as nat);
    lemma_pow36_pos((m - n) as nat);
    assert(v * big < value(p) * big) by (nonlinear_arith)
        requires
            v < value(p),
            big >= 1,
    ;
    lemma_key_lt_value(r, k, m);
}

/// `after` gives a well-formed key above its input.
pub proof fn lemma_after_props(k: Seq<u8>, delta: nat)
    requires
        wf_digits(k),
        delta > 0,
    ensures
        wf_digits(after_digits(k, delta)),
        key_lt(k, after_digits(k, delta)),
{
    let q = scan_below_max(k, 0);
    lemma_scan_below_max(k, 0);
    let n = (q + delta) as nat;
    let p = pad(k, n);
    lemma_pad_digits(k, n);
    lemma_value_bounds(p);
    let j: int = if k[q - 1] < MAX { q - 1 } else { n - 1 };
    assert(p[j] < MAX);
    let u = p.update(j, (p[j] + 1) as u8);
    lemma_value_update(p, j, (p[j] + 1) as u8);
    let w = pow36((n - 1 - j) as nat);
    let nd = (p[j] + 1) as u8;
    assert(nd - p[j] == 1);
    assert((nd - p[j]) * w == w) by (nonlinear_arith)
        requires
            nd - p[j] == 1,
    ;
    assert(all_digits(u)) by {
        assert forall|t: int| 0 <= t < u.len() implies valid_digit(#[trigger] u[t]) by {
            assert(valid_digit(p[t]));
        }
    }
    lemma_value_bounds(u);
    if j < n - 1 {
        lemma_pow36_at_least_36((n - 1 - j) as nat);
    } else {
        assert(pow36(0) == 1);
        assert(p.last() == 0);
    }
    let step: int = if p.last() == MAX { 2 } else { 1 };
    let v = value(p) + step;
    lemma_value_digits_of(v, n);
    let r = digits_of(v, n);
    assert(r == after_digits(k, delta));
    let d = p.drop_last();
    assert(value(p) == value(d) * 36 + p.last() as int);
    assert(valid_digit(p[n - 1]));
    if p.last() == MAX {
        lemma_fundamental_div_mod_converse(v, 36, value(d) + 1, 1);
    } else {
        lemma_fundamental_div_mod_converse(v, 36, value(d), p.last() + 1);
    }
    assert(r.last() == (v % 36) as u8);
    let m = if n >= k.len() { n } else { k.len() };
    lemma_pad_value(r, n, m);
    assert(pad(r, n) =~= r);
    lemma_pad_value(k, n, m);
    let big = pow36((m - n) as nat);
    lemma_pow36_pos((m - n) as nat);
    assert((value(p) + 1) * big <= v * big) by (nonlinear_arith)
        requires
            value(p) + 1 <= v,
            big >= 1,
    ;
    lemma_key_lt_value(k, r, m);
}

proof fn lemma_cut_len(m: Seq<u8>, low: Seq<u8>, i: int, j: int, end: int)
    requires
        0 <= i <= j <= end,
        m.len() == end + 1,
        low.len() == m.len(),
        forall|t: int| i <= t < j ==> m[t] <= low[t],
        m[j] > low[j],
    ensures
        cut_len(m, low, i, end) == j + 1,
    decreases j - i,
{
    if i < end && i < j {
        lemma_cut_len(m, low, i + 1, j, end);
    }
}

/// `between` gives a well-formed key strictly between two distinct keys.
pub proof fn lemma_between_props(a: Seq<u8>, b: Seq<u8>)
    requires
        wf_digits(a),
        wf_digits(b),
        a != b,
    ensures
        wf_digits(between_digits(a, b)),
        key_lt(a, b) ==> key_lt(a, between_digits(a, b)) && key_lt(between_digits(a, b), b),
        key_lt(b, a) ==> key_lt(b, between_digits(a, b)) && key_lt(between_digits(a, b), a),
{
    let l = max_len(a, b);
    let n = l + 1;
    lemma_key_lt_total(a, b);
    if key_lt(a, b) {
        lemma_key_lt_asym(a, b);
    }
    let low = if key_lt(a, b) { a } else { b };
    let high = if key_lt(a, b) { b } else { a };
    assert(key_lt(low, high));
    let lp = pad(low, n);
    let hp = pad(high, n);
    lemma_key_lt_value(low, high, n);
    lemma_pad_digits(low, n);
    lemma_pad_digits(high, n);
    lemma_pad_digits(a, n);
    lemma_pad_digits(b, n);
    lemma_value_bounds(pad(a, n));
    lemma_value_bounds(pad(b, n));
    lemma_pad_value(a, l, n);
    lemma_pad_value(b, l, n);
    assert(pow36(0) == 1);
    assert(pow36(1) == 36);
    let xa = value(pad(a, l));
    let xb = value(pad(b, l));
    let total = value(pad(a, n)) + value(pad(b, n));
    let mv = 18 * (xa + xb);
    assert(pow36((n - l) as nat) == 36);
    let p1 = pow36((n - l) as nat);
    assert(value(pad(a, n)) == xa * p1);
    assert(value(pad(b, n)) == xb * p1);
    assert(xa * p1 == 36 * xa && xb * p1 == 36 * xb) by (nonlinear_arith)
        requires
            p1 == 36,
    ;
    lemma_fundamental_div_mod_converse(total, 2, mv, 0);
    assert(total / 2 == mv);
    let vl = value(lp);
    let vh = value(hp);
    assert(vl < mv < vh) by (nonlinear_arith)
        requires
            vl < vh,
            vl == 36 * xa && vh == 36 * xb || vl == 36 * xb && vh == 36 * xa,
            mv == 18 * (xa + xb),
    ;
    assert(mv < pow36(n)) by (nonlinear_arith)
        requires
            mv < vh,
            vh < pow36(n),
    ;
    lemma_value_digits_of(mv, n);
    let m = digits_of(mv, n);
    assert(m == mean_digits(a, b));
    let j = lemma_value_lt_index(lp, m);
    assert forall|t: int| 0 <= t < j implies m[t] <= lp[t] by {
        assert(lp.subrange(0, j)[t] == m.subrange(0, j)[t]);
    }
    lemma_cut_len(m, lp, 0, j, l as int);
    let r = m.subrange(0, j + 1);
    assert(r == between_digits(a, b));
    lemma_all_digits_sub(m, 0, j + 1);
    assert(wf_digits(r));
    // above the smaller key
    if j < low.len() {
        assert(low.subrange(0, j) =~= lp.subrange(0, j));
        assert(r.subrange(0, j) =~= m.subrange(0, j));
        assert(lt_at(low, r, j));
    } else {
        assert forall|t: int| 0 <= t < low.len() implies low[t] == r[t] by {
            assert(lp.subrange(0, j)[t] == m.subrange(0, j)[t]);
        }
        assert(low =~= r.subrange(0, low.len() as int));
        assert(proper_prefix(low, r));
    }
    // below the larger key
    let k = lemma_value_lt_index(m, hp);
    assert(k < high.len());
    assert forall|t: int| 0 <= t < k implies m[t] == hp[t] by {
        assert(m.subrange(0, k)[t] == hp.subrange(0, k)[t]);
    }
    if k <= j {
        assert(r.subrange(0, k) =~= high.subrange(0, k));
        assert(lt_at(r, high, k));
    } else {
        assert(r =~= high.subrange(0, r.len() as int));
        assert(proper_prefix(r, high));
    }
}

} // verus!
