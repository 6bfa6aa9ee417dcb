//! The sort key: a non-empty base-36 digit sequence that never ends in the smallest digit.
use vstd::prelude::*;
use crate::alphabet::{
    is_valid_char, to_char, to_u8, valid_char, valid_digit, MAX, MIN,
    MIN_CHAR, NEXT_MIN,
};
use crate::digits::{
    all_digits, key_lt, lemma_digits_of_value, lemma_key_lt_asym, lemma_key_lt_irreflexive,
    lemma_pad_digits, lemma_value_carry, lemma_value_update, lemma_value_zeros, lt_at, pad, pow36,
    proper_prefix, value, wf_digits,
};
use crate::encoding::{decode, encode, lemma_parse_render, valid_str};
use crate::placement::{
    after_digits, before_digits, between_digits, cut_len, lemma_after_props, lemma_before_props,
    lemma_between_props, lemma_scan_above_min, lemma_scan_below_max, mean_digits, scan_above_min,
    scan_below_max,
};
use vstd::arithmetic::div_mod::lemma_fundamental_div_mod_converse;

verus! {

/// The padding depth of `before` and `after`.
pub const DEFAULT_DELTA: usize = 3;

/// `s` with the digits before position `at` replaced by the smallest digit.
spec fn from_position(s: Seq<u8>, at: int) -> Seq<u8> {
    Seq::new(s.len(), |i: int| if i >= at { s[i] } else { 0u8 })
}

/// A key whose digits are, in order, those of its view.
#[derive(Debug, Eq, Ord)]
pub struct SortKey {
    digits: Vec<u8>,
}

impl View for SortKey {
    type V = Seq<u8>;

    closed spec fn view(&self) -> Seq<u8> {
        self.digits@
    }
}

/// The error of parsing a string that does not encode a key; it holds that string.
#[derive(Debug)]
pub struct TryFromStringError(pub String);

/// Relies on `String::push`: appends one character at the end.
#[verifier::external_body]
fn push_char(s: &mut String, c: char)
    ensures
        final(s)@ == old(s)@.push(c),
{
    s.push(c);
}

impl SortKey {
    #[verifier::type_invariant]
    spec fn inv(&self) -> bool {
        wf_digits(self.digits@)
    }

    fn new(v: Vec<u8>) -> (r: SortKey)
        requires
            wf_digits(v@),
        ensures
            r@ == v@,
    {
        SortKey { digits: v }
    }

    /// The number of digits of the key.
    pub fn len(&self) -> (r: usize)
        ensures
            r == self@.len(),
            wf_digits(self@),
    {
        proof {
            use_type_invariant(self);
        }
        self.digits.len()
    }

    /// Makes known to the caller that the key's digits are well formed.
    pub fn well_formed(&self)
        ensures
            wf_digits(self@),
    {
        proof {
            use_type_invariant(self);
        }
    }

    pub fn is_valid_str(s: &str) -> (r: bool)
        ensures
            r == valid_str(s@),
    {
        let n = s.unicode_len();
        if n == 0 {
            return false;
        }
        let mut i: usize = 0;
        while i < n
            invariant
                n == s@.len(),
                i <= n,
                forall|j: int| 0 <= j < i ==> valid_char(#[trigger] s@[j]),
            decreases n - i,
        {
            if !is_valid_char(s.get_char(i)) {
                return false;
            }
            i += 1;
        }
        s.get_char(n - 1) != MIN_CHAR
    }

    /// Parses the encoding of a key.
    pub fn parse(s: String) -> (r: Result<SortKey, TryFromStringError>)
        ensures
            r is Ok <==> valid_str(s@),
            r matches Ok(k) ==> k@ == decode(s@),
            r matches Err(e) ==> e.0@ == s@,
    {
        if !SortKey::is_valid_str(s.as_str()) {
            return Err(TryFromStringError(s));
        }
        let n = s.as_str().unicode_len();
        let mut v: Vec<u8> = Vec::new();
        let mut i: usize = 0;
        while i < n
            invariant
                n == s@.len(),
                valid_str(s@),
                i <= n,
                v@ == decode(s@).subrange(0, i as int),
            decreases n - i,
        {
            let c = s.as_str().get_char(i);
            v.push(to_u8(c));
            i += 1;
            assert(v@ =~= decode(s@).subrange(0, i as int));
        }
        assert(v@ =~= decode(s@));
        proof {
            lemma_parse_render(s@);
        }
        Ok(SortKey::new(v))
    }

    /// The encoding of the key.
    pub fn to_string(&self) -> (r: String)
        ensures
            r@ == encode(self@),
    {
        proof {
            use_type_invariant(self);
        }
        let mut r = String::new();
        let mut i: usize = 0;
        while i < self.digits.len()
            invariant
                wf_digits(self@),
                i <= self@.len(),
                r@ == encode(self@).subrange(0, i as int),
            decreases self@.len() - i,
        {
            assert(valid_digit(self@[i as int]));
            let c = to_char(self.digits[i]);
            push_char(&mut r, c);
            i += 1;
            assert(r@ =~= encode(self@).subrange(0, i as int));
        }
        assert(r@ =~= encode(self@));
        r
    }

    /// Whether the two keys hold the same digits.
    pub fn same(&self, other: &SortKey) -> (r: bool)
        ensures
            r == (self@ == other@),
    {
        let a = &self.digits;
        let b = &other.digits;
        if a.len() != b.len() {
            return false;
        }
        let mut i: usize = 0;
        while i < a.len()
            invariant
                a@ == self@,
                b@ == other@,
                a@.len() == b@.len(),
                i <= a@.len(),
                a@.subrange(0, i as int) == b@.subrange(0, i as int),
            decreases a@.len() - i,
        {
            if a[i] != b[i] {
                assert(a@[i as int] != b@[i as int]);
                return false;
            }
            i += 1;
            assert(a@.subrange(0, i as int) =~= b@.subrange(0, i as int)) by {
                assert(a@.subrange(0, i - 1) == b@.subrange(0, i - 1));
                assert forall|j: int| 0 <= j < i implies a@[j] == b@[j] by {
                    if j < i - 1 {
                        assert(a@.subrange(0, i - 1)[j] == b@.subrange(0, i - 1)[j]);
                    }
                }
            }
        }
        assert(a@ =~= a@.subrange(0, a@.len() as int));
        assert(b@ =~= b@.subrange(0, b@.len() as int));
        true
    }

    /// Whether this key comes before the other one.
    pub fn less(&self, other: &SortKey) -> (r: bool)
        ensures
            r == key_lt(self@, other@),
    {
        proof {
            use_type_invariant(self);
            use_type_invariant(other);
        }
        let a = &self.digits;
        let b = &other.digits;
        let mut i: usize = 0;
        while i < a.len() && i < b.len()
            invariant
                a@ == self@,
                b@ == other@,
                wf_digits(a@),
                wf_digits(b@),
                i <= a@.len(),
                i <= b@.len(),
                a@.subrange(0, i as int) == b@.subrange(0, i as int),
            decreases a@.len() - i,
        {
            if a[i] != b[i] {
                proof {
                    if a@[i as int] < b@[i as int] {
                        assert(lt_at(a@, b@, i as int));
                    } else {
                        assert(lt_at(b@, a@, i as int));
                        lemma_key_lt_asym(b@, a@);
                    }
                }
                return a[i] < b[i];
            }
            i += 1;
            assert(a@.subrange(0, i as int) =~= b@.subrange(0, i as int)) by {
                assert forall|j: int| 0 <= j < i implies a@[j] == b@[j] by {
                    if j < i - 1 {
                        assert(a@.subrange(0, i - 1)[j] == b@.subrange(0, i - 1)[j]);
                    }
                }
            }
        }
        proof {
            if a@.len() < b@.len() {
                assert(a@ =~= a@.subrange(0, i as int));
                assert(proper_prefix(a@, b@));
            } else if b@.len() < a@.len() {
                assert(b@ =~= b@.subrange(0, i as int));
                assert(proper_prefix(b@, a@));
                lemma_key_lt_asym(b@, a@);
            } else {
                assert(a@ =~= a@.subrange(0, i as int));
                assert(b@ =~= b@.subrange(0, i as int));
                lemma_key_lt_irreflexive(a@);
            }
        }
        a.len() < b.len()
    }

    /// A key below this one, padded by the default depth.
    pub fn before(&self) -> (r: SortKey)
        requires
            self@.len() + DEFAULT_DELTA < usize::MAX,
        ensures
            r@ == before_digits(self@, DEFAULT_DELTA as nat),
            key_lt(r@, self@),
    {
        self.before_with_delta(DEFAULT_DELTA)
    }

    /// A key below this one, with `delta` digits of room below it.
    pub fn before_with_delta(&self, delta: usize) -> (r: SortKey)
        requires
            delta > 0,
            self@.len() + delta < usize::MAX,
        ensures
            r@ == before_digits(self@, delta as nat),
            key_lt(r@, self@),
    {
        proof {
            use_type_invariant(self);
        }
        let k = &self.digits;
        let mut res: Vec<u8> = Vec::new();
        let mut at: usize = 0;
        while at < k.len() && (at == 0 || k[at - 1] == MIN)
            invariant
                k@ == self@,
                wf_digits(k@),
                at <= k@.len(),
                res@ == k@.subrange(0, at as int),
                if at > 0 && k@[at - 1] > MIN {
                    scan_above_min(k@, 0) == at
                } else {
                    scan_above_min(k@, 0) == scan_above_min(k@, at as int)
                },
            decreases k@.len() - at,
        {
            res.push(k[at]);
            at += 1;
            assert(res@ =~= k@.subrange(0, at as int));
        }
        let n: usize = at + delta;
        assert(res@ =~= pad(k@, at as nat));
        while res.len() < n
            invariant
                k@ == self@,
                at <= n,
                res@.len() <= n,
                res@ == pad(k@, res@.len() as nat),
            decreases n - res@.len(),
        {
            let i = res.len();
            let ch = if i < k.len() {
                k[i]
            } else {
                MIN
            };
            res.push(ch);
            assert(res@ =~= pad(k@, (i + 1) as nat));
        }
        let ghost p = res@;
        let ghost q = at as int;
        let ghost step: int = if p.last() == NEXT_MIN { 2 } else { 1 };
        let ghost target = value(p) - step;
        proof {
            lemma_pad_digits(k@, n as nat);
            lemma_scan_above_min(k@, 0);
            assert(p[q - 1] == k@[q - 1]);
            assert(pow36(0) == 1);
            assert(pow36(1) == 36);
        }
        let last = n - 1;
        let d = res[last];
        let mut pending: bool;
        if d == NEXT_MIN || d == MIN {
            res.set(last, MAX);
            pending = true;
        } else {
            res.set(last, d - 1);
            pending = false;
        }
        proof {
            lemma_value_update(p, last as int, res@[last as int]);
            assert(res@ == p.update(last as int, res@[last as int]));
            assert(all_digits(res@));
            assert(d == p[last as int] && d == p.last());
            assert(pow36((n - 1 - last) as nat) == 1);
            assert(value(res@) == value(p) + (res@[last as int] - d));
            if pending {
                assert(value(res@) - pow36((n - last) as nat) == target);
            } else {
                assert(value(res@) == target);
            }
        }
        let mut pos: usize = last;
        while pending
            invariant
                res@.len() == n,
                p.len() == n,
                all_digits(res@),
                1 <= q < n,
                last == n - 1,
                pos <= last,
                p[q - 1] > MIN,
                pending ==> q <= pos,
                pending ==> value(res@) - pow36((n - pos) as nat) == target,
                pending ==> forall|t: int| 0 <= t < pos ==> res@[t] == p[t],
                !pending ==> value(res@) == target,
            decreases pos,
        {
            pos -= 1;
            let ghost prev = res@;
            let d = res[pos];
            if d == MIN {
                res.set(pos, MAX);
            } else {
                res.set(pos, d - 1);
                pending = false;
            }
            proof {
                let w = pow36((n - 1 - pos) as nat);
                let diff = res@[pos as int] - prev[pos as int];
                lemma_value_update(prev, pos as int, res@[pos as int]);
                assert(res@ == prev.update(pos as int, res@[pos as int]));
                assert(pow36((n - pos) as nat) == 36 * w);
                assert(diff * w == if pending { 35 * w } else { -w }) by (nonlinear_arith)
                    requires
                        diff == if pending { 35int } else { -1int },
                ;
            }
        }
        proof {
            lemma_digits_of_value(res@);
            lemma_before_props(self@, delta as nat);
        }
        SortKey::new(res)
    }

    /// A key above this one, padded by the default depth.
    pub fn after(&self) -> (r: SortKey)
        requires
            self@.len() + DEFAULT_DELTA < usize::MAX,
        ensures
            r@ == after_digits(self@, DEFAULT_DELTA as nat),
            key_lt(self@, r@),
    {
        self.after_with_delta(DEFAULT_DELTA)
    }

    /// A key above this one, with `delta` digits of room above it.
    pub fn after_with_delta(&self, delta: usize) -> (r: SortKey)
        requires
            delta > 0,
            self@.len() + delta < usize::MAX,
        ensures
            r@ == after_digits(self@, delta as nat),
            key_lt(self@, r@),
    {
        proof {
            use_type_invariant(self);
        }
        let k = &self.digits;
        let mut res: Vec<u8> = Vec::new();
        let mut at: usize = 0;
        while at < k.len() && (at == 0 || k[at - 1] == MAX)
            invariant
                k@ == self@,
                wf_digits(k@),
                at <= k@.len(),
                res@ == k@.subrange(0, at as int),
                if at > 0 && k@[at - 1] < MAX {
                    scan_below_max(k@, 0) == at
                } else {
                    scan_below_max(k@, 0) == scan_below_max(k@, at as int)
                },
            decreases k@.len() - at,
        {
            res.push(k[at]);
            at += 1;
            assert(res@ =~= k@.subrange(0, at as int));
        }
        let n: usize = at + delta;
        assert(res@ =~= pad(k@, at as nat));
        while res.len() < n
            invariant
                k@ == self@,
                at <= n,
                res@.len() <= n,
                res@ == pad(k@, res@.len() as nat),
            decreases n - res@.len(),
        {
            let i = res.len();
            let ch = if i < k.len() {
                k[i]
            } else {
                MIN
            };
            res.push(ch);
            assert(res@ =~= pad(k@, (i + 1) as nat));
        }
        let ghost p = res@;
        let ghost q = at as int;
        let ghost step: int = if p.last() == MAX { 2 } else { 1 };
        let ghost target = value(p) + step;
        proof {
            lemma_pad_digits(k@, n as nat);
            lemma_scan_below_max(k@, 0);
            assert(p[q - 1] == k@[q - 1]);
            assert(pow36(0) == 1);
            assert(pow36(1) == 36);
        }
        let last = n - 1;
        let d = res[last];
        let mut pending: bool;
        if d == MAX {
            res.set(last, NEXT_MIN);
            pending = true;
        } else {
            res.set(last, d + 1);
            pending = false;
        }
        proof {
            lemma_value_update(p, last as int, res@[last as int]);
            assert(res@ == p.update(last as int, res@[last as int]));
            assert(all_digits(res@));
            assert(d == p[last as int] && d == p.last());
            assert(pow36((n - 1 - last) as nat) == 1);
            assert(value(res@) == value(p) + (res@[last as int] - d));
            if pending {
                assert(value(res@) + pow36((n - last) as nat) == target);
            } else {
                assert(value(res@) == target);
            }
        }
        let mut pos: usize = last;
        while pending
            invariant
                res@.len() == n,
                p.len() == n,
                all_digits(res@),
                1 <= q < n,
                last == n - 1,
                pos <= last,
                pending ==> p[q - 1] < MAX,
                pending ==> q <= pos,
                pending ==> value(res@) + pow36((n - pos) as nat) == target,
                pending ==> forall|t: int| 0 <= t < pos ==> res@[t] == p[t],
                !pending ==> value(res@) == target,
            decreases pos,
        {
            pos -= 1;
            let ghost prev = res@;
            let d = res[pos];
            if d == MAX {
                res.set(pos, MIN);
            } else {
                res.set(pos, d + 1);
                pending = false;
            }
            proof {
                let w = pow36((n - 1 - pos) as nat);
                let diff = res@[pos as int] - prev[pos as int];
                lemma_value_update(prev, pos as int, res@[pos as int]);
                assert(res@ == prev.update(pos as int, res@[pos as int]));
                assert(pow36((n - pos) as nat) == 36 * w);
                assert(diff * w == if pending { -35 * w } else { w }) by (nonlinear_arith)
                    requires
                        diff == if pending { -35int } else { 1int },
                ;
            }
        }
        proof {
            lemma_digits_of_value(res@);
            lemma_after_props(self@, delta as nat);
        }
        SortKey::new(res)
    }

    /// A key strictly between two distinct keys, as short as the mean allows.
    pub fn between(&self, other: &SortKey) -> (r: SortKey)
        requires
            self@ != other@,
            self@.len() < usize::MAX,
            other@.len() < usize::MAX,
        ensures
            r@ == between_digits(self@, other@),
            key_lt(self@, other@) ==> key_lt(self@, r@) && key_lt(r@, other@),
            key_lt(other@, self@) ==> key_lt(other@, r@) && key_lt(r@, self@),
    {
        proof {
            use_type_invariant(self);
            use_type_invariant(other);
        }
        let a = &self.digits;
        let b = &other.digits;
        let l: usize = if a.len() >= b.len() {
            a.len()
        } else {
            b.len()
        };
        let n: usize = l + 1;
        let ghost ap = pad(a@, n as nat);
        let ghost bp = pad(b@, n as nat);
        let mut res: Vec<u8> = Vec::new();
        while res.len() < n
            invariant
                res@.len() <= n,
                forall|t: int| 0 <= t < res@.len() ==> res@[t] == 0,
            decreases n - res@.len(),
        {
            res.push(MIN);
        }
        proof {
            lemma_value_zeros(res@);
            lemma_value_zeros(from_position(ap, l as int));
            lemma_value_zeros(from_position(bp, l as int));
        }
        // the sum, carried toward the more significant digits
        let mut at: usize = l;
        while at > 0
            invariant
                a@ == self@,
                b@ == other@,
                wf_digits(a@),
                wf_digits(b@),
                n == l + 1,
                l >= a@.len(),
                l >= b@.len(),
                ap == pad(a@, n as nat),
                bp == pad(b@, n as nat),
                at <= l,
                res@.len() == n,
                value(res@) == value(from_position(ap, at as int)) + value(
                    from_position(bp, at as int),
                ),
                forall|t: int| at <= t < n && t > 0 ==> res@[t] <= MAX,
                res@[0] <= 2 * MAX + 1,
                forall|t: int| 0 <= t < at - 1 ==> res@[t] == 0,
                at > 0 ==> res@[at - 1] <= 1,
                res@[l as int] == 0,
            decreases at,
        {
            at -= 1;
            let da = if at < a.len() {
                a[at]
            } else {
                MIN
            };
            let db = if at < b.len() {
                b[at]
            } else {
                MIN
            };
            proof {
                if at < a@.len() {
                    assert(valid_digit(a@[at as int]));
                }
                if at < b@.len() {
                    assert(valid_digit(b@[at as int]));
                }
            }
            let ghost prev = res@;
            let x = res[at] + da + db;
            res.set(at, x);
            proof {
                let w = pow36((n - 1 - at) as nat);
                let fa = from_position(ap, at + 1);
                let fb = from_position(bp, at + 1);
                lemma_value_update(prev, at as int, x);
                assert(res@ == prev.update(at as int, x));
                lemma_value_update(fa, at as int, ap[at as int]);
                assert(fa.update(at as int, ap[at as int]) =~= from_position(ap, at as int));
                lemma_value_update(fb, at as int, bp[at as int]);
                assert(fb.update(at as int, bp[at as int]) =~= from_position(bp, at as int));
                let xa = ap[at as int] as int;
                let xb = bp[at as int] as int;
                assert(da == xa && db == xb);
                assert(fa[at as int] == 0 && fb[at as int] == 0);
                assert(value(prev) == value(fa) + value(fb));
                assert((x - prev[at as int]) * w == (xa - 0) * w + (xb - 0) * w) by (nonlinear_arith)
                    requires
                        x - prev[at as int] == xa + xb,
                ;
                assert(value(res@) == value(from_position(ap, at as int)) + value(
                    from_position(bp, at as int),
                ));
            }
            if at > 0 && x > MAX {
                let ghost mid = res@;
                res.set(at, x - 36);
                let ghost mid2 = res@;
                let c = res[at - 1];
                res.set(at - 1, c + 1);
                proof {
                    lemma_value_carry(mid, at as int);
                    assert(res@ == mid.update(at as int, (x - 36) as u8).update(
                        at - 1,
                        (c + 1) as u8,
                    ));
                }
            }
        }
        proof {
            assert(from_position(ap, 0) =~= ap);
            assert(from_position(bp, 0) =~= bp);
        }
        let ghost total = value(res@);
        // halved, the remainders passed toward the less significant digits
        let mut at: usize = 0;
        while at < n
            invariant
                n == l + 1,
                res@.len() == n,
                at <= n,
                value(res@) + value(res@.subrange(0, at as int)) * pow36((n - at) as nat)
                    == total,
                forall|t: int| 0 <= t < at ==> res@[t] <= MAX,
                at < n ==> res@[at as int] <= 2 * MAX + 1,
                forall|t: int| at < t < n ==> res@[t] <= MAX,
                at < l ==> res@[l as int] == 0,
                at == l ==> res@[l as int] % 2 == 0,
            decreases n - at,
        {
            let x = res[at];
            let ghost prev = res@;
            let odd = at < l && x % 2 == 1;
            if odd {
                let y = res[at + 1];
                res.set(at + 1, y + 36);
            }
            let ghost mid = res@;
            res.set(at, x / 2);
            proof {
                let w = pow36((n - 1 - at) as nat);
                let rem: int = if odd { 1 } else { 0 };
                let h = (x / 2) as int;
                let pre = value(prev.subrange(0, at as int));
                if odd {
                    lemma_value_update(prev, at + 1, (prev[at + 1] + 36) as u8);
                    assert(mid == prev.update(at + 1, (prev[at + 1] + 36) as u8));
                    assert(pow36((n - 1 - at) as nat) == 36 * pow36((n - 1 - (at + 1)) as nat));
                    assert(((prev[at + 1] + 36) as u8 - prev[at + 1]) * pow36(
                        (n - 1 - (at + 1)) as nat,
                    ) == w);
                } else {
                    assert(mid == prev);
                }
                assert(value(mid) == value(prev) + rem * w);
                lemma_value_update(mid, at as int, (x / 2) as u8);
                assert(res@ == mid.update(at as int, (x / 2) as u8));
                assert(res@.subrange(0, at + 1).drop_last() =~= prev.subrange(0, at as int));
                assert(value(res@.subrange(0, at + 1)) == pre * 36 + h);
                assert(pow36((n - at) as nat) == 36 * w);
                assert(x == 2 * h + rem);
                assert(value(prev) + rem * w + (h - x) * w + (pre * 36 + h) * w == value(prev)
                    + pre * (36 * w)) by (nonlinear_arith)
                    requires
                        x == 2 * h + rem,
                ;
            }
            at += 1;
        }
        proof {
            assert(res@.subrange(0, n as int) =~= res@);
            assert(pow36(0) == 1);
            assert(all_digits(res@));
            lemma_digits_of_value(res@);
            lemma_fundamental_div_mod_converse(total, 2, value(res@), 0);
            assert(res@ == mean_digits(self@, other@));
        }
        // cut after the first digit that rises above the smaller key
        let low_first = self.less(other);
        let ghost low = if low_first { self@ } else { other@ };
        let ghost lowp = pad(low, n as nat);
        let ghost m = res@;
        let mut cut: usize = n;
        let mut at: usize = 0;
        let mut found = false;
        while at < l && !found
            invariant
                a@ == self@,
                b@ == other@,
                low == if low_first { self@ } else { other@ },
                lowp == pad(low, n as nat),
                n == l + 1,
                at <= l,
                res@ == m,
                m.len() == n,
                found ==> cut_len(m, lowp, 0, l as int) == cut && 1 <= cut <= n,
                !found ==> cut_len(m, lowp, 0, l as int) == cut_len(m, lowp, at as int, l as int)
                    && cut == n,
            decreases l - at,
        {
            let ld = if low_first {
                if at < a.len() {
                    a[at]
                } else {
                    MIN
                }
            } else {
                if at < b.len() {
                    b[at]
                } else {
                    MIN
                }
            };
            assert(ld == lowp[at as int]);
            if res[at] > ld {
                cut = at + 1;
                found = true;
            }
            at += 1;
        }
        res.truncate(cut);
        proof {
            lemma_between_props(self@, other@);
        }
        SortKey::new(res)
    }

    /// A key strictly between two keys, or none where they are equal.
    pub fn try_between(&self, other: &SortKey) -> (r: Option<SortKey>)
        requires
            self@.len() < usize::MAX,
            other@.len() < usize::MAX,
        ensures
            r is None <==> self@ == other@,
            r matches Some(k) ==> k@ == between_digits(self@, other@),
            r matches Some(k) ==> key_lt(self@, other@) ==> key_lt(self@, k@) && key_lt(k@, other@),
            r matches Some(k) ==> key_lt(other@, self@) ==> key_lt(other@, k@) && key_lt(k@, self@),
    {
        if self.same(other) {
            None
        } else {
            Some(self.between(other))
        }
    }
}

impl Default for SortKey {
    /// The midpoint of the alphabet: the key `"i"`.
    fn default() -> (r: SortKey)
        ensures
            r@ == seq![18u8],
    {
        let mut v: Vec<u8> = Vec::new();
        v.push((MIN + MAX + 1) / 2);
        assert(v@ =~= seq![18u8]);
        SortKey::new(v)
    }
}

impl Clone for SortKey {
    fn clone(&self) -> (r: SortKey)
        ensures
            r@ == self@,
    {
        proof {
            use_type_invariant(self);
        }
        let mut v: Vec<u8> = Vec::new();
        let mut i: usize = 0;
        while i < self.digits.len()
            invariant
                i <= self@.len(),
                v@ == self@.subrange(0, i as int),
            decreases self@.len() - i,
        {
            v.push(self.digits[i]);
            i += 1;
            assert(v@ =~= self@.subrange(0, i as int));
        }
        assert(v@ =~= self@);
        SortKey::new(v)
    }
}

impl PartialEq for SortKey {
    fn eq(&self, other: &SortKey) -> (r: bool)
        ensures
            r == (self@ == other@),
    {
        self.same(other)
    }
}

impl vstd::std_specs::cmp::PartialEqSpecImpl for SortKey {
    open spec fn obeys_eq_spec() -> bool {
        true
    }

    open spec fn eq_spec(&self, other: &SortKey) -> bool {
        self@ == other@
    }
}

impl PartialOrd for SortKey {
    fn partial_cmp(&self, other: &SortKey) -> (r: Option<core::cmp::Ordering>) {
        if self.same(other) {
            Some(core::cmp::Ordering::Equal)
        } else if self.less(other) {
            Some(core::cmp::Ordering::Less)
        } else {
            Some(core::cmp::Ordering::Greater)
        }
    }
}

impl vstd::std_specs::cmp::PartialOrdSpecImpl for SortKey {
    open spec fn obeys_partial_cmp_spec() -> bool {
        true
    }

    open spec fn partial_cmp_spec(&self, other: &SortKey) -> Option<core::cmp::Ordering> {
        if self@ == other@ {
            Some(core::cmp::Ordering::Equal)
        } else if key_lt(self@, other@) {
            Some(core::cmp::Ordering::Less)
        } else {
            Some(core::cmp::Ordering::Greater)
        }
    }
}

impl TryFrom<String> for SortKey {
    type Error = TryFromStringError;

    fn try_from(value: String) -> (r: Result<SortKey, TryFromStringError>)
        ensures
            r is Ok <==> valid_str(value@),
            r matches Ok(k) ==> k@ == decode(value@),
            r matches Err(e) ==> e.0@ == value@,
    {
        SortKey::parse(value)
    }
}

impl vstd::std_specs::convert::TryFromSpecImpl<String> for SortKey {
    open spec fn obeys_try_from_spec() -> bool {
        false
    }

    open spec fn try_from_spec(v: String) -> Result<SortKey, TryFromStringError> {
        vstd::pervasive::arbitrary()
    }
}

} // verus!
