use vstd::prelude::*;
use vstd::string::StringSliceAdditionalSpecFns;

verus! {

/// `c` is an ASCII decimal digit.
pub open spec fn is_digit(c: u8) -> bool {
    48 <= c <= 57
}

pub open spec fn all_digits(s: Seq<u8>) -> bool {
    forall|k: int| 0 <= k < s.len() ==> #[trigger] is_digit(s[k])
}

/// The natural number written by the ASCII digits `s`, most significant first.
pub open spec fn digits_val(s: Seq<u8>) -> int
    decreases s.len(),
{
    if s.len() == 0 {
        0
    } else {
        digits_val(s.drop_last()) * 10 + (s.last() as int - 48)
    }
}

pub open spec fn pow10(n: nat) -> int
    decreases n,
{
    if n == 0 {
        1
    } else {
        10 * pow10((n - 1) as nat)
    }
}

/// `n` ASCII zeros.
pub open spec fn zeros(n: nat) -> Seq<u8> {
    Seq::new(n, |_k: int| 48u8)
}

/// The mathematical content of a decimal literal: a sign, the digits before
/// the point and the digits after it.
pub struct DecimalView {
    pub negative: bool,
    pub int_digits: Seq<u8>,
    pub frac_digits: Seq<u8>,
}

impl DecimalView {
    pub open spec fn wf(self) -> bool {
        all_digits(self.int_digits) && all_digits(self.frac_digits)
    }

    /// The magnitude written at scale `q`, i.e. the absolute value times `10^q`;
    /// exact when `q` is at least the number of fractional digits.
    pub open spec fn magnitude_at(self, q: nat) -> int {
        digits_val(self.int_digits + self.frac_digits) * pow10(
            (q - self.frac_digits.len()) as nat,
        )
    }

    /// The signed value times `10^q`.
    pub open spec fn value_at(self, q: nat) -> int {
        if self.negative {
            -self.magnitude_at(q)
        } else {
            self.magnitude_at(q)
        }
    }

    /// The smallest scale at which both values are whole numbers.
    pub open spec fn common_scale(self, other: DecimalView) -> nat {
        if self.frac_digits.len() >= other.frac_digits.len() {
            self.frac_digits.len()
        } else {
            other.frac_digits.len()
        }
    }

    /// `self` is strictly greater than `other` as a rational number.
    pub open spec fn exceeds(self, other: DecimalView) -> bool {
        let q = self.common_scale(other);
        self.value_at(q) > other.value_at(q)
    }

    /// Both sides denote the same rational number.
    pub open spec fn same_value(self, other: DecimalView) -> bool {
        let q = self.common_scale(other);
        self.value_at(q) == other.value_at(q)
    }

    /// The digits written with `l` integer places and `q` fractional places,
    /// zeros filled in on both sides.
    pub open spec fn aligned(self, l: nat, q: nat) -> Seq<u8> {
        zeros((l - self.int_digits.len()) as nat) + self.int_digits + self.frac_digits + zeros(
            (q - self.frac_digits.len()) as nat,
        )
    }
}

/// Length of the optional leading sign of a literal.
pub open spec fn sign_len(s: Seq<u8>) -> int {
    if s.len() > 0 && (s[0] == 43 || s[0] == 45) {
        1
    } else {
        0
    }
}

/// A literal without its sign.
pub open spec fn unsigned_part(s: Seq<u8>) -> Seq<u8> {
    s.subrange(sign_len(s), s.len() as int)
}

/// A signed decimal literal: `[+-]?` followed by digits with at most one
/// point among them and at least one digit, as in `-1.5`, `2.`, `.5` or `+7`.
pub open spec fn well_formed(s: Seq<u8>) -> bool {
    let b = unsigned_part(s);
    &&& forall|k: int| 0 <= k < b.len() ==> is_digit(#[trigger] b[k]) || b[k] == 46
    &&& forall|j: int, k: int| 0 <= j < k < b.len() && #[trigger] b[j] == 46 ==> #[trigger] b[k] != 46
    &&& exists|k: int| 0 <= k < b.len() && is_digit(#[trigger] b[k])
}

/// `d` is the number that the literal `s` writes.
pub open spec fn denotes(s: Seq<u8>, d: DecimalView) -> bool {
    let b = unsigned_part(s);
    &&& d.negative == (sign_len(s) == 1 && s[0] == 45)
    &&& d.wf()
    &&& (b == d.int_digits && d.frac_digits.len() == 0) || b == d.int_digits + seq![46u8]
        + d.frac_digits
}

/// `s` without its leading zeros.
pub open spec fn strip_leading_zeros(s: Seq<u8>) -> Seq<u8>
    decreases s.len(),
{
    if s.len() > 0 && s[0] == 48 {
        strip_leading_zeros(s.drop_first())
    } else {
        s
    }
}

/// `s` without its trailing zeros.
pub open spec fn strip_trailing_zeros(s: Seq<u8>) -> Seq<u8>
    decreases s.len(),
{
    if s.len() > 0 && s.last() == 48 {
        strip_trailing_zeros(s.drop_last())
    } else {
        s
    }
}

/// The shortest text of a decimal: a minus sign if it is below zero, its
/// integer digits without leading zeros (`0` where none is left), then the point
/// and the fractional digits without trailing zeros, if any is left.
pub open spec fn decimal_text(d: DecimalView) -> Seq<u8> {
    let i = strip_leading_zeros(d.int_digits);
    let f = strip_trailing_zeros(d.frac_digits);
    let sign = if d.negative && (i.len() > 0 || f.len() > 0) {
        seq![45u8]
    } else {
        Seq::empty()
    };
    let int_part = if i.len() == 0 {
        seq![48u8]
    } else {
        i
    };
    let frac_part = if f.len() == 0 {
        Seq::empty()
    } else {
        seq![46u8] + f
    };
    sign + int_part + frac_part
}

/// A decimal number held exactly as its digits.
#[derive(Debug)]
pub struct Reading {
    negative: bool,
    int_digits: Vec<u8>,
    frac_digits: Vec<u8>,
}

impl Reading {
    #[verifier::type_invariant]
    spec fn inv(self) -> bool {
        all_digits(self.int_digits@) && all_digits(self.frac_digits@)
    }

    pub fn is_negative(&self) -> (r: bool)
        ensures
            r == self@.negative,
    {
        self.negative
    }

    /// The digit of `self@.aligned(l, q)` at integer place `k`, or at
    /// fractional place `k` where `frac` holds.
    fn aligned_digit(&self, l: usize, q: usize, k: usize, frac: bool) -> (r: u8)
        requires
            self@.int_digits.len() <= l,
            self@.frac_digits.len() <= q,
            frac ==> k < q,
            !frac ==> k < l,
        ensures
            r == self@.aligned(l as nat, q as nat)[if frac {
                l + k
            } else {
                k as int
            }],
            is_digit(r),
    {
        proof {
            use_type_invariant(self);
        }
        let il = self.int_digits.len();
        let fl = self.frac_digits.len();
        if !frac {
            if k < l - il {
                48
            } else {
                self.int_digits[k - (l - il)]
            }
        } else if k < fl {
            self.frac_digits[k]
        } else {
            48
        }
    }

    /// Compares the magnitudes of `self` and `other` at their common scale:
    /// negative, zero or positive as the first is smaller, equal or larger.
    fn cmp_magnitude(&self, other: &Reading) -> (r: i8)
        ensures
            ({
                let q = self@.common_scale(other@);
                &&& r < 0 <==> self@.magnitude_at(q) < other@.magnitude_at(q)
                &&& r == 0 <==> self@.magnitude_at(q) == other@.magnitude_at(q)
                &&& r > 0 <==> self@.magnitude_at(q) > other@.magnitude_at(q)
            }),
    {
        proof {
            use_type_invariant(self);
            use_type_invariant(other);
        }
        let l = if self.int_digits.len() >= other.int_digits.len() {
            self.int_digits.len()
        } else {
            other.int_digits.len()
        };
        let q = if self.frac_digits.len() >= other.frac_digits.len() {
            self.frac_digits.len()
        } else {
            other.frac_digits.len()
        };
        let ghost sa = self@.aligned(l as nat, q as nat);
        let ghost sb = other@.aligned(l as nat, q as nat);
        proof {
            lemma_aligned_val(self@, l as nat, q as nat);
            lemma_aligned_val(other@, l as nat, q as nat);
            assert(all_digits(sa));
            assert(all_digits(sb));
        }
        // The first loop runs over the integer places, the second over the
        // fractional ones, so that no index exceeds a length held in memory.
        let mut k: usize = 0;
        while k < l
            invariant
                k <= l,
                sa == self@.aligned(l as nat, q as nat),
                sb == other@.aligned(l as nat, q as nat),
                sa.len() == l + q,
                sb.len() == l + q,
                all_digits(sa),
                all_digits(sb),
                q as nat == self@.common_scale(other@),
                digits_val(sa) == self@.magnitude_at(q as nat),
                digits_val(sb) == other@.magnitude_at(q as nat),
                self@.int_digits.len() <= l,
                other@.int_digits.len() <= l,
                self@.frac_digits.len() <= q,
                other@.frac_digits.len() <= q,
                sa.subrange(0, k as int) == sb.subrange(0, k as int),
            decreases l - k,
        {
            let da = self.aligned_digit(l, q, k, false);
            let db = other.aligned_digit(l, q, k, false);
            if da < db {
                proof {
                    lemma_digits_val_lex(sa, sb, k as int);
                }
                return -1;
            } else if da > db {
                proof {
                    lemma_digits_val_lex(sb, sa, k as int);
                }
                return 1;
            }
            assert(sa.subrange(0, k + 1) =~= sa.subrange(0, k as int).push(da));
            assert(sb.subrange(0, k + 1) =~= sb.subrange(0, k as int).push(db));
            k = k + 1;
        }
        let mut j: usize = 0;
        while j < q
            invariant
                k == l,
                j <= q,
                sa == self@.aligned(l as nat, q as nat),
                sb == other@.aligned(l as nat, q as nat),
                sa.len() == l + q,
                sb.len() == l + q,
                all_digits(sa),
                all_digits(sb),
                q as nat == self@.common_scale(other@),
                digits_val(sa) == self@.magnitude_at(q as nat),
                digits_val(sb) == other@.magnitude_at(q as nat),
                self@.int_digits.len() <= l,
                other@.int_digits.len() <= l,
                self@.frac_digits.len() <= q,
                other@.frac_digits.len() <= q,
                sa.subrange(0, l + j) == sb.subrange(0, l + j),
            decreases q - j,
        {
            let da = self.aligned_digit(l, q, j, true);
            let db = other.aligned_digit(l, q, j, true);
            if da < db {
                proof {
                    lemma_digits_val_lex(sa, sb, l + j);
                }
                return -1;
            } else if da > db {
                proof {
                    lemma_digits_val_lex(sb, sa, l + j);
                }
                return 1;
            }
            assert(sa.subrange(0, l + j + 1) =~= sa.subrange(0, l + j).push(da));
            assert(sb.subrange(0, l + j + 1) =~= sb.subrange(0, l + j).push(db));
            j = j + 1;
        }
        assert(sa =~= sa.subrange(0, l + q));
        assert(sb =~= sb.subrange(0, l + q));
        0
    }

    /// Whether `self` is strictly greater than `other`.
    pub fn exceeds(&self, other: &Reading) -> (r: bool)
        ensures
            r == self@.exceeds(other@),
    {
        let c = self.cmp_magnitude(other);
        let ghost q = self@.common_scale(other@);
        proof {
            use_type_invariant(self);
            use_type_invariant(other);
            lemma_magnitude_nonneg(self@, q);
            lemma_magnitude_nonneg(other@, q);
        }
        if !self.negative && !other.negative {
            c > 0
        } else if self.negative && other.negative {
            c < 0
        } else if self.negative {
            false
        } else {
            // A non-negative side against a non-positive one: only two zeros tie.
            !(self.is_zero() && other.is_zero())
        }
    }

    /// Whether every digit is zero.
    pub fn is_zero(&self) -> (r: bool)
        ensures
            r == (self@.magnitude_at(self@.frac_digits.len()) == 0),
    {
        proof {
            use_type_invariant(self);
        }
        let mut k: usize = 0;
        while k < self.int_digits.len()
            invariant
                k <= self.int_digits@.len(),
                self@.wf(),
                forall|m: int| 0 <= m < k ==> #[trigger] self.int_digits@[m] == 48,
            decreases self.int_digits@.len() - k,
        {
            if self.int_digits[k] != 48 {
                proof {
                    lemma_nonzero_digit(self@, k as int);
                }
                return false;
            }
            k = k + 1;
        }
        let mut j: usize = 0;
        while j < self.frac_digits.len()
            invariant
                j <= self.frac_digits@.len(),
                self@.wf(),
                forall|m: int| 0 <= m < self.int_digits@.len() ==> #[trigger] self.int_digits@[m] == 48,
                forall|m: int| 0 <= m < j ==> #[trigger] self.frac_digits@[m] == 48,
            decreases self.frac_digits@.len() - j,
        {
            if self.frac_digits[j] != 48 {
                proof {
                    lemma_nonzero_digit(self@, self.int_digits@.len() + j);
                }
                return false;
            }
            j = j + 1;
        }
        proof {
            let all = self@.int_digits + self@.frac_digits;
            assert(all =~= zeros(all.len()));
            lemma_digits_val_zeros(all.len());
        }
        true
    }

    /// The shortest text of the number, as ASCII bytes.
    pub fn text(&self) -> (r: Vec<u8>)
        ensures
            r@ == decimal_text(self@),
    {
        let il = self.int_digits.len();
        let fl = self.frac_digits.len();
        let ghost id = self.int_digits@;
        let ghost fd = self.frac_digits@;
        // Skip the leading zeros of the integer part.
        let mut k: usize = 0;
        assert(id.subrange(0, il as int) =~= id);
        while k < il && self.int_digits[k] == 48
            invariant
                k <= il,
                il == id.len(),
                id == self.int_digits@,
                strip_leading_zeros(id.subrange(k as int, il as int)) == strip_leading_zeros(id),
            decreases il - k,
        {
            assert(id.subrange(k + 1, il as int) =~= id.subrange(k as int, il as int).drop_first());
            k = k + 1;
        }
        assert(strip_leading_zeros(id) == id.subrange(k as int, il as int));
        // Skip the trailing zeros of the fractional part.
        let mut m: usize = fl;
        assert(fd.subrange(0, fl as int) =~= fd);
        while m > 0 && self.frac_digits[m - 1] == 48
            invariant
                m <= fl,
                fl == fd.len(),
                fd == self.frac_digits@,
                strip_trailing_zeros(fd.subrange(0, m as int)) == strip_trailing_zeros(fd),
            decreases m,
        {
            assert(fd.subrange(0, m - 1) =~= fd.subrange(0, m as int).drop_last());
            m = m - 1;
        }
        assert(strip_trailing_zeros(fd) == fd.subrange(0, m as int));
        let mut r: Vec<u8> = Vec::new();
        if self.negative && (k < il || m > 0) {
            r.push(45);
        }
        let ghost start = r@;
        if k == il {
            r.push(48);
        } else {
            let mut p: usize = k;
            while p < il
                invariant
                    k <= p <= il,
                    il == id.len(),
                    id == self.int_digits@,
                    r@ == start + id.subrange(k as int, p as int),
                decreases il - p,
            {
                r.push(self.int_digits[p]);
                p = p + 1;
                assert(id.subrange(k as int, p as int) =~= id.subrange(k as int, p - 1).push(
                    id[p - 1],
                ));
            }
        }
        if m > 0 {
            r.push(46);
            let ghost mid = r@;
            let mut j: usize = 0;
            while j < m
                invariant
                    j <= m <= fl,
                    fl == fd.len(),
                    fd == self.frac_digits@,
                    r@ == mid + fd.subrange(0, j as int),
                decreases m - j,
            {
                r.push(self.frac_digits[j]);
                j = j + 1;
                assert(fd.subrange(0, j as int) =~= fd.subrange(0, j - 1).push(fd[j - 1]));
            }
        }
        assert(r@ =~= decimal_text(self@));
        r
    }

    /// Parses the literal `b[start..end]`.
    pub fn parse_range(b: &[u8], start: usize, end: usize) -> (r: Option<Reading>)
        requires
            start <= end <= b@.len(),
        ensures
            r.is_some() == well_formed(b@.subrange(start as int, end as int)),
            r matches Some(v) ==> denotes(b@.subrange(start as int, end as int), v@),
    {
        let ghost s = b@.subrange(start as int, end as int);
        let mut i: usize = start;
        let mut negative = false;
        if start < end && (b[start] == 43 || b[start] == 45) {
            negative = b[start] == 45;
            i = start + 1;
        }
        let ghost first = i;
        let ghost body = unsigned_part(s);
        assert(body =~= b@.subrange(first as int, end as int));
        let mut int_digits: Vec<u8> = Vec::new();
        let mut frac_digits: Vec<u8> = Vec::new();
        let mut seen_dot = false;
        let mut seen_digit = false;
        let ghost mut dot: int = 0;
        while i < end
            invariant
                first <= i <= end <= b@.len(),
                body == b@.subrange(first as int, end as int),
                s == b@.subrange(start as int, end as int),
                body == unsigned_part(s),
                negative == (sign_len(s) == 1 && s[0] == 45),
                forall|k: int| 0 <= k < i - first ==> is_digit(#[trigger] body[k]) || body[k] == 46,
                seen_digit == exists|k: int| 0 <= k < i - first && is_digit(#[trigger] body[k]),
                !seen_dot ==> int_digits@ == body.subrange(0, i - first),
                !seen_dot ==> frac_digits@.len() == 0,
                !seen_dot ==> forall|k: int| 0 <= k < i - first ==> #[trigger] body[k] != 46,
                seen_dot ==> 0 <= dot < i - first && body[dot] == 46,
                seen_dot ==> int_digits@ == body.subrange(0, dot),
                seen_dot ==> frac_digits@ == body.subrange(dot + 1, i - first),
                seen_dot ==> forall|k: int| 0 <= k < i - first && k != dot ==> #[trigger] body[k] != 46,
                all_digits(int_digits@),
                all_digits(frac_digits@),
            decreases end - i,
        {
            let c = b[i];
            let ghost k = i - first;
            assert(body[k] == c);
            if c == 46 {
                if seen_dot {
                    assert(body[dot] == 46 && body[k] == 46 && dot < k);
                    assert(!(0 <= dot < k < body.len() && body[dot] == 46 ==> body[k] != 46));
                    return None;
                }
                seen_dot = true;
                proof {
                    dot = k;
                }
            } else if 48 <= c && c <= 57 {
                seen_digit = true;
                if seen_dot {
                    frac_digits.push(c);
                } else {
                    int_digits.push(c);
                }
            } else {
                assert(!well_formed(s));
                return None;
            }
            i = i + 1;
            assert(body.subrange(0, i - first) =~= body.subrange(0, i - first - 1).push(c));
            assert(seen_dot ==> body.subrange(dot + 1, i - first) =~= if k == dot {
                Seq::empty()
            } else {
                body.subrange(dot + 1, i - first - 1).push(c)
            });
        }
        if !seen_digit {
            return None;
        }
        let r = Reading { negative, int_digits, frac_digits };
        proof {
            assert(body.len() == i - first);
            if seen_dot {
                assert(body =~= r@.int_digits + seq![46u8] + r@.frac_digits);
            } else {
                assert(body =~= r@.int_digits);
            }
        }
        Some(r)
    }

    /// Parses a literal such as `-1.5`, `2.`, `.5` or `+7`.
    pub fn parse(s: &str) -> (r: Option<Reading>)
        ensures
            r.is_some() == well_formed(s.spec_bytes()),
            r matches Some(v) ==> denotes(s.spec_bytes(), v@),
    {
        let b = s.as_bytes();
        assert(b@.subrange(0, b@.len() as int) =~= b@);
        Reading::parse_range(b, 0, b.len())
    }
}

impl View for Reading {
    type V = DecimalView;

    closed spec fn view(&self) -> DecimalView {
        DecimalView {
            negative: self.negative,
            int_digits: self.int_digits@,
            frac_digits: self.frac_digits@,
        }
    }
}

pub proof fn lemma_pow10_pos(n: nat)
    ensures
        pow10(n) >= 1,
    decreases n,
{
    if n > 0 {
        lemma_pow10_pos((n - 1) as nat);
    }
}

pub proof fn lemma_digits_val_concat(s: Seq<u8>, t: Seq<u8>)
    ensures
        digits_val(s + t) == digits_val(s) * pow10(t.len()) + digits_val(t),
    decreases t.len(),
{
    if t.len() == 0 {
        assert(s + t =~= s);
    } else {
        let t1 = t.drop_last();
        assert((s + t).drop_last() =~= s + t1);
        assert((s + t).last() == t.last());
        lemma_digits_val_concat(s, t1);
        let a = digits_val(s);
        let p = pow10(t1.len());
        let v = digits_val(t1);
        assert((a * p + v) * 10 == a * (10 * p) + v * 10) by (nonlinear_arith);
    }
}

pub proof fn lemma_digits_val_zeros(n: nat)
    ensures
        digits_val(zeros(n)) == 0,
    decreases n,
{
    if n > 0 {
        assert(zeros(n).drop_last() =~= zeros((n - 1) as nat));
        lemma_digits_val_zeros((n - 1) as nat);
    }
}

pub proof fn lemma_digits_val_bound(s: Seq<u8>)
    requires
        all_digits(s),
    ensures
        0 <= digits_val(s) < pow10(s.len()),
    decreases s.len(),
{
    if s.len() > 0 {
        let s1 = s.drop_last();
        assert(is_digit(s[s.len() - 1]));
        lemma_digits_val_bound(s1);
    }
}

/// Equal-length digit strings compare as their first differing digit does.
pub proof fn lemma_digits_val_lex(s: Seq<u8>, t: Seq<u8>, i: int)
    requires
        all_digits(s),
        all_digits(t),
        s.len() == t.len(),
        0 <= i < s.len(),
        s.subrange(0, i) == t.subrange(0, i),
        s[i] < t[i],
    ensures
        digits_val(s) < digits_val(t),
{
    let n = s.len() as int;
    let sh = s.subrange(0, i + 1);
    let th = t.subrange(0, i + 1);
    let sr = s.subrange(i + 1, n);
    let tr = t.subrange(i + 1, n);
    assert(s =~= sh + sr);
    assert(t =~= th + tr);
    lemma_digits_val_concat(sh, sr);
    lemma_digits_val_concat(th, tr);
    assert(sh.drop_last() =~= s.subrange(0, i));
    assert(th.drop_last() =~= t.subrange(0, i));
    assert(all_digits(sr));
    assert(all_digits(tr));
    lemma_digits_val_bound(sr);
    lemma_digits_val_bound(tr);
    let p = pow10(sr.len());
    lemma_pow10_pos(sr.len());
    let a = digits_val(sh);
    let b = digits_val(th);
    assert(a + 1 <= b);
    assert(a * p + p <= b * p) by (nonlinear_arith)
        requires
            a + 1 <= b,
            p >= 1,
    ;
}

pub proof fn lemma_magnitude_nonneg(d: DecimalView, q: nat)
    requires
        d.wf(),
    ensures
        d.magnitude_at(q) >= 0,
        d.magnitude_at(q) == 0 <==> d.magnitude_at(d.frac_digits.len()) == 0,
{
    let all = d.int_digits + d.frac_digits;
    assert(all_digits(all));
    lemma_digits_val_bound(all);
    let v = digits_val(all);
    let p = pow10((q - d.frac_digits.len()) as nat);
    lemma_pow10_pos((q - d.frac_digits.len()) as nat);
    assert(pow10(0) == 1);
    assert(v * p >= 0 && (v * p == 0 <==> v == 0)) by (nonlinear_arith)
        requires
            v >= 0,
            p >= 1,
    ;
}

/// The first place at or after `i` that holds a digit other than zero, given
/// that `k` is one and no place in `[0, i)` is.
proof fn first_nonzero(s: Seq<u8>, i: int, k: int) -> (r: int)
    requires
        0 <= i <= k < s.len(),
        s[k] != 48,
        forall|m: int| 0 <= m < i ==> #[trigger] s[m] == 48,
    ensures
        0 <= r <= k,
        s[r] != 48,
        forall|m: int| 0 <= m < r ==> #[trigger] s[m] == 48,
    decreases k - i,
{
    if s[i] != 48 {
        i
    } else {
        first_nonzero(s, i + 1, k)
    }
}

/// A digit other than zero makes the magnitude non-zero.
pub proof fn lemma_nonzero_digit(d: DecimalView, k: int)
    requires
        d.wf(),
        0 <= k < d.int_digits.len() + d.frac_digits.len(),
        (d.int_digits + d.frac_digits)[k] != 48,
    ensures
        d.magnitude_at(d.frac_digits.len()) != 0,
{
    let all = d.int_digits + d.frac_digits;
    let z = zeros(all.len());
    assert(all_digits(all));
    assert(all_digits(z));
    assert(pow10(0) == 1);
    lemma_digits_val_zeros(all.len());
    let i = first_nonzero(all, 0, k);
    assert(is_digit(all[i]));
    assert(z.subrange(0, i) =~= all.subrange(0, i));
    lemma_digits_val_lex(z, all, i);
}

pub proof fn lemma_pow10_add(a: nat, b: nat)
    ensures
        pow10(a + b) == pow10(a) * pow10(b),
    decreases a,
{
    if a > 0 {
        lemma_pow10_add((a - 1) as nat, b);
        assert((a + b - 1) as nat == ((a - 1) as nat + b) as nat);
        let x = pow10((a - 1) as nat);
        let y = pow10(b);
        assert(10 * (x * y) == (10 * x) * y) by (nonlinear_arith);
    }
}

/// Leading zeros are a prefix of zeros in front of what is left.
proof fn lemma_strip_leading(s: Seq<u8>)
    ensures
        s == zeros((s.len() - strip_leading_zeros(s).len()) as nat) + strip_leading_zeros(s),
        strip_leading_zeros(s).len() <= s.len(),
        strip_leading_zeros(s).len() > 0 ==> strip_leading_zeros(s)[0] != 48,
    decreases s.len(),
{
    if s.len() > 0 && s[0] == 48 {
        let t = s.drop_first();
        lemma_strip_leading(t);
        let n = (t.len() - strip_leading_zeros(t).len()) as nat;
        assert(zeros(n + 1) =~= seq![48u8] + zeros(n));
        assert(s =~= seq![48u8] + t);
        assert(s =~= zeros(n + 1) + strip_leading_zeros(t));
    } else {
        assert(s =~= zeros(0) + s);
    }
}

/// Trailing zeros are a suffix of zeros behind what is left.
proof fn lemma_strip_trailing(s: Seq<u8>)
    ensures
        s == strip_trailing_zeros(s) + zeros((s.len() - strip_trailing_zeros(s).len()) as nat),
        strip_trailing_zeros(s).len() <= s.len(),
        strip_trailing_zeros(s).len() > 0 ==> strip_trailing_zeros(s).last() != 48,
    decreases s.len(),
{
    if s.len() > 0 && s.last() == 48 {
        let t = s.drop_last();
        lemma_strip_trailing(t);
        let n = (t.len() - strip_trailing_zeros(t).len()) as nat;
        assert(zeros(n + 1) =~= zeros(n) + seq![48u8]);
        assert(s =~= t + seq![48u8]);
        assert(s =~= strip_trailing_zeros(t) + zeros(n + 1));
    } else {
        assert(s =~= s + zeros(0));
    }
}

/// The digits that carry the value: integer digits without leading zeros, then
/// fractional digits without trailing zeros.
pub open spec fn significant(d: DecimalView) -> Seq<u8> {
    strip_leading_zeros(d.int_digits) + strip_trailing_zeros(d.frac_digits)
}

proof fn lemma_magnitude_significant(d: DecimalView, q: nat)
    requires
        d.frac_digits.len() <= q,
    ensures
        d.magnitude_at(q) == digits_val(significant(d)) * pow10(
            (q - strip_trailing_zeros(d.frac_digits).len()) as nat,
        ),
{
    let i = strip_leading_zeros(d.int_digits);
    let f = strip_trailing_zeros(d.frac_digits);
    lemma_strip_leading(d.int_digits);
    lemma_strip_trailing(d.frac_digits);
    let k = (d.int_digits.len() - i.len()) as nat;
    let m = (d.frac_digits.len() - f.len()) as nat;
    let x = i + f;
    assert(d.int_digits + d.frac_digits =~= zeros(k) + (x + zeros(m)));
    lemma_digits_val_concat(zeros(k), x + zeros(m));
    lemma_digits_val_concat(x, zeros(m));
    lemma_digits_val_zeros(k);
    lemma_digits_val_zeros(m);
    let r = (q - d.frac_digits.len()) as nat;
    lemma_pow10_add(m, r);
    assert((m + r) as nat == (q - f.len()) as nat);
    let v = digits_val(x);
    assert(v * pow10(m) * pow10(r) == v * (pow10(m) * pow10(r))) by (nonlinear_arith);
}

proof fn lemma_digits_val_lower(s: Seq<u8>)
    requires
        all_digits(s),
        s.len() > 0,
        s[0] != 48,
    ensures
        digits_val(s) >= pow10((s.len() - 1) as nat),
    decreases s.len(),
{
    if s.len() == 1 {
        assert(s.drop_last() =~= Seq::<u8>::empty());
        assert(is_digit(s[0]));
        assert(pow10(0) == 1);
        assert(digits_val(s) == digits_val(s.drop_last()) * 10 + (s.last() as int - 48));
    } else {
        let t = s.drop_last();
        assert(t[0] == s[0]);
        assert(all_digits(t));
        lemma_digits_val_lower(t);
        assert(is_digit(s.last()));
        assert(pow10((s.len() - 1) as nat) == 10 * pow10((t.len() - 1) as nat));
    }
}

proof fn lemma_digits_val_last(s: Seq<u8>)
    requires
        all_digits(s),
        s.len() > 0,
    ensures
        digits_val(s) % 10 == s.last() - 48,
{
    assert(is_digit(s.last()));
    let a = digits_val(s.drop_last());
    let d = s.last() - 48;
    assert((a * 10 + d) % 10 == d) by (nonlinear_arith)
        requires
            0 <= d < 10,
    ;
}

/// The first place where two sequences of one length differ, if they do.
proof fn first_difference(s: Seq<u8>, t: Seq<u8>, i: int) -> (r: int)
    requires
        s.len() == t.len(),
        0 <= i <= s.len(),
        s.subrange(0, i) == t.subrange(0, i),
        s != t,
    ensures
        0 <= r < s.len(),
        s.subrange(0, r) == t.subrange(0, r),
        s[r] != t[r],
    decreases s.len() - i,
{
    if i == s.len() {
        assert(s =~= s.subrange(0, i));
        assert(t =~= t.subrange(0, i));
        0
    } else if s[i] != t[i] {
        i
    } else {
        assert(s.subrange(0, i + 1) =~= s.subrange(0, i).push(s[i]));
        assert(t.subrange(0, i + 1) =~= t.subrange(0, i).push(t[i]));
        first_difference(s, t, i + 1)
    }
}

proof fn lemma_digits_val_injective(s: Seq<u8>, t: Seq<u8>)
    requires
        all_digits(s),
        all_digits(t),
        s.len() == t.len(),
        digits_val(s) == digits_val(t),
    ensures
        s == t,
{
    if s != t {
        assert(s.subrange(0, 0) =~= t.subrange(0, 0));
        let r = first_difference(s, t, 0);
        if s[r] < t[r] {
            lemma_digits_val_lex(s, t, r);
        } else {
            lemma_digits_val_lex(t, s, r);
        }
    }
}

proof fn lemma_strip_digits(d: DecimalView)
    requires
        d.wf(),
    ensures
        all_digits(strip_leading_zeros(d.int_digits)),
        all_digits(strip_trailing_zeros(d.frac_digits)),
        all_digits(significant(d)),
{
    let i = strip_leading_zeros(d.int_digits);
    let f = strip_trailing_zeros(d.frac_digits);
    lemma_strip_leading(d.int_digits);
    lemma_strip_trailing(d.frac_digits);
    let n = d.int_digits.len() - i.len();
    assert forall|k: int| 0 <= k < i.len() implies is_digit(#[trigger] i[k]) by {
        assert(i[k] == d.int_digits[k + n]);
    };
    assert forall|k: int| 0 <= k < f.len() implies is_digit(#[trigger] f[k]) by {
        assert(f[k] == d.frac_digits[k]);
    };
    assert forall|k: int| 0 <= k < significant(d).len() implies is_digit(
        #[trigger] significant(d)[k],
    ) by {
        if k < i.len() {
            assert(significant(d)[k] == i[k]);
        } else {
            assert(significant(d)[k] == f[k - i.len()]);
        }
    };
}

/// The significant digits are worth something exactly when there are any, and
/// when there are fractional ones the last of them is not a zero.
proof fn lemma_significant_val(d: DecimalView)
    requires
        d.wf(),
    ensures
        significant(d).len() > 0 ==> digits_val(significant(d)) > 0,
        strip_trailing_zeros(d.frac_digits).len() > 0 ==> digits_val(significant(d)) % 10 != 0,
        digits_val(significant(d)) == digits_val(strip_leading_zeros(d.int_digits)) * pow10(
            strip_trailing_zeros(d.frac_digits).len(),
        ) + digits_val(strip_trailing_zeros(d.frac_digits)),
{
    let i = strip_leading_zeros(d.int_digits);
    let f = strip_trailing_zeros(d.frac_digits);
    lemma_strip_leading(d.int_digits);
    lemma_strip_trailing(d.frac_digits);
    lemma_strip_digits(d);
    lemma_digits_val_concat(i, f);
    lemma_digits_val_bound(i);
    lemma_digits_val_bound(f);
    lemma_pow10_pos(f.len());
    if f.len() > 0 {
        lemma_digits_val_last(significant(d));
        assert(significant(d).last() == f.last());
        assert(is_digit(f.last()));
    }
    if i.len() > 0 {
        lemma_digits_val_lower(i);
        lemma_pow10_pos((i.len() - 1) as nat);
        let a = digits_val(i);
        let p = pow10(f.len());
        assert(a * p >= 1) by (nonlinear_arith)
            requires
                a >= 1,
                p >= 1,
        ;
    }
}

/// Two decimals of the same value have the same text.
pub proof fn lemma_same_value_same_text(a: DecimalView, b: DecimalView)
    requires
        a.wf(),
        b.wf(),
        a.same_value(b),
    ensures
        decimal_text(a) == decimal_text(b),
{
    let q = a.common_scale(b);
    let ia = strip_leading_zeros(a.int_digits);
    let fa = strip_trailing_zeros(a.frac_digits);
    let ib = strip_leading_zeros(b.int_digits);
    let fb = strip_trailing_zeros(b.frac_digits);
    lemma_strip_leading(a.int_digits);
    lemma_strip_trailing(a.frac_digits);
    lemma_strip_leading(b.int_digits);
    lemma_strip_trailing(b.frac_digits);
    lemma_strip_digits(a);
    lemma_strip_digits(b);
    lemma_magnitude_significant(a, q);
    lemma_magnitude_significant(b, q);
    lemma_significant_val(a);
    lemma_significant_val(b);
    lemma_magnitude_nonneg(a, q);
    lemma_magnitude_nonneg(b, q);
    let va = digits_val(significant(a));
    let vb = digits_val(significant(b));
    let pa = pow10((q - fa.len()) as nat);
    let pb = pow10((q - fb.len()) as nat);
    lemma_pow10_pos((q - fa.len()) as nat);
    lemma_pow10_pos((q - fb.len()) as nat);
    lemma_digits_val_bound(significant(a));
    lemma_digits_val_bound(significant(b));
    let ma = a.magnitude_at(q);
    let mb = b.magnitude_at(q);
    assert(ma == mb);
    if ma == 0 {
        assert(va * pa == 0);
        assert(va == 0) by (nonlinear_arith)
            requires
                va * pa == 0,
                pa >= 1,
        ;
        assert(vb * pb == 0);
        assert(vb == 0) by (nonlinear_arith)
            requires
                vb * pb == 0,
                pb >= 1,
        ;
        assert(decimal_text(a) =~= decimal_text(b));
    } else {
        assert(a.negative == b.negative);
        if fa.len() < fb.len() {
            lemma_unequal_scales(va, vb, fa.len(), fb.len(), q);
        } else if fb.len() < fa.len() {
            lemma_unequal_scales(vb, va, fb.len(), fa.len(), q);
        }
        assert(fa.len() == fb.len());
        assert(va == vb) by (nonlinear_arith)
            requires
                va * pa == vb * pa,
                pa >= 1,
        ;
        let f = fa.len();
        let p = pow10(f);
        let xa = digits_val(ia);
        let xb = digits_val(ib);
        let ya = digits_val(fa);
        let yb = digits_val(fb);
        lemma_digits_val_bound(fa);
        lemma_digits_val_bound(fb);
        lemma_digits_val_bound(ia);
        lemma_digits_val_bound(ib);
        assert(xa == xb) by (nonlinear_arith)
            requires
                xa * p + ya == xb * p + yb,
                0 <= ya < p,
                0 <= yb < p,
                xa >= 0,
                xb >= 0,
        {
            if xa < xb {
                assert(xa * p + p <= xb * p);
            } else if xb < xa {
                assert(xb * p + p <= xa * p);
            }
        };
        lemma_digits_val_injective(fa, fb);
        if ia.len() < ib.len() {
            lemma_digits_val_lower(ib);
            lemma_pow10_add(ia.len(), (ib.len() - 1 - ia.len()) as nat);
            lemma_pow10_pos((ib.len() - 1 - ia.len()) as nat);
            assert(pow10(ia.len()) * pow10((ib.len() - 1 - ia.len()) as nat) >= pow10(ia.len()))
                by (nonlinear_arith)
                requires
                    pow10((ib.len() - 1 - ia.len()) as nat) >= 1,
                    pow10(ia.len()) >= 1,
            ;
            assert((ia.len() + (ib.len() - 1 - ia.len()) as nat) as nat == (ib.len() - 1) as nat);
        } else if ib.len() < ia.len() {
            lemma_digits_val_lower(ia);
            lemma_pow10_add(ib.len(), (ia.len() - 1 - ib.len()) as nat);
            lemma_pow10_pos((ia.len() - 1 - ib.len()) as nat);
            assert(pow10(ib.len()) * pow10((ia.len() - 1 - ib.len()) as nat) >= pow10(ib.len()))
                by (nonlinear_arith)
                requires
                    pow10((ia.len() - 1 - ib.len()) as nat) >= 1,
                    pow10(ib.len()) >= 1,
            ;
            assert((ib.len() + (ia.len() - 1 - ib.len()) as nat) as nat == (ia.len() - 1) as nat);
        }
        lemma_digits_val_injective(ia, ib);
        assert(decimal_text(a) =~= decimal_text(b));
    }
}

/// Where equal magnitudes at scale `q` are written with `fa` and `fb`
/// significant fractional digits and the right side's value ends in a digit
/// other than zero, the left side has at least as many.
proof fn lemma_unequal_scales(va: int, vb: int, fa: nat, fb: nat, q: nat)
    requires
        fa <= q,
        fb <= q,
        vb % 10 != 0,
        va >= 0,
        va * pow10((q - fa) as nat) == vb * pow10((q - fb) as nat),
    ensures
        fb <= fa,
{
    if fa < fb {
        let d = (fb - fa) as nat;
        let r = (q - fb) as nat;
        lemma_pow10_add(d, r);
        assert((d + r) as nat == (q - fa) as nat);
        lemma_pow10_pos(r);
        let p = pow10(r);
        let t = pow10((d - 1) as nat);
        assert(pow10(d) == 10 * t);
        assert(va * (10 * t) * p == vb * p) by (nonlinear_arith)
            requires
                va * ((10 * t) * p) == vb * p,
        ;
        assert(vb == 10 * (va * t)) by (nonlinear_arith)
            requires
                va * (10 * t) * p == vb * p,
                p >= 1,
        ;
        assert((10 * (va * t)) % 10 == 0) by (nonlinear_arith);
    }
}

pub proof fn lemma_aligned_val(d: DecimalView, l: nat, q: nat)
    requires
        d.int_digits.len() <= l,
        d.frac_digits.len() <= q,
    ensures
        digits_val(d.aligned(l, q)) == d.magnitude_at(q),
        d.aligned(l, q).len() == l + q,
{
    let z1 = zeros((l - d.int_digits.len()) as nat);
    let z2 = zeros((q - d.frac_digits.len()) as nat);
    let i = d.int_digits;
    let f = d.frac_digits;
    lemma_digits_val_zeros((l - d.int_digits.len()) as nat);
    lemma_digits_val_zeros((q - d.frac_digits.len()) as nat);
    lemma_digits_val_concat(z1 + i + f, z2);
    lemma_digits_val_concat(z1 + i, f);
    lemma_digits_val_concat(z1, i);
    lemma_digits_val_concat(i, f);
}

} // verus!
