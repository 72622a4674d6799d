//! Natural ("human") ordering of names: runs of ASCII digits compare by
//! their numeric value, everything else compares character by character,
//! so that `img2` sorts before `img10`.
use vstd::prelude::*;
use crate::text::{is_digit_spec, digit_value, is_ascii_digit, str_chars};
use std::cmp::Ordering;

verus! {

/// Length of the run of ASCII digits at the start of `s`.
pub open spec fn digit_run_len(s: Seq<char>) -> nat
    decreases s.len(),
{
    if s.len() > 0 && is_digit_spec(s[0]) {
        1 + digit_run_len(s.drop_first())
    } else {
        0
    }
}

/// The numeric value of a sequence of ASCII digits.
pub open spec fn digits_value(s: Seq<char>) -> nat
    decreases s.len(),
{
    if s.len() == 0 {
        0
    } else {
        digits_value(s.drop_last()) * 10 + digit_value(s.last())
    }
}

/// The key by which a digit run is compared: its numeric value, however
/// long the run.
pub open spec fn run_key(s: Seq<char>) -> nat {
    digits_value(s)
}

pub proof fn lemma_digit_run_len(s: Seq<char>)
    ensures
        digit_run_len(s) <= s.len(),
        forall|i: int| 0 <= i < digit_run_len(s) ==> is_digit_spec(#[trigger] s[i]),
        digit_run_len(s) < s.len() ==> !is_digit_spec(s[digit_run_len(s) as int]),
        s.len() > 0 && is_digit_spec(s[0]) ==> digit_run_len(s) >= 1,
    decreases s.len(),
{
    if s.len() > 0 && is_digit_spec(s[0]) {
        lemma_digit_run_len(s.drop_first());
        assert forall|i: int| 0 <= i < digit_run_len(s) implies is_digit_spec(#[trigger] s[i]) by {
            if i > 0 {
                assert(s[i] == s.drop_first()[i - 1]);
            }
        }
    }
}

/// A digit run that ends at index `k` (or at the end of `s`) has length `k`.
pub proof fn lemma_digit_run_len_at(s: Seq<char>, k: int)
    requires
        0 <= k <= s.len(),
        forall|i: int| 0 <= i < k ==> is_digit_spec(#[trigger] s[i]),
        k == s.len() || !is_digit_spec(s[k]),
    ensures
        digit_run_len(s) == k,
    decreases k,
{
    if k > 0 {
        let d = s.drop_first();
        assert forall|i: int| 0 <= i < k - 1 implies is_digit_spec(#[trigger] d[i]) by {
            assert(d[i] == s[i + 1]);
        }
        if k - 1 < d.len() {
            assert(d[k - 1] == s[k]);
        }
        lemma_digit_run_len_at(d, k - 1);
    }
}

/// Three-way natural comparison of two texts: negative, zero or positive.
pub open spec fn natural_order(a: Seq<char>, b: Seq<char>) -> int
    decreases a.len() + b.len(),
{
    if a.len() == 0 {
        if b.len() == 0 {
            0
        } else {
            -1
        }
    } else if b.len() == 0 {
        1
    } else if is_digit_spec(a[0]) && is_digit_spec(b[0]) {
        let ra = digit_run_len(a);
        let rb = digit_run_len(b);
        let va = run_key(a.take(ra as int));
        let vb = run_key(b.take(rb as int));
        if va < vb {
            -1
        } else if va > vb {
            1
        } else {
            proof {
                lemma_digit_run_len(a);
                lemma_digit_run_len(b);
            }
            natural_order(a.skip(ra as int), b.skip(rb as int))
        }
    } else if a[0] == b[0] {
        natural_order(a.drop_first(), b.drop_first())
    } else if a[0] < b[0] {
        -1
    } else {
        1
    }
}

/// The `Ordering` that a three-way integer result stands for.
pub open spec fn ordering_of(x: int) -> Ordering {
    if x < 0 {
        Ordering::Less
    } else if x == 0 {
        Ordering::Equal
    } else {
        Ordering::Greater
    }
}

/// Result of scanning a run of digits: where it ends.
pub struct DigitRun {
    pub end: usize,
}

/// Reads the run of ASCII digits of `s` that starts at `start`.
pub fn scan_digit_run(s: &Vec<char>, start: usize) -> (r: DigitRun)
    requires
        start <= s.len(),
    ensures
        r.end == start + digit_run_len(s@.skip(start as int)),
        r.end <= s.len(),
        forall|i: int| start <= i < r.end ==> is_digit_spec(#[trigger] s@[i]),
{
    let mut k: usize = start;
    while k < s.len() && is_ascii_digit(s[k])
        invariant
            start <= k <= s.len(),
            forall|i: int| start <= i < k ==> is_digit_spec(#[trigger] s@[i]),
        decreases s.len() - k,
    {
        k = k + 1;
    }
    proof {
        let t = s@.skip(start as int);
        assert forall|i: int| 0 <= i < k - start implies is_digit_spec(#[trigger] t[i]) by {
            assert(t[i] == s@[start + i]);
        }
        if k < s.len() {
            assert(t[k - start] == s@[k as int]);
        }
        lemma_digit_run_len_at(t, k - start);
    }
    DigitRun { end: k }
}

/// `10^n`.
pub open spec fn pow10(n: nat) -> nat
    decreases n,
{
    if n == 0 {
        1
    } else {
        10 * pow10((n - 1) as nat)
    }
}

/// All characters of `s` are ASCII digits.
pub open spec fn all_digits(s: Seq<char>) -> bool {
    forall|i: int| 0 <= i < s.len() ==> is_digit_spec(#[trigger] s[i])
}

proof fn lemma_pow10_pos(n: nat)
    ensures
        pow10(n) >= 1,
    decreases n,
{
    if n > 0 {
        lemma_pow10_pos((n - 1) as nat);
    }
}

proof fn lemma_pow10_mono(m: nat, n: nat)
    requires
        m <= n,
    ensures
        pow10(m) <= pow10(n),
    decreases n,
{
    if m < n {
        lemma_pow10_mono(m, (n - 1) as nat);
        lemma_pow10_pos((n - 1) as nat);
    }
}

/// The value of two digit sequences written one after the other.
proof fn lemma_digits_value_concat(x: Seq<char>, y: Seq<char>)
    ensures
        digits_value(x + y) == digits_value(x) * pow10(y.len()) + digits_value(y),
    decreases y.len(),
{
    if y.len() == 0 {
        assert(x + y == x);
        assert(pow10(0) == 1);
        assert(digits_value(y) == 0);
        assert(digits_value(x) * 1 == digits_value(x));
    } else {
        let y1 = y.drop_last();
        assert((x + y).drop_last() == x + y1);
        assert((x + y).last() == y.last());
        lemma_digits_value_concat(x, y1);
        let a = digits_value(x);
        let p = pow10(y1.len());
        let b = digits_value(y1);
        let d = digit_value(y.last());
        assert(pow10(y.len()) == 10 * p);
        assert(digits_value(y) == b * 10 + d);
        assert(digits_value(x + y) == digits_value(x + y1) * 10 + d);
        assert((a * p + b) * 10 + d == a * (10 * p) + (b * 10 + d)) by (nonlinear_arith);
    }
}

/// A run of digits is less than `10^len`.
proof fn lemma_digits_value_bound(s: Seq<char>)
    requires
        all_digits(s),
    ensures
        digits_value(s) < pow10(s.len()),
    decreases s.len(),
{
    if s.len() > 0 {
        let t = s.drop_last();
        assert forall|i: int| 0 <= i < t.len() implies is_digit_spec(#[trigger] t[i]) by {
            assert(t[i] == s[i]);
        }
        lemma_digits_value_bound(t);
        assert(is_digit_spec(s[s.len() - 1]));
        let v = digits_value(t);
        let p = pow10(t.len());
        let d = digit_value(s.last());
        assert(d <= 9);
        assert(v * 10 + d < 10 * p) by (nonlinear_arith)
            requires
                v < p,
                d <= 9,
        ;
    }
}

/// Zeros alone are worth nothing.
proof fn lemma_zeros_value(z: Seq<char>)
    requires
        forall|i: int| 0 <= i < z.len() ==> #[trigger] z[i] == '0',
    ensures
        digits_value(z) == 0,
    decreases z.len(),
{
    if z.len() > 0 {
        let t = z.drop_last();
        assert forall|i: int| 0 <= i < t.len() implies #[trigger] t[i] == '0' by {
            assert(t[i] == z[i]);
        }
        lemma_zeros_value(t);
        assert(z.last() == '0');
    }
}

/// Leading zeros do not change a run's value.
proof fn lemma_leading_zeros(s: Seq<char>, k: int)
    requires
        0 <= k <= s.len(),
        forall|i: int| 0 <= i < k ==> #[trigger] s[i] == '0',
    ensures
        digits_value(s) == digits_value(s.skip(k)),
{
    let z = s.take(k);
    assert forall|i: int| 0 <= i < z.len() implies #[trigger] z[i] == '0' by {
        assert(z[i] == s[i]);
    }
    lemma_zeros_value(z);
    lemma_digits_value_concat(z, s.skip(k));
    assert(z + s.skip(k) == s);
}

/// A run without a leading zero is at least `10^(len - 1)`.
proof fn lemma_digits_value_lower(s: Seq<char>)
    requires
        all_digits(s),
        s.len() >= 1,
        s[0] != '0',
    ensures
        digits_value(s) >= pow10((s.len() - 1) as nat),
{
    let h = s.take(1);
    let t = s.skip(1);
    assert(h + t == s);
    lemma_digits_value_concat(h, t);
    assert(h.drop_last() == Seq::<char>::empty());
    assert(h.last() == s[0]);
    assert(digits_value(Seq::<char>::empty()) == 0);
    assert(digits_value(h) == digit_value(s[0]));
    assert(is_digit_spec(s[0]));
    assert(digit_value(s[0]) >= 1);
    let p = pow10(t.len());
    assert(digit_value(s[0]) * p >= p) by (nonlinear_arith)
        requires
            digit_value(s[0]) >= 1,
    ;
}

/// Two runs of one length that agree before position `k` and differ
/// there compare as their digits at `k` do.
proof fn lemma_digits_value_first_difference(x: Seq<char>, y: Seq<char>, k: int)
    requires
        all_digits(x),
        all_digits(y),
        x.len() == y.len(),
        0 <= k < x.len(),
        x.take(k) == y.take(k),
        x[k] < y[k],
    ensures
        digits_value(x) < digits_value(y),
{
    let xp = x.take(k + 1);
    let yp = y.take(k + 1);
    let xs = x.skip(k + 1);
    let ys = y.skip(k + 1);
    assert(xp + xs == x);
    assert(yp + ys == y);
    lemma_digits_value_concat(xp, xs);
    lemma_digits_value_concat(yp, ys);
    assert(xp.drop_last() == x.take(k));
    assert(yp.drop_last() == y.take(k));
    assert(is_digit_spec(x[k]) && is_digit_spec(y[k]));
    let c = digits_value(x.take(k));
    assert(digits_value(xp) == c * 10 + digit_value(x[k]));
    assert(digits_value(yp) == c * 10 + digit_value(y[k]));
    assert(digit_value(x[k]) < digit_value(y[k]));
    assert forall|i: int| 0 <= i < xs.len() implies is_digit_spec(#[trigger] xs[i]) by {
        assert(xs[i] == x[i + k + 1]);
    }
    lemma_digits_value_bound(xs);
    assert(xs.len() == ys.len());
    let p = pow10(xs.len());
    let a = digits_value(xp);
    let b = digits_value(yp);
    assert(a * p + digits_value(xs) < b * p + digits_value(ys)) by (nonlinear_arith)
        requires
            a + 1 <= b,
            digits_value(xs) < p,
            digits_value(ys) >= 0,
    ;
}

/// Where the leading zeros of the run `s[start..end]` stop.
fn skip_zeros(s: &Vec<char>, start: usize, end: usize) -> (k: usize)
    requires
        start <= end <= s.len(),
    ensures
        start <= k <= end,
        forall|i: int| start <= i < k ==> #[trigger] s@[i] == '0',
        k < end ==> s@[k as int] != '0',
{
    let mut k = start;
    while k < end && s[k] == '0'
        invariant
            start <= k <= end,
            end <= s.len(),
            forall|i: int| start <= i < k ==> #[trigger] s@[i] == '0',
        decreases end - k,
    {
        k = k + 1;
    }
    k
}

/// Compares the values of the digit runs `a[i..ea]` and `b[j..eb]`, of
/// any length: without their leading zeros, the longer is greater, and
/// runs of one length compare digit by digit.
fn compare_runs(a: &Vec<char>, i: usize, ea: usize, b: &Vec<char>, j: usize, eb: usize) -> (r: i8)
    requires
        i <= ea <= a.len(),
        j <= eb <= b.len(),
        forall|k: int| i <= k < ea ==> is_digit_spec(#[trigger] a@[k]),
        forall|k: int| j <= k < eb ==> is_digit_spec(#[trigger] b@[k]),
    ensures
        ({
            let va = digits_value(a@.subrange(i as int, ea as int));
            let vb = digits_value(b@.subrange(j as int, eb as int));
            r == (if va < vb {
                -1i8
            } else if va > vb {
                1i8
            } else {
                0i8
            })
        }),
{
    let ghost sa = a@.subrange(i as int, ea as int);
    let ghost sb = b@.subrange(j as int, eb as int);
    let za = skip_zeros(a, i, ea);
    let zb = skip_zeros(b, j, eb);
    let ghost ta = a@.subrange(za as int, ea as int);
    let ghost tb = b@.subrange(zb as int, eb as int);
    proof {
        assert forall|k: int| 0 <= k < za - i implies #[trigger] sa[k] == '0' by {
            assert(sa[k] == a@[i + k]);
        }
        lemma_leading_zeros(sa, za - i);
        assert(sa.skip(za - i) == ta);
        assert forall|k: int| 0 <= k < zb - j implies #[trigger] sb[k] == '0' by {
            assert(sb[k] == b@[j + k]);
        }
        lemma_leading_zeros(sb, zb - j);
        assert(sb.skip(zb - j) == tb);
        assert forall|k: int| 0 <= k < ta.len() implies is_digit_spec(#[trigger] ta[k]) by {
            assert(ta[k] == a@[za + k]);
        }
        assert forall|k: int| 0 <= k < tb.len() implies is_digit_spec(#[trigger] tb[k]) by {
            assert(tb[k] == b@[zb + k]);
        }
        lemma_digits_value_bound(ta);
        lemma_digits_value_bound(tb);
        if ta.len() > 0 {
            assert(ta[0] == a@[za as int]);
            lemma_digits_value_lower(ta);
        }
        if tb.len() > 0 {
            assert(tb[0] == b@[zb as int]);
            lemma_digits_value_lower(tb);
        }
    }
    let la = ea - za;
    let lb = eb - zb;
    if la < lb {
        proof {
            lemma_pow10_mono(la as nat, (lb - 1) as nat);
        }
        return -1;
    }
    if la > lb {
        proof {
            lemma_pow10_mono(lb as nat, (la - 1) as nat);
        }
        return 1;
    }
    let mut k: usize = 0;
    while k < la
        invariant
            la == lb,
            la == ea - za,
            lb == eb - zb,
            za <= ea <= a.len(),
            zb <= eb <= b.len(),
            k <= la,
            ta == a@.subrange(za as int, ea as int),
            tb == b@.subrange(zb as int, eb as int),
            all_digits(ta),
            all_digits(tb),
            ta.take(k as int) == tb.take(k as int),
            digits_value(a@.subrange(i as int, ea as int)) == digits_value(ta),
            digits_value(b@.subrange(j as int, eb as int)) == digits_value(tb),
        decreases la - k,
    {
        let ca = a[za + k];
        let cb = b[zb + k];
        assert(ta[k as int] == ca && tb[k as int] == cb);
        if ca != cb {
            if char_less(ca, cb) {
                proof {
                    lemma_digits_value_first_difference(ta, tb, k as int);
                }
                return -1;
            } else {
                proof {
                    lemma_digits_value_first_difference(tb, ta, k as int);
                }
                return 1;
            }
        }
        assert(ta.take(k + 1) == ta.take(k as int).push(ca));
        assert(tb.take(k + 1) == tb.take(k as int).push(cb));
        k = k + 1;
    }
    assert(ta.take(la as int) == ta);
    assert(tb.take(lb as int) == tb);
    0
}

/// Characters ordered by code point, as `char::cmp` orders them.
fn char_less(a: char, b: char) -> (r: bool)
    ensures
        r == (a < b),
{
    a < b
}

/// Natural comparison of two character vectors, as a three-way integer.
pub fn natural_order_chars(a: &Vec<char>, b: &Vec<char>) -> (r: i8)
    ensures
        r as int == natural_order(a@, b@),
        -1 <= r <= 1,
{
    let mut i: usize = 0;
    let mut j: usize = 0;
    assert(a@.skip(0) == a@ && b@.skip(0) == b@);
    loop
        invariant
            i <= a.len(),
            j <= b.len(),
            natural_order(a@.skip(i as int), b@.skip(j as int)) == natural_order(a@, b@),
        decreases a.len() - i + b.len() - j,
    {
        let ghost sa = a@.skip(i as int);
        let ghost sb = b@.skip(j as int);
        if i == a.len() && j == b.len() {
            return 0;
        } else if i == a.len() {
            return -1;
        } else if j == b.len() {
            return 1;
        }
        let ca = a[i];
        let cb = b[j];
        assert(sa[0] == ca && sb[0] == cb);
        if is_ascii_digit(ca) && is_ascii_digit(cb) {
            let ra = scan_digit_run(a, i);
            let rb = scan_digit_run(b, j);
            proof {
                lemma_digit_run_len(sa);
                lemma_digit_run_len(sb);
                assert(sa.take(digit_run_len(sa) as int) == a@.subrange(i as int, ra.end as int));
                assert(sb.take(digit_run_len(sb) as int) == b@.subrange(j as int, rb.end as int));
                assert(sa.skip(digit_run_len(sa) as int) == a@.skip(ra.end as int));
                assert(sb.skip(digit_run_len(sb) as int) == b@.skip(rb.end as int));
            }
            let c = compare_runs(a, i, ra.end, b, j, rb.end);
            if c != 0 {
                return c;
            }
            i = ra.end;
            j = rb.end;
        } else if ca == cb {
            assert(sa.drop_first() == a@.skip(i + 1));
            assert(sb.drop_first() == b@.skip(j + 1));
            i = i + 1;
            j = j + 1;
        } else if char_less(ca, cb) {
            return -1;
        } else {
            return 1;
        }
    }
}

/// Compares two strings in natural order (`"2" < "10"`).
pub fn natural_compare(a: &str, b: &str) -> (r: Ordering)
    ensures
        r == ordering_of(natural_order(a@, b@)),
{
    let av = str_chars(a);
    let bv = str_chars(b);
    let c = natural_order_chars(&av, &bv);
    if c < 0 {
        Ordering::Less
    } else if c == 0 {
        Ordering::Equal
    } else {
        Ordering::Greater
    }
}

/// Every text is naturally equal to itself.
pub proof fn lemma_natural_order_reflexive(a: Seq<char>)
    ensures
        natural_order(a, a) == 0,
    decreases a.len(),
{
    if a.len() > 0 {
        if is_digit_spec(a[0]) {
            lemma_digit_run_len(a);
            lemma_natural_order_reflexive(a.skip(digit_run_len(a) as int));
        } else {
            lemma_natural_order_reflexive(a.drop_first());
        }
    }
}

/// Swapping the operands negates the result.
pub proof fn lemma_natural_order_antisymmetric(a: Seq<char>, b: Seq<char>)
    ensures
        natural_order(a, b) == -natural_order(b, a),
    decreases a.len() + b.len(),
{
    if a.len() > 0 && b.len() > 0 {
        if is_digit_spec(a[0]) && is_digit_spec(b[0]) {
            lemma_digit_run_len(a);
            lemma_digit_run_len(b);
            lemma_natural_order_antisymmetric(
                a.skip(digit_run_len(a) as int),
                b.skip(digit_run_len(b) as int),
            );
        } else if a[0] == b[0] {
            lemma_natural_order_antisymmetric(a.drop_first(), b.drop_first());
        }
    }
}

/// The result is always one of -1, 0, 1.
pub proof fn lemma_natural_order_range(a: Seq<char>, b: Seq<char>)
    ensures
        -1 <= natural_order(a, b) <= 1,
    decreases a.len() + b.len(),
{
    if a.len() > 0 && b.len() > 0 {
        if is_digit_spec(a[0]) && is_digit_spec(b[0]) {
            lemma_digit_run_len(a);
            lemma_digit_run_len(b);
            lemma_natural_order_range(a.skip(digit_run_len(a) as int), b.skip(digit_run_len(b) as int));
        } else if a[0] == b[0] {
            lemma_natural_order_range(a.drop_first(), b.drop_first());
        }
    }
}

/// Natural order is transitive: `a <= b` and `b <= c` give `a <= c`, and
/// the result is strict when either step is.
pub proof fn lemma_natural_order_transitive(a: Seq<char>, b: Seq<char>, c: Seq<char>)
    requires
        natural_order(a, b) <= 0,
        natural_order(b, c) <= 0,
    ensures
        natural_order(a, c) <= 0,
        (natural_order(a, b) < 0 || natural_order(b, c) < 0) ==> natural_order(a, c) < 0,
    decreases a.len() + b.len() + c.len(),
{
    if a.len() == 0 || b.len() == 0 || c.len() == 0 {
        return;
    }
    lemma_digit_run_len(a);
    lemma_digit_run_len(b);
    lemma_digit_run_len(c);
    let ra = digit_run_len(a);
    let rb = digit_run_len(b);
    let rc = digit_run_len(c);
    let da = is_digit_spec(a[0]);
    let db = is_digit_spec(b[0]);
    let dc = is_digit_spec(c[0]);
    if da && db && dc {
        let va = run_key(a.take(ra as int));
        let vb = run_key(b.take(rb as int));
        let vc = run_key(c.take(rc as int));
        if va == vb && vb == vc {
            lemma_natural_order_transitive(
                a.skip(ra as int),
                b.skip(rb as int),
                c.skip(rc as int),
            );
        }
    } else if da && db && !dc {
        // b[0] < c[0] is forced, and a[0] is a digit too, so a[0] < c[0].
        assert(b[0] < c[0]);
    } else if da && !db {
        assert(a[0] < b[0]);
        if dc {
            assert(false);
        } else if b[0] == c[0] {
        } else {
            assert(b[0] < c[0]);
        }
    } else if !da && db {
        assert(a[0] < b[0]);
        if !dc {
            assert(b[0] < c[0]);
        }
    } else {
        // neither a[0] nor b[0] starts a digit comparison
        if dc {
            assert(b[0] < c[0]);
        } else if a[0] == b[0] && b[0] == c[0] {
            lemma_natural_order_transitive(a.drop_first(), b.drop_first(), c.drop_first());
        }
    }
}

/// Names that share a text prefix without digits and continue with a
/// number compare by the numbers' values (`img2.png` before `img10.png`),
/// however long, and by what follows the numbers when the values are
/// equal; what follows them does not start with a digit.
pub proof fn lemma_numbered_names_order_by_value(
    prefix: Seq<char>,
    a: Seq<char>,
    b: Seq<char>,
    rest_a: Seq<char>,
    rest_b: Seq<char>,
)
    requires
        forall|i: int| 0 <= i < prefix.len() ==> !is_digit_spec(#[trigger] prefix[i]),
        a.len() > 0,
        b.len() > 0,
        forall|i: int| 0 <= i < a.len() ==> is_digit_spec(#[trigger] a[i]),
        forall|i: int| 0 <= i < b.len() ==> is_digit_spec(#[trigger] b[i]),
        rest_a.len() > 0 ==> !is_digit_spec(rest_a[0]),
        rest_b.len() > 0 ==> !is_digit_spec(rest_b[0]),
    ensures
        natural_order(prefix + a + rest_a, prefix + b + rest_b) == if digits_value(a) < digits_value(b) {
            -1
        } else if digits_value(a) > digits_value(b) {
            1
        } else {
            natural_order(rest_a, rest_b)
        },
    decreases prefix.len(),
{
    let x = prefix + a + rest_a;
    let y = prefix + b + rest_b;
    if prefix.len() > 0 {
        let p = prefix.drop_first();
        assert forall|i: int| 0 <= i < p.len() implies !is_digit_spec(#[trigger] p[i]) by {
            assert(p[i] == prefix[i + 1]);
        }
        lemma_numbered_names_order_by_value(p, a, b, rest_a, rest_b);
        assert(x[0] == prefix[0] && y[0] == prefix[0]);
        assert(!is_digit_spec(prefix[0]));
        assert(x.drop_first() == p + a + rest_a);
        assert(y.drop_first() == p + b + rest_b);
    } else {
        assert(x == a + rest_a);
        assert(y == b + rest_b);
        assert forall|i: int| 0 <= i < a.len() implies is_digit_spec(#[trigger] x[i]) by {
            assert(x[i] == a[i]);
        }
        assert forall|i: int| 0 <= i < b.len() implies is_digit_spec(#[trigger] y[i]) by {
            assert(y[i] == b[i]);
        }
        if a.len() < x.len() {
            assert(x[a.len() as int] == rest_a[0]);
        }
        if b.len() < y.len() {
            assert(y[b.len() as int] == rest_b[0]);
        }
        lemma_digit_run_len_at(x, a.len() as int);
        lemma_digit_run_len_at(y, b.len() as int);
        assert(x.take(a.len() as int) == a);
        assert(y.take(b.len() as int) == b);
        assert(x.skip(a.len() as int) == rest_a);
        assert(y.skip(b.len() as int) == rest_b);
        assert(is_digit_spec(x[0]) && is_digit_spec(y[0]));
    }
}

/// Plain code-point order of two texts, a proper prefix first.
pub open spec fn code_point_order(a: Seq<char>, b: Seq<char>) -> int
    decreases a.len(),
{
    if a.len() == 0 {
        if b.len() == 0 {
            0
        } else {
            -1
        }
    } else if b.len() == 0 {
        1
    } else if a[0] == b[0] {
        code_point_order(a.drop_first(), b.drop_first())
    } else if a[0] < b[0] {
        -1
    } else {
        1
    }
}

/// Without digits, natural order is plain code-point order.
pub proof fn lemma_natural_order_without_digits(a: Seq<char>, b: Seq<char>)
    requires
        forall|i: int| 0 <= i < a.len() ==> !is_digit_spec(#[trigger] a[i]),
        forall|i: int| 0 <= i < b.len() ==> !is_digit_spec(#[trigger] b[i]),
    ensures
        natural_order(a, b) == code_point_order(a, b),
    decreases a.len(),
{
    if a.len() > 0 && b.len() > 0 && a[0] == b[0] {
        let a1 = a.drop_first();
        let b1 = b.drop_first();
        assert forall|i: int| 0 <= i < a1.len() implies !is_digit_spec(#[trigger] a1[i]) by {
            assert(a1[i] == a[i + 1]);
        }
        assert forall|i: int| 0 <= i < b1.len() implies !is_digit_spec(#[trigger] b1[i]) by {
            assert(b1[i] == b[i + 1]);
        }
        lemma_natural_order_without_digits(a1, b1);
    }
    if a.len() > 0 {
        assert(!is_digit_spec(a[0]));
    }
}

} // verus!
