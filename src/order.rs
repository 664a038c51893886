//! The order on decimals is the order of their values.
use vstd::prelude::*;

use crate::value::{
    adjusted, all_digits, canonical, decimal_lt, lemma_lex_irreflexive, lemma_lex_total,
    lemma_lex_transitive, lex_lt, lex_split, DecimalView,
};

verus! {

pub open spec fn pow10(n: nat) -> nat
    decreases n,
{
    if n == 0 {
        1
    } else {
        10 * pow10((n - 1) as nat)
    }
}

/// The integer that base-ten digits spell, most significant first.
pub open spec fn digits_value(ds: Seq<u8>) -> nat
    decreases ds.len(),
{
    if ds.len() == 0 {
        0
    } else {
        digits_value(ds.drop_last()) * 10 + ds.last() as nat
    }
}

/// The value of `d` times `10^(-m)`, an integer where `m <= d.exponent`.
pub open spec fn scaled_value(d: DecimalView, m: int) -> int {
    let mag = (digits_value(d.digits) * pow10((d.exponent - m) as nat)) as int;
    if d.negative {
        -mag
    } else {
        mag
    }
}

pub open spec fn zeros(n: nat) -> Seq<u8> {
    Seq::new(n, |i: int| 0u8)
}

proof fn lemma_pow10_pos(n: nat)
    ensures
        pow10(n) >= 1,
    decreases n,
{
    if n > 0 {
        lemma_pow10_pos((n - 1) as nat);
    }
}

proof fn lemma_pow10_add(x: nat, y: nat)
    ensures
        pow10(x + y) == pow10(x) * pow10(y),
    decreases y,
{
    if y == 0 {
        assert(x + y == x);
        assert(pow10(0) == 1);
    } else {
        let y1 = (y - 1) as nat;
        lemma_pow10_add(x, y1);
        assert(x + y == (x + y1) + 1);
        assert(pow10(x + y) == 10 * pow10(x + y1));
        assert(pow10(y) == 10 * pow10(y1));
        let px = pow10(x);
        let py = pow10(y1);
        assert(10 * (px * py) == px * (10 * py)) by (nonlinear_arith);
    }
}

proof fn lemma_pow10_le(x: nat, y: nat)
    requires
        x <= y,
    ensures
        pow10(x) <= pow10(y),
    decreases y,
{
    if x < y {
        lemma_pow10_le(x, (y - 1) as nat);
        lemma_pow10_pos((y - 1) as nat);
    }
}

proof fn lemma_digits_upper(ds: Seq<u8>)
    requires
        all_digits(ds),
    ensures
        digits_value(ds) < pow10(ds.len()),
    decreases ds.len(),
{
    if ds.len() > 0 {
        let init = ds.drop_last();
        assert(all_digits(init)) by {
            assert forall|i: int| 0 <= i < init.len() implies #[trigger] init[i] < 10 by {
                assert(init[i] == ds[i]);
            }
        }
        lemma_digits_upper(init);
        assert(ds.last() < 10) by {
            assert(ds[ds.len() - 1] < 10);
        }
        let v = digits_value(init);
        let p = pow10(init.len());
        assert(v + 1 <= p);
        assert(v * 10 + 10 <= p * 10) by (nonlinear_arith)
            requires
                v + 1 <= p,
        ;
    }
}

proof fn lemma_digits_lower(ds: Seq<u8>)
    requires
        all_digits(ds),
        ds.len() > 0,
        ds[0] != 0,
    ensures
        digits_value(ds) >= pow10((ds.len() - 1) as nat),
    decreases ds.len(),
{
    if ds.len() == 1 {
        assert(ds.drop_last().len() == 0);
        assert(ds.last() == ds[0]);
    } else {
        let init = ds.drop_last();
        assert(init[0] == ds[0]);
        assert(all_digits(init)) by {
            assert forall|i: int| 0 <= i < init.len() implies #[trigger] init[i] < 10 by {
                assert(init[i] == ds[i]);
            }
        }
        lemma_digits_lower(init);
    }
}

proof fn lemma_digits_concat(a: Seq<u8>, b: Seq<u8>)
    ensures
        digits_value(a + b) == digits_value(a) * pow10(b.len()) + digits_value(b),
    decreases b.len(),
{
    if b.len() == 0 {
        assert(a + b =~= a);
        assert(pow10(0) == 1);
        assert(digits_value(b) == 0);
    } else {
        assert((a + b).drop_last() =~= a + b.drop_last());
        assert((a + b).last() == b.last());
        lemma_digits_concat(a, b.drop_last());
        let x = digits_value(a);
        let p = pow10(b.drop_last().len());
        let y = digits_value(b.drop_last());
        assert(pow10(b.len()) == 10 * p);
        assert(digits_value(b) == y * 10 + b.last() as nat);
        assert(digits_value(a + b) == digits_value(a + b.drop_last()) * 10 + b.last() as nat);
        assert((x * p + y) * 10 == x * (10 * p) + y * 10) by (nonlinear_arith);
    }
}

proof fn lemma_digits_zeros(n: nat)
    ensures
        digits_value(zeros(n)) == 0,
    decreases n,
{
    if n > 0 {
        assert(zeros(n).drop_last() =~= zeros((n - 1) as nat));
        lemma_digits_zeros((n - 1) as nat);
    }
}

proof fn lemma_single_digit(c: u8)
    ensures
        digits_value(seq![c]) == c,
{
    let s = seq![c];
    assert(s.drop_last() =~= Seq::<u8>::empty());
    assert(digits_value(s.drop_last()) == 0);
    assert(s.last() == c);
}

/// Where two digit sequences of one length first differ, the smaller digit
/// makes the smaller number.
proof fn lemma_split_value(a: Seq<u8>, b: Seq<u8>, i: int)
    requires
        all_digits(a),
        all_digits(b),
        a.len() == b.len(),
        lex_split(a, b, i),
        i < a.len(),
    ensures
        digits_value(a) < digits_value(b),
{
    let n = a.len() as int;
    let pre = a.subrange(0, i);
    assert(pre =~= b.subrange(0, i));
    let ra = a.subrange(i + 1, n);
    let rb = b.subrange(i + 1, n);
    assert(a =~= (pre + seq![a[i]]) + ra);
    assert(b =~= (pre + seq![b[i]]) + rb);
    lemma_digits_concat(pre + seq![a[i]], ra);
    lemma_digits_concat(pre + seq![b[i]], rb);
    lemma_digits_concat(pre, seq![a[i]]);
    lemma_digits_concat(pre, seq![b[i]]);
    lemma_single_digit(a[i]);
    lemma_single_digit(b[i]);
    assert(pow10(1) == 10) by {
        assert(pow10(0) == 1);
    }
    assert(all_digits(ra)) by {
        assert forall|j: int| 0 <= j < ra.len() implies #[trigger] ra[j] < 10 by {
            assert(ra[j] == a[i + 1 + j]);
        }
    }
    lemma_digits_upper(ra);
    let p = pow10(ra.len());
    let x = digits_value(pre) * 10 + a[i] as nat;
    let y = digits_value(pre) * 10 + b[i] as nat;
    let va = digits_value(ra);
    let vb = digits_value(rb);
    assert(rb.len() == ra.len());
    assert(x + 1 <= y);
    assert(x * p + va < y * p + vb) by (nonlinear_arith)
        requires
            x + 1 <= y,
            va < p,
    ;
}

proof fn lemma_equal_len_order(a: Seq<u8>, b: Seq<u8>)
    requires
        all_digits(a),
        all_digits(b),
        a.len() == b.len(),
    ensures
        lex_lt(a, b) <==> digits_value(a) < digits_value(b),
        a == b <==> digits_value(a) == digits_value(b),
{
    if a != b {
        lemma_lex_total(a, b);
        if lex_lt(a, b) {
            let i = choose|i: int| lex_split(a, b, i);
            lemma_split_value(a, b, i);
        } else {
            let i = choose|i: int| lex_split(b, a, i);
            lemma_split_value(b, a, i);
        }
    } else {
        lemma_lex_irreflexive(a);
    }
}

/// Padding with zeros keeps the order of digit sequences that end in a
/// nonzero digit.
proof fn lemma_pad_order_one_way(x: Seq<u8>, y: Seq<u8>, zx: nat, zy: nat)
    requires
        all_digits(x),
        all_digits(y),
        x.len() > 0 && x.last() != 0,
        y.len() > 0 && y.last() != 0,
        x.len() + zx == y.len() + zy,
        lex_lt(x, y),
    ensures
        lex_lt(x + zeros(zx), y + zeros(zy)),
{
    let px = x + zeros(zx);
    let py = y + zeros(zy);
    let i = choose|i: int| lex_split(x, y, i);
    if i < x.len() {
        assert(lex_split(px, py, i));
    } else {
        // x is a proper prefix of y
        let l = y.len() - 1;
        assert(px[l] == 0);
        assert(py[l] == y.last());
        assert(px != py);
        lemma_lex_total(px, py);
        if lex_lt(py, px) {
            let k = choose|k: int| lex_split(py, px, k);
            if k < x.len() {
                assert(py[k] == px[k]);
            } else {
                assert(px[k] == 0);
            }
        }
    }
}

proof fn lemma_pad_order(x: Seq<u8>, y: Seq<u8>, zx: nat, zy: nat)
    requires
        all_digits(x),
        all_digits(y),
        x.len() > 0 && x.last() != 0,
        y.len() > 0 && y.last() != 0,
        x.len() + zx == y.len() + zy,
    ensures
        lex_lt(x, y) <==> lex_lt(x + zeros(zx), y + zeros(zy)),
        x == y <==> x + zeros(zx) == y + zeros(zy),
{
    let px = x + zeros(zx);
    let py = y + zeros(zy);
    if lex_lt(x, y) {
        lemma_pad_order_one_way(x, y, zx, zy);
    }
    if lex_lt(y, x) {
        lemma_pad_order_one_way(y, x, zy, zx);
    }
    if x == y {
        assert(px =~= py);
    } else {
        lemma_lex_total(x, y);
        if lex_lt(x, y) {
            lemma_lex_irreflexive(px);
        } else {
            lemma_lex_irreflexive(py);
        }
    }
    if lex_lt(px, py) && !lex_lt(x, y) {
        if lex_lt(y, x) {
            lemma_lex_transitive(px, py, px);
            lemma_lex_irreflexive(px);
        }
    }
}

proof fn lemma_zeros_digits(n: nat)
    ensures
        all_digits(zeros(n)),
{
}

proof fn lemma_concat_digits(a: Seq<u8>, b: Seq<u8>)
    requires
        all_digits(a),
        all_digits(b),
    ensures
        all_digits(a + b),
{
    assert forall|i: int| 0 <= i < (a + b).len() implies #[trigger] (a + b)[i] < 10 by {
        if i < a.len() {
            assert((a + b)[i] == a[i]);
        } else {
            assert((a + b)[i] == b[i - a.len()]);
        }
    }
}

/// Magnitudes of nonzero decimals with their leading digit at one position
/// compare as their digit sequences do.
proof fn lemma_same_adjusted(a: DecimalView, b: DecimalView, m: int)
    requires
        canonical(a),
        canonical(b),
        a.digits.len() > 0,
        b.digits.len() > 0,
        adjusted(a) == adjusted(b),
        m == if a.exponent <= b.exponent {
            a.exponent
        } else {
            b.exponent
        },
    ensures
        lex_lt(a.digits, b.digits) <==> digits_value(a.digits) * pow10((a.exponent - m) as nat)
            < digits_value(b.digits) * pow10((b.exponent - m) as nat),
{
    let zx = (a.exponent - m) as nat;
    let zy = (b.exponent - m) as nat;
    let px = a.digits + zeros(zx);
    let py = b.digits + zeros(zy);
    lemma_digits_concat(a.digits, zeros(zx));
    lemma_digits_concat(b.digits, zeros(zy));
    lemma_digits_zeros(zx);
    lemma_digits_zeros(zy);
    lemma_zeros_digits(zx);
    lemma_zeros_digits(zy);
    lemma_concat_digits(a.digits, zeros(zx));
    lemma_concat_digits(b.digits, zeros(zy));
    lemma_pad_order(a.digits, b.digits, zx, zy);
    lemma_equal_len_order(px, py);
}

/// Magnitude bounds from the position of the leading digit.
proof fn lemma_magnitude_bounds(d: DecimalView, m: int)
    requires
        canonical(d),
        d.digits.len() > 0,
        m <= d.exponent,
    ensures
        digits_value(d.digits) * pow10((d.exponent - m) as nat) < pow10((adjusted(d) - m) as nat),
        digits_value(d.digits) * pow10((d.exponent - m) as nat) >= pow10(
            (adjusted(d) - m - 1) as nat,
        ),
{
    let e = (d.exponent - m) as nat;
    let l = d.digits.len();
    lemma_digits_upper(d.digits);
    lemma_digits_lower(d.digits);
    lemma_pow10_add(l, e);
    lemma_pow10_add((l - 1) as nat, e);
    lemma_pow10_pos(e);
    let v = digits_value(d.digits);
    let p = pow10(e);
    assert(v * p < pow10(l) * p) by (nonlinear_arith)
        requires
            v < pow10(l),
            p >= 1,
    ;
    assert(v * p >= pow10((l - 1) as nat) * p) by (nonlinear_arith)
        requires
            v >= pow10((l - 1) as nat),
            p >= 1,
    ;
    assert((l + e) as nat == (adjusted(d) - m) as nat);
    assert(((l - 1) as nat + e) as nat == (adjusted(d) - m - 1) as nat);
}

proof fn lemma_magnitude_order(a: DecimalView, b: DecimalView, m: int)
    requires
        canonical(a),
        canonical(b),
        a.digits.len() > 0,
        b.digits.len() > 0,
        m == if a.exponent <= b.exponent {
            a.exponent
        } else {
            b.exponent
        },
    ensures
        crate::value::magnitude_lt(a, b) <==> digits_value(a.digits) * pow10(
            (a.exponent - m) as nat,
        ) < digits_value(b.digits) * pow10((b.exponent - m) as nat),
{
    lemma_magnitude_bounds(a, m);
    lemma_magnitude_bounds(b, m);
    if adjusted(a) < adjusted(b) {
        lemma_pow10_le((adjusted(a) - m) as nat, (adjusted(b) - m - 1) as nat);
    } else if adjusted(b) < adjusted(a) {
        lemma_pow10_le((adjusted(b) - m) as nat, (adjusted(a) - m - 1) as nat);
    } else {
        lemma_same_adjusted(a, b, m);
    }
}

/// Decimals compare as their values do: scaled to the smaller of the two
/// exponents, both are integers, and `decimal_lt` holds exactly when the
/// first integer is the smaller.
pub proof fn law_decimal_order_is_numeric(a: DecimalView, b: DecimalView)
    requires
        canonical(a),
        canonical(b),
    ensures
        ({
            let m = if a.exponent <= b.exponent {
                a.exponent
            } else {
                b.exponent
            };
            decimal_lt(a, b) <==> scaled_value(a, m) < scaled_value(b, m)
        }),
{
    let m = if a.exponent <= b.exponent {
        a.exponent
    } else {
        b.exponent
    };
    if a.digits.len() > 0 {
        lemma_magnitude_bounds(a, m);
        lemma_pow10_pos((adjusted(a) - m - 1) as nat);
    } else {
        assert(digits_value(a.digits) == 0);
        assert(scaled_value(a, m) == 0);
    }
    if b.digits.len() > 0 {
        lemma_magnitude_bounds(b, m);
        lemma_pow10_pos((adjusted(b) - m - 1) as nat);
    } else {
        assert(digits_value(b.digits) == 0);
        assert(scaled_value(b, m) == 0);
    }
    if a.digits.len() > 0 && b.digits.len() > 0 && a.negative == b.negative {
        lemma_magnitude_order(a, b, m);
        lemma_magnitude_order(b, a, m);
    }
}

} // verus!
