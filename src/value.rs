use vstd::prelude::*;
use vstd::utf8::*;

verus! {

/// A decimal number in canonical form: `(-1)^negative * digits * 10^exponent`,
/// where `digits` are base-ten digits, most significant first, with neither
/// leading nor trailing zeros. Zero has no digits, is not negative and has
/// exponent 0. Two canonical decimals are equal exactly when their values are.
#[derive(Debug)]
pub struct Decimal {
    pub negative: bool,
    pub digits: Vec<u8>,
    pub exponent: i64,
}

/// A field value or a primary-key value.
#[derive(Debug)]
pub enum Value {
    Number(Decimal),
    String(String),
}

pub ghost struct DecimalView {
    pub negative: bool,
    pub digits: Seq<u8>,
    pub exponent: int,
}

pub ghost enum ValueView {
    Number(DecimalView),
    Text(Seq<char>),
}

impl View for Decimal {
    type V = DecimalView;

    open spec fn view(&self) -> DecimalView {
        DecimalView { negative: self.negative, digits: self.digits@, exponent: self.exponent as int }
    }
}

impl View for Value {
    type V = ValueView;

    open spec fn view(&self) -> ValueView {
        match self {
            Value::Number(d) => ValueView::Number(d@),
            Value::String(s) => ValueView::Text(s@),
        }
    }
}

pub open spec fn all_digits(s: Seq<u8>) -> bool {
    forall|i: int| 0 <= i < s.len() ==> #[trigger] s[i] < 10
}

/// The canonical form described on `Decimal`.
pub open spec fn canonical(d: DecimalView) -> bool {
    &&& all_digits(d.digits)
    &&& i64::MIN <= d.exponent <= i64::MAX
    &&& d.digits.len() == 0 ==> !d.negative && d.exponent == 0
    &&& d.digits.len() > 0 ==> d.digits[0] != 0 && d.digits.last() != 0
}

pub open spec fn value_wf(v: ValueView) -> bool {
    match v {
        ValueView::Number(d) => canonical(d),
        ValueView::Text(_) => true,
    }
}

impl Decimal {
    pub open spec fn wf(&self) -> bool {
        canonical(self@)
    }
}

impl Value {
    pub open spec fn wf(&self) -> bool {
        value_wf(self@)
    }
}

// ---------------------------------------------------------------------------
// Lexicographic order on byte sequences
// ---------------------------------------------------------------------------

/// `a` and `b` agree before position `i`, and at `i` either `a` has ended
/// while `b` goes on, or `a` holds the smaller byte.
pub open spec fn lex_split(a: Seq<u8>, b: Seq<u8>, i: int) -> bool {
    &&& 0 <= i <= a.len()
    &&& i <= b.len()
    &&& forall|j: int| 0 <= j < i ==> a[j] == b[j]
    &&& ((i == a.len() && i < b.len()) || (i < a.len() && i < b.len() && a[i] < b[i]))
}

/// Strict lexicographic order on byte sequences.
pub open spec fn lex_lt(a: Seq<u8>, b: Seq<u8>) -> bool {
    exists|i: int| lex_split(a, b, i)
}

pub proof fn lemma_lex_irreflexive(a: Seq<u8>)
    ensures
        !lex_lt(a, a),
{
}

pub proof fn lemma_lex_transitive(a: Seq<u8>, b: Seq<u8>, c: Seq<u8>)
    requires
        lex_lt(a, b),
        lex_lt(b, c),
    ensures
        lex_lt(a, c),
{
    let i = choose|i: int| lex_split(a, b, i);
    let j = choose|j: int| lex_split(b, c, j);
    if i <= j {
        if i == j {
            assert(i < b.len());
        }
        assert(lex_split(a, c, i));
    } else {
        assert(lex_split(a, c, j));
    }
}

proof fn lemma_lex_total_from(a: Seq<u8>, b: Seq<u8>, i: int)
    requires
        0 <= i <= a.len(),
        i <= b.len(),
        forall|j: int| 0 <= j < i ==> a[j] == b[j],
        a != b,
    ensures
        lex_lt(a, b) || lex_lt(b, a),
    decreases a.len() - i,
{
    if i == a.len() && i == b.len() {
        assert(a =~= b);
    } else if i == a.len() {
        assert(lex_split(a, b, i));
    } else if i == b.len() {
        assert(lex_split(b, a, i));
    } else if a[i] < b[i] {
        assert(lex_split(a, b, i));
    } else if b[i] < a[i] {
        assert(lex_split(b, a, i));
    } else {
        lemma_lex_total_from(a, b, i + 1);
    }
}

pub proof fn lemma_lex_total(a: Seq<u8>, b: Seq<u8>)
    requires
        a != b,
    ensures
        lex_lt(a, b) || lex_lt(b, a),
{
    lemma_lex_total_from(a, b, 0);
}

/// Compares two byte slices lexicographically.
pub fn lex_less(a: &[u8], b: &[u8]) -> (r: bool)
    ensures
        r == lex_lt(a@, b@),
{
    let mut i: usize = 0;
    while i < a.len() && i < b.len()
        invariant
            0 <= i <= a@.len(),
            i <= b@.len(),
            forall|j: int| 0 <= j < i ==> a@[j] == b@[j],
        decreases a@.len() - i,
    {
        if a[i] < b[i] {
            assert(lex_split(a@, b@, i as int));
            return true;
        }
        if a[i] > b[i] {
            assert forall|k: int| !lex_split(a@, b@, k) by {
                if lex_split(a@, b@, k) {
                    if k > i {
                        assert(a@[i as int] == b@[i as int]);
                    }
                }
            }
            return false;
        }
        i = i + 1;
    }
    if i == a.len() && i < b.len() {
        assert(lex_split(a@, b@, i as int));
        true
    } else {
        assert forall|k: int| !lex_split(a@, b@, k) by {
            if lex_split(a@, b@, k) {
                if k < i {
                } else {
                }
            }
        }
        false
    }
}

// ---------------------------------------------------------------------------
// Order on decimals and values
// ---------------------------------------------------------------------------

/// -1 for a negative number, 0 for zero, 1 for a positive number.
pub open spec fn sign_class(d: DecimalView) -> int {
    if d.digits.len() == 0 {
        0
    } else if d.negative {
        -1
    } else {
        1
    }
}

/// The position of the leading digit: the value's magnitude lies in
/// `[10^(adjusted-1), 10^adjusted)`.
pub open spec fn adjusted(d: DecimalView) -> int {
    d.exponent + d.digits.len()
}

/// Order on the magnitudes of two nonzero canonical decimals.
pub open spec fn magnitude_lt(a: DecimalView, b: DecimalView) -> bool {
    adjusted(a) < adjusted(b) || (adjusted(a) == adjusted(b) && lex_lt(a.digits, b.digits))
}

/// Order on canonical decimals: by sign, then by the position of the leading
/// digit, then digit by digit. This is the order of their values
/// (`law_decimal_order_is_numeric`).
pub open spec fn decimal_lt(a: DecimalView, b: DecimalView) -> bool {
    if sign_class(a) != sign_class(b) {
        sign_class(a) < sign_class(b)
    } else if sign_class(a) == 0 {
        false
    } else if sign_class(a) == 1 {
        magnitude_lt(a, b)
    } else {
        magnitude_lt(b, a)
    }
}

/// The total order on values: every number comes before every text; numbers
/// go by value and texts by their UTF-8 bytes.
pub open spec fn value_lt(a: ValueView, b: ValueView) -> bool {
    match (a, b) {
        (ValueView::Number(x), ValueView::Number(y)) => decimal_lt(x, y),
        (ValueView::Number(_), ValueView::Text(_)) => true,
        (ValueView::Text(_), ValueView::Number(_)) => false,
        (ValueView::Text(x), ValueView::Text(y)) => lex_lt(encode_utf8(x), encode_utf8(y)),
    }
}

proof fn lemma_magnitude_transitive(a: DecimalView, b: DecimalView, c: DecimalView)
    requires
        magnitude_lt(a, b),
        magnitude_lt(b, c),
    ensures
        magnitude_lt(a, c),
{
    if adjusted(a) == adjusted(b) && adjusted(b) == adjusted(c) {
        lemma_lex_transitive(a.digits, b.digits, c.digits);
    }
}

proof fn lemma_magnitude_total(a: DecimalView, b: DecimalView)
    requires
        a != b,
        a.negative == b.negative,
    ensures
        magnitude_lt(a, b) || magnitude_lt(b, a),
{
    if adjusted(a) == adjusted(b) {
        if a.digits == b.digits {
            assert(a == b);
        }
        lemma_lex_total(a.digits, b.digits);
    }
}

proof fn lemma_magnitude_irreflexive(a: DecimalView)
    ensures
        !magnitude_lt(a, a),
{
    lemma_lex_irreflexive(a.digits);
}

pub proof fn lemma_value_irreflexive(a: ValueView)
    ensures
        !value_lt(a, a),
{
    match a {
        ValueView::Number(x) => lemma_magnitude_irreflexive(x),
        ValueView::Text(x) => lemma_lex_irreflexive(encode_utf8(x)),
    }
}

pub proof fn lemma_value_transitive(a: ValueView, b: ValueView, c: ValueView)
    requires
        value_lt(a, b),
        value_lt(b, c),
    ensures
        value_lt(a, c),
{
    match (a, b, c) {
        (ValueView::Number(x), ValueView::Number(y), ValueView::Number(z)) => {
            if sign_class(x) == sign_class(y) && sign_class(y) == sign_class(z) {
                if sign_class(x) == 1 {
                    lemma_magnitude_transitive(x, y, z);
                } else if sign_class(x) == -1 {
                    lemma_magnitude_transitive(z, y, x);
                }
            }
        },
        (ValueView::Text(x), ValueView::Text(y), ValueView::Text(z)) => {
            lemma_lex_transitive(encode_utf8(x), encode_utf8(y), encode_utf8(z));
        },
        _ => {},
    }
}

pub proof fn lemma_value_total(a: ValueView, b: ValueView)
    requires
        value_wf(a),
        value_wf(b),
        a != b,
    ensures
        value_lt(a, b) || value_lt(b, a),
{
    match (a, b) {
        (ValueView::Number(x), ValueView::Number(y)) => {
            if sign_class(x) == sign_class(y) {
                if sign_class(x) == 0 {
                    assert(x.digits =~= y.digits);
                    assert(x == y);
                } else {
                    lemma_magnitude_total(x, y);
                }
            }
        },
        (ValueView::Text(x), ValueView::Text(y)) => {
            encode_utf8_decode_utf8(x);
            encode_utf8_decode_utf8(y);
            lemma_lex_total(encode_utf8(x), encode_utf8(y));
        },
        _ => {},
    }
}

impl Decimal {
    /// Numeric order of two canonical decimals.
    pub fn less_than(&self, other: &Decimal) -> (r: bool)
        requires
            self.wf(),
            other.wf(),
        ensures
            r == decimal_lt(self@, other@),
    {
        let ca: i8 = if self.digits.len() == 0 {
            0
        } else if self.negative {
            -1
        } else {
            1
        };
        let cb: i8 = if other.digits.len() == 0 {
            0
        } else if other.negative {
            -1
        } else {
            1
        };
        if ca != cb {
            return ca < cb;
        }
        if ca == 0 {
            return false;
        }
        let adj_a: i128 = self.exponent as i128 + self.digits.len() as i128;
        let adj_b: i128 = other.exponent as i128 + other.digits.len() as i128;
        if ca == 1 {
            adj_a < adj_b || (adj_a == adj_b && lex_less(self.digits.as_slice(), other.digits.as_slice()))
        } else {
            adj_b < adj_a || (adj_a == adj_b && lex_less(other.digits.as_slice(), self.digits.as_slice()))
        }
    }

    /// Whether the decimal is in canonical form.
    pub fn is_canonical(&self) -> (r: bool)
        ensures
            r == self.wf(),
    {
        let n = self.digits.len();
        let mut i: usize = 0;
        while i < n
            invariant
                n == self.digits@.len(),
                0 <= i <= n,
                forall|j: int| 0 <= j < i ==> #[trigger] self.digits@[j] < 10,
            decreases n - i,
        {
            if self.digits[i] >= 10 {
                assert(!all_digits(self.digits@));
                return false;
            }
            i = i + 1;
        }
        if n == 0 {
            !self.negative && self.exponent == 0
        } else {
            self.digits[0] != 0 && self.digits[n - 1] != 0
        }
    }

    /// An exact copy.
    pub fn duplicate(&self) -> (r: Decimal)
        ensures
            r@ == self@,
    {
        let digits = self.digits.clone();
        assert(digits@ =~= self.digits@);
        Decimal { negative: self.negative, digits, exponent: self.exponent }
    }

    /// Equality of values.
    pub fn same(&self, other: &Decimal) -> (r: bool)
        ensures
            r == (self@ == other@),
    {
        if self.negative != other.negative || self.exponent != other.exponent
            || self.digits.len() != other.digits.len() {
            return false;
        }
        let mut i: usize = 0;
        while i < self.digits.len()
            invariant
                self.digits@.len() == other.digits@.len(),
                0 <= i <= self.digits@.len(),
                forall|j: int| 0 <= j < i ==> self.digits@[j] == other.digits@[j],
            decreases self.digits@.len() - i,
        {
            if self.digits[i] != other.digits[i] {
                return false;
            }
            i = i + 1;
        }
        assert(self.digits@ =~= other.digits@);
        true
    }
}

/// Equality of two strings.
pub fn text_equal(a: &String, b: &String) -> (r: bool)
    ensures
        r == (a@ == b@),
{
    let ab = a.as_str().as_bytes();
    let bb = b.as_str().as_bytes();
    proof {
        encode_utf8_decode_utf8(a@);
        encode_utf8_decode_utf8(b@);
    }
    if ab.len() != bb.len() {
        return false;
    }
    let mut i: usize = 0;
    while i < ab.len()
        invariant
            ab@ == encode_utf8(a@),
            bb@ == encode_utf8(b@),
            ab@.len() == bb@.len(),
            0 <= i <= ab@.len(),
            forall|j: int| 0 <= j < i ==> ab@[j] == bb@[j],
        decreases ab@.len() - i,
    {
        if ab[i] != bb[i] {
            return false;
        }
        i = i + 1;
    }
    assert(ab@ =~= bb@);
    true
}

impl Value {
    /// The total order on values.
    pub fn less_than(&self, other: &Value) -> (r: bool)
        requires
            self.wf(),
            other.wf(),
        ensures
            r == value_lt(self@, other@),
    {
        match (self, other) {
            (Value::Number(x), Value::Number(y)) => x.less_than(y),
            (Value::Number(_), Value::String(_)) => true,
            (Value::String(_), Value::Number(_)) => false,
            (Value::String(x), Value::String(y)) => lex_less(x.as_str().as_bytes(), y.as_str().as_bytes()),
        }
    }

    /// Equality of values.
    pub fn same(&self, other: &Value) -> (r: bool)
        ensures
            r == (self@ == other@),
    {
        match (self, other) {
            (Value::Number(x), Value::Number(y)) => x.same(y),
            (Value::String(x), Value::String(y)) => text_equal(x, y),
            _ => false,
        }
    }

    /// Whether the value is well formed.
    pub fn is_wf(&self) -> (r: bool)
        ensures
            r == self.wf(),
    {
        match self {
            Value::Number(d) => d.is_canonical(),
            Value::String(_) => true,
        }
    }

    /// An exact copy.
    pub fn duplicate(&self) -> (r: Value)
        ensures
            r@ == self@,
    {
        match self {
            Value::Number(d) => Value::Number(d.duplicate()),
            Value::String(s) => Value::String(s.clone()),
        }
    }
}

impl PartialEq for Value {
    fn eq(&self, other: &Value) -> (r: bool) {
        self.same(other)
    }
}

impl vstd::std_specs::cmp::PartialEqSpecImpl for Value {
    open spec fn obeys_eq_spec() -> bool {
        true
    }

    open spec fn eq_spec(&self, other: &Value) -> bool {
        self@ == other@
    }
}

// ---------------------------------------------------------------------------
// Reading a value from text
// ---------------------------------------------------------------------------

/// What `BigDecimal::from_str` makes of a text: `None` where it refuses it,
/// else the unscaled integer written in base ten and the scale (the value is
/// `integer * 10^(-scale)`).
pub uninterp spec fn decimal_parts_of(s: Seq<char>) -> Option<(Seq<char>, int)>;

/// Relies on `bigdecimal::BigDecimal::from_str` to parse a decimal number, and
/// on `into_bigint_and_exponent` and the integer's `to_string` to hand out its
/// unscaled integer and scale.
#[verifier::external_body]
fn decimal_parts(s: &str) -> (r: Option<(String, i64)>)
    ensures
        match r {
            Some((m, scale)) => decimal_parts_of(s@) == Some((m@, scale as int)),
            None => decimal_parts_of(s@) is None,
        },
{
    match <bigdecimal::BigDecimal as std::str::FromStr>::from_str(s) {
        Ok(d) => {
            let (m, scale) = d.into_bigint_and_exponent();
            Some((m.to_string(), scale))
        },
        Err(_) => None,
    }
}

pub open spec fn digit_byte(c: u8) -> bool {
    48 <= c <= 57
}

pub open spec fn all_digit_bytes(s: Seq<u8>) -> bool {
    forall|i: int| 0 <= i < s.len() ==> #[trigger] digit_byte(s[i])
}

pub open spec fn integer_negative(b: Seq<u8>) -> bool {
    b.len() > 0 && b[0] == 45
}

/// An integer's text without its sign.
pub open spec fn integer_body(b: Seq<u8>) -> Seq<u8> {
    if integer_negative(b) {
        b.drop_first()
    } else {
        b
    }
}

/// The sign and base-ten digits of an integer written as an optional `-`
/// followed by one or more ASCII digits.
pub open spec fn integer_digits(b: Seq<u8>) -> Option<(bool, Seq<u8>)> {
    let neg = integer_negative(b);
    let body = integer_body(b);
    if body.len() > 0 && all_digit_bytes(body) {
        Some((neg, body.map_values(|c: u8| #[verifier::truncate] ((c - 48) as u8))))
    } else {
        None
    }
}

pub open spec fn strip_leading_zeros(s: Seq<u8>) -> Seq<u8>
    decreases s.len(),
{
    if s.len() > 0 && s[0] == 0 {
        strip_leading_zeros(s.drop_first())
    } else {
        s
    }
}

pub open spec fn trailing_zeros(s: Seq<u8>) -> nat
    decreases s.len(),
{
    if s.len() > 0 && s.last() == 0 {
        1 + trailing_zeros(s.drop_last())
    } else {
        0
    }
}

/// The canonical form of `(-1)^negative * digits * 10^exponent`.
pub open spec fn canonical_decimal(negative: bool, digits: Seq<u8>, exponent: int) -> DecimalView {
    let d = strip_leading_zeros(digits);
    let t = trailing_zeros(d);
    let core = d.subrange(0, d.len() - t);
    if core.len() == 0 {
        DecimalView { negative: false, digits: Seq::empty(), exponent: 0 }
    } else {
        DecimalView { negative, digits: core, exponent: exponent + t }
    }
}

/// The decimal with unscaled integer written `m` and scale `scale`, where `m`
/// is an integer and the exponent fits.
pub open spec fn decimal_from_parts_spec(m: Seq<u8>, scale: int) -> Option<DecimalView> {
    match integer_digits(m) {
        Some((neg, ds)) => {
            let d = canonical_decimal(neg, ds, -scale);
            if i64::MIN <= d.exponent <= i64::MAX {
                Some(d)
            } else {
                None
            }
        },
        None => None,
    }
}

/// How a text is read as a value: a number where `BigDecimal` reads it as
/// one (and its exponent fits), else the text itself.
pub open spec fn value_of(s: Seq<char>) -> ValueView {
    match decimal_parts_of(s) {
        Some((m, scale)) => match decimal_from_parts_spec(encode_utf8(m), scale) {
            Some(d) => ValueView::Number(d),
            None => ValueView::Text(s),
        },
        None => ValueView::Text(s),
    }
}

proof fn lemma_trailing_zeros_bound(s: Seq<u8>)
    ensures
        trailing_zeros(s) <= s.len(),
    decreases s.len(),
{
    if s.len() > 0 && s.last() == 0 {
        lemma_trailing_zeros_bound(s.drop_last());
    }
}

/// Reads an integer written as an optional `-` and ASCII digits.
fn read_integer(b: &[u8]) -> (r: Option<(bool, Vec<u8>)>)
    ensures
        match r {
            Some((neg, ds)) => integer_digits(b@) == Some((neg, ds@)) && all_digits(ds@),
            None => integer_digits(b@) is None,
        },
{
    let ghost bs = b@;
    let n = b.len();
    let neg = n > 0 && b[0] == 45u8;
    let start: usize = if neg { 1 } else { 0 };
    let ghost body = integer_body(bs);
    assert(body =~= bs.subrange(start as int, n as int));
    if start == n {
        assert(body.len() == 0);
        return None;
    }
    let mut ds: Vec<u8> = Vec::new();
    let mut j: usize = start;
    while j < n
        invariant
            b@ == bs,
            n == bs.len(),
            start <= j <= n,
            body =~= bs.subrange(start as int, n as int),
            body == integer_body(bs),
            neg == integer_negative(bs),
            ds@.len() == j - start,
            forall|i: int| 0 <= i < j - start ==> #[trigger] digit_byte(body[i]),
            forall|i: int|
                0 <= i < j - start ==> ds@[i] == #[verifier::truncate] ((body[i] - 48) as u8),
        decreases n - j,
    {
        let c = b[j];
        if c < 48u8 || c > 57u8 {
            assert(body[j - start] == c);
            assert(!digit_byte(body[j - start]));
            assert(!(forall|i: int| 0 <= i < body.len() ==> #[trigger] digit_byte(body[i])));
            assert(!all_digit_bytes(body));
            return None;
        }
        ds.push(c - 48u8);
        j = j + 1;
    }
    assert(all_digit_bytes(body));
    assert(ds@ =~= body.map_values(|c: u8| #[verifier::truncate] ((c - 48) as u8)));
    assert(integer_digits(bs) == Some((neg, ds@)));
    assert forall|i: int| 0 <= i < ds@.len() implies #[trigger] ds@[i] < 10 by {
        assert(digit_byte(body[i]));
    }
    Some((neg, ds))
}

/// Builds the canonical decimal from an integer's text and a scale.
pub fn decimal_from_parts(m: &String, scale: i64) -> (r: Option<Decimal>)
    ensures
        match r {
            Some(d) => d.wf() && decimal_from_parts_spec(encode_utf8(m@), scale as int) == Some(d@),
            None => decimal_from_parts_spec(encode_utf8(m@), scale as int) is None,
        },
{
    let b = m.as_str().as_bytes();
    assert(b@ == encode_utf8(m@));
    let (neg, ds) = match read_integer(b) {
        Some(p) => p,
        None => return None,
    };
    let len = ds.len();
    // leading zeros
    let mut lead: usize = 0;
    assert(ds@.subrange(0, len as int) =~= ds@);
    while lead < len && ds[lead] == 0
        invariant
            ds@.len() == len,
            0 <= lead <= len,
            strip_leading_zeros(ds@) == strip_leading_zeros(ds@.subrange(lead as int, len as int)),
        decreases len - lead,
    {
        assert(ds@.subrange(lead as int, len as int).drop_first() =~= ds@.subrange(lead + 1, len as int));
        lead = lead + 1;
    }
    let ghost d = ds@.subrange(lead as int, len as int);
    assert(strip_leading_zeros(ds@) == d);
    // trailing zeros
    let mut e: usize = len;
    assert(ds@.subrange(lead as int, len as int) =~= d);
    while e > lead && ds[e - 1] == 0
        invariant
            ds@.len() == len,
            lead <= e <= len,
            d == ds@.subrange(lead as int, len as int),
            trailing_zeros(d) == (len - e) + trailing_zeros(ds@.subrange(lead as int, e as int)),
        decreases e,
    {
        assert(ds@.subrange(lead as int, e as int).drop_last() =~= ds@.subrange(lead as int, e - 1));
        e = e - 1;
    }
    assert(trailing_zeros(ds@.subrange(lead as int, e as int)) == 0);
    let t: usize = len - e;
    let ghost core = d.subrange(0, d.len() - t);
    assert(core =~= ds@.subrange(lead as int, e as int));
    if e == lead {
        let z = Decimal { negative: false, digits: Vec::new(), exponent: 0 };
        assert(z@.digits =~= Seq::<u8>::empty());
        return Some(z);
    }
    let exp: i128 = t as i128 - scale as i128;
    if exp < i64::MIN as i128 || exp > i64::MAX as i128 {
        return None;
    }
    let mut digits: Vec<u8> = Vec::new();
    let mut k: usize = lead;
    while k < e
        invariant
            ds@.len() == len,
            lead <= k <= e <= len,
            digits@ =~= ds@.subrange(lead as int, k as int),
        decreases e - k,
    {
        digits.push(ds[k]);
        k = k + 1;
    }
    let r = Decimal { negative: neg, digits, exponent: exp as i64 };
    assert(r@.digits =~= core);
    Some(r)
}

impl Value {
    /// Reads a text as a value: a number where it reads as a decimal, else
    /// the text itself.
    pub fn value(val: String) -> (r: Value)
        ensures
            r@ == value_of(val@),
            r.wf(),
    {
        match decimal_parts(val.as_str()) {
            Some((m, scale)) => match decimal_from_parts(&m, scale) {
                Some(d) => Value::Number(d),
                None => Value::String(val),
            },
            None => Value::String(val),
        }
    }
}

} // verus!
