use vstd::prelude::*;

use crate::error::CsvError;

verus! {

/// Direction of a sort.
#[derive(PartialEq, Eq, Structural, Clone, Copy, Debug)]
pub enum CSVSortOrder {
    Descending,
    Ascending,
}

/// How two cells of the key column are compared.
#[derive(PartialEq, Eq, Structural, Clone, Copy, Debug)]
pub enum CSVSortMethod {
    Numerical,
    Alphabetical,
}

/// Lexical order on strings, code point by code point; a proper prefix comes first.
pub open spec fn text_lt(a: Seq<char>, b: Seq<char>) -> bool
    decreases a.len(),
{
    if a.len() == 0 {
        b.len() > 0
    } else if b.len() == 0 {
        false
    } else if a[0] != b[0] {
        (a[0] as int) < (b[0] as int)
    } else {
        text_lt(a.drop_first(), b.drop_first())
    }
}

pub open spec fn is_digit(c: char) -> bool {
    '0' <= c && c <= '9'
}

pub open spec fn all_digits(d: Seq<char>) -> bool {
    forall|k: int| 0 <= k < d.len() ==> is_digit(#[trigger] d[k])
}

/// The natural number that a string of decimal digits denotes.
pub open spec fn digits_value(d: Seq<char>) -> int
    decreases d.len(),
{
    if d.len() == 0 {
        0
    } else {
        digits_value(d.drop_last()) * 10 + (d.last() as int - '0' as int)
    }
}

/// The text of a number without its leading sign, if it has one.
pub open spec fn unsigned_part(s: Seq<char>) -> Seq<char> {
    if s.len() > 0 && (s[0] == '+' || s[0] == '-') {
        s.drop_first()
    } else {
        s
    }
}

pub open spec fn is_negative(s: Seq<char>) -> bool {
    s.len() > 0 && s[0] == '-'
}

/// `u` is digits, then (when `p < u.len()`) a point at `p` followed by digits.
pub open spec fn point_at(u: Seq<char>, p: int) -> bool {
    &&& 0 <= p <= u.len()
    &&& forall|k: int| 0 <= k < p ==> is_digit(#[trigger] u[k])
    &&& p < u.len() ==> u[p] == '.' && forall|k: int| p < k < u.len() ==> is_digit(#[trigger] u[k])
}

/// The digits of `u` with the point at `p` taken out.
pub open spec fn mantissa_digits(u: Seq<char>, p: int) -> Seq<char> {
    if p < u.len() {
        u.take(p) + u.skip(p + 1)
    } else {
        u
    }
}

/// The largest exponent magnitude that a number may carry.
pub const MAX_EXPONENT: u64 = 1000000000000000;

pub open spec fn is_exp_marker(c: char) -> bool {
    c == 'e' || c == 'E'
}

/// `q` is where the exponent marker of `s` stands, or `s.len()` when it has none.
pub open spec fn exp_split(s: Seq<char>, q: int) -> bool {
    &&& 0 <= q <= s.len()
    &&& q < s.len() ==> is_exp_marker(s[q])
    &&& forall|k: int| 0 <= k < q ==> !is_exp_marker(#[trigger] s[k])
}

/// The exponent that `t` denotes: an optional sign and at least one digit,
/// its magnitude at most `MAX_EXPONENT`.
pub open spec fn exponent_of(t: Seq<char>) -> Option<int> {
    let d = unsigned_part(t);
    if d.len() > 0 && all_digits(d) && digits_value(d) <= MAX_EXPONENT {
        Some(if is_negative(t) { -digits_value(d) } else { digits_value(d) })
    } else {
        None
    }
}


/// The sign of `s`, its digits with the point taken out, and how many of
/// them stand before the point, when `s` is a decimal without exponent: an
/// optional sign, digits with an optional point, at least one digit.
pub open spec fn decimal_parts(s: Seq<char>) -> Option<(bool, Seq<char>, int)> {
    let u = unsigned_part(s);
    if exists|p: int| point_at(u, p) && mantissa_digits(u, p).len() > 0 {
        let p = choose|p: int| point_at(u, p) && mantissa_digits(u, p).len() > 0;
        Some((is_negative(s), mantissa_digits(u, p), p))
    } else {
        None
    }
}

/// How many zeros a digit string starts with.
pub open spec fn lead_zeros(d: Seq<char>) -> nat
    decreases d.len(),
{
    if d.len() > 0 && d[0] == '0' {
        1 + lead_zeros(d.drop_first())
    } else {
        0
    }
}

/// How many zeros a digit string ends with.
pub open spec fn trail_zeros(d: Seq<char>) -> nat
    decreases d.len(),
{
    if d.len() > 0 && d.last() == '0' {
        1 + trail_zeros(d.drop_last())
    } else {
        0
    }
}

/// A digit string without its leading and trailing zeros.
pub open spec fn significant(d: Seq<char>) -> Seq<char> {
    let s0 = d.skip(lead_zeros(d) as int);
    s0.take(s0.len() - trail_zeros(s0))
}

/// The canonical form `(negative, digits, point)` of the value
/// `±0.digits × 10^point`, from a sign, digits `m` and `point` of them before
/// the decimal point: the digits lose their leading and trailing zeros, and
/// zero is `(false, [], 0)`. Equal values have equal canonical forms.
pub open spec fn canonical(negative: bool, m: Seq<char>, point: int) -> (bool, Seq<char>, int) {
    let sig = significant(m);
    if sig.len() == 0 {
        (false, Seq::empty(), 0)
    } else {
        (negative, sig, point - lead_zeros(m))
    }
}

/// The number that a cell denotes, in canonical form, or `None` when it is no
/// number: a decimal (optional sign, digits with an optional point, at least
/// one digit), then optionally `e` or `E` and an exponent, of any length of
/// digits; the exponent's magnitude at most `MAX_EXPONENT`.
pub open spec fn number_of(s: Seq<char>) -> Option<(bool, Seq<char>, int)> {
    let q = choose|q: int| exp_split(s, q);
    if q == s.len() {
        match decimal_parts(s) {
            Some(d) => Some(canonical(d.0, d.1, d.2)),
            None => None,
        }
    } else {
        match (decimal_parts(s.take(q)), exponent_of(s.skip(q + 1))) {
            (Some(d), Some(e)) => Some(canonical(d.0, d.1, d.2 + e)),
            _ => None,
        }
    }
}

/// -1, 0 or 1: the sign of a number in canonical form.
pub open spec fn sign_class(x: (bool, Seq<char>, int)) -> int {
    if x.1.len() == 0 {
        0
    } else if x.0 {
        -1
    } else {
        1
    }
}

/// Numeric order on canonical forms: by sign; then, for positive numbers, by
/// point position and then digit by digit (reversed for negative numbers).
pub open spec fn num_lt(x: (bool, Seq<char>, int), y: (bool, Seq<char>, int)) -> bool {
    if sign_class(x) != sign_class(y) {
        sign_class(x) < sign_class(y)
    } else if sign_class(x) == 0 {
        false
    } else if sign_class(x) == 1 {
        x.2 < y.2 || (x.2 == y.2 && text_lt(x.1, y.1))
    } else {
        x.2 > y.2 || (x.2 == y.2 && text_lt(y.1, x.1))
    }
}

/// Whether cell `a` comes strictly before cell `b` under the order and method;
/// under `Numerical` only cells that are both numbers are ordered.
pub open spec fn precedes(a: Seq<char>, b: Seq<char>, order: CSVSortOrder, method: CSVSortMethod) -> bool {
    match method {
        CSVSortMethod::Alphabetical => match order {
            CSVSortOrder::Ascending => text_lt(a, b),
            CSVSortOrder::Descending => text_lt(b, a),
        },
        CSVSortMethod::Numerical => match (number_of(a), number_of(b)) {
            (Some(x), Some(y)) => match order {
                CSVSortOrder::Ascending => num_lt(x, y),
                CSVSortOrder::Descending => num_lt(y, x),
            },
            _ => false,
        },
    }
}

/// A number read from a cell, in canonical form: `±0.digits × 10^point`.
#[derive(Debug)]
pub struct Number {
    pub negative: bool,
    pub digits: Vec<char>,
    pub point: i128,
}

impl Number {
    pub open spec fn value(&self) -> (bool, Seq<char>, int) {
        (self.negative, self.digits@, self.point as int)
    }
}

proof fn lemma_digits_value_step(d: Seq<char>, k: int)
    requires
        0 <= k < d.len(),
    ensures
        digits_value(d.take(k + 1)) == digits_value(d.take(k)) * 10 + (d[k] as int - '0' as int),
{
    assert(d.take(k + 1).drop_last() =~= d.take(k));
}

proof fn lemma_digits_value_nonneg(d: Seq<char>)
    requires
        all_digits(d),
    ensures
        digits_value(d) >= 0,
    decreases d.len(),
{
    if d.len() > 0 {
        assert(all_digits(d.drop_last()));
        lemma_digits_value_nonneg(d.drop_last());
        assert(is_digit(d[d.len() - 1]));
    }
}

/// A prefix of a digit string never denotes more than the whole string.
proof fn lemma_digits_value_prefix(d: Seq<char>, k: int)
    requires
        all_digits(d),
        0 <= k <= d.len(),
    ensures
        digits_value(d.take(k)) <= digits_value(d),
    decreases d.len(),
{
    if k == d.len() {
        assert(d.take(k) =~= d);
    } else {
        let e = d.drop_last();
        assert(all_digits(e));
        assert(e.take(k) =~= d.take(k));
        lemma_digits_value_prefix(e, k);
        lemma_digits_value_nonneg(e);
        assert(is_digit(d[d.len() - 1]));
    }
}

/// The point of a well-formed number stands at the first non-digit.
proof fn lemma_point_unique(u: Seq<char>, p: int, q: int)
    requires
        0 <= p <= u.len(),
        forall|k: int| 0 <= k < p ==> is_digit(#[trigger] u[k]),
        p < u.len() ==> !is_digit(u[p]),
        point_at(u, q),
    ensures
        q == p,
{
    if q < p {
        assert(is_digit(u[q]));
    } else if q > p {
        assert(is_digit(u[p]));
    }
}

fn is_digit_char(c: char) -> (r: bool)
    ensures
        r == is_digit(c),
{
    '0' <= c && c <= '9'
}

/// The characters of a string.
pub fn chars_of(s: &str) -> (r: Vec<char>)
    ensures
        r@ == s@,
{
    let n = s.unicode_len();
    let mut r: Vec<char> = Vec::new();
    let mut i: usize = 0;
    while i < n
        invariant
            n == s@.len(),
            0 <= i <= n,
            r@ == s@.take(i as int),
        decreases n - i,
    {
        r.push(s.get_char(i));
        i = i + 1;
        assert(r@ =~= s@.take(i as int));
    }
    assert(s@.take(n as int) =~= s@);
    r
}

/// Whether `a` comes strictly before `b` in lexical order.
pub fn text_less(a: &Vec<char>, b: &Vec<char>) -> (r: bool)
    ensures
        r == text_lt(a@, b@),
{
    let mut i: usize = 0;
    assert(a@.skip(0) =~= a@);
    assert(b@.skip(0) =~= b@);
    while i < a.len() && i < b.len()
        invariant
            0 <= i <= a.len(),
            i <= b.len(),
            text_lt(a@, b@) == text_lt(a@.skip(i as int), b@.skip(i as int)),
        decreases a.len() - i,
    {
        if a[i] != b[i] {
            return a[i] < b[i];
        }
        assert(a@.skip(i as int).drop_first() =~= a@.skip(i + 1));
        assert(b@.skip(i as int).drop_first() =~= b@.skip(i + 1));
        i = i + 1;
    }
    i == a.len() && i < b.len()
}

fn is_exp_marker_char(c: char) -> (r: bool)
    ensures
        r == is_exp_marker(c),
{
    c == 'e' || c == 'E'
}

/// The characters `s[from..to]`.
fn slice_chars(s: &Vec<char>, from: usize, to: usize) -> (r: Vec<char>)
    requires
        from <= to <= s.len(),
    ensures
        r@ == s@.subrange(from as int, to as int),
{
    let mut r: Vec<char> = Vec::new();
    let mut i: usize = from;
    while i < to
        invariant
            from <= i <= to <= s.len(),
            r@ == s@.subrange(from as int, i as int),
        decreases to - i,
    {
        r.push(s[i]);
        i = i + 1;
        assert(r@ =~= s@.subrange(from as int, i as int));
    }
    r
}

/// Reads an exponent: an optional sign and digits, at most `MAX_EXPONENT`.
fn parse_exponent(t: &Vec<char>) -> (r: Option<i64>)
    ensures
        r is Some <==> exponent_of(t@) is Some,
        r matches Some(e) ==> exponent_of(t@) == Some(e as int) && -(MAX_EXPONENT as int) <= e <= MAX_EXPONENT,
{
    let n = t.len();
    let mut start: usize = 0;
    if n > 0 && (t[0] == '+' || t[0] == '-') {
        start = 1;
    }
    let negative = n > 0 && t[0] == '-';
    let ghost d = unsigned_part(t@);
    assert(d =~= t@.skip(start as int));
    if start == n {
        return None;
    }
    let mut v: u64 = 0;
    let mut i: usize = start;
    assert(d.take(0) =~= Seq::<char>::empty());
    while i < n
        invariant
            start <= i <= n,
            n == t@.len(),
            d == t@.skip(start as int),
            d == unsigned_part(t@),
            v == digits_value(d.take(i - start)),
            v <= MAX_EXPONENT,
            forall|k: int| 0 <= k < i - start ==> is_digit(#[trigger] d[k]),
        decreases n - i,
    {
        let c = t[i];
        assert(c == d[i - start]);
        if !is_digit_char(c) {
            return None;
        }
        proof {
            lemma_digits_value_step(d, i - start);
        }
        let nv: u64 = v * 10 + ((c as u32) - ('0' as u32)) as u64;
        if nv > MAX_EXPONENT as u64 {
            proof {
                if all_digits(d) {
                    lemma_digits_value_prefix(d, i - start + 1);
                }
            }
            return None;
        }
        v = nv;
        i = i + 1;
    }
    assert(d.take(n - start) =~= d);
    assert(all_digits(d));
    if negative {
        Some(-(v as i64))
    } else {
        Some(v as i64)
    }
}

/// Reads a decimal without exponent: its sign, its digits with the point
/// taken out, and how many of them stand before the point.
fn parse_decimal(s: &Vec<char>) -> (r: Option<(bool, Vec<char>, usize)>)
    ensures
        r is Some <==> decimal_parts(s@) is Some,
        r matches Some((neg, m, p)) ==> decimal_parts(s@) == Some((neg, m@, p as int)),
{
    let n = s.len();
    let mut start: usize = 0;
    if n > 0 && (s[0] == '+' || s[0] == '-') {
        start = 1;
    }
    let negative = n > 0 && s[0] == '-';
    let ghost u = unsigned_part(s@);
    assert(u =~= s@.skip(start as int));
    let mut p: usize = start;
    while p < n && is_digit_char(s[p])
        invariant
            start <= p <= n,
            n == s@.len(),
            forall|k: int| start <= k < p ==> is_digit(#[trigger] s@[k]),
        decreases n - p,
    {
        p = p + 1;
    }
    let ghost pu = p - start;
    assert forall|k: int| 0 <= k < pu implies is_digit(#[trigger] u[k]) by {
        assert(u[k] == s@[k + start]);
    }
    if p < n {
        if s[p] != '.' {
            assert forall|q: int| !(point_at(u, q) && mantissa_digits(u, q).len() > 0) by {
                if point_at(u, q) {
                    lemma_point_unique(u, pu, q);
                }
            }
            return None;
        }
        let mut j: usize = p + 1;
        while j < n && is_digit_char(s[j])
            invariant
                p < j <= n,
                n == s@.len(),
                forall|k: int| p < k < j ==> is_digit(#[trigger] s@[k]),
            decreases n - j,
        {
            j = j + 1;
        }
        if j < n {
            assert forall|q: int| !(point_at(u, q) && mantissa_digits(u, q).len() > 0) by {
                if point_at(u, q) {
                    lemma_point_unique(u, pu, q);
                    assert(is_digit(u[j - start]));
                }
            }
            return None;
        }
        assert forall|k: int| pu < k < u.len() implies is_digit(#[trigger] u[k]) by {
            assert(u[k] == s@[k + start]);
        }
    }
    assert(point_at(u, pu));
    assert forall|q: int| point_at(u, q) implies q == pu by {
        lemma_point_unique(u, pu, q);
    }
    let mut m = slice_chars(s, start, p);
    if p < n {
        let mut f = slice_chars(s, p + 1, n);
        m.append(&mut f);
    }
    assert(m@ =~= mantissa_digits(u, pu));
    if m.len() == 0 {
        return None;
    }
    Some((negative, m, p - start))
}

proof fn lemma_lead_zeros_step(d: Seq<char>, i: int)
    requires
        0 <= i < d.len(),
        d[i] == '0',
    ensures
        lead_zeros(d.skip(i)) == 1 + lead_zeros(d.skip(i + 1)),
{
    assert(d.skip(i).drop_first() =~= d.skip(i + 1));
}

proof fn lemma_trail_zeros_step(d: Seq<char>, k: int)
    requires
        0 < k <= d.len(),
        d[k - 1] == '0',
    ensures
        trail_zeros(d.take(k)) == 1 + trail_zeros(d.take(k - 1)),
{
    assert(d.take(k).drop_last() =~= d.take(k - 1));
}

/// The canonical form of the number with sign `negative`, digits `m` and
/// `point` digits before the decimal point.
fn canonical_number(negative: bool, m: &Vec<char>, point: i128) -> (r: Number)
    requires
        -0x1_0000_0000_0000_0000_0000 < point < 0x1_0000_0000_0000_0000_0000,
    ensures
        r.value() == canonical(negative, m@, point as int),
{
    let n = m.len();
    let mut z: usize = 0;
    assert(m@.skip(0) =~= m@);
    while z < n && m[z] == '0'
        invariant
            0 <= z <= n,
            n == m@.len(),
            lead_zeros(m@) == z + lead_zeros(m@.skip(z as int)),
        decreases n - z,
    {
        proof {
            lemma_lead_zeros_step(m@, z as int);
        }
        z = z + 1;
    }
    assert(lead_zeros(m@.skip(z as int)) == 0);
    let rest = slice_chars(m, z, n);
    assert(rest@ =~= m@.skip(z as int));
    let len = rest.len();
    let mut k: usize = len;
    assert(rest@.take(len as int) =~= rest@);
    while k > 0 && rest[k - 1] == '0'
        invariant
            0 <= k <= len,
            len == rest@.len(),
            trail_zeros(rest@) == (len - k) + trail_zeros(rest@.take(k as int)),
        decreases k,
    {
        proof {
            lemma_trail_zeros_step(rest@, k as int);
        }
        k = k - 1;
    }
    assert(trail_zeros(rest@.take(k as int)) == 0);
    let sig = slice_chars(&rest, 0, k);
    assert(sig@ =~= significant(m@));
    if k == 0 {
        assert(canonical(negative, m@, point as int).1 =~= Seq::<char>::empty());
        return Number { negative: false, digits: Vec::new(), point: 0 };
    }
    Number { negative, digits: sig, point: point - z as i128 }
}

/// Reads a cell as a number: an optional sign, digits with an optional point
/// (at least one digit), then optionally `e` or `E` and an exponent.
pub fn parse_number(s: &Vec<char>) -> (r: Option<Number>)
    ensures
        r is Some <==> number_of(s@) is Some,
        r matches Some(x) ==> number_of(s@) == Some(x.value()),
{
    let n = s.len();
    let mut q: usize = 0;
    while q < n && !is_exp_marker_char(s[q])
        invariant
            0 <= q <= n,
            n == s@.len(),
            forall|k: int| 0 <= k < q ==> !is_exp_marker(#[trigger] s@[k]),
        decreases n - q,
    {
        q = q + 1;
    }
    assert(exp_split(s@, q as int));
    assert forall|q2: int| exp_split(s@, q2) implies q2 == q by {
        if q2 < q {
            assert(!is_exp_marker(s@[q2]));
        } else if q2 > q {
            assert(!is_exp_marker(s@[q as int]));
        }
    }
    let head = slice_chars(s, 0, q);
    assert(head@ =~= s@.take(q as int));
    if q == n {
        assert(head@ =~= s@);
    }
    let (negative, m, p) = match parse_decimal(&head) {
        Some(parts) => parts,
        None => {
            return None;
        },
    };
    let mut e: i64 = 0;
    if q < n {
        let tail = slice_chars(s, q + 1, n);
        assert(tail@ =~= s@.skip(q + 1));
        e = match parse_exponent(&tail) {
            Some(e) => e,
            None => {
                return None;
            },
        };
    }
    Some(canonical_number(negative, &m, p as i128 + e as i128))
}

/// Whether `x` is strictly less than `y`.
pub fn number_less(x: &Number, y: &Number) -> (r: bool)
    ensures
        r == num_lt(x.value(), y.value()),
{
    let cx: i8 = if x.digits.len() == 0 { 0 } else if x.negative { -1 } else { 1 };
    let cy: i8 = if y.digits.len() == 0 { 0 } else if y.negative { -1 } else { 1 };
    if cx != cy {
        cx < cy
    } else if cx == 0 {
        false
    } else if cx == 1 {
        x.point < y.point || (x.point == y.point && text_less(&x.digits, &y.digits))
    } else {
        x.point > y.point || (x.point == y.point && text_less(&y.digits, &x.digits))
    }
}

/// Two cells stand level: neither comes before the other.
pub open spec fn level(a: Seq<char>, b: Seq<char>, order: CSVSortOrder, method: CSVSortMethod) -> bool {
    !precedes(a, b, order, method) && !precedes(b, a, order, method)
}

proof fn lemma_text_lt_asym(a: Seq<char>, b: Seq<char>)
    ensures
        text_lt(a, b) ==> !text_lt(b, a),
    decreases a.len(),
{
    if a.len() > 0 && b.len() > 0 && a[0] == b[0] {
        lemma_text_lt_asym(a.drop_first(), b.drop_first());
    }
}

/// No cell comes before a cell that comes before it.
pub proof fn lemma_precedes_asym(a: Seq<char>, b: Seq<char>, order: CSVSortOrder, method: CSVSortMethod)
    ensures
        precedes(a, b, order, method) ==> !precedes(b, a, order, method),
{
    lemma_text_lt_asym(a, b);
    lemma_text_lt_asym(b, a);
    if number_of(a) is Some && number_of(b) is Some {
        let x = number_of(a)->Some_0;
        let y = number_of(b)->Some_0;
        lemma_text_lt_asym(x.1, y.1);
        lemma_text_lt_asym(y.1, x.1);
    }
}

proof fn lemma_text_lt_trans(a: Seq<char>, b: Seq<char>, c: Seq<char>)
    requires
        text_lt(a, b),
        text_lt(b, c),
    ensures
        text_lt(a, c),
    decreases a.len(),
{
    if a.len() > 0 && b.len() > 0 && c.len() > 0 && a[0] == b[0] && b[0] == c[0] {
        lemma_text_lt_trans(a.drop_first(), b.drop_first(), c.drop_first());
    }
}

proof fn lemma_text_lt_total(a: Seq<char>, b: Seq<char>)
    requires
        a != b,
    ensures
        text_lt(a, b) || text_lt(b, a),
    decreases a.len(),
{
    if a.len() > 0 && b.len() > 0 && a[0] == b[0] {
        if a.drop_first() == b.drop_first() {
            assert(a =~= seq![a[0]] + a.drop_first());
            assert(b =~= seq![b[0]] + b.drop_first());
        }
        lemma_text_lt_total(a.drop_first(), b.drop_first());
    } else if a.len() > 0 && b.len() > 0 {
        assert((a[0] as int) != (b[0] as int));
    } else if a.len() == 0 && b.len() == 0 {
        assert(a =~= b);
    }
}

proof fn lemma_text_lt_weak(a: Seq<char>, b: Seq<char>, c: Seq<char>)
    requires
        text_lt(a, c),
    ensures
        text_lt(a, b) || text_lt(b, c),
{
    if !text_lt(a, b) && !text_lt(b, c) {
        if a == b {
        } else {
            lemma_text_lt_total(a, b);
            lemma_text_lt_trans(b, a, c);
        }
    }
}

proof fn lemma_num_lt_weak(x: (bool, Seq<char>, int), y: (bool, Seq<char>, int), z: (bool, Seq<char>, int))
    requires
        num_lt(x, z),
    ensures
        num_lt(x, y) || num_lt(y, z),
{
    if text_lt(x.1, z.1) {
        lemma_text_lt_weak(x.1, y.1, z.1);
    }
    if text_lt(z.1, x.1) {
        lemma_text_lt_weak(z.1, y.1, x.1);
    }
}

/// Under `Numerical` a cell that takes part in the order must be a number.
pub open spec fn comparable(a: Seq<char>, method: CSVSortMethod) -> bool {
    method == CSVSortMethod::Numerical ==> number_of(a) is Some
}

/// When `a` comes before `c`, every cell `b` comes after `a` or before `c`:
/// cells that stand level with one another are interchangeable in the order.
pub proof fn lemma_precedes_weak(a: Seq<char>, b: Seq<char>, c: Seq<char>, order: CSVSortOrder, method: CSVSortMethod)
    requires
        comparable(a, method),
        comparable(b, method),
        comparable(c, method),
        precedes(a, c, order, method),
    ensures
        precedes(a, b, order, method) || precedes(b, c, order, method),
{
    match method {
        CSVSortMethod::Alphabetical => match order {
            CSVSortOrder::Ascending => lemma_text_lt_weak(a, b, c),
            CSVSortOrder::Descending => lemma_text_lt_weak(c, b, a),
        },
        CSVSortMethod::Numerical => {
            let x = number_of(a)->Some_0;
            let y = number_of(b)->Some_0;
            let z = number_of(c)->Some_0;
            match order {
                CSVSortOrder::Ascending => lemma_num_lt_weak(x, y, z),
                CSVSortOrder::Descending => lemma_num_lt_weak(z, y, x),
            }
        },
    }
}

/// A cell ready for comparison: its characters, and under `Numerical` its number.
pub struct SortKey {
    pub text: Vec<char>,
    pub num: Number,
}

/// `k` stands for `cell` under `method`.
pub open spec fn key_of(k: SortKey, cell: Seq<char>, method: CSVSortMethod) -> bool {
    &&& k.text@ == cell
    &&& method == CSVSortMethod::Numerical ==> number_of(cell) == Some(k.num.value())
}

/// Whether the cell behind `a` comes strictly before the cell behind `b`.
pub fn key_before(a: &SortKey, b: &SortKey, sort_order: CSVSortOrder, sort_method: CSVSortMethod) -> (r: bool)
    requires
        key_of(*a, a.text@, sort_method),
        key_of(*b, b.text@, sort_method),
    ensures
        r == precedes(a.text@, b.text@, sort_order, sort_method),
{
    match sort_method {
        CSVSortMethod::Alphabetical => match sort_order {
            CSVSortOrder::Ascending => text_less(&a.text, &b.text),
            CSVSortOrder::Descending => text_less(&b.text, &a.text),
        },
        CSVSortMethod::Numerical => match sort_order {
            CSVSortOrder::Ascending => number_less(&a.num, &b.num),
            CSVSortOrder::Descending => number_less(&b.num, &a.num),
        },
    }
}

/// Reads a sort order from its name, `descending` or `ascending`.
pub fn parse_order(order: &str) -> (r: Result<CSVSortOrder, CsvError>)
    ensures
        order@ == "descending"@ ==> r matches Ok(CSVSortOrder::Descending),
        order@ == "ascending"@ ==> r matches Ok(CSVSortOrder::Ascending),
        order@ != "descending"@ && order@ != "ascending"@ ==> (r matches Err(e) && e matches CsvError::InvalidArgument { value } && value@ == order@),
{
    proof {
        reveal_strlit("descending");
        reveal_strlit("ascending");
        assert("descending"@.len() != "ascending"@.len());
    }
    let given = order.to_owned();
    let descending = String::from_str("descending");
    let ascending = String::from_str("ascending");
    if given == descending {
        Ok(CSVSortOrder::Descending)
    } else if given == ascending {
        Ok(CSVSortOrder::Ascending)
    } else {
        Err(CsvError::InvalidArgument { value: given })
    }
}

/// Reads a sort method from its name, `numerical` or `alphabetical`.
pub fn parse_method(method: &str) -> (r: Result<CSVSortMethod, CsvError>)
    ensures
        method@ == "numerical"@ ==> r matches Ok(CSVSortMethod::Numerical),
        method@ == "alphabetical"@ ==> r matches Ok(CSVSortMethod::Alphabetical),
        method@ != "numerical"@ && method@ != "alphabetical"@ ==> (r matches Err(e) && e matches CsvError::InvalidArgument { value } && value@ == method@),
{
    proof {
        reveal_strlit("numerical");
        reveal_strlit("alphabetical");
        assert("numerical"@.len() != "alphabetical"@.len());
    }
    let given = method.to_owned();
    let numerical = String::from_str("numerical");
    let alphabetical = String::from_str("alphabetical");
    if given == numerical {
        Ok(CSVSortMethod::Numerical)
    } else if given == alphabetical {
        Ok(CSVSortMethod::Alphabetical)
    } else {
        Err(CsvError::InvalidArgument { value: given })
    }
}

/// Whether cell `c1` comes strictly before cell `c2`. Under `Numerical` both
/// cells must be numbers; otherwise the first that is not is reported, with
/// `row_index` 0 since the cells stand in no table.
///
/// Numbers are compared exactly, by value. A number is an optional sign,
/// digits with an optional point (at least one digit), then optionally `e` or
/// `E` and a signed exponent, with any count of digits; only the exponent's
/// magnitude is bounded, by `MAX_EXPONENT`. `inf` and `nan` are no numbers.
pub fn compare_columns(c1: &str, c2: &str, sort_order: CSVSortOrder, sort_method: CSVSortMethod) -> (r: Result<bool, CsvError>)
    ensures
        r is Ok <==> (sort_method == CSVSortMethod::Alphabetical || (number_of(c1@) is Some && number_of(c2@) is Some)),
        r matches Ok(b) ==> b == precedes(c1@, c2@, sort_order, sort_method),
        r matches Err(e) ==> (e matches CsvError::ValueParse { row_index, raw_value } && row_index == 0 && (if number_of(c1@) is None {
            raw_value@ == c1@
        } else {
            raw_value@ == c2@
        })),
{
    let a = chars_of(c1);
    let b = chars_of(c2);
    match sort_method {
        CSVSortMethod::Alphabetical => match sort_order {
            CSVSortOrder::Ascending => Ok(text_less(&a, &b)),
            CSVSortOrder::Descending => Ok(text_less(&b, &a)),
        },
        CSVSortMethod::Numerical => {
            let x = match parse_number(&a) {
                Some(x) => x,
                None => return Err(CsvError::ValueParse { row_index: 0, raw_value: c1.to_owned() }),
            };
            let y = match parse_number(&b) {
                Some(y) => y,
                None => return Err(CsvError::ValueParse { row_index: 0, raw_value: c2.to_owned() }),
            };
            match sort_order {
                CSVSortOrder::Ascending => Ok(number_less(&x, &y)),
                CSVSortOrder::Descending => Ok(number_less(&y, &x)),
            }
        },
    }
}

} // verus!
