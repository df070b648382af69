use vstd::prelude::*;

use vstd::arithmetic::div_mod::{lemma_mod_breakdown, lemma_small_mod};

use crate::error::{ParseError, ParseErrorView, ProgramError, ProgramErrorView};
use crate::text::{
    all_digits, chars_of, copy_range, digit_value, digits_to_u64, digits_value, find_char,
    is_digit, lemma_find_char, split_on, split_pieces, string_of, trim, trim_chars, trim_end,
    trim_start, white_space, without_plus,
};

verus! {

/// The largest exponent, in either direction, of a payload's last digit.
pub const MAX_EXPONENT: i64 = 1_000_000_000_000;

/// Where an exponent written in a payload goes past this many, it counts as
/// this many: the value is then far outside the range of any float.
pub const EXPONENT_CAP: u64 = 10_000_000_000_000;

/// The most significant digits that a payload keeps.
pub const MAX_DIGITS: u32 = 19;

/// A non-negative decimal number, `mantissa * 10^exponent`.
///
/// Well-formed values are canonical: zero is `0 * 10^0`, and any other value
/// has a mantissa of at most 19 digits with no trailing zero, so two
/// well-formed values are equal exactly when the numbers are.
#[derive(Clone, Copy, Debug, PartialEq, Eq, Structural)]
pub struct Ratio {
    pub mantissa: u64,
    pub exponent: i64,
}

/// `10^e`.
pub open spec fn pow10(e: nat) -> nat
    decreases e,
{
    if e == 0 {
        1
    } else {
        10 * pow10((e - 1) as nat)
    }
}

/// `m * 10^x` with the trailing zero digits of `m` moved into the exponent.
pub open spec fn canonical(m: nat, x: int) -> (nat, int)
    decreases m,
{
    if m > 0 && m % 10 == 0 {
        canonical(m / 10, x + 1)
    } else {
        (m, x)
    }
}

/// The payload `m * 10^x`: zero where it is below `10^-MAX_EXPONENT`, and
/// none where its exponent goes past `MAX_EXPONENT`.
pub open spec fn payload_of(m: nat, x: int) -> Option<Ratio> {
    let c = canonical(m, x);
    if m == 0 || c.1 < -MAX_EXPONENT {
        Some(Ratio { mantissa: 0, exponent: 0 })
    } else if c.1 > MAX_EXPONENT {
        None
    } else {
        Some(Ratio { mantissa: c.0 as u64, exponent: c.1 as i64 })
    }
}

impl Ratio {
    pub open spec fn wf(self) -> bool {
        &&& self.mantissa < pow10(MAX_DIGITS as nat)
        &&& -MAX_EXPONENT <= self.exponent <= MAX_EXPONENT
        &&& self.mantissa == 0 ==> self.exponent == 0
        &&& self.mantissa != 0 ==> self.mantissa % 10 != 0
    }

    /// The payload `mantissa * 10^exponent`, as `payload_of` states.
    pub fn new(mantissa: u64, exponent: i64) -> (r: Option<Ratio>)
        requires
            mantissa < pow10(MAX_DIGITS as nat),
        ensures
            r == payload_of(mantissa as nat, exponent as int),
            r is Some ==> r->0.wf(),
    {
        make_payload(mantissa, exponent as i128)
    }
}

pub proof fn lemma_pow10_19()
    ensures
        pow10(MAX_DIGITS as nat) == 10_000_000_000_000_000_000,
{
    reveal_with_fuel(pow10, 20);
}

/// `m * 10^x` as a payload, as `payload_of` states.
fn make_payload(m: u64, x: i128) -> (r: Option<Ratio>)
    requires
        m < pow10(MAX_DIGITS as nat),
        -0x1_0000_0000_0000_0000_0000 <= x <= 0x1_0000_0000_0000_0000_0000,
    ensures
        r == payload_of(m as nat, x as int),
        r is Some ==> r->0.wf(),
{
    if m == 0 {
        return Some(Ratio { mantissa: 0, exponent: 0 });
    }
    let mut mm: u64 = m;
    let mut xx: i128 = x;
    while mm % 10 == 0
        invariant
            0 < mm <= m,
            -0x1_0000_0000_0000_0000_0000 <= x <= 0x1_0000_0000_0000_0000_0000,
            x <= xx <= x + (m - mm),
            canonical(mm as nat, xx as int) == canonical(m as nat, x as int),
        decreases mm,
    {
        assert(mm / 10 <= mm - 1);
        assert(xx + 1 <= x + (m - mm / 10));
        assert(x + (m - mm / 10) <= 0x1_0000_0000_0000_0000_0000 + 0x1_0000_0000_0000_0000);
        mm = mm / 10;
        xx = xx + 1;
    }
    if xx < -(MAX_EXPONENT as i128) {
        Some(Ratio { mantissa: 0, exponent: 0 })
    } else if xx > MAX_EXPONENT as i128 {
        None
    } else {
        Some(Ratio { mantissa: mm, exponent: xx as i64 })
    }
}

/// The outcome of one solver run, with its payload.
#[derive(Clone, Copy, Debug, PartialEq, Eq, Structural)]
pub enum StatusValue {
    /// No status was recorded.
    Infeasible(Ratio),
    /// Status code 0.
    Linear(Ratio),
    /// Status code 1.
    Integer(Ratio),
    /// Status code 2.
    Timeout(Ratio),
}

impl StatusValue {
    pub open spec fn payload(self) -> Ratio {
        match self {
            StatusValue::Infeasible(v) => v,
            StatusValue::Linear(v) => v,
            StatusValue::Integer(v) => v,
            StatusValue::Timeout(v) => v,
        }
    }

    pub open spec fn wf(self) -> bool {
        self.payload().wf()
    }
}

pub open spec fn all_wf(v: Seq<StatusValue>) -> bool {
    forall|i: int| 0 <= i < v.len() ==> (#[trigger] v[i]).wf()
}

/// Digits before the decimal point.
pub open spec fn int_part(b: Seq<char>) -> Seq<char> {
    b.take(find_char(b, '.') as int)
}

/// Digits after the decimal point (none where there is no point).
pub open spec fn frac_part(b: Seq<char>) -> Seq<char> {
    let k = find_char(b, '.');
    if k < b.len() {
        b.skip(k + 1 as int)
    } else {
        Seq::empty()
    }
}

pub open spec fn is_exp_mark(c: char) -> bool {
    c == 'e' || c == 'E'
}

/// Index of the first `e` or `E` in `s`, or `s.len()` where there is none.
pub open spec fn find_exp(s: Seq<char>) -> nat
    decreases s.len(),
{
    if s.len() == 0 {
        0
    } else if is_exp_mark(s[0]) {
        0
    } else {
        1 + find_exp(s.drop_first())
    }
}

/// `t` without one leading sign.
pub open spec fn unsigned_part(t: Seq<char>) -> Seq<char> {
    if t.len() > 0 && (t[0] == '+' || t[0] == '-') {
        t.drop_first()
    } else {
        t
    }
}

/// The exponent that the text after an `e` writes: an optional sign and one
/// digit at least; its size counts up to `EXPONENT_CAP`.
pub open spec fn exponent_of(x: Seq<char>) -> Option<int> {
    let body = unsigned_part(x);
    if body.len() > 0 && all_digits(body) {
        let v = if digits_value(body) <= EXPONENT_CAP {
            digits_value(body) as int
        } else {
            EXPONENT_CAP as int
        };
        if x[0] == '-' {
            Some(-v)
        } else {
            Some(v)
        }
    } else {
        None
    }
}

/// How many `0` digits `s` starts with.
pub open spec fn lead_zeros(s: Seq<char>) -> nat
    decreases s.len(),
{
    if s.len() > 0 && s[0] == '0' {
        1 + lead_zeros(s.drop_first())
    } else {
        0
    }
}

/// The significant digits of `p` that a payload keeps: the first
/// `MAX_DIGITS` after the leading zeros.
pub open spec fn kept_digits(p: Seq<char>) -> Seq<char> {
    let q = p.skip(lead_zeros(p) as int);
    if q.len() <= MAX_DIGITS {
        q
    } else {
        q.take(MAX_DIGITS as int)
    }
}

/// How many significant digits of `p` a payload drops.
pub open spec fn dropped_digits(p: Seq<char>) -> nat {
    (p.len() - lead_zeros(p) - kept_digits(p).len()) as nat
}

/// The payload that a trimmed token writes: an optional sign, digits with an
/// optional decimal point (one digit at least), and an optional exponent
/// (`e` or `E`, see `exponent_of`). Past `MAX_DIGITS` significant digits the
/// rest are cut off. A `-` is read only on a value of zero; `inf` and `NaN`
/// do not read, nor a value whose exponent goes past `MAX_EXPONENT`.
pub open spec fn ratio_of_token(t: Seq<char>) -> Option<Ratio> {
    let b = unsigned_part(t);
    let k = find_exp(b);
    let e = if k < b.len() {
        exponent_of(b.skip(k + 1 as int))
    } else {
        Some(0int)
    };
    let m = b.take(k as int);
    let ip = int_part(m);
    let fp = frac_part(m);
    if all_digits(ip) && all_digits(fp) && ip.len() + fp.len() > 0 && e is Some {
        let p = ip + fp;
        let r = payload_of(
            digits_value(kept_digits(p)),
            dropped_digits(p) - fp.len() + e->0,
        );
        if t[0] == '-' && r is Some && r->0.mantissa != 0 {
            None
        } else {
            r
        }
    } else {
        None
    }
}

/// The status code that a trimmed, non-empty token writes: an optional `+`
/// and one digit at least, worth at most `usize::MAX`.
pub open spec fn status_of_token(t: Seq<char>) -> Option<usize> {
    let b = without_plus(t);
    if b.len() > 0 && all_digits(b) && digits_value(b) <= usize::MAX {
        Some(digits_value(b) as usize)
    } else {
        None
    }
}

/// The trimmed field at `col` of a line, if the line has that many fields.
pub open spec fn field(line: Seq<char>, col: int) -> Option<Seq<char>> {
    let parts = split_on(line, ',');
    if 0 <= col < parts.len() {
        Some(trim(parts[col]))
    } else {
        None
    }
}

/// The variant that a status code selects, if any.
pub open spec fn variant_of_code(code: usize, v: Ratio) -> Option<StatusValue> {
    if code == 0 {
        Some(StatusValue::Linear(v))
    } else if code == 1 {
        Some(StatusValue::Integer(v))
    } else if code == 2 {
        Some(StatusValue::Timeout(v))
    } else {
        None
    }
}

/// What one line of the log reads as.
pub open spec fn record_of_line(line: Seq<char>) -> Result<StatusValue, ProgramErrorView> {
    let t0 = field(line, 0)->0;
    match ratio_of_token(t0) {
        None => Err(ProgramErrorView::ParseError(ParseErrorView::Float(t0, 0))),
        Some(v) => match field(line, 1) {
            None => Err(ProgramErrorView::ParseError(ParseErrorView::MissingToken(1))),
            Some(t1) => if t1.len() == 0 {
                Ok(StatusValue::Infeasible(v))
            } else {
                match status_of_token(t1) {
                    None => Err(ProgramErrorView::ParseError(ParseErrorView::Int(t1, 1))),
                    Some(code) => match variant_of_code(code, v) {
                        Some(r) => Ok(r),
                        None => Err(ProgramErrorView::UnknowStatus(code)),
                    },
                }
            },
        },
    }
}

/// The lines of a log: split at each newline, where a final newline ends the
/// last line rather than starting an empty one.
pub open spec fn log_lines(s: Seq<char>) -> Seq<Seq<char>> {
    if s.len() == 0 {
        Seq::empty()
    } else if s.last() == '\n' {
        split_on(s.drop_last(), '\n')
    } else {
        split_on(s, '\n')
    }
}

/// The records of `lines` in order, or the error of the first line that fails.
pub open spec fn records_of_lines(lines: Seq<Seq<char>>) -> Result<
    Seq<StatusValue>,
    ProgramErrorView,
>
    decreases lines.len(),
{
    if lines.len() == 0 {
        Ok(Seq::empty())
    } else {
        match records_of_lines(lines.drop_last()) {
            Err(e) => Err(e),
            Ok(vs) => match record_of_line(lines.last()) {
                Err(e) => Err(e),
                Ok(v) => Ok(vs.push(v)),
            },
        }
    }
}

/// What a whole log reads as.
pub open spec fn records_of_log(s: Seq<char>) -> Result<Seq<StatusValue>, ProgramErrorView> {
    records_of_lines(log_lines(s))
}

pub open spec fn result_view<T>(r: Result<T, ProgramError>) -> Result<T, ProgramErrorView> {
    match r {
        Ok(v) => Ok(v),
        Err(e) => Err(e@),
    }
}

pub open spec fn vec_result_view(r: Result<Vec<StatusValue>, ProgramError>) -> Result<
    Seq<StatusValue>,
    ProgramErrorView,
> {
    match r {
        Ok(v) => Ok(v@),
        Err(e) => Err(e@),
    }
}


pub open spec fn token_view(token: Option<&Vec<char>>) -> Option<Seq<char>> {
    match token {
        Some(t) => Some(t@),
        None => None,
    }
}

pub open spec fn parse_result_view<T>(r: Result<T, ParseError>) -> Result<T, ParseErrorView> {
    match r {
        Ok(v) => Ok(v),
        Err(e) => Err(e@),
    }
}

/// What the payload field reads as.
pub open spec fn float_token_result(token: Option<Seq<char>>, col: usize) -> Result<
    Ratio,
    ParseErrorView,
> {
    match token {
        None => Err(ParseErrorView::MissingToken(col)),
        Some(t) => match ratio_of_token(trim(t)) {
            Some(v) => Ok(v),
            None => Err(ParseErrorView::Float(trim(t), col)),
        },
    }
}

/// What the status field reads as: `None` for an empty field.
pub open spec fn usize_token_result(token: Option<Seq<char>>, col: usize) -> Result<
    Option<usize>,
    ParseErrorView,
> {
    match token {
        None => Err(ParseErrorView::MissingToken(col)),
        Some(t) => if trim(t).len() == 0 {
            Ok(None)
        } else {
            match status_of_token(trim(t)) {
                Some(c) => Ok(Some(c)),
                None => Err(ParseErrorView::Int(trim(t), col)),
            }
        },
    }
}

/// The field, trimmed, or `MissingToken(col)` where there is none.
pub fn get_token(token: Option<&Vec<char>>, col: usize) -> (r: Result<Vec<char>, ParseError>)
    ensures
        match r {
            Ok(t) => token is Some && t@ == trim(token->0@),
            Err(e) => token is None && e@ == ParseErrorView::MissingToken(col),
        },
{
    match token {
        Some(t) => Ok(trim_chars(t)),
        None => Err(ParseError::MissingToken(col)),
    }
}

/// Index of the first `c` in `s`, or its length.
fn find_in(s: &Vec<char>, c: char) -> (r: usize)
    ensures
        r == find_char(s@, c),
        r <= s@.len(),
{
    let mut i: usize = 0;
    while i < s.len() && s[i] != c
        invariant
            i <= s@.len(),
            forall|j: int| 0 <= j < i ==> s@[j] != c,
        decreases s@.len() - i,
    {
        i = i + 1;
    }
    proof {
        lemma_find_char(s@, c, i as int);
    }
    i
}

/// The digits of a decimal number without its point, and how many follow
/// the point; `None` where it is no decimal number.
fn decimal_digits(b: &Vec<char>) -> (r: Option<(Vec<char>, usize)>)
    ensures
        match r {
            Some(df) => all_digits(int_part(b@)) && all_digits(frac_part(b@)) && int_part(b@).len()
                + frac_part(b@).len() > 0 && df.0@ == int_part(b@) + frac_part(b@) && df.1
                == frac_part(b@).len(),
            None => !(all_digits(int_part(b@)) && all_digits(frac_part(b@)) && int_part(b@).len()
                + frac_part(b@).len() > 0),
        },
{
    let k = find_in(&b, '.');
    let mut digits = copy_range(&b, 0, k);
    let mut j: usize = if k < b.len() {
        k + 1
    } else {
        b.len()
    };
    let ghost ip = int_part(b@);
    let ghost fp = frac_part(b@);
    assert(digits@ =~= ip);
    assert(b@.subrange(j as int, j as int) =~= Seq::<char>::empty());
    while j < b.len()
        invariant
            k < b@.len() ==> k + 1 <= j,
            j <= b@.len(),
            k < b@.len() ==> digits@ == ip + b@.subrange(k + 1, j as int),
            k >= b@.len() ==> digits@ == ip && j == b@.len(),
            k <= b@.len(),
            ip == int_part(b@),
            fp == frac_part(b@),
            k == find_char(b@, '.'),
        decreases b@.len() - j,
    {
        digits.push(b[j]);
        j = j + 1;
        assert(digits@ =~= ip + b@.subrange(k + 1, j as int));
    }
    assert(digits@ =~= ip + fp);
    let scale_len: usize = b.len() - j + (if k < b.len() { b.len() - k - 1 } else { 0 });
    assert(scale_len == fp.len());
    if digits.len() == 0 {
        return None;
    }
    let mut i: usize = 0;
    while i < digits.len()
        invariant
            i <= digits@.len(),
            digits@ == ip + fp,
            ip == int_part(b@),
            fp == frac_part(b@),
            forall|j: int| 0 <= j < i ==> is_digit(#[trigger] digits@[j]),
        decreases digits@.len() - i,
    {
        let u = digits[i] as u32;
        if u < 48 || u > 57 {
            assert(!is_digit(digits@[i as int]));
            proof {
                if all_digits(ip) && all_digits(fp) {
                    if i < ip.len() {
                        assert(digits@[i as int] == ip[i as int]);
                        assert(is_digit(ip[i as int]));
                    } else {
                        assert(digits@[i as int] == fp[i - ip.len()]);
                        assert(is_digit(fp[i - ip.len()]));
                    }
                }
            }
            return None;
        }
        i = i + 1;
    }
    proof {
        assert forall|j: int| 0 <= j < ip.len() implies is_digit(#[trigger] ip[j]) by {
            assert(digits@[j] == ip[j]);
        }
        assert forall|j: int| 0 <= j < fp.len() implies is_digit(#[trigger] fp[j]) by {
            assert(digits@[ip.len() + j] == fp[j]);
        }
    }
    Some((digits, scale_len))
}

proof fn lemma_find_exp(s: Seq<char>, k: int)
    requires
        0 <= k <= s.len(),
        forall|j: int| 0 <= j < k ==> !is_exp_mark(s[j]),
        k < s.len() ==> is_exp_mark(s[k]),
    ensures
        find_exp(s) == k,
    decreases k,
{
    if k > 0 {
        lemma_find_exp(s.drop_first(), k - 1);
    }
}

proof fn lemma_lead_zeros(s: Seq<char>, k: int)
    requires
        0 <= k <= s.len(),
        forall|j: int| 0 <= j < k ==> s[j] == '0',
        k < s.len() ==> s[k] != '0',
    ensures
        lead_zeros(s) == k,
    decreases k,
{
    if k > 0 {
        lemma_lead_zeros(s.drop_first(), k - 1);
    }
}

proof fn lemma_digits_below(s: Seq<char>)
    requires
        all_digits(s),
    ensures
        digits_value(s) < pow10(s.len()),
    decreases s.len(),
{
    if s.len() > 0 {
        let init = s.drop_last();
        assert(all_digits(init)) by {
            assert forall|j: int| 0 <= j < init.len() implies is_digit(#[trigger] init[j]) by {
                assert(init[j] == s[j]);
            }
        }
        lemma_digits_below(init);
        assert(is_digit(s[s.len() - 1]));
        assert(digits_value(s) < pow10(s.len())) by (nonlinear_arith)
            requires
                digits_value(s) == digits_value(init) * 10 + digit_value(s.last()),
                digit_value(s.last()) <= 9,
                digits_value(init) + 1 <= pow10(init.len()),
                pow10(s.len()) == 10 * pow10(init.len()),
        ;
    }
}

/// The exponent that the text after an `e` writes, as `exponent_of` states.
fn parse_exponent(x: &Vec<char>) -> (r: Option<i64>)
    ensures
        match r {
            Some(v) => exponent_of(x@) == Some(v as int),
            None => exponent_of(x@) is None,
        },
{
    let signed = x.len() > 0 && (x[0] == '+' || x[0] == '-');
    let start: usize = if signed {
        1
    } else {
        0
    };
    let body = copy_range(x, start, x.len());
    assert(body@ =~= unsigned_part(x@));
    if body.len() == 0 {
        return None;
    }
    let mut v: u64 = 0;
    let mut i: usize = 0;
    assert(body@.take(0) =~= Seq::<char>::empty());
    while i < body.len()
        invariant
            i <= body@.len(),
            body@ == unsigned_part(x@),
            body@.len() > 0,
            all_digits(body@.take(i as int)),
            v == (if digits_value(body@.take(i as int)) <= EXPONENT_CAP {
                digits_value(body@.take(i as int))
            } else {
                EXPONENT_CAP as nat
            }),
        decreases body@.len() - i,
    {
        let u = body[i] as u32;
        if u < 48 || u > 57 {
            assert(!is_digit(body@[i as int]));
            return None;
        }
        let ghost next = body@.take(i + 1);
        assert(next.drop_last() =~= body@.take(i as int));
        let d = (u - 48) as u64;
        v = v * 10 + d;
        if v > EXPONENT_CAP {
            v = EXPONENT_CAP;
        }
        i = i + 1;
        assert(all_digits(body@.take(i as int)));
    }
    assert(body@.take(i as int) =~= body@);
    if x[0] == '-' {
        Some(-(v as i64))
    } else {
        Some(v as i64)
    }
}

/// The payload that a trimmed token writes, as `ratio_of_token` states.
#[verifier::rlimit(50)]
pub fn parse_ratio(t: &Vec<char>) -> (r: Option<Ratio>)
    ensures
        r == ratio_of_token(t@),
        r is Some ==> r->0.wf(),
{
    let signed = t.len() > 0 && (t[0] == '+' || t[0] == '-');
    let start: usize = if signed {
        1
    } else {
        0
    };
    let b = copy_range(t, start, t.len());
    assert(b@ =~= unsigned_part(t@));
    let mut k: usize = 0;
    while k < b.len() && b[k] != 'e' && b[k] != 'E'
        invariant
            k <= b@.len(),
            forall|j: int| 0 <= j < k ==> !is_exp_mark(b@[j]),
        decreases b@.len() - k,
    {
        k = k + 1;
    }
    proof {
        lemma_find_exp(b@, k as int);
    }
    let e: i64 = if k < b.len() {
        let x = copy_range(&b, k + 1, b.len());
        match parse_exponent(&x) {
            Some(v) => v,
            None => return None,
        }
    } else {
        0
    };
    let m = copy_range(&b, 0, k);
    assert(m@ =~= b@.take(k as int));
    let (digits, frac_len) = match decimal_digits(&m) {
        Some(df) => df,
        None => return None,
    };
    let mut z: usize = 0;
    while z < digits.len() && digits[z] == '0'
        invariant
            z <= digits@.len(),
            forall|j: int| 0 <= j < z ==> digits@[j] == '0',
        decreases digits@.len() - z,
    {
        z = z + 1;
    }
    proof {
        lemma_lead_zeros(digits@, z as int);
    }
    let n: usize = if digits.len() - z <= 19 {
        digits.len() - z
    } else {
        19
    };
    let kept = copy_range(&digits, z, z + n);
    let ghost q = digits@.skip(z as int);
    assert(kept@ =~= kept_digits(digits@));
    proof {
        assert(all_digits(kept@)) by {
            assert forall|j: int| 0 <= j < kept@.len() implies is_digit(#[trigger] kept@[j]) by {
                assert(kept@[j] == digits@[z + j]);
            }
        }
        lemma_digits_below(kept@);
        crate::plotter::lemma_pow10_ge(kept@.len(), MAX_DIGITS as nat);
        lemma_pow10_19();
    }
    let v = match digits_to_u64(&kept) {
        Some(v) => v,
        None => return None,
    };
    let x: i128 = (digits.len() - z - n) as i128 - frac_len as i128 + e as i128;
    let r = make_payload(v, x);
    if t[0] == '-' {
        match r {
            Some(p) => if p.mantissa != 0 {
                return None;
            },
            None => {},
        }
    }
    r
}

/// The status code that a trimmed, non-empty token writes, as `status_of_token` states.
pub fn parse_status_code(t: &Vec<char>) -> (r: Option<usize>)
    ensures
        r == status_of_token(t@),
{
    let start: usize = if t.len() > 0 && t[0] == '+' {
        1
    } else {
        0
    };
    let b = copy_range(t, start, t.len());
    assert(b@ =~= without_plus(t@));
    if b.len() == 0 {
        return None;
    }
    match digits_to_u64(&b) {
        Some(v) => if v <= usize::MAX as u64 {
            Some(v as usize)
        } else {
            None
        },
        None => None,
    }
}

/// The payload field of a record.
pub fn convert_float_token(token: Option<&Vec<char>>, col: usize) -> (r: Result<Ratio, ParseError>)
    ensures
        parse_result_view(r) == float_token_result(token_view(token), col),
        r is Ok ==> r->Ok_0.wf(),
{
    let t = match get_token(token, col) {
        Ok(t) => t,
        Err(e) => return Err(e),
    };
    match parse_ratio(&t) {
        Some(v) => Ok(v),
        None => Err(ParseError::Float(string_of(&t), col)),
    }
}

/// The status field of a record: `None` where it is empty.
pub fn convert_usize_token(token: Option<&Vec<char>>, col: usize) -> (r: Result<
    Option<usize>,
    ParseError,
>)
    ensures
        parse_result_view(r) == usize_token_result(token_view(token), col),
{
    let t = match get_token(token, col) {
        Ok(t) => t,
        Err(e) => return Err(e),
    };
    if t.len() > 0 {
        match parse_status_code(&t) {
            Some(c) => Ok(Some(c)),
            None => Err(ParseError::Int(string_of(&t), col)),
        }
    } else {
        Ok(None)
    }
}

/// One line of the log, as `record_of_line` states.
fn parse_line_chars(line: &Vec<char>) -> (r: Result<StatusValue, ProgramError>)
    ensures
        result_view(r) == record_of_line(line@),
        r is Ok ==> r->Ok_0.wf(),
{
    let parts = split_pieces(line, ',');
    assert(split_on(line@, ',').len() >= 1);
    let size = match convert_float_token(Some(&parts[0]), 0) {
        Ok(v) => v,
        Err(e) => return Err(ProgramError::ParseError(e)),
    };
    let second = if parts.len() > 1 {
        Some(&parts[1])
    } else {
        None
    };
    let status = match convert_usize_token(second, 1) {
        Ok(s) => s,
        Err(e) => return Err(ProgramError::ParseError(e)),
    };
    match status {
        None => Ok(StatusValue::Infeasible(size)),
        Some(c) => if c == 0 {
            Ok(StatusValue::Linear(size))
        } else if c == 1 {
            Ok(StatusValue::Integer(size))
        } else if c == 2 {
            Ok(StatusValue::Timeout(size))
        } else {
            Err(ProgramError::UnknowStatus(c))
        },
    }
}

/// One record: a payload, a comma, and a status code that may be empty.
/// Fields after the second are not read.
pub fn parse_csv_line(line: &str) -> (r: Result<StatusValue, ProgramError>)
    ensures
        result_view(r) == record_of_line(line@),
        r is Ok ==> r->Ok_0.wf(),
{
    let chars = chars_of(line);
    parse_line_chars(&chars)
}


proof fn lemma_records_err_prefix(lines: Seq<Seq<char>>, k: int)
    requires
        0 <= k <= lines.len(),
        records_of_lines(lines.take(k)) is Err,
    ensures
        records_of_lines(lines) == records_of_lines(lines.take(k)),
    decreases lines.len(),
{
    if k == lines.len() {
        assert(lines.take(k) =~= lines);
    } else {
        assert(lines.drop_last().take(k) =~= lines.take(k));
        lemma_records_err_prefix(lines.drop_last(), k);
    }
}

/// Where every line reads, there is one record per line, each the record of its line.
pub proof fn lemma_records_per_line(lines: Seq<Seq<char>>)
    requires
        records_of_lines(lines) is Ok,
    ensures
        records_of_lines(lines)->Ok_0.len() == lines.len(),
        forall|i: int|
            0 <= i < lines.len() ==> record_of_line(#[trigger] lines[i]) == Ok::<
                StatusValue,
                ProgramErrorView,
            >(records_of_lines(lines)->Ok_0[i]),
    decreases lines.len(),
{
    if lines.len() > 0 {
        let init = lines.drop_last();
        lemma_records_per_line(init);
        assert forall|i: int| 0 <= i < lines.len() implies record_of_line(#[trigger] lines[i])
            == Ok::<StatusValue, ProgramErrorView>(records_of_lines(lines)->Ok_0[i]) by {
            if i < lines.len() - 1 {
                assert(lines[i] == init[i]);
            }
        }
    }
}

/// The records of a whole log, one per line and in line order; the first
/// line that does not read decides the error.
pub fn parse_log_file(data: &str) -> (r: Result<Vec<StatusValue>, ProgramError>)
    ensures
        vec_result_view(r) == records_of_log(data@),
        r is Ok ==> r->Ok_0@.len() == log_lines(data@).len(),
        r is Ok ==> forall|i: int|
            0 <= i < log_lines(data@).len() ==> record_of_line(#[trigger] log_lines(data@)[i])
                == Ok::<StatusValue, ProgramErrorView>(r->Ok_0@[i]),
        data@.len() == 0 ==> r is Ok && r->Ok_0@.len() == 0,
        r is Ok ==> all_wf(r->Ok_0@),
{
    let chars = chars_of(data);
    let mut out: Vec<StatusValue> = Vec::new();
    if chars.len() == 0 {
        return Ok(out);
    }
    let body = if chars[chars.len() - 1] == '\n' {
        copy_range(&chars, 0, chars.len() - 1)
    } else {
        copy_range(&chars, 0, chars.len())
    };
    assert(chars@.take(chars@.len() - 1) =~= chars@.drop_last());
    assert(chars@.subrange(0, chars@.len() as int) =~= chars@);
    let lines = split_pieces(&body, '\n');
    let ghost all = log_lines(data@);
    assert(all.take(0) =~= Seq::<Seq<char>>::empty());
    let mut i: usize = 0;
    while i < lines.len()
        invariant
            i <= lines@.len(),
            lines@.len() == all.len(),
            all == log_lines(data@),
            data@.len() > 0,
            all_wf(out@),
            forall|k: int| 0 <= k < lines@.len() ==> #[trigger] lines@[k]@ == all[k],
            records_of_lines(all.take(i as int)) == Ok::<Seq<StatusValue>, ProgramErrorView>(
                out@,
            ),
        decreases lines@.len() - i,
    {
        let rec = parse_line_chars(&lines[i]);
        let ghost next = all.take(i + 1);
        assert(next.drop_last() =~= all.take(i as int));
        assert(next.last() == lines@[i as int]@);
        match rec {
            Ok(v) => {
                out.push(v);
            },
            Err(e) => {
                proof {
                    assert(records_of_lines(next) == Err::<Seq<StatusValue>, ProgramErrorView>(
                        e@,
                    ));
                    lemma_records_err_prefix(all, i + 1);
                    assert(data@.len() > 0);
                }
                return Err(e);
            },
        }
        i = i + 1;
    }
    assert(all.take(i as int) =~= all);
    proof {
        lemma_records_per_line(all);
    }
    Ok(out)
}


/// Once the payload of a line reads and the line has a status field, the
/// status decides the record: an empty field is `Infeasible`, codes 0, 1 and 2
/// are `Linear`, `Integer` and `Timeout`, any other code is `UnknowStatus`,
/// and a field that is no code is an `Int` error.
pub proof fn lemma_status_codes(line: Seq<char>)
    requires
        ratio_of_token(field(line, 0)->0) is Some,
        field(line, 1) is Some,
    ensures
        ({
            let v = ratio_of_token(field(line, 0)->0)->0;
            let t = field(line, 1)->0;
            &&& t.len() == 0 ==> record_of_line(line) == Ok::<StatusValue, ProgramErrorView>(
                StatusValue::Infeasible(v),
            )
            &&& t.len() > 0 && status_of_token(t) is None ==> record_of_line(line) == Err::<
                StatusValue,
                ProgramErrorView,
            >(ProgramErrorView::ParseError(ParseErrorView::Int(t, 1)))
            &&& t.len() > 0 && status_of_token(t) == Some(0usize) ==> record_of_line(line) == Ok::<
                StatusValue,
                ProgramErrorView,
            >(StatusValue::Linear(v))
            &&& t.len() > 0 && status_of_token(t) == Some(1usize) ==> record_of_line(line) == Ok::<
                StatusValue,
                ProgramErrorView,
            >(StatusValue::Integer(v))
            &&& t.len() > 0 && status_of_token(t) == Some(2usize) ==> record_of_line(line) == Ok::<
                StatusValue,
                ProgramErrorView,
            >(StatusValue::Timeout(v))
            &&& forall|c: usize|
                t.len() > 0 && status_of_token(t) == Some(c) && c > 2 ==> record_of_line(line)
                    == Err::<StatusValue, ProgramErrorView>(ProgramErrorView::UnknowStatus(c))
        }),
{
}


/// The character of the decimal digit `d`.
pub open spec fn digit_char(d: nat) -> char {
    (d + 48) as char
}

/// The last `w` decimal digits of `n`, with leading zeros.
pub open spec fn padded_digits(n: nat, w: nat) -> Seq<char>
    decreases w,
{
    if w == 0 {
        Seq::empty()
    } else {
        padded_digits(n / 10, (w - 1) as nat).push(digit_char(n % 10))
    }
}

/// A payload written out: nineteen digits of the mantissa, `e`, and the
/// exponent as an optional `-` and thirteen digits.
pub open spec fn ratio_text(r: Ratio) -> Seq<char> {
    padded_digits(r.mantissa as nat, 19) + seq!['e'] + exponent_text(r.exponent as int)
}

/// An exponent written out as an optional `-` and thirteen digits.
pub open spec fn exponent_text(x: int) -> Seq<char> {
    if x < 0 {
        seq!['-'] + padded_digits((-x) as nat, 13)
    } else {
        padded_digits(x as nat, 13)
    }
}

/// The status field that writes a record's status.
pub open spec fn status_text(v: StatusValue) -> Seq<char> {
    match v {
        StatusValue::Infeasible(_) => Seq::empty(),
        StatusValue::Linear(_) => seq!['0'],
        StatusValue::Integer(_) => seq!['1'],
        StatusValue::Timeout(_) => seq!['2'],
    }
}

/// A record written out as one line of the log.
pub open spec fn record_text(v: StatusValue) -> Seq<char> {
    ratio_text(v.payload()) + seq![','] + status_text(v)
}

proof fn lemma_padded_digits(n: nat, w: nat)
    ensures
        padded_digits(n, w).len() == w,
        all_digits(padded_digits(n, w)),
        digits_value(padded_digits(n, w)) == n % pow10(w),
    decreases w,
{
    if w > 0 {
        let w1 = (w - 1) as nat;
        lemma_padded_digits(n / 10, w1);
        let p = padded_digits(n, w);
        assert(p.drop_last() == padded_digits(n / 10, w1));
        assert((n % 10 + 48) as char as u32 == n % 10 + 48);
        assert(digit_value(p.last()) == n % 10);
        crate::plotter::lemma_pow10_pos(w1);
        lemma_mod_breakdown(n as int, 10, pow10(w1) as int);
        assert(all_digits(p)) by {
            assert forall|i: int| 0 <= i < p.len() implies is_digit(#[trigger] p[i]) by {
                if i < w1 {
                    assert(p[i] == padded_digits(n / 10, w1)[i]);
                }
            }
        }
    }
}

proof fn lemma_lead_zeros_are_zeros(s: Seq<char>)
    ensures
        lead_zeros(s) <= s.len(),
        forall|j: int| 0 <= j < lead_zeros(s) ==> s[j] == '0',
    decreases s.len(),
{
    if s.len() > 0 && s[0] == '0' {
        lemma_lead_zeros_are_zeros(s.drop_first());
        assert forall|j: int| 0 <= j < lead_zeros(s) implies s[j] == '0' by {
            if j > 0 {
                assert(s[j] == s.drop_first()[j - 1]);
            }
        }
    }
}

proof fn lemma_skip_zero(s: Seq<char>)
    requires
        s.len() > 0,
        s[0] == '0',
    ensures
        digits_value(s.skip(1)) == digits_value(s),
    decreases s.len(),
{
    if s.len() == 1 {
        assert(s.skip(1) =~= Seq::<char>::empty());
        assert(s.drop_last() =~= Seq::<char>::empty());
    } else {
        lemma_skip_zero(s.drop_last());
        assert(s.skip(1).drop_last() =~= s.drop_last().skip(1));
        assert(s.skip(1).last() == s.last());
    }
}

proof fn lemma_skip_zeros(s: Seq<char>, z: int)
    requires
        0 <= z <= s.len(),
        forall|j: int| 0 <= j < z ==> s[j] == '0',
    ensures
        digits_value(s.skip(z)) == digits_value(s),
    decreases z,
{
    if z > 0 {
        lemma_skip_zero(s);
        lemma_skip_zeros(s.skip(1), z - 1);
        assert(s.skip(1).skip(z - 1) =~= s.skip(z));
    } else {
        assert(s.skip(0) =~= s);
    }
}

proof fn lemma_exponent_text(x: int)
    requires
        -MAX_EXPONENT <= x <= MAX_EXPONENT,
    ensures
        exponent_of(exponent_text(x)) == Some(x),
        forall|i: int|
            0 <= i < exponent_text(x).len() ==> exponent_text(x)[i] != ',' && !white_space(
                exponent_text(x)[i],
            ),
        exponent_text(x).len() > 0,
{
    let a = if x < 0 {
        -x
    } else {
        x
    };
    let p = padded_digits(a as nat, 13);
    lemma_padded_digits(a as nat, 13);
    assert(a < pow10(13)) by {
        reveal_with_fuel(pow10, 14);
    }
    lemma_small_mod(a as nat, pow10(13));
    let t = exponent_text(x);
    assert(is_digit(p[0]));
    if x < 0 {
        assert(unsigned_part(t) =~= p);
    } else {
        assert(unsigned_part(t) == p);
    }
    assert forall|i: int| 0 <= i < t.len() implies t[i] != ',' && !white_space(t[i]) by {
        if x < 0 && i > 0 {
            assert(t[i] == p[i - 1]);
            assert(is_digit(p[i - 1]));
        } else if x >= 0 {
            assert(is_digit(p[i]));
        }
    }
}

/// A well-formed payload written out reads back as itself; the text holds
/// no comma and no white space.
proof fn lemma_ratio_text(r: Ratio)
    requires
        r.wf(),
    ensures
        ratio_of_token(ratio_text(r)) == Some(r),
        ratio_text(r).len() > 0,
        forall|i: int|
            0 <= i < ratio_text(r).len() ==> ratio_text(r)[i] != ',' && !white_space(
                ratio_text(r)[i],
            ),
{
    let m = padded_digits(r.mantissa as nat, 19);
    lemma_padded_digits(r.mantissa as nat, 19);
    lemma_pow10_19();
    lemma_small_mod(r.mantissa as nat, pow10(19));
    lemma_exponent_text(r.exponent as int);
    let xt = exponent_text(r.exponent as int);
    let t = ratio_text(r);
    assert(t[0] == m[0]);
    assert(is_digit(m[0]));
    assert(unsigned_part(t) == t);
    assert forall|i: int| 0 <= i < t.len() implies t[i] != ',' && !white_space(t[i]) by {
        if i < 19 {
            assert(t[i] == m[i]);
            assert(is_digit(m[i]));
        } else if i > 19 {
            assert(t[i] == xt[i - 20]);
        }
    }
    assert forall|j: int| 0 <= j < 19 implies !is_exp_mark(#[trigger] t[j]) by {
        assert(t[j] == m[j]);
        assert(is_digit(m[j]));
    }
    lemma_find_exp(t, 19);
    assert(t.skip(20) =~= xt);
    assert(t.take(19) =~= m);
    assert forall|j: int| 0 <= j < 19 implies #[trigger] m[j] != '.' by {
        assert(is_digit(m[j]));
    }
    lemma_find_char(m, '.', 19);
    assert(int_part(m) =~= m);
    assert(frac_part(m) =~= Seq::<char>::empty());
    assert(int_part(m) + frac_part(m) =~= m);
    lemma_lead_zeros_are_zeros(m);
    let z = lead_zeros(m);
    lemma_skip_zeros(m, z as int);
    assert(kept_digits(m) == m.skip(z as int));
    assert(dropped_digits(m) == 0);
    if r.mantissa != 0 {
        assert(canonical(r.mantissa as nat, r.exponent as int) == (
        r.mantissa as nat,
        r.exponent as int,
        ));
    }
    assert(ratio_of_token(t) == Some(r));
}

/// Reading back a well-formed record written out as a line gives the same record.
pub proof fn lemma_record_round_trip(v: StatusValue)
    requires
        v.wf(),
    ensures
        record_of_line(record_text(v)) == Ok::<StatusValue, ProgramErrorView>(v),
{
    let r = v.payload();
    lemma_ratio_text(r);
    let a = ratio_text(r);
    let c = status_text(v);
    let text = record_text(v);
    // the fields
    lemma_find_char(text, ',', a.len() as int);
    assert(text.take(a.len() as int) =~= a);
    assert(text.skip(a.len() + 1 as int) =~= c);
    lemma_find_char(c, ',', c.len() as int);
    assert(split_on(c, ',') == seq![c]);
    assert(split_on(text, ',') == seq![a].add(split_on(c, ',')));
    assert(split_on(text, ',') =~= seq![a, c]);
    assert(trim_start(a) == a);
    assert(trim_end(a) == a);
    // the status field
    if c.len() > 0 {
        assert(!white_space(c[0]));
        assert(trim_start(c) == c);
        assert(trim_end(c) == c);
        assert(without_plus(c) == c);
        assert(c.drop_last().len() == 0);
        assert(digits_value(c.drop_last()) == 0);
        assert(digits_value(c) == digit_value(c[0]));
    } else {
        assert(trim_start(c) == c);
        assert(trim_end(c) == c);
    }
}

} // verus!
