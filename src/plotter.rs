use vstd::prelude::*;

use crate::error::{FormatError, FormatErrorView};
use crate::log_file_loader::{all_wf, pow10, Ratio, StatusValue, MAX_DIGITS, MAX_EXPONENT};
use crate::text::{chars_of, string_of};

verus! {

/// How the chart is drawn: image size in pixels, a margin on all four sides
/// and the radius of each point.
#[derive(Clone, Copy, Debug, PartialEq, Eq, Structural)]
pub struct Config {
    pub width: u32,
    pub height: u32,
    pub margin: u32,
    pub radius: u32,
}

impl Config {
    /// A configuration of zeros, to be filled by the setters.
    pub fn new() -> (r: Config)
        ensures
            r == (Config { width: 0, height: 0, margin: 0, radius: 0 }),
    {
        Config { width: 0, height: 0, margin: 0, radius: 0 }
    }

    pub fn set_size(self, width: u32, height: u32) -> (r: Config)
        ensures
            r == (Config { width, height, ..self }),
    {
        Config { width, height, ..self }
    }

    pub fn set_margin(self, margin: u32) -> (r: Config)
        ensures
            r == (Config { margin, ..self }),
    {
        Config { margin, ..self }
    }

    pub fn set_radius(self, radius: u32) -> (r: Config)
        ensures
            r == (Config { radius, ..self }),
    {
        Config { radius, ..self }
    }
}

/// The fill colour of a point.
#[derive(Clone, Copy, Debug, PartialEq, Eq, Structural)]
pub enum Color {
    Red,
    Blue,
    Green,
    Black,
}

/// The colour that each status is drawn in.
pub open spec fn color_of(v: StatusValue) -> Color {
    match v {
        StatusValue::Infeasible(_) => Color::Red,
        StatusValue::Linear(_) => Color::Blue,
        StatusValue::Integer(_) => Color::Green,
        StatusValue::Timeout(_) => Color::Black,
    }
}

/// One filled circle of the scatter chart.
#[derive(Clone, Copy, Debug, PartialEq, Eq, Structural)]
pub struct Point {
    pub x: usize,
    pub y: Ratio,
    pub color: Color,
}

/// The upper end of the y axis, `mantissa * 10^exponent`.
#[derive(Clone, Copy, Debug, PartialEq, Eq, Structural)]
pub struct AxisBound {
    pub mantissa: u128,
    pub exponent: i64,
}

/// What the chart shows: one point per record, the x axis over `0..x_end`
/// and the y axis over `0..y_end`, drawn with `config`.
pub struct PlotGeometry {
    pub points: Vec<Point>,
    pub x_end: usize,
    pub y_end: AxisBound,
    pub config: Config,
}

/// `m * 10^x` in units of `10^(-MAX_EXPONENT - 1)`, so that numbers of
/// different exponents compare as integers.
pub open spec fn scaled_value(m: int, x: int) -> int {
    m * pow10((x + MAX_EXPONENT + 1) as nat)
}

/// `a < b` as numbers.
pub open spec fn ratio_lt(a: Ratio, b: Ratio) -> bool {
    scaled_value(a.mantissa as int, a.exponent as int) < scaled_value(
        b.mantissa as int,
        b.exponent as int,
    )
}

/// `a <= b` as numbers.
pub open spec fn ratio_le(a: Ratio, b: Ratio) -> bool {
    scaled_value(a.mantissa as int, a.exponent as int) <= scaled_value(
        b.mantissa as int,
        b.exponent as int,
    )
}

/// `b > a` as numbers.
pub open spec fn bound_above(b: AxisBound, a: Ratio) -> bool {
    scaled_value(b.mantissa as int, b.exponent as int) > scaled_value(
        a.mantissa as int,
        a.exponent as int,
    )
}

/// The largest payload of `v`; the last of the equal ones.
pub open spec fn max_payload(v: Seq<StatusValue>) -> Ratio
    decreases v.len(),
{
    if v.len() <= 1 {
        v[0].payload()
    } else {
        let m = max_payload(v.drop_last());
        let p = v.last().payload();
        if ratio_lt(p, m) {
            m
        } else {
            p
        }
    }
}

/// The largest value times the headroom factor 1.1.
pub open spec fn headroom(m: Ratio) -> AxisBound {
    AxisBound { mantissa: (m.mantissa * 11) as u128, exponent: (m.exponent - 1) as i64 }
}


/// The point that record `i` is drawn as.
pub open spec fn point_of(v: StatusValue, i: int) -> Point {
    Point { x: i as usize, y: v.payload(), color: color_of(v) }
}

/// `g` is the chart of `records` under `config`.
pub open spec fn is_geometry_of(g: PlotGeometry, records: Seq<StatusValue>, config: Config) -> bool {
    &&& g.points@.len() == records.len()
    &&& forall|i: int| 0 <= i < records.len() ==> #[trigger] g.points@[i] == point_of(records[i], i)
    &&& g.x_end == records.len()
    &&& g.y_end == headroom(max_payload(records))
    &&& g.config == config
}

proof fn lemma_pow10_mono(a: nat, b: nat)
    requires
        a <= b,
    ensures
        1 <= pow10(a) <= pow10(b),
    decreases b,
{
    if b > a {
        lemma_pow10_mono(a, (b - 1) as nat);
    } else if a > 0 {
        lemma_pow10_mono((a - 1) as nat, (a - 1) as nat);
    }
}

pub proof fn lemma_pow10_pos(e: nat)
    ensures
        pow10(e) >= 1,
{
    lemma_pow10_mono(e, e);
}

pub proof fn lemma_pow10_ge(a: nat, b: nat)
    requires
        a <= b,
    ensures
        pow10(a) <= pow10(b),
{
    lemma_pow10_mono(a, b);
}

proof fn lemma_pow10_bound(e: nat)
    requires
        e <= MAX_DIGITS,
    ensures
        1 <= pow10(e) <= 10_000_000_000_000_000_000,
{
    lemma_pow10_mono(e, 19);
    reveal_with_fuel(pow10, 20);
}

proof fn lemma_pow10_add(a: nat, b: nat)
    ensures
        pow10(a + b) == pow10(a) * pow10(b),
    decreases a,
{
    if a > 0 {
        let a1 = (a - 1) as nat;
        lemma_pow10_add(a1, b);
        assert((a + b) as nat == (a1 + b + 1) as nat);
        assert(pow10(a + b) == 10 * pow10(a1 + b));
        assert(pow10(a) == 10 * pow10(a1));
        assert(10 * (pow10((a - 1) as nat) * pow10(b)) == (10 * pow10((a - 1) as nat)) * pow10(b))
            by (nonlinear_arith);
    } else {
        assert(pow10(a) == 1);
        assert(1 * pow10(b) == pow10(b));
    }
}

/// Comparing `x * 10^(d + c)` with `y * 10^c` is comparing `x * 10^d` with `y`.
proof fn lemma_compare_shifted(x: int, y: int, d: nat, c: nat)
    ensures
        (x * pow10(d + c) < y * pow10(c)) == (x * pow10(d) < y),
        (y * pow10(c) < x * pow10(d + c)) == (y < x * pow10(d)),
{
    lemma_pow10_add(d, c);
    lemma_pow10_mono(c, c);
    let p = pow10(c) as int;
    let q = pow10(d) as int;
    assert(x * (q * p) == (x * q) * p) by (nonlinear_arith);
    assert(((x * q) * p < y * p) == (x * q < y)) by (nonlinear_arith)
        requires
            p >= 1,
    ;
    assert((y * p < (x * q) * p) == (y < x * q)) by (nonlinear_arith)
        requires
            p >= 1,
    ;
}

/// `10^e` for exponent differences below 20.
fn pow10_u128(e: u32) -> (r: u128)
    requires
        e <= MAX_DIGITS,
    ensures
        r == pow10(e as nat),
{
    let mut r: u128 = 1;
    let mut i: u32 = 0;
    while i < e
        invariant
            i <= e <= MAX_DIGITS,
            r == pow10(i as nat),
        decreases e - i,
    {
        proof {
            lemma_pow10_bound(i as nat);
        }
        r = r * 10;
        i = i + 1;
    }
    r
}

/// Whether `a < b` as numbers.
fn ratio_less(a: Ratio, b: Ratio) -> (r: bool)
    requires
        a.wf(),
        b.wf(),
    ensures
        r == ratio_lt(a, b),
{
    proof {
        crate::log_file_loader::lemma_pow10_19();
        assert(pow10(19) == 10_000_000_000_000_000_000);
    }
    if a.exponent >= b.exponent {
        let d = a.exponent - b.exponent;
        let ghost c = (b.exponent + MAX_EXPONENT + 1) as nat;
        proof {
            lemma_compare_shifted(a.mantissa as int, b.mantissa as int, d as nat, c);
            assert((a.exponent + MAX_EXPONENT + 1) as nat == d as nat + c);
        }
        if d >= 19 {
            proof {
                lemma_pow10_mono(19, d as nat);
                if a.mantissa > 0 {
                    assert(a.mantissa * pow10(d as nat) >= pow10(d as nat)) by (nonlinear_arith)
                        requires
                            a.mantissa >= 1,
                    ;
                }
            }
            assert(ratio_lt(a, b) == (a.mantissa * pow10(d as nat) < b.mantissa));
            assert(a.mantissa == 0 ==> a.mantissa * pow10(d as nat) == 0) by (nonlinear_arith);
            assert(a.mantissa > 0 ==> a.mantissa * pow10(d as nat) >= pow10(19));
            assert(b.mantissa < pow10(19));
            a.mantissa == 0 && b.mantissa > 0
        } else {
            let p = pow10_u128(d as u32);
            proof {
                lemma_pow10_bound(d as nat);
                assert(a.mantissa * p <= 10_000_000_000_000_000_000 * 10_000_000_000_000_000_000)
                    by (nonlinear_arith)
                    requires
                        a.mantissa <= 10_000_000_000_000_000_000,
                        p <= 10_000_000_000_000_000_000,
                ;
            }
            (a.mantissa as u128) * p < b.mantissa as u128
        }
    } else {
        let d = b.exponent - a.exponent;
        let ghost c = (a.exponent + MAX_EXPONENT + 1) as nat;
        proof {
            lemma_compare_shifted(b.mantissa as int, a.mantissa as int, d as nat, c);
            assert((b.exponent + MAX_EXPONENT + 1) as nat == d as nat + c);
        }
        if d >= 19 {
            proof {
                lemma_pow10_mono(19, d as nat);
                if b.mantissa > 0 {
                    assert(b.mantissa * pow10(d as nat) >= pow10(d as nat)) by (nonlinear_arith)
                        requires
                            b.mantissa >= 1,
                    ;
                }
            }
            assert(ratio_lt(a, b) == (a.mantissa < b.mantissa * pow10(d as nat)));
            assert(b.mantissa == 0 ==> b.mantissa * pow10(d as nat) == 0) by (nonlinear_arith);
            assert(b.mantissa > 0 ==> b.mantissa * pow10(d as nat) >= pow10(19));
            assert(a.mantissa < pow10(19));
            b.mantissa > 0
        } else {
            let p = pow10_u128(d as u32);
            proof {
                lemma_pow10_bound(d as nat);
                assert(b.mantissa * p <= 10_000_000_000_000_000_000 * 10_000_000_000_000_000_000)
                    by (nonlinear_arith)
                    requires
                        b.mantissa <= 10_000_000_000_000_000_000,
                        p <= 10_000_000_000_000_000_000,
                ;
            }
            (a.mantissa as u128) < (b.mantissa as u128) * p
        }
    }
}

/// The point's y value and colour for one record.
pub fn convert_status(stat: &StatusValue) -> (r: (Ratio, Color))
    ensures
        r.0 == stat.payload(),
        r.1 == color_of(*stat),
{
    match stat {
        StatusValue::Infeasible(v) => (*v, Color::Red),
        StatusValue::Linear(v) => (*v, Color::Blue),
        StatusValue::Integer(v) => (*v, Color::Green),
        StatusValue::Timeout(v) => (*v, Color::Black),
    }
}

/// The largest payload of a non-empty sequence of records.
pub fn max_ratio(stat_vec: &Vec<StatusValue>) -> (r: Ratio)
    requires
        stat_vec@.len() > 0,
        all_wf(stat_vec@),
    ensures
        r == max_payload(stat_vec@),
        r.wf(),
{
    let mut best = convert_status(&stat_vec[0]).0;
    let mut i: usize = 1;
    assert(stat_vec@.take(1).len() == 1);
    while i < stat_vec.len()
        invariant
            1 <= i <= stat_vec@.len(),
            all_wf(stat_vec@),
            best == max_payload(stat_vec@.take(i as int)),
            best.wf(),
        decreases stat_vec@.len() - i,
    {
        let p = convert_status(&stat_vec[i]).0;
        assert(stat_vec@[i as int].wf());
        let ghost next = stat_vec@.take(i + 1);
        assert(next.drop_last() =~= stat_vec@.take(i as int));
        if !ratio_less(p, best) {
            best = p;
        }
        i = i + 1;
    }
    assert(stat_vec@.take(i as int) =~= stat_vec@);
    best
}

/// The chart of a non-empty sequence of records: record `i` at x = `i`, its
/// payload as y, coloured by its status; y axis up to 1.1 times the largest payload.
pub fn build_geometry(records: &Vec<StatusValue>, config: Config) -> (g: PlotGeometry)
    requires
        records@.len() > 0,
        all_wf(records@),
    ensures
        is_geometry_of(g, records@, config),
{
    let top = max_ratio(records);
    let mut points: Vec<Point> = Vec::new();
    let mut i: usize = 0;
    while i < records.len()
        invariant
            i <= records@.len(),
            points@.len() == i,
            forall|k: int| 0 <= k < i ==> #[trigger] points@[k] == point_of(records@[k], k),
        decreases records@.len() - i,
    {
        let (y, color) = convert_status(&records[i]);
        points.push(Point { x: i, y, color });
        i = i + 1;
    }
    let y_end = AxisBound { mantissa: (top.mantissa as u128) * 11, exponent: top.exponent - 1 };
    PlotGeometry { points, x_end: records.len(), y_end, config }
}


/// The image format of the output file.
#[derive(Clone, Copy, Debug, PartialEq, Eq, Structural)]
pub enum Format {
    Png,
    Svg,
}

/// What `std::path::Path::extension` gives for a path: the part of its file
/// name after the last `.`, if it has one.
pub uninterp spec fn extension_of(path: Seq<char>) -> Option<Seq<char>>;

/// Relies on `std::path::Path::extension` for the extension of the path's file name.
#[verifier::external_body]
fn path_extension(path: &str) -> (r: Option<String>)
    ensures
        match r {
            Some(e) => extension_of(path@) == Some(e@),
            None => extension_of(path@) is None,
        },
{
    std::path::Path::new(path).extension().and_then(|e| e.to_str()).map(|e| e.to_string())
}

/// The format that an extension selects: `png` or `svg`, matched as written.
pub open spec fn format_result(ext: Option<Seq<char>>, path: Seq<char>) -> Result<
    Format,
    FormatErrorView,
> {
    match ext {
        None => Err(FormatErrorView::MissingFormat(path)),
        Some(e) => if e == "png"@ {
            Ok(Format::Png)
        } else if e == "svg"@ {
            Ok(Format::Svg)
        } else {
            Err(FormatErrorView::UnknownExtension(e))
        },
    }
}

pub open spec fn format_result_view(r: Result<Format, FormatError>) -> Result<
    Format,
    FormatErrorView,
> {
    match r {
        Ok(f) => Ok(f),
        Err(e) => Err(e@),
    }
}

fn same_chars(a: &Vec<char>, b: &Vec<char>) -> (r: bool)
    ensures
        r == (a@ == b@),
{
    if a.len() != b.len() {
        return false;
    }
    let mut i: usize = 0;
    while i < a.len()
        invariant
            i <= a@.len() == b@.len(),
            a@.take(i as int) == b@.take(i as int),
        decreases a@.len() - i,
    {
        if a[i] != b[i] {
            return false;
        }
        assert(a@.take(i + 1) =~= a@.take(i as int).push(a@[i as int]));
        assert(b@.take(i + 1) =~= b@.take(i as int).push(b@[i as int]));
        i = i + 1;
    }
    assert(a@.take(i as int) =~= a@);
    assert(b@.take(i as int) =~= b@);
    true
}

impl Format {
    /// The format that the extension `ext` of the output path `name` selects.
    pub fn from_extension(ext: Option<&str>, name: &str) -> (r: Result<Format, FormatError>)
        ensures
            format_result_view(r) == format_result(
                match ext {
                    Some(e) => Some(e@),
                    None => None,
                },
                name@,
            ),
    {
        match ext {
            None => Err(FormatError::MissingFormat(string_of(&chars_of(name)))),
            Some(e) => {
                let chars = chars_of(e);
                if same_chars(&chars, &chars_of("png")) {
                    Ok(Format::Png)
                } else if same_chars(&chars, &chars_of("svg")) {
                    Ok(Format::Svg)
                } else {
                    Err(FormatError::UnknownExtension(string_of(&chars)))
                }
            },
        }
    }

    /// The format that the extension of the output path `name` selects.
    pub fn get_format(name: &str) -> (r: Result<Format, FormatError>)
        ensures
            format_result_view(r) == format_result(extension_of(name@), name@),
    {
        match path_extension(name) {
            Some(e) => Format::from_extension(Some(e.as_str()), name),
            None => Format::from_extension(None, name),
        }
    }
}


/// Every payload is at most the largest one.
pub proof fn lemma_max_payload_is_max(v: Seq<StatusValue>)
    requires
        v.len() > 0,
    ensures
        forall|i: int| 0 <= i < v.len() ==> ratio_le(#[trigger] v[i].payload(), max_payload(v)),
    decreases v.len(),
{
    if v.len() > 1 {
        let init = v.drop_last();
        lemma_max_payload_is_max(init);
        let m = max_payload(init);
        let p = v.last().payload();
        assert forall|i: int| 0 <= i < v.len() implies ratio_le(
            #[trigger] v[i].payload(),
            max_payload(v),
        ) by {
            if i < v.len() - 1 {
                assert(v[i] == init[i]);
            }
        }
    }
}

proof fn lemma_max_payload_wf(v: Seq<StatusValue>)
    requires
        v.len() > 0,
        all_wf(v),
    ensures
        max_payload(v).wf(),
    decreases v.len(),
{
    if v.len() > 1 {
        assert(all_wf(v.drop_last()));
        lemma_max_payload_wf(v.drop_last());
        assert(v.last().wf());
    } else {
        assert(v[0].wf());
    }
}

/// The y axis reaches strictly above every payload, wherever one payload is
/// not zero (with all payloads zero the bound is zero too).
pub proof fn lemma_headroom_above_max(records: Seq<StatusValue>)
    requires
        records.len() > 0,
        all_wf(records),
        exists|j: int| 0 <= j < records.len() && (#[trigger] records[j]).payload().mantissa > 0,
    ensures
        forall|i: int|
            0 <= i < records.len() ==> bound_above(
                headroom(max_payload(records)),
                #[trigger] records[i].payload(),
            ),
{
    lemma_max_payload_is_max(records);
    lemma_max_payload_wf(records);
    let m = max_payload(records);
    let j = choose|j: int| 0 <= j < records.len() && (#[trigger] records[j]).payload().mantissa > 0;
    let q = records[j].payload();
    let cq = (q.exponent + MAX_EXPONENT + 1) as nat;
    let cm = (m.exponent + MAX_EXPONENT) as nat;
    lemma_pow10_mono(cq, cq);
    lemma_pow10_mono(cm, cm);
    assert(m.mantissa > 0) by {
        if m.mantissa == 0 {
            let pz = pow10((m.exponent + MAX_EXPONENT + 1) as nat) as int;
            assert(0 * pz == 0) by (nonlinear_arith);
            assert(scaled_value(m.mantissa as int, m.exponent as int) == 0);
            assert(q.mantissa * pow10(cq) >= 1) by (nonlinear_arith)
                requires
                    q.mantissa >= 1,
                    pow10(cq) >= 1,
            ;
        }
    }
    let h = headroom(m);
    assert(h.mantissa == m.mantissa * 11);
    assert(h.exponent == m.exponent - 1);
    assert((m.exponent + MAX_EXPONENT + 1) as nat == cm + 1);
    assert(pow10(cm + 1) == 10 * pow10(cm));
    let pm = pow10(cm) as int;
    let mm = m.mantissa as int;
    assert(mm * (10 * pm) < (mm * 11) * pm) by (nonlinear_arith)
        requires
            mm >= 1,
            pm >= 1,
    ;
    assert forall|i: int| 0 <= i < records.len() implies bound_above(
        h,
        #[trigger] records[i].payload(),
    ) by {
        assert(ratio_le(records[i].payload(), m));
    }
}

} // verus!
