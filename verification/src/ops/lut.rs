//! Lookup tables in the `.cube` format.
use vstd::prelude::*;

use crate::binary::{Real, Triple};
use crate::error::{op_error, op_fault, verdict, AtxError, Fault};
use crate::float::{nan, Width};
use crate::number::{
    finite, is_finite, is_within, within, Number, BYTE_MAX, MINUS_SIXTEEN, ONE, SIXTEEN, ZERO,
};
use crate::raster::{is_mapped, map_pixels, Image, Rgba};
use crate::text::{
    begins, begins_with, cat2, cat3, cat4, cat5, chars_of, dec, debug_text, decimal, parse_u32,
    quoted, u32_value,
};
use crate::words::{
    check_named, is_named, lines, split_lines, split_words, string_of, views, words,
};

verus! {

/// What is wrong with the parameters of `lut`.
pub open spec fn lut_fault(index: int, lut_revision_id: Seq<char>, strength: Number) -> Option<
    Fault,
> {
    if lut_revision_id.len() == 0 {
        op_fault(index, "lut"@, "lut_revision_id must not be empty"@)
    } else if !begins(lut_revision_id, "rev_"@) {
        op_fault(
            index,
            "lut"@,
            "lut_revision_id must start with \"rev_\", got "@ + debug_text(lut_revision_id),
        )
    } else if !within(strength.bits, ZERO, ONE) {
        op_fault(index, "lut"@, "strength must be within 0.0..=1.0, got "@ + strength.text@)
    } else {
        None
    }
}

/// Checks the parameters of `lut`.
pub fn validate(index: usize, lut_revision_id: &str, strength: &Number) -> (r: Result<(), AtxError>)
    ensures
        verdict(r) == lut_fault(index as int, lut_revision_id@, *strength),
{
    if lut_revision_id.is_empty() {
        return Err(op_error(index, "lut", "lut_revision_id must not be empty"));
    }
    if !begins_with(lut_revision_id, "rev_") {
        let id: String = quoted(lut_revision_id);
        let message: String = cat2(
            "lut_revision_id must start with \"rev_\", got ",
            id.as_str(),
        );
        return Err(op_error(index, "lut", message.as_str()));
    }
    if !is_within(strength.bits, ZERO, ONE) {
        let message: String = cat2(
            "strength must be within 0.0..=1.0, got ",
            strength.text.as_str(),
        );
        return Err(op_error(index, "lut", message.as_str()));
    }
    Ok(())
}

/// The most nodes along an edge of a cube.
pub const MAX_3D_SIZE: u32 = 129;

/// The most entries of a table with one dimension.
pub const MAX_1D_SIZE: u32 = 65536;

/// A table of colours: a cube of nodes, or one curve for each channel.
pub struct CubeLut {
    /// The entries; in a cube red runs fastest, then green, then blue.
    pub data: Vec<Triple>,
    /// The number of entries along one dimension.
    pub size: u32,
    /// Whether the table is a cube.
    pub is_3d: bool,
    /// The inputs that the first entries stand for.
    pub domain_min: Triple,
    /// The inputs that the last entries stand for.
    pub domain_max: Triple,
}

/// The number of entries of a table.
pub open spec fn entries(size: u32, is_3d: bool) -> int {
    if is_3d {
        size * size * size
    } else {
        size as int
    }
}

/// A size that a table may have.
pub open spec fn size_allowed(size: u32, is_3d: bool) -> bool {
    2 <= size <= (if is_3d {
        MAX_3D_SIZE
    } else {
        MAX_1D_SIZE
    })
}

/// The bounds of each channel are in order.
pub open spec fn domain_ordered(low: Triple, high: Triple) -> bool {
    !high.r.at_most(low.r) && !high.g.at_most(low.g) && !high.b.at_most(low.b)
}

impl CubeLut {
    /// There is an entry for each node, and the bounds are in order.
    pub open spec fn well_formed(&self) -> bool {
        &&& size_allowed(self.size, self.is_3d)
        &&& self.data@.len() == entries(self.size, self.is_3d)
        &&& domain_ordered(self.domain_min, self.domain_max)
    }
}

/// Why a text is not a table. A fault that shows a number holds the number itself.
pub enum CubeFault {
    /// A line is at fault.
    Line { line: usize, reason: String },
    /// A value on a line is far from the range that values have.
    FarOut { line: usize, value: Real },
    /// A line leaves the bounds of a channel out of order.
    Domain { line: usize, channel: u64, low: Real, high: Real },
    /// The text as a whole is at fault.
    Whole(String),
}

/// A fault with its texts as character sequences.
pub enum CubeReport {
    Line { line: int, reason: Seq<char> },
    FarOut { line: int, value: Real },
    Domain { line: int, channel: int, low: Real, high: Real },
    Whole(Seq<char>),
}

impl View for CubeFault {
    type V = CubeReport;

    open spec fn view(&self) -> CubeReport {
        match self {
            CubeFault::Line { line, reason } => CubeReport::Line {
                line: *line as int,
                reason: reason@,
            },
            CubeFault::FarOut { line, value } => CubeReport::FarOut {
                line: *line as int,
                value: *value,
            },
            CubeFault::Domain { line, channel, low, high } => CubeReport::Domain {
                line: *line as int,
                channel: *channel as int,
                low: *low,
                high: *high,
            },
            CubeFault::Whole(reason) => CubeReport::Whole(reason@),
        }
    }
}

/// A fault in a line.
pub open spec fn line_report(line: int, reason: Seq<char>) -> CubeReport {
    CubeReport::Line { line, reason }
}

/// The message of a fault. `first` and `second` are the numbers that it shows, in the
/// order in which it shows them.
pub open spec fn report_text(
    report: CubeReport,
    first: Seq<char>,
    second: Seq<char>,
) -> Seq<char> {
    match report {
        CubeReport::Line { line, reason } => "invalid .cube LUT at line "@ + decimal(line as nat)
            + ": "@ + reason,
        CubeReport::FarOut { line, .. } => "invalid .cube LUT at line "@ + decimal(line as nat)
            + ": "@ + ("data value "@ + first + " is far outside the expected 0..=1 range"@),
        CubeReport::Domain { line, channel, .. } => "invalid .cube LUT at line "@ + decimal(
            line as nat,
        ) + ": "@ + ("DOMAIN_MIN must be smaller than DOMAIN_MAX per channel (channel "@ + decimal(
            channel as nat,
        ) + ": "@ + first + " >= "@ + second + ")"@),
        CubeReport::Whole(reason) => "invalid .cube LUT: "@ + reason,
    }
}

/// The error for a fault, with the numbers that it shows as texts.
pub fn cube_error(fault: &CubeFault, first: &str, second: &str) -> (r: AtxError)
    ensures
        r@ == Fault::InvalidRecipe(report_text(fault@, first@, second@)),
{
    let (line, reason): (usize, String) = match fault {
        CubeFault::Whole(reason) => {
            return AtxError::InvalidRecipe(cat2("invalid .cube LUT: ", reason.as_str()));
        },
        CubeFault::Line { line, reason } => (*line, reason.clone()),
        CubeFault::FarOut { line, .. } => (
            *line,
            cat3("data value ", first, " is far outside the expected 0..=1 range"),
        ),
        CubeFault::Domain { line, channel, .. } => {
            let number: String = dec(*channel);
            let mut m: String = cat4(
                "DOMAIN_MIN must be smaller than DOMAIN_MAX per channel (channel ",
                number.as_str(),
                ": ",
                first,
            );
            m.append(" >= ");
            m.append(second);
            m.append(")");
            (*line, m)
        },
    };
    let number: String = dec(line as u64);
    AtxError::InvalidRecipe(
        cat4("invalid .cube LUT at line ", number.as_str(), ": ", reason.as_str()),
    )
}

/// The binary64 number that a text stands for, if it stands for one.
pub uninterp spec fn number_read(text: Seq<char>) -> Option<u64>;

/// Two readings of a text are the same number, or both not a number.
pub open spec fn same_reading(a: Option<u64>, b: Option<u64>) -> bool {
    match (a, b) {
        (None, None) => true,
        (Some(x), Some(y)) => x == y || (nan(Width::Double, x) && nan(Width::Double, y)),
        _ => false,
    }
}

/// The standard library's `str::parse` for a binary64 number, handed back as a bit
/// pattern. The number depends on the text alone; it is named `number_read` here. Of
/// the pattern of a NaN nothing is claimed. The call of `serde_json::Number::from_f64`
/// fixes the type that is parsed; its result is not used.
#[verifier::external_body]
fn read_bits(text: &str) -> (r: Option<u64>)
    ensures
        same_reading(r, number_read(text@)),
{
    match text.parse() {
        Ok(v) => {
            let _ = serde_json::Number::from_f64(v);
            Some(v.to_bits())
        },
        Err(_) => None,
    }
}

/// One number of a line.
pub open spec fn number_in(field: Seq<char>, line: int, what: Seq<char>) -> Result<
    Real,
    CubeReport,
> {
    match number_read(field) {
        None => Err(line_report(line, what + ": "@ + debug_text(field) + " is not a number"@)),
        Some(bits) => if finite(bits) {
            Ok((Real { bits }).on_grid())
        } else {
            Err(line_report(line, what + ": "@ + debug_text(field) + " is not finite"@))
        },
    }
}

/// The three numbers of a line.
pub open spec fn triple_in(fields: Seq<Seq<char>>, line: int, what: Seq<char>) -> Result<
    Triple,
    CubeReport,
> {
    if fields.len() != 3 {
        Err(line_report(line, what + " expects 3 numbers, got "@ + decimal(fields.len())))
    } else {
        match (
            number_in(fields[0], line, what),
            number_in(fields[1], line, what),
            number_in(fields[2], line, what),
        ) {
            (Ok(r), Ok(g), Ok(b)) => Ok(Triple { r, g, b }),
            (Err(e), _, _) => Err(e),
            (_, Err(e), _) => Err(e),
            (_, _, Err(e)) => Err(e),
        }
    }
}

/// What has been read of a table.
pub struct Reading {
    pub size: Option<(u32, bool)>,
    pub low: Triple,
    pub high: Triple,
    pub saw_low: bool,
    pub saw_high: bool,
    /// The last line with an end of the domain.
    pub domain_line: int,
    pub data: Seq<Triple>,
}

/// Three times the same number.
pub open spec fn all_three(bits: u64) -> Triple {
    Triple { r: Real { bits }, g: Real { bits }, b: Real { bits } }
}

/// Nothing has been read yet.
pub open spec fn nothing_read() -> Reading {
    Reading {
        size: None,
        low: all_three(ZERO),
        high: all_three(ONE),
        saw_low: false,
        saw_high: false,
        domain_line: 0,
        data: Seq::empty(),
    }
}

/// A line with the size of the table.
pub open spec fn after_size(
    at: Reading,
    line: int,
    keyword: Seq<char>,
    rest: Seq<Seq<char>>,
) -> Result<Reading, CubeReport> {
    let is_3d = is_named(keyword, "LUT_3D_SIZE"@);
    let max = if is_3d {
        MAX_3D_SIZE
    } else {
        MAX_1D_SIZE
    };
    if at.size is Some {
        Err(
            line_report(
                line,
                "duplicate LUT size line (exactly one of LUT_1D_SIZE / LUT_3D_SIZE is allowed)"@,
            ),
        )
    } else if at.data.len() > 0 {
        Err(line_report(line, "LUT size line must come before the data lines"@))
    } else if rest.len() != 1 {
        Err(line_report(line, keyword + " expects exactly 1 integer"@))
    } else {
        match u32_value(rest[0]) {
            None => Err(
                line_report(line, keyword + ": "@ + debug_text(rest[0]) + " is not an integer"@),
            ),
            Some(n) => if size_allowed(n, is_3d) {
                Ok(Reading { size: Some((n, is_3d)), ..at })
            } else {
                Err(
                    line_report(
                        line,
                        keyword + " must be within 2..="@ + decimal(max as nat) + ", got "@
                            + decimal(n as nat),
                    ),
                )
            },
        }
    }
}

/// The first channel whose bounds are out of order.
pub open spec fn domain_report(line: int, low: Triple, high: Triple) -> Option<CubeReport> {
    if high.r.at_most(low.r) {
        Some(CubeReport::Domain { line, channel: 0, low: low.r, high: high.r })
    } else if high.g.at_most(low.g) {
        Some(CubeReport::Domain { line, channel: 1, low: low.g, high: high.g })
    } else if high.b.at_most(low.b) {
        Some(CubeReport::Domain { line, channel: 2, low: low.b, high: high.b })
    } else {
        None
    }
}

/// A line with one end of the domain. Its ends are compared once both of them are there.
pub open spec fn after_domain(
    at: Reading,
    line: int,
    keyword: Seq<char>,
    rest: Seq<Seq<char>>,
) -> Result<Reading, CubeReport> {
    let is_low = is_named(keyword, "DOMAIN_MIN"@);
    if (is_low && at.saw_low) || (!is_low && at.saw_high) {
        Err(line_report(line, "duplicate "@ + keyword))
    } else {
        match triple_in(rest, line, keyword) {
            Err(e) => Err(e),
            Ok(v) => {
                let next = if is_low {
                    Reading { low: v, saw_low: true, domain_line: line, ..at }
                } else {
                    Reading { high: v, saw_high: true, domain_line: line, ..at }
                };
                if next.saw_low && next.saw_high {
                    match domain_report(line, next.low, next.high) {
                        Some(e) => Err(e),
                        None => Ok(next),
                    }
                } else {
                    Ok(next)
                }
            },
        }
    }
}

/// A value that an entry may hold.
pub open spec fn value_allowed(v: Real) -> bool {
    (Real { bits: MINUS_SIXTEEN }).at_most(v) && v.at_most(Real { bits: SIXTEEN })
}

/// The first value of an entry that it may not hold.
pub open spec fn entry_report(line: int, v: Triple) -> Option<CubeReport> {
    if !value_allowed(v.r) {
        Some(CubeReport::FarOut { line, value: v.r })
    } else if !value_allowed(v.g) {
        Some(CubeReport::FarOut { line, value: v.g })
    } else if !value_allowed(v.b) {
        Some(CubeReport::FarOut { line, value: v.b })
    } else {
        None
    }
}

/// A line with an entry.
pub open spec fn after_entry(at: Reading, line: int, fields: Seq<Seq<char>>) -> Result<
    Reading,
    CubeReport,
> {
    match at.size {
        None => Err(
            line_report(line, "data line appears before LUT_1D_SIZE / LUT_3D_SIZE"@),
        ),
        Some((n, is_3d)) => match triple_in(fields, line, "data line"@) {
            Err(e) => Err(e),
            Ok(v) => match entry_report(line, v) {
                Some(e) => Err(e),
                None => if at.data.len() >= entries(n, is_3d) {
                    Err(
                        line_report(
                            line,
                            "too many data lines (expected exactly "@ + decimal(
                                entries(n, is_3d) as nat,
                            ) + ")"@,
                        ),
                    )
                } else {
                    Ok(Reading { data: at.data.push(v), ..at })
                },
            },
        },
    }
}

/// What has been read after a line with these words.
pub open spec fn after_line(at: Reading, line: int, fields: Seq<Seq<char>>) -> Result<
    Reading,
    CubeReport,
> {
    let keyword = fields[0];
    let rest = fields.skip(1);
    if fields.len() == 0 {
        Ok(at)
    } else if is_named(keyword, "TITLE"@) {
        if rest.len() == 0 {
            Err(line_report(line, "TITLE expects a quoted string"@))
        } else {
            Ok(at)
        }
    } else if is_named(keyword, "LUT_3D_SIZE"@) || is_named(keyword, "LUT_1D_SIZE"@) {
        after_size(at, line, keyword, rest)
    } else if is_named(keyword, "DOMAIN_MIN"@) || is_named(keyword, "DOMAIN_MAX"@) {
        after_domain(at, line, keyword, rest)
    } else {
        after_entry(at, line, fields)
    }
}

/// A line without the byte order marks in front of it.
pub open spec fn without_marks(s: Seq<char>) -> Seq<char>
    decreases s.len(),
{
    if s.len() > 0 && s[0] == '\u{feff}' {
        without_marks(s.skip(1))
    } else {
        s
    }
}

/// A line up to its comment.
pub open spec fn without_comment(s: Seq<char>) -> Seq<char>
    decreases s.len(),
{
    if s.len() == 0 || s[0] == '#' {
        Seq::empty()
    } else {
        seq![s[0]] + without_comment(s.skip(1))
    }
}

/// The words of a line.
pub open spec fn line_words(line: Seq<char>) -> Seq<Seq<char>> {
    words(without_comment(without_marks(line)))
}

/// What has been read after the first `n` lines.
pub open spec fn after_lines(lines: Seq<Seq<char>>, n: nat) -> Result<Reading, CubeReport>
    decreases n,
{
    if n == 0 {
        Ok(nothing_read())
    } else {
        match after_lines(lines, (n - 1) as nat) {
            Err(e) => Err(e),
            Ok(at) => after_line(at, n as int, line_words(lines[n - 1])),
        }
    }
}

/// What the end of the text makes of what was read: an end of the domain that no line gives
/// is 0 or 1, and the size and the number of entries are as they were announced.
pub open spec fn at_end(at: Reading) -> Result<Reading, CubeReport> {
    match domain_report(at.domain_line, at.low, at.high) {
        Some(e) => Err(e),
        None => sized_at_end(at),
    }
}

/// What the end of the text makes of the size and the entries.
pub open spec fn sized_at_end(at: Reading) -> Result<Reading, CubeReport> {
    match at.size {
        None => Err(CubeReport::Whole("missing LUT_1D_SIZE / LUT_3D_SIZE line"@)),
        Some((n, is_3d)) => if at.data.len() != entries(n, is_3d) {
            Err(
                CubeReport::Whole(
                    "expected "@ + decimal(entries(n, is_3d) as nat) + " data lines, got "@
                        + decimal(at.data.len()),
                ),
            )
        } else {
            Ok(at)
        },
    }
}

/// The table that a text describes, or what is wrong with it.
pub open spec fn cube_of(text: Seq<char>) -> Result<Reading, CubeReport> {
    match after_lines(lines(text), lines(text).len()) {
        Err(e) => Err(e),
        Ok(at) => at_end(at),
    }
}

/// A table holds what was read.
pub open spec fn holds(lut: CubeLut, at: Reading) -> bool {
    &&& at.size == Some((lut.size, lut.is_3d))
    &&& lut.data@ == at.data
    &&& lut.domain_min == at.low
    &&& lut.domain_max == at.high
}

/// What has been read of a table.
struct Reader {
    size: Option<(u32, bool)>,
    low: Triple,
    high: Triple,
    saw_low: bool,
    saw_high: bool,
    domain_line: usize,
    data: Vec<Triple>,
}

impl Reader {
    spec fn reading(&self) -> Reading {
        Reading {
            size: self.size,
            low: self.low,
            high: self.high,
            saw_low: self.saw_low,
            saw_high: self.saw_high,
            domain_line: self.domain_line as int,
            data: self.data@,
        }
    }

    spec fn consistent(&self) -> bool {
        self.size matches Some((n, is_3d)) ==> size_allowed(n, is_3d)
    }
}

/// The number of entries of a table.
fn expected_entries(size: u32, is_3d: bool) -> (r: usize)
    requires
        size_allowed(size, is_3d),
    ensures
        r == entries(size, is_3d),
{
    let n: usize = size as usize;
    if is_3d {
        assert(0 <= n * n <= 129 * 129) by (nonlinear_arith)
            requires
                0 <= n <= 129,
        ;
        let m: usize = n * n;
        assert(0 <= m * n <= 129 * 129 * 129) by (nonlinear_arith)
            requires
                0 <= n <= 129,
                0 <= m <= 129 * 129,
        ;
        m * n
    } else {
        n
    }
}

fn line_fault(line: usize, reason: String) -> (r: CubeFault)
    ensures
        r@ == line_report(line as int, reason@),
{
    CubeFault::Line { line, reason }
}

/// Reads one number of a line.
fn read_number(field: &Vec<char>, line: usize, what: &str) -> (r: Result<Real, CubeFault>)
    ensures
        match r {
            Ok(v) => number_in(field@, line as int, what@) == Ok::<Real, CubeReport>(v),
            Err(e) => number_in(field@, line as int, what@) == Err::<Real, CubeReport>(e@),
        },
{
    let text: String = string_of(field);
    match read_bits(text.as_str()) {
        None => {
            let shown: String = quoted(text.as_str());
            Err(line_fault(line, cat4(what, ": ", shown.as_str(), " is not a number")))
        },
        Some(bits) => {
            if is_finite(bits) {
                let v: Real = Real { bits };
                Ok(v.on_grid())
            } else {
                let shown: String = quoted(text.as_str());
                Err(line_fault(line, cat4(what, ": ", shown.as_str(), " is not finite")))
            }
        },
    }
}

/// Reads the three numbers of a line, from the words after the first `skip`.
fn parse_triple(fields: &Vec<Vec<char>>, skip: usize, line: usize, what: &str) -> (r: Result<
    Triple,
    CubeFault,
>)
    requires
        skip <= fields@.len(),
    ensures
        match r {
            Ok(v) => triple_in(views(fields@).skip(skip as int), line as int, what@) == Ok::<
                Triple,
                CubeReport,
            >(v),
            Err(e) => triple_in(views(fields@).skip(skip as int), line as int, what@) == Err::<
                Triple,
                CubeReport,
            >(e@),
        },
{
    let count: usize = fields.len() - skip;
    if count != 3 {
        let number: String = dec(count as u64);
        return Err(
            line_fault(line, cat3(what, " expects 3 numbers, got ", number.as_str())),
        );
    }
    let ghost seen = views(fields@).skip(skip as int);
    assert(seen[0] == fields@[skip as int]@);
    assert(seen[1] == fields@[skip + 1]@);
    assert(seen[2] == fields@[skip + 2]@);
    let r: Real = match read_number(&fields[skip], line, what) {
        Ok(v) => v,
        Err(e) => return Err(e),
    };
    let g: Real = match read_number(&fields[skip + 1], line, what) {
        Ok(v) => v,
        Err(e) => return Err(e),
    };
    let b: Real = match read_number(&fields[skip + 2], line, what) {
        Ok(v) => v,
        Err(e) => return Err(e),
    };
    Ok(Triple { r, g, b })
}

fn take_size(at: &mut Reader, line: usize, fields: &Vec<Vec<char>>, is_3d: bool) -> (r: Result<
    (),
    CubeFault,
>)
    requires
        fields@.len() > 0,
        is_3d == is_named(fields@[0]@, "LUT_3D_SIZE"@),
        old(at).consistent(),
    ensures
        final(at).consistent(),
        match r {
            Ok(_) => after_size(
                old(at).reading(),
                line as int,
                views(fields@)[0],
                views(fields@).skip(1),
            ) == Ok::<Reading, CubeReport>(final(at).reading()),
            Err(e) => after_size(
                old(at).reading(),
                line as int,
                views(fields@)[0],
                views(fields@).skip(1),
            ) == Err::<Reading, CubeReport>(e@),
        },
{
    if at.size.is_some() {
        return Err(
            line_fault(
                line,
                "duplicate LUT size line (exactly one of LUT_1D_SIZE / LUT_3D_SIZE is allowed)".to_owned(),
            ),
        );
    }
    if at.data.len() > 0 {
        return Err(
            line_fault(line, "LUT size line must come before the data lines".to_owned()),
        );
    }
    let keyword: String = string_of(&fields[0]);
    if fields.len() != 2 {
        return Err(line_fault(line, cat2(keyword.as_str(), " expects exactly 1 integer")));
    }
    assert(views(fields@).skip(1)[0] == fields@[1]@);
    match parse_u32(fields[1].as_slice()) {
        None => {
            let text: String = string_of(&fields[1]);
            let shown: String = quoted(text.as_str());
            Err(
                line_fault(line, cat4(keyword.as_str(), ": ", shown.as_str(), " is not an integer")),
            )
        },
        Some(n) => {
            let max: u32 = if is_3d {
                MAX_3D_SIZE
            } else {
                MAX_1D_SIZE
            };
            if n < 2 || n > max {
                let top: String = dec(max as u64);
                let got: String = dec(n as u64);
                return Err(
                    line_fault(
                        line,
                        cat5(
                            keyword.as_str(),
                            " must be within 2..=",
                            top.as_str(),
                            ", got ",
                            got.as_str(),
                        ),
                    ),
                );
            }
            at.size = Some((n, is_3d));
            Ok(())
        },
    }
}

/// The first channel whose bounds are out of order.
fn check_domain(line: usize, low: Triple, high: Triple) -> (r: Option<CubeFault>)
    ensures
        match r {
            Some(e) => domain_report(line as int, low, high) == Some(e@),
            None => domain_report(line as int, low, high) is None && domain_ordered(low, high),
        },
{
    if high.r.at_most(low.r) {
        Some(CubeFault::Domain { line, channel: 0, low: low.r, high: high.r })
    } else if high.g.at_most(low.g) {
        Some(CubeFault::Domain { line, channel: 1, low: low.g, high: high.g })
    } else if high.b.at_most(low.b) {
        Some(CubeFault::Domain { line, channel: 2, low: low.b, high: high.b })
    } else {
        None
    }
}

fn take_domain(at: &mut Reader, line: usize, fields: &Vec<Vec<char>>, is_low: bool) -> (r: Result<
    (),
    CubeFault,
>)
    requires
        fields@.len() > 0,
        is_low == is_named(fields@[0]@, "DOMAIN_MIN"@),
        old(at).consistent(),
    ensures
        r is Ok ==> final(at).consistent(),
        match r {
            Ok(_) => after_domain(
                old(at).reading(),
                line as int,
                views(fields@)[0],
                views(fields@).skip(1),
            ) == Ok::<Reading, CubeReport>(final(at).reading()),
            Err(e) => after_domain(
                old(at).reading(),
                line as int,
                views(fields@)[0],
                views(fields@).skip(1),
            ) == Err::<Reading, CubeReport>(e@),
        },
{
    let keyword: String = string_of(&fields[0]);
    if (is_low && at.saw_low) || (!is_low && at.saw_high) {
        return Err(line_fault(line, cat2("duplicate ", keyword.as_str())));
    }
    let v: Triple = match parse_triple(fields, 1, line, keyword.as_str()) {
        Ok(v) => v,
        Err(e) => return Err(e),
    };
    if is_low {
        at.low = v;
        at.saw_low = true;
    } else {
        at.high = v;
        at.saw_high = true;
    }
    at.domain_line = line;
    if at.saw_low && at.saw_high {
        if let Some(e) = check_domain(line, at.low, at.high) {
            return Err(e);
        }
    }
    Ok(())
}

fn is_value_allowed(v: Real) -> (r: bool)
    ensures
        r == value_allowed(v),
{
    let low: Real = Real { bits: MINUS_SIXTEEN };
    let high: Real = Real { bits: SIXTEEN };
    low.at_most(v) && v.at_most(high)
}

fn check_entry(line: usize, v: Triple) -> (r: Option<CubeFault>)
    ensures
        match r {
            Some(e) => entry_report(line as int, v) == Some(e@),
            None => entry_report(line as int, v) is None,
        },
{
    if !is_value_allowed(v.r) {
        Some(CubeFault::FarOut { line, value: v.r })
    } else if !is_value_allowed(v.g) {
        Some(CubeFault::FarOut { line, value: v.g })
    } else if !is_value_allowed(v.b) {
        Some(CubeFault::FarOut { line, value: v.b })
    } else {
        None
    }
}

fn take_entry(at: &mut Reader, line: usize, fields: &Vec<Vec<char>>) -> (r: Result<(), CubeFault>)
    requires
        old(at).consistent(),
    ensures
        final(at).consistent(),
        match r {
            Ok(_) => after_entry(old(at).reading(), line as int, views(fields@)) == Ok::<
                Reading,
                CubeReport,
            >(final(at).reading()),
            Err(e) => after_entry(old(at).reading(), line as int, views(fields@)) == Err::<
                Reading,
                CubeReport,
            >(e@),
        },
{
    let (n, is_3d): (u32, bool) = match at.size {
        Some(size) => size,
        None => {
            return Err(
                line_fault(
                    line,
                    "data line appears before LUT_1D_SIZE / LUT_3D_SIZE".to_owned(),
                ),
            );
        },
    };
    assert(views(fields@).skip(0) =~= views(fields@));
    let v: Triple = match parse_triple(fields, 0, line, "data line") {
        Ok(v) => v,
        Err(e) => return Err(e),
    };
    if let Some(e) = check_entry(line, v) {
        return Err(e);
    }
    let expected: usize = expected_entries(n, is_3d);
    if at.data.len() >= expected {
        let number: String = dec(expected as u64);
        return Err(
            line_fault(
                line,
                cat3("too many data lines (expected exactly ", number.as_str(), ")"),
            ),
        );
    }
    at.data.push(v);
    Ok(())
}

fn take_line(at: &mut Reader, line: usize, fields: &Vec<Vec<char>>) -> (r: Result<(), CubeFault>)
    requires
        old(at).consistent(),
    ensures
        r is Ok ==> final(at).consistent(),
        match r {
            Ok(_) => after_line(old(at).reading(), line as int, views(fields@)) == Ok::<
                Reading,
                CubeReport,
            >(final(at).reading()),
            Err(e) => after_line(old(at).reading(), line as int, views(fields@)) == Err::<
                Reading,
                CubeReport,
            >(e@),
        },
{
    if fields.len() == 0 {
        return Ok(());
    }
    let keyword: &Vec<char> = &fields[0];
    assert(views(fields@)[0] == keyword@);
    if check_named(keyword, "TITLE") {
        if fields.len() == 1 {
            return Err(line_fault(line, "TITLE expects a quoted string".to_owned()));
        }
        return Ok(());
    }
    let cube: bool = check_named(keyword, "LUT_3D_SIZE");
    if cube || check_named(keyword, "LUT_1D_SIZE") {
        return take_size(at, line, fields, cube);
    }
    let low: bool = check_named(keyword, "DOMAIN_MIN");
    if low || check_named(keyword, "DOMAIN_MAX") {
        return take_domain(at, line, fields, low);
    }
    take_entry(at, line, fields)
}

/// The line without the marks in front of it and its comment.
fn line_body(line: &Vec<char>) -> (r: Vec<char>)
    ensures
        r@ == without_comment(without_marks(line@)),
{
    let mut i: usize = 0;
    assert(line@.skip(0) =~= line@);
    while i < line.len() && line[i] == '\u{feff}'
        invariant
            i <= line@.len(),
            without_marks(line@.skip(i as int)) == without_marks(line@),
        decreases line.len() - i,
    {
        assert(line@.skip(i as int).skip(1) =~= line@.skip(i + 1));
        i = i + 1;
    }
    let ghost body = without_marks(line@);
    assert(body == line@.skip(i as int));
    let start: usize = i;
    let mut r: Vec<char> = Vec::new();
    assert(body.skip(0) =~= body);
    assert(without_comment(body) =~= r@ + without_comment(body.skip(0)));
    while i < line.len() && line[i] != '#'
        invariant
            start <= i <= line@.len(),
            body == line@.skip(start as int),
            without_comment(body) =~= r@ + without_comment(body.skip(i - start)),
        decreases line.len() - i,
    {
        let ghost left = body.skip(i - start);
        assert(left[0] == line@[i as int]);
        assert(left.skip(1) =~= body.skip(i + 1 - start));
        r.push(line[i]);
        i = i + 1;
    }
    assert(without_comment(body.skip(i - start)) =~= Seq::empty());
    r
}

/// Reads a table from the text of a `.cube` file.
pub fn parse_cube(text: &str) -> (r: Result<CubeLut, CubeFault>)
    ensures
        match r {
            Ok(lut) => {
                &&& lut.well_formed()
                &&& cube_of(text@) matches Ok(at) && holds(lut, at)
            },
            Err(e) => cube_of(text@) == Err::<Reading, CubeReport>(e@),
        },
{
    let chars: Vec<char> = chars_of(text);
    let all: Vec<Vec<char>> = split_lines(&chars);
    let zero: Real = Real { bits: ZERO };
    let one: Real = Real { bits: ONE };
    let low: Triple = Triple { r: zero, g: zero, b: zero };
    let high: Triple = Triple { r: one, g: one, b: one };
    let mut at: Reader = Reader {
        size: None,
        low,
        high,
        saw_low: false,
        saw_high: false,
        domain_line: 0,
        data: Vec::new(),
    };
    let mut i: usize = 0;
    while i < all.len()
        invariant
            i <= all@.len(),
            views(all@) == lines(text@),
            at.consistent(),
            after_lines(lines(text@), i as nat) == Ok::<Reading, CubeReport>(at.reading()),
        decreases all.len() - i,
    {
        assert(lines(text@)[i as int] == all@[i as int]@);
        let body: Vec<char> = line_body(&all[i]);
        let fields: Vec<Vec<char>> = split_words(&body);
        if let Err(e) = take_line(&mut at, i + 1, &fields) {
            proof {
                fault_stays(lines(text@), (i + 1) as nat, lines(text@).len());
            }
            return Err(e);
        }
        i = i + 1;
    }
    if let Some(e) = check_domain(at.domain_line, at.low, at.high) {
        return Err(e);
    }
    let (size, is_3d): (u32, bool) = match at.size {
        Some(size) => size,
        None => {
            return Err(CubeFault::Whole("missing LUT_1D_SIZE / LUT_3D_SIZE line".to_owned()));
        },
    };
    let expected: usize = expected_entries(size, is_3d);
    if at.data.len() != expected {
        let want: String = dec(expected as u64);
        let got: String = dec(at.data.len() as u64);
        return Err(
            CubeFault::Whole(cat4("expected ", want.as_str(), " data lines, got ", got.as_str())),
        );
    }
    Ok(CubeLut { data: at.data, size, is_3d, domain_min: at.low, domain_max: at.high })
}

/// The node at or before a position.
pub open spec fn node_before(pos: Real, size: u32) -> int {
    let i = pos.floor_integer();
    if i < 0 {
        0
    } else if i > size - 1 {
        size - 1
    } else {
        i as int
    }
}

/// The node after another; the last has none and stays.
pub open spec fn node_after(i: int, size: u32) -> int {
    if i + 1 > size - 1 {
        size - 1
    } else {
        i + 1
    }
}

fn find_node(pos: Real, size: u32) -> (r: (u32, u32))
    requires
        size > 0,
    ensures
        r.0 == node_before(pos, size),
        r.1 == node_after(r.0 as int, size),
        r.0 < size,
        r.1 < size,
{
    let i: i64 = pos.floor_integer();
    let first: u32 = if i < 0 {
        0
    } else if i > (size - 1) as i64 {
        size - 1
    } else {
        i as u32
    };
    let second: u32 = if first == size - 1 {
        size - 1
    } else {
        first + 1
    };
    (first, second)
}

/// The value of one curve between the entries `a` and `b`.
pub open spec fn between(a: Real, b: Real, pos: Real, first: int) -> Real {
    a.plus(b.minus(a).times(pos.minus(Real::nearest_to(first))))
}

/// The values of the three curves: straight lines between the entries.
pub open spec fn curves_at(data: Seq<Triple>, size: u32, v: Triple) -> Triple {
    let last = Real::nearest_to(size - 1);
    let (pr, pg, pb) = (v.r.times(last), v.g.times(last), v.b.times(last));
    let (r, g, b) = (node_before(pr, size), node_before(pg, size), node_before(pb, size));
    Triple {
        r: between(data[r].r, data[node_after(r, size)].r, pr, r),
        g: between(data[g].g, data[node_after(g, size)].g, pg, g),
        b: between(data[b].b, data[node_after(b, size)].b, pb, b),
    }
}

fn line_between(a: Real, b: Real, pos: Real, first: u32) -> (r: Real)
    ensures
        r == between(a, b, pos, first as int),
{
    a.plus(b.minus(a).times(pos.minus(Real::from_integer(first as i64))))
}

/// Reads the three curves.
fn sample_1d(lut: &CubeLut, v: Triple) -> (r: Triple)
    requires
        lut.well_formed(),
        !lut.is_3d,
    ensures
        r == curves_at(lut.data@, lut.size, v),
{
    let last: Real = Real::from_integer((lut.size - 1) as i64);
    let (pr, pg, pb): (Real, Real, Real) = (v.r.times(last), v.g.times(last), v.b.times(last));
    let (r0, r1): (u32, u32) = find_node(pr, lut.size);
    let (g0, g1): (u32, u32) = find_node(pg, lut.size);
    let (b0, b1): (u32, u32) = find_node(pb, lut.size);
    Triple {
        r: line_between(lut.data[r0 as usize].r, lut.data[r1 as usize].r, pr, r0),
        g: line_between(lut.data[g0 as usize].g, lut.data[g1 as usize].g, pg, g0),
        b: line_between(lut.data[b0 as usize].b, lut.data[b1 as usize].b, pb, b0),
    }
}

/// The node of a cube at the given steps along red, green and blue.
pub open spec fn node(data: Seq<Triple>, size: u32, r: int, g: int, b: int) -> Triple {
    data[(b * size + g) * size + r]
}

impl CubeLut {
    /// The node of a cube at the given steps along red, green and blue.
    fn node3(&self, r: u32, g: u32, b: u32) -> (t: Triple)
        requires
            self.well_formed(),
            self.is_3d,
            r < self.size,
            g < self.size,
            b < self.size,
        ensures
            t == node(self.data@, self.size, r as int, g as int, b as int),
    {
        let n: usize = self.size as usize;
        proof {
            let s = self.size as int;
            assert(0 <= b * s <= (s - 1) * s) by (nonlinear_arith)
                requires
                    0 <= b <= s - 1,
                    s > 0,
            ;
            assert((s - 1) * s == s * s - s) by (nonlinear_arith);
            assert(0 <= s * s <= 129 * 129) by (nonlinear_arith)
                requires
                    0 <= s <= 129,
            ;
            let k = b * s + g;
            assert(0 <= k * s <= (s * s - 1) * s) by (nonlinear_arith)
                requires
                    0 <= k <= s * s - 1,
                    s > 0,
            ;
            assert((s * s - 1) * s == s * s * s - s) by (nonlinear_arith);
            assert(0 <= s * s * s <= 129 * 129 * 129) by (nonlinear_arith)
                requires
                    0 <= s <= 129,
                    0 <= s * s <= 129 * 129,
            ;
        }
        let count: usize = self.data.len();
        self.data[(b as usize * n + g as usize) * n + r as usize]
    }
}

/// One channel on the way from `base` over `p1` and `p2` to `far`.
pub open spec fn along(
    base: Real,
    p1: Real,
    p2: Real,
    far: Real,
    w1: Real,
    w2: Real,
    w3: Real,
) -> Real {
    base.plus(w1.times(p1.minus(base))).plus(w2.times(p2.minus(p1))).plus(w3.times(far.minus(p2)))
}

/// All channels on the way from `base` over `p1` and `p2` to `far`.
pub open spec fn along_edges(
    base: Triple,
    p1: Triple,
    p2: Triple,
    far: Triple,
    w1: Real,
    w2: Real,
    w3: Real,
) -> Triple {
    Triple {
        r: along(base.r, p1.r, p2.r, far.r, w1, w2, w3),
        g: along(base.g, p1.g, p2.g, far.g, w1, w2, w3),
        b: along(base.b, p1.b, p2.b, far.b, w1, w2, w3),
    }
}

/// The value of a cube: in the cell of the colour, the tetrahedron that holds it goes
/// from the near corner to the far one along the channels in the order of what is left
/// of them.
pub open spec fn cube_at(data: Seq<Triple>, size: u32, v: Triple) -> Triple {
    let last = Real::nearest_to(size - 1);
    let (pr, pg, pb) = (v.r.times(last), v.g.times(last), v.b.times(last));
    let (r0, g0, b0) = (node_before(pr, size), node_before(pg, size), node_before(pb, size));
    let (r1, g1, b1) = (node_after(r0, size), node_after(g0, size), node_after(b0, size));
    let (dr, dg, db) = (pr.minus(pr.floor()), pg.minus(pg.floor()), pb.minus(pb.floor()));
    let base = node(data, size, r0, g0, b0);
    let far = node(data, size, r1, g1, b1);
    if dg.below(dr) {
        if db.below(dg) {
            along_edges(
                base,
                node(data, size, r1, g0, b0),
                node(data, size, r1, g1, b0),
                far,
                dr,
                dg,
                db,
            )
        } else if db.below(dr) {
            along_edges(
                base,
                node(data, size, r1, g0, b0),
                node(data, size, r1, g0, b1),
                far,
                dr,
                db,
                dg,
            )
        } else {
            along_edges(
                base,
                node(data, size, r0, g0, b1),
                node(data, size, r1, g0, b1),
                far,
                db,
                dr,
                dg,
            )
        }
    } else if dg.below(db) {
        along_edges(
            base,
            node(data, size, r0, g0, b1),
            node(data, size, r0, g1, b1),
            far,
            db,
            dg,
            dr,
        )
    } else if dr.below(db) {
        along_edges(
            base,
            node(data, size, r0, g1, b0),
            node(data, size, r0, g1, b1),
            far,
            dg,
            db,
            dr,
        )
    } else {
        along_edges(
            base,
            node(data, size, r0, g1, b0),
            node(data, size, r1, g1, b0),
            far,
            dg,
            dr,
            db,
        )
    }
}

fn go_along(base: Real, p1: Real, p2: Real, far: Real, w1: Real, w2: Real, w3: Real) -> (r: Real)
    ensures
        r == along(base, p1, p2, far, w1, w2, w3),
{
    base.plus(w1.times(p1.minus(base))).plus(w2.times(p2.minus(p1))).plus(w3.times(far.minus(p2)))
}

/// Reads a cube.
fn sample_3d(lut: &CubeLut, v: Triple) -> (r: Triple)
    requires
        lut.well_formed(),
        lut.is_3d,
    ensures
        r == cube_at(lut.data@, lut.size, v),
{
    let last: Real = Real::from_integer((lut.size - 1) as i64);
    let (pr, pg, pb): (Real, Real, Real) = (v.r.times(last), v.g.times(last), v.b.times(last));
    let (r0, r1): (u32, u32) = find_node(pr, lut.size);
    let (g0, g1): (u32, u32) = find_node(pg, lut.size);
    let (b0, b1): (u32, u32) = find_node(pb, lut.size);
    let (dr, dg, db): (Real, Real, Real) = (
        pr.minus(pr.floor()),
        pg.minus(pg.floor()),
        pb.minus(pb.floor()),
    );
    let base: Triple = lut.node3(r0, g0, b0);
    let far: Triple = lut.node3(r1, g1, b1);
    let (p1, p2, w1, w2, w3): (Triple, Triple, Real, Real, Real) = if dg.below(dr) {
        if db.below(dg) {
            (lut.node3(r1, g0, b0), lut.node3(r1, g1, b0), dr, dg, db)
        } else if db.below(dr) {
            (lut.node3(r1, g0, b0), lut.node3(r1, g0, b1), dr, db, dg)
        } else {
            (lut.node3(r0, g0, b1), lut.node3(r1, g0, b1), db, dr, dg)
        }
    } else if dg.below(db) {
        (lut.node3(r0, g0, b1), lut.node3(r0, g1, b1), db, dg, dr)
    } else if dr.below(db) {
        (lut.node3(r0, g1, b0), lut.node3(r0, g1, b1), dg, db, dr)
    } else {
        (lut.node3(r0, g1, b0), lut.node3(r1, g1, b0), dg, dr, db)
    };
    Triple {
        r: go_along(base.r, p1.r, p2.r, far.r, w1, w2, w3),
        g: go_along(base.g, p1.g, p2.g, far.g, w1, w2, w3),
        b: go_along(base.b, p1.b, p2.b, far.b, w1, w2, w3),
    }
}

/// Where a byte lies in the domain of a channel, from 0 to 1.
pub open spec fn in_domain(c: u8, low: Real, high: Real) -> Real {
    Real::of_byte(c).over(Real { bits: BYTE_MAX }).minus(low).over(high.minus(low)).clamped(
        Real { bits: ZERO },
        Real { bits: ONE },
    )
}

fn find_in_domain(c: u8, low: Real, high: Real) -> (r: Real)
    ensures
        r == in_domain(c, low, high),
{
    let t: Real = Real::of_byte(c).over(Real { bits: BYTE_MAX });
    t.minus(low).over(high.minus(low)).clamped(Real { bits: ZERO }, Real { bits: ONE })
}

/// A byte moved towards what the table gives.
pub open spec fn toward(c: u8, mapped: Real, strength: Real) -> u8 {
    let target = mapped.clamped(Real { bits: ZERO }, Real { bits: ONE }).times(
        Real { bits: BYTE_MAX },
    );
    let from = Real::of_byte(c);
    from.plus(target.minus(from).times(strength)).to_byte()
}

fn move_toward(c: u8, mapped: Real, strength: Real) -> (r: u8)
    ensures
        r == toward(c, mapped, strength),
{
    let target: Real = mapped.clamped(Real { bits: ZERO }, Real { bits: ONE }).times(
        Real { bits: BYTE_MAX },
    );
    let from: Real = Real::of_byte(c);
    from.plus(target.minus(from).times(strength)).to_byte()
}

/// What a table makes of a colour. Opacity stays.
pub open spec fn lut_pixel(lut: CubeLut, strength: Real, p: Rgba) -> Rgba {
    let v = Triple {
        r: in_domain(p.r, lut.domain_min.r, lut.domain_max.r),
        g: in_domain(p.g, lut.domain_min.g, lut.domain_max.g),
        b: in_domain(p.b, lut.domain_min.b, lut.domain_max.b),
    };
    let mapped = if lut.is_3d {
        cube_at(lut.data@, lut.size, v)
    } else {
        curves_at(lut.data@, lut.size, v)
    };
    if strength.same(Real { bits: ZERO }) {
        p
    } else {
        Rgba {
            r: toward(p.r, mapped.r, strength),
            g: toward(p.g, mapped.g, strength),
            b: toward(p.b, mapped.b, strength),
            a: p.a,
        }
    }
}

fn apply_to_pixel(lut: &CubeLut, strength: Real, p: Rgba) -> (r: Rgba)
    requires
        lut.well_formed(),
    ensures
        r == lut_pixel(*lut, strength, p),
{
    if strength.same(Real { bits: ZERO }) {
        return p;
    }
    let v: Triple = Triple {
        r: find_in_domain(p.r, lut.domain_min.r, lut.domain_max.r),
        g: find_in_domain(p.g, lut.domain_min.g, lut.domain_max.g),
        b: find_in_domain(p.b, lut.domain_min.b, lut.domain_max.b),
    };
    let mapped: Triple = if lut.is_3d {
        sample_3d(lut, v)
    } else {
        sample_1d(lut, v)
    };
    Rgba {
        r: move_toward(p.r, mapped.r, strength),
        g: move_toward(p.g, mapped.g, strength),
        b: move_toward(p.b, mapped.b, strength),
        a: p.a,
    }
}

/// Applies a table to an image.
pub fn apply(img: &Image<Rgba>, lut: &CubeLut, strength: Real) -> (r: Image<Rgba>)
    requires
        img.well_formed(),
        lut.well_formed(),
    ensures
        is_mapped(*img, r, |p: Rgba| lut_pixel(*lut, strength, p)),
{
    let f = |p: Rgba| -> (q: Rgba)
        requires
            lut.well_formed(),
        ensures
            q == lut_pixel(*lut, strength, p),
        { apply_to_pixel(lut, strength, p) };
    map_pixels(img, f, Ghost(|p: Rgba| lut_pixel(*lut, strength, p)))
}

/// A fault in a line is the fault of the text.
proof fn fault_stays(lines: Seq<Seq<char>>, n: nat, m: nat)
    requires
        after_lines(lines, n) is Err,
        n <= m,
    ensures
        after_lines(lines, m) == after_lines(lines, n),
    decreases m,
{
    if n < m {
        fault_stays(lines, n, (m - 1) as nat);
    }
}

} // verus!
