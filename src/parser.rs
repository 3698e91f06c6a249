use vstd::prelude::*;
use crate::topology::{Coord, Segment};

verus! {

/// Largest magnitude of a coordinate field.
pub const COORD_LIMIT: i64 = 2_147_483_647;

/// Largest magnitude of an explicit segment weight.
pub const WEIGHT_LIMIT: i64 = 1_000_000_000_000;

/// Splits `s` at every `sep`; the pieces exclude the separators.
pub open spec fn split(s: Seq<u8>, sep: u8) -> Seq<Seq<u8>>
    decreases s.len(),
{
    if s.len() == 0 {
        seq![Seq::empty()]
    } else {
        let prev = split(s.drop_last(), sep);
        if s.last() == sep {
            prev.push(Seq::empty())
        } else {
            prev.update(prev.len() - 1, prev.last().push(s.last()))
        }
    }
}

pub open spec fn is_digit(b: u8) -> bool {
    48 <= b <= 57
}

/// Decimal value of a run of digits.
pub open spec fn digits_value(d: Seq<u8>) -> int
    decreases d.len(),
{
    if d.len() == 0 {
        0
    } else {
        digits_value(d.drop_last()) * 10 + (d.last() - 48)
    }
}

pub open spec fn all_digits(d: Seq<u8>) -> bool {
    d.len() > 0 && forall|i: int| 0 <= i < d.len() ==> #[trigger] is_digit(d[i])
}

/// The integer a word spells: an optional `-` and at least one digit.
pub open spec fn int_of(w: Seq<u8>) -> Option<int> {
    if w.len() > 0 && w[0] == 45 {
        if all_digits(w.drop_first()) {
            Some(-digits_value(w.drop_first()))
        } else {
            None
        }
    } else if all_digits(w) {
        Some(digits_value(w))
    } else {
        None
    }
}

/// The integer a word spells, when its magnitude is at most `bound`.
pub open spec fn bounded_int(w: Seq<u8>, bound: int) -> Option<int> {
    match int_of(w) {
        Some(v) => if -bound <= v <= bound {
            Some(v)
        } else {
            None
        },
        None => None,
    }
}

proof fn lemma_digits_grow(d: Seq<u8>, i: int)
    requires
        0 <= i <= d.len(),
        forall|k: int| 0 <= k < d.len() ==> #[trigger] is_digit(d[k]),
    ensures
        digits_value(d.subrange(0, i)) <= digits_value(d),
        0 <= digits_value(d.subrange(0, i)),
    decreases d.len() - i,
{
    if i < d.len() {
        lemma_digits_grow(d, i + 1);
        let p = d.subrange(0, i + 1);
        assert(p.drop_last() =~= d.subrange(0, i));
        assert(p.last() == d[i]);
        assert(is_digit(d[i]));
        lemma_digits_nonneg(d.subrange(0, i));
        let x = digits_value(d.subrange(0, i));
        assert(x * 10 + (d[i] - 48) >= x) by (nonlinear_arith)
            requires x >= 0, d[i] >= 48;
    } else {
        assert(d.subrange(0, i) =~= d);
        lemma_digits_nonneg(d);
    }
}

proof fn lemma_digits_nonneg(d: Seq<u8>)
    requires
        forall|k: int| 0 <= k < d.len() ==> #[trigger] is_digit(d[k]),
    ensures
        0 <= digits_value(d),
    decreases d.len(),
{
    if d.len() > 0 {
        lemma_digits_nonneg(d.drop_last());
        assert(is_digit(d[d.len() - 1]));
    }
}

/// Reads the digits of `w` from index `start` on, failing once the value exceeds `bound`.
fn digits_bounded(w: &Vec<u8>, start: usize, bound: i64) -> (r: Option<i64>)
    requires
        start <= w@.len(),
        0 <= bound <= WEIGHT_LIMIT,
    ensures
        match r {
            Some(v) => all_digits(w@.subrange(start as int, w@.len() as int)) && v == digits_value(
                w@.subrange(start as int, w@.len() as int),
            ) && 0 <= v <= bound,
            None => !all_digits(w@.subrange(start as int, w@.len() as int)) || digits_value(
                w@.subrange(start as int, w@.len() as int),
            ) > bound,
        },
{
    let ghost d = w@.subrange(start as int, w@.len() as int);
    if start == w.len() {
        return None;
    }
    let mut v: i64 = 0;
    let mut i: usize = start;
    while i < w.len()
        invariant
            start <= i <= w@.len(),
            d == w@.subrange(start as int, w@.len() as int),
            0 <= bound <= WEIGHT_LIMIT,
            forall|k: int| start <= k < i ==> #[trigger] is_digit(w@[k]),
            v == digits_value(w@.subrange(start as int, i as int)),
            0 <= v <= bound,
        decreases w@.len() - i,
    {
        let b = w[i];
        proof {
            assert(w@.subrange(start as int, i as int + 1).drop_last() =~= w@.subrange(start as int, i as int));
        }
        if b < 48 || b > 57 {
            proof {
                assert(!is_digit(d[i - start]));
            }
            return None;
        }
        let nv = v * 10 + (b - 48) as i64;
        if nv > bound {
            proof {
                assert forall|k: int| 0 <= k < d.len() implies #[trigger] is_digit(d[k]) || !all_digits(d) by {}
                if all_digits(d) {
                    lemma_digits_grow(d, i - start + 1);
                    assert(d.subrange(0, i - start + 1) =~= w@.subrange(start as int, i as int + 1));
                }
            }
            return None;
        }
        v = nv;
        i = i + 1;
    }
    proof {
        assert(w@.subrange(start as int, i as int) =~= d);
        assert forall|k: int| 0 <= k < d.len() implies #[trigger] is_digit(d[k]) by {
            assert(is_digit(w@[start + k]));
        }
    }
    Some(v)
}

/// The integer `w` spells, when its magnitude is at most `bound`.
pub fn parse_bounded(w: &Vec<u8>, bound: i64) -> (r: Option<i64>)
    requires
        0 <= bound <= WEIGHT_LIMIT,
    ensures
        match r {
            Some(v) => bounded_int(w@, bound as int) == Some(v as int),
            None => bounded_int(w@, bound as int) is None,
        },
{
    if w.len() > 0 && w[0] == 45u8 {
        proof {
            assert(w@.subrange(1, w@.len() as int) =~= w@.drop_first());
        }
        match digits_bounded(w, 1, bound) {
            Some(v) => Some(-v),
            None => None,
        }
    } else {
        proof {
            assert(w@.subrange(0, w@.len() as int) =~= w@);
            if w@.len() > 0 {
                assert(!is_digit(w@[0]) ==> !all_digits(w@));
            }
        }
        digits_bounded(w, 0, bound)
    }
}

/// One non-blank line of road data.
#[derive(Clone, Copy, Debug, PartialEq, Eq, Structural)]
pub enum Record {
    Point(Coord),
    Road(Segment),
}

#[derive(Clone, Copy, Debug, PartialEq, Eq, Structural)]
pub enum ParseErrorKind {
    /// The line starts with neither `P` nor `S`.
    UnsupportedGeometry,
    /// The line has the wrong number of fields.
    MissingCoordinates,
    /// A field is not a number in range, a weight, or a direction.
    BadNumber,
}

/// A malformed line (counted from 0) and what is wrong with it.
#[derive(Clone, Copy, Debug, PartialEq, Eq, Structural)]
pub struct ParseError {
    pub line: usize,
    pub kind: ParseErrorKind,
}

/// Points and usable segments of the input, and how many segments with
/// identical ends were dropped.
#[derive(Clone, Debug)]
pub struct RoadData {
    pub points: Vec<Coord>,
    pub segments: Vec<Segment>,
    pub dropped: usize,
}

pub open spec fn coord_of(a: Seq<u8>, b: Seq<u8>) -> Option<Coord> {
    match (bounded_int(a, COORD_LIMIT as int), bounded_int(b, COORD_LIMIT as int)) {
        (Some(x), Some(y)) => Some(Coord { lat: x as i32, lon: y as i32 }),
        _ => None,
    }
}

/// `-` for no weight, else a weight in range.
pub open spec fn weight_of(w: Seq<u8>) -> Option<Option<i64>> {
    if w == seq![45u8] {
        Some(None)
    } else {
        match bounded_int(w, WEIGHT_LIMIT as int) {
            Some(v) => Some(Some(v as i64)),
            None => None,
        }
    }
}

/// `1` for one-way, `2` for both ways.
pub open spec fn direction_of(w: Seq<u8>) -> Option<bool> {
    if w == seq![49u8] {
        Some(true)
    } else if w == seq![50u8] {
        Some(false)
    } else {
        None
    }
}

/// The record that the space-separated fields `ws` of a line describe:
/// `P lat lon`, or `S lat lon lat lon weight direction`.
pub open spec fn record_of(ws: Seq<Seq<u8>>) -> Result<Record, ParseErrorKind> {
    if ws[0] == seq![80u8] {
        if ws.len() != 3 {
            Err(ParseErrorKind::MissingCoordinates)
        } else {
            match coord_of(ws[1], ws[2]) {
                Some(c) => Ok(Record::Point(c)),
                None => Err(ParseErrorKind::BadNumber),
            }
        }
    } else if ws[0] == seq![83u8] {
        if ws.len() != 7 {
            Err(ParseErrorKind::MissingCoordinates)
        } else {
            match (coord_of(ws[1], ws[2]), coord_of(ws[3], ws[4]), weight_of(ws[5]), direction_of(ws[6])) {
                (Some(a), Some(b), Some(weight), Some(oneway)) => Ok(
                    Record::Road(Segment { a, b, weight, oneway }),
                ),
                _ => Err(ParseErrorKind::BadNumber),
            }
        }
    } else {
        Err(ParseErrorKind::UnsupportedGeometry)
    }
}

/// The outcome of reading `lines`: blank lines are skipped, the first bad line
/// fails the whole input, and a segment whose ends are equal is dropped.
pub open spec fn parse_lines(lines: Seq<Seq<u8>>) -> Result<
    (Seq<Coord>, Seq<Segment>, int),
    (int, ParseErrorKind),
>
    decreases lines.len(),
{
    if lines.len() == 0 {
        Ok((Seq::empty(), Seq::empty(), 0))
    } else {
        match parse_lines(lines.drop_last()) {
            Err(e) => Err(e),
            Ok((ps, ss, dropped)) => if lines.last().len() == 0 {
                Ok((ps, ss, dropped))
            } else {
                match record_of(split(lines.last(), 32)) {
                    Err(k) => Err((lines.len() - 1, k)),
                    Ok(Record::Point(c)) => Ok((ps.push(c), ss, dropped)),
                    Ok(Record::Road(seg)) => if seg.a == seg.b {
                        Ok((ps, ss, dropped + 1))
                    } else {
                        Ok((ps, ss.push(seg), dropped))
                    },
                }
            },
        }
    }
}

/// Splits `s` at every `sep`.
pub fn split_bytes(s: &Vec<u8>, sep: u8) -> (r: Vec<Vec<u8>>)
    ensures
        r@.len() == split(s@, sep).len(),
        forall|i: int| 0 <= i < r@.len() ==> (#[trigger] r@[i])@ == split(s@, sep)[i],
{
    let mut out: Vec<Vec<u8>> = Vec::new();
    let mut cur: Vec<u8> = Vec::new();
    let mut i: usize = 0;
    proof {
        assert(s@.subrange(0, 0) =~= Seq::<u8>::empty());
    }
    while i < s.len()
        invariant
            i <= s@.len(),
            split(s@.subrange(0, i as int), sep).len() == out@.len() + 1,
            forall|j: int| 0 <= j < out@.len() ==> (#[trigger] out@[j])@ == split(
                s@.subrange(0, i as int),
                sep,
            )[j],
            cur@ == split(s@.subrange(0, i as int), sep).last(),
        decreases s@.len() - i,
    {
        let b = s[i];
        proof {
            assert(s@.subrange(0, i as int + 1).drop_last() =~= s@.subrange(0, i as int));
        }
        if b == sep {
            out.push(cur);
            cur = Vec::new();
        } else {
            cur.push(b);
        }
        i = i + 1;
    }
    proof {
        assert(s@.subrange(0, s@.len() as int) =~= s@);
    }
    out.push(cur);
    out
}

fn word_is(w: &Vec<u8>, b: u8) -> (r: bool)
    ensures
        r == (w@ == seq![b]),
{
    if w.len() == 1 && w[0] == b {
        proof {
            assert(w@ =~= seq![b]);
        }
        true
    } else {
        proof {
            if w@ == seq![b] {
                assert(w@.len() == 1);
            }
        }
        false
    }
}

fn parse_coord(a: &Vec<u8>, b: &Vec<u8>) -> (r: Option<Coord>)
    ensures
        r == coord_of(a@, b@),
{
    match (parse_bounded(a, COORD_LIMIT), parse_bounded(b, COORD_LIMIT)) {
        (Some(x), Some(y)) => Some(Coord { lat: x as i32, lon: y as i32 }),
        _ => None,
    }
}

/// Reads one line, given as its space-separated fields.
pub fn parse_record(ws: &Vec<Vec<u8>>) -> (r: Result<Record, ParseErrorKind>)
    requires
        ws@.len() > 0,
    ensures
        r == record_of(ws@.map_values(|w: Vec<u8>| w@)),
{
    let ghost v = ws@.map_values(|w: Vec<u8>| w@);
    proof {
        assert(v[0] == ws@[0]@);
    }
    if word_is(&ws[0], 80u8) {
        if ws.len() != 3 {
            return Err(ParseErrorKind::MissingCoordinates);
        }
        proof {
            assert(v[1] == ws@[1]@ && v[2] == ws@[2]@);
        }
        match parse_coord(&ws[1], &ws[2]) {
            Some(c) => Ok(Record::Point(c)),
            None => Err(ParseErrorKind::BadNumber),
        }
    } else if word_is(&ws[0], 83u8) {
        if ws.len() != 7 {
            return Err(ParseErrorKind::MissingCoordinates);
        }
        proof {
            assert(v[1] == ws@[1]@ && v[2] == ws@[2]@ && v[3] == ws@[3]@ && v[4] == ws@[4]@);
            assert(v[5] == ws@[5]@ && v[6] == ws@[6]@);
        }
        let a = parse_coord(&ws[1], &ws[2]);
        let b = parse_coord(&ws[3], &ws[4]);
        let weight: Option<Option<i64>> = if word_is(&ws[5], 45u8) {
            Some(None)
        } else {
            match parse_bounded(&ws[5], WEIGHT_LIMIT) {
                Some(x) => Some(Some(x)),
                None => None,
            }
        };
        let oneway: Option<bool> = if word_is(&ws[6], 49u8) {
            Some(true)
        } else if word_is(&ws[6], 50u8) {
            Some(false)
        } else {
            None
        };
        match (a, b, weight, oneway) {
            (Some(a), Some(b), Some(weight), Some(oneway)) => Ok(
                Record::Road(Segment { a, b, weight, oneway }),
            ),
            _ => Err(ParseErrorKind::BadNumber),
        }
    } else {
        Err(ParseErrorKind::UnsupportedGeometry)
    }
}

proof fn lemma_split_nonempty(s: Seq<u8>, sep: u8)
    ensures
        split(s, sep).len() >= 1,
    decreases s.len(),
{
    if s.len() > 0 {
        lemma_split_nonempty(s.drop_last(), sep);
    }
}

proof fn lemma_error_stays(lines: Seq<Seq<u8>>, j: int)
    requires
        0 <= j <= lines.len(),
        parse_lines(lines.subrange(0, j)) is Err,
    ensures
        parse_lines(lines) == parse_lines(lines.subrange(0, j)),
    decreases lines.len() - j,
{
    if j < lines.len() {
        assert(lines.subrange(0, j + 1).drop_last() =~= lines.subrange(0, j));
        lemma_error_stays(lines, j + 1);
    } else {
        assert(lines.subrange(0, j) =~= lines);
    }
}

/// Reads road data: one record per line, fields separated by single spaces.
pub fn parse_road_data(data: &Vec<u8>) -> (r: Result<RoadData, ParseError>)
    ensures
        match parse_lines(split(data@, 10)) {
            Ok((ps, ss, d)) => r is Ok && r->Ok_0.points@ == ps && r->Ok_0.segments@ == ss
                && r->Ok_0.dropped == d,
            Err((i, k)) => r == Err::<RoadData, ParseError>(ParseError { line: i as usize, kind: k }),
        },
{
    let lines = split_bytes(data, 10u8);
    let ghost lv = split(data@, 10);
    let mut points: Vec<Coord> = Vec::new();
    let mut segments: Vec<Segment> = Vec::new();
    let mut dropped: usize = 0;
    let mut k: usize = 0;
    proof {
        assert(lv.subrange(0, 0) =~= Seq::<Seq<u8>>::empty());
    }
    while k < lines.len()
        invariant
            lines@.len() == lv.len(),
            lv == split(data@, 10),
            forall|i: int| 0 <= i < lines@.len() ==> (#[trigger] lines@[i])@ == lv[i],
            k <= lines@.len(),
            dropped <= k,
            parse_lines(lv.subrange(0, k as int)) == Ok::<
                (Seq<Coord>, Seq<Segment>, int),
                (int, ParseErrorKind),
            >((points@, segments@, dropped as int)),
        decreases lines@.len() - k,
    {
        let line = &lines[k];
        proof {
            assert(lv.subrange(0, k as int + 1).drop_last() =~= lv.subrange(0, k as int));
            assert(lv.subrange(0, k as int + 1).last() == line@);
        }
        if line.len() > 0 {
            let ws = split_bytes(line, 32u8);
            proof {
                lemma_split_nonempty(line@, 32);
                assert(ws@.map_values(|w: Vec<u8>| w@) =~= split(line@, 32));
            }
            match parse_record(&ws) {
                Err(kind) => {
                    proof {
                        lemma_error_stays(lv, k as int + 1);
                    }
                    return Err(ParseError { line: k, kind });
                },
                Ok(Record::Point(c)) => {
                    points.push(c);
                },
                Ok(Record::Road(seg)) => {
                    if seg.a == seg.b {
                        dropped = dropped + 1;
                    } else {
                        segments.push(seg);
                    }
                },
            }
        }
        k = k + 1;
    }
    proof {
        assert(lv.subrange(0, lv.len() as int) =~= lv);
    }
    Ok(RoadData { points, segments, dropped })
}

} // verus!
