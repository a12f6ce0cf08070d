use vstd::prelude::*;
use crate::monitor::{MonitorConfig, Rotation};
use crate::setup::MonitorSetup;

verus! {

/// What is wrong with a line of a setup file.
#[derive(Debug, Clone, Copy, PartialEq, Eq, Structural)]
pub enum ConfigErrorKind {
    /// The line is not `<id> = <x>x<y>, <rotation>`.
    InvalidConfig,
    /// The identity is not a 32-bit hexadecimal number.
    InvalidMonitorId,
    MissingPosition,
    MissingRotation,
    /// The rotation is not one of 0, 90, 180 and 270.
    InvalidRotation,
    /// A coordinate is missing or not a 16-bit decimal number.
    InvalidPosition,
}

/// The first faulty line of a setup file (counting from zero), and its fault.
#[derive(Debug, Clone, Copy, PartialEq, Eq, Structural)]
pub struct ConfigError {
    pub line: usize,
    pub kind: ConfigErrorKind,
}

/// Characters with the Unicode White_Space property.
pub open spec fn is_white_space(c: char) -> bool {
    let n = c as u32;
    ||| 0x09 <= n <= 0x0d
    ||| n == 0x20 || n == 0x85 || n == 0xa0 || n == 0x1680
    ||| 0x2000 <= n <= 0x200a
    ||| n == 0x2028 || n == 0x2029 || n == 0x202f || n == 0x205f || n == 0x3000
}

/// The value of `c` as a digit in base `radix` (at most 36), if it is one.
pub open spec fn digit_value(c: char, radix: u32) -> Option<u32> {
    let n = c as u32;
    let v: int = if 0x30 <= n <= 0x39 {
        n - 0x30
    } else if 0x61 <= n <= 0x7a {
        n - 0x61 + 10
    } else if 0x41 <= n <= 0x5a {
        n - 0x41 + 10
    } else {
        36
    };
    if v < radix { Some(v as u32) } else { None }
}

pub open spec fn all_digits(d: Seq<char>, radix: u32) -> bool {
    forall|i: int| 0 <= i < d.len() ==> (#[trigger] digit_value(d[i], radix)) is Some
}

/// The number that the digits `d` write in base `radix`.
pub open spec fn digits_value(d: Seq<char>, radix: u32) -> int
    decreases d.len(),
{
    if d.len() == 0 {
        0
    } else {
        digits_value(d.drop_last(), radix) * radix + digit_value(d.last(), radix)->Some_0
    }
}

/// An unsigned number no greater than `max`: an optional `+`, then at
/// least one digit of base `radix`.
pub open spec fn parse_unsigned(s: Seq<char>, radix: u32, max: int) -> Option<int> {
    let d = if s.len() > 0 && s[0] == '+' { s.drop_first() } else { s };
    if d.len() == 0 || !all_digits(d, radix) || digits_value(d, radix) > max {
        None
    } else {
        Some(digits_value(d, radix))
    }
}

/// The position of the first `c` in `s`, if any.
pub open spec fn first_index_of(s: Seq<char>, c: char) -> Option<int> {
    if exists|i: int| 0 <= i < s.len() && s[i] == c {
        Some(choose|i: int| 0 <= i < s.len() && s[i] == c && forall|j: int| 0 <= j < i ==> s[j] != c)
    } else {
        None
    }
}

/// `s` cut at its first `c`, which belongs to neither part.
pub open spec fn split_once(s: Seq<char>, c: char) -> Option<(Seq<char>, Seq<char>)> {
    match first_index_of(s, c) {
        Some(i) => Some((s.take(i), s.skip(i + 1))),
        None => None,
    }
}

/// A 16-bit field read as a signed coordinate.
pub open spec fn as_coordinate(v: int) -> i16 {
    if v < 0x8000 { v as i16 } else { (v - 0x10000) as i16 }
}

pub open spec fn rotation_of(degrees: int) -> Option<Rotation> {
    if degrees == 0 {
        Some(Rotation::Rotate0)
    } else if degrees == 90 {
        Some(Rotation::Rotate90)
    } else if degrees == 180 {
        Some(Rotation::Rotate180)
    } else if degrees == 270 {
        Some(Rotation::Rotate270)
    } else {
        None
    }
}

/// `x` and `y` of `<x>x<y>`.
pub open spec fn position_of(xy: Seq<char>) -> Result<(i16, i16), ConfigErrorKind> {
    match split_once(xy, 'x') {
        None => Err(ConfigErrorKind::InvalidConfig),
        Some((x, y)) => match (parse_unsigned(x, 10, u16::MAX as int), parse_unsigned(y, 10, u16::MAX as int)) {
            (Some(xv), Some(yv)) => Ok((as_coordinate(xv), as_coordinate(yv))),
            _ => Err(ConfigErrorKind::InvalidPosition),
        },
    }
}

/// Position and rotation from `<x>x<y>,<rotation>`.
pub open spec fn placement_of(rhs: Seq<char>) -> Result<(i16, i16, Rotation), ConfigErrorKind> {
    match split_once(rhs, ',') {
        None => Err(ConfigErrorKind::InvalidConfig),
        Some((xy, rot)) => if xy.len() == 0 {
            Err(ConfigErrorKind::MissingPosition)
        } else if rot.len() == 0 {
            Err(ConfigErrorKind::MissingRotation)
        } else {
            match parse_unsigned(rot, 10, u16::MAX as int) {
                None => Err(ConfigErrorKind::InvalidRotation),
                Some(degrees) => match rotation_of(degrees) {
                    None => Err(ConfigErrorKind::InvalidRotation),
                    Some(r) => match position_of(xy) {
                        Err(k) => Err(k),
                        Ok((x, y)) => Ok((x, y, r)),
                    },
                },
            }
        },
    }
}

/// What a line says once its white space is taken out: nothing (`None`),
/// for an empty line or a comment; else one monitor's placement, or a fault.
#[verifier::opaque]
pub open spec fn line_meaning(s: Seq<char>) -> Option<Result<MonitorConfig, ConfigErrorKind>> {
    if s.len() == 0 || s[0] == '#' {
        None
    } else {
        Some(
            match split_once(s, '=') {
                None => Err(ConfigErrorKind::InvalidConfig),
                Some((lhs, rhs)) => if lhs.len() == 0 || rhs.len() == 0 {
                    Err(ConfigErrorKind::InvalidConfig)
                } else {
                    match parse_unsigned(lhs, 16, u32::MAX as int) {
                        None => Err(ConfigErrorKind::InvalidMonitorId),
                        Some(id) => match placement_of(rhs) {
                            Err(k) => Err(k),
                            Ok((x, y, r)) => Ok(MonitorConfig { id: id as u32, x, y, rot: r }),
                        },
                    }
                },
            },
        )
    }
}

fn white_space(c: char) -> (r: bool)
    ensures
        r == is_white_space(c),
{
    let n = c as u32;
    (0x09 <= n && n <= 0x0d) || n == 0x20 || n == 0x85 || n == 0xa0 || n == 0x1680 || (0x2000 <= n
        && n <= 0x200a) || n == 0x2028 || n == 0x2029 || n == 0x202f || n == 0x205f || n == 0x3000
}

fn digit(c: char, radix: u32) -> (r: Option<u32>)
    requires
        radix <= 36,
    ensures
        r == digit_value(c, radix),
{
    let n = c as u32;
    let v: u32 = if 0x30 <= n && n <= 0x39 {
        n - 0x30
    } else if 0x61 <= n && n <= 0x7a {
        n - 0x61 + 10
    } else if 0x41 <= n && n <= 0x5a {
        n - 0x41 + 10
    } else {
        36
    };
    if v < radix {
        Some(v)
    } else {
        None
    }
}

/// The first position of `c` in `s[lo..hi]`, counted from the start of `s`.
fn find_char(s: &Vec<char>, lo: usize, hi: usize, c: char) -> (r: Option<usize>)
    requires
        lo <= hi <= s@.len(),
    ensures
        match r {
            Some(m) => {
                &&& lo <= m < hi
                &&& split_once(s@.subrange(lo as int, hi as int), c) == Some(
                    (s@.subrange(lo as int, m as int), s@.subrange(m + 1, hi as int)),
                )
            },
            None => split_once(s@.subrange(lo as int, hi as int), c) is None,
        },
{
    let ghost t = s@.subrange(lo as int, hi as int);
    let mut i: usize = lo;
    while i < hi
        invariant
            lo <= i <= hi <= s@.len(),
            t == s@.subrange(lo as int, hi as int),
            forall|j: int| 0 <= j < i - lo ==> t[j] != c,
        decreases hi - i,
    {
        if s[i] == c {
            assert(t[i - lo] == c);
            let ghost f = choose|f: int| 0 <= f < t.len() && t[f] == c && forall|j: int| 0 <= j < f ==> t[j] != c;
            assert(f == i - lo) by {
                if f < i - lo {
                    assert(t[f] != c);
                } else if f > i - lo {
                    assert(t[i - lo] != c);
                }
            }
            assert(t.take(i - lo) =~= s@.subrange(lo as int, i as int));
            assert(t.skip(i - lo + 1) =~= s@.subrange(i + 1, hi as int));
            return Some(i);
        }
        i = i + 1;
    }
    None
}

proof fn lemma_digits_value_grows(d: Seq<char>, radix: u32, k: int)
    requires
        1 <= radix,
        0 <= k <= d.len(),
        all_digits(d, radix),
    ensures
        0 <= digits_value(d.take(k), radix) <= digits_value(d, radix),
    decreases d.len() - k,
{
    if k < d.len() {
        let n = d.len() - 1;
        assert(d.drop_last() =~= d.take(n));
        assert(all_digits(d.drop_last(), radix)) by {
            assert forall|i: int| 0 <= i < d.drop_last().len() implies (#[trigger] digit_value(d.drop_last()[i], radix)) is Some by {
                assert(d.drop_last()[i] == d[i]);
            }
        }
        assert(d.drop_last().take(k) =~= d.take(k));
        lemma_digits_value_grows(d.drop_last(), radix, k);
        assert(digit_value(d[n], radix) is Some);
        let v = digits_value(d.drop_last(), radix);
        assert(v * radix >= v) by (nonlinear_arith)
            requires
                v >= 0,
                radix >= 1,
        ;
    } else {
        assert(d.take(k) =~= d);
        lemma_digits_value_nonneg(d, radix);
    }
}

proof fn lemma_digits_value_nonneg(d: Seq<char>, radix: u32)
    requires
        all_digits(d, radix),
    ensures
        digits_value(d, radix) >= 0,
    decreases d.len(),
{
    if d.len() > 0 {
        assert(all_digits(d.drop_last(), radix)) by {
            assert forall|i: int| 0 <= i < d.drop_last().len() implies (#[trigger] digit_value(d.drop_last()[i], radix)) is Some by {
                assert(d.drop_last()[i] == d[i]);
            }
        }
        lemma_digits_value_nonneg(d.drop_last(), radix);
        assert(digit_value(d[d.len() - 1], radix) is Some);
        let v = digits_value(d.drop_last(), radix);
        assert(v * radix >= 0) by (nonlinear_arith)
            requires
                v >= 0,
        ;
    }
}

/// Reads `s[lo..hi]` as `parse_unsigned` says.
fn parse_number(s: &Vec<char>, lo: usize, hi: usize, radix: u32, max: u32) -> (r: Option<u32>)
    requires
        lo <= hi <= s@.len(),
        2 <= radix <= 36,
    ensures
        match parse_unsigned(s@.subrange(lo as int, hi as int), radix, max as int) {
            Some(v) => r matches Some(x) && x as int == v,
            None => r is None,
        },
        r matches Some(v) ==> v <= max,
{
    let ghost t = s@.subrange(lo as int, hi as int);
    assert(t.len() > 0 ==> t[0] == s@[lo as int]);
    let start: usize = if lo < hi && s[lo] == '+' {
        lo + 1
    } else {
        lo
    };
    let ghost d = s@.subrange(start as int, hi as int);
    proof {
        if t.len() > 0 && t[0] == '+' {
            assert(d =~= t.drop_first());
        } else {
            assert(d =~= t);
        }
    }
    if start == hi {
        assert(d.len() == 0);
        assert(parse_unsigned(t, radix, max as int) is None);
        return None;
    }
    let mut v: u64 = 0;
    let mut i: usize = start;
    while i < hi
        invariant
            start <= i <= hi <= s@.len(),
            2 <= radix <= 36,
            d == s@.subrange(start as int, hi as int),
            t == s@.subrange(lo as int, hi as int),
            d == (if t.len() > 0 && t[0] == '+' { t.drop_first() } else { t }),
            all_digits(d.take(i - start), radix),
            v == digits_value(d.take(i - start), radix),
            v <= max,
        decreases hi - i,
    {
        let k = i - start;
        assert(d.take(k + 1).drop_last() =~= d.take(k as int));
        assert(d[k as int] == s@[i as int]);
        match digit(s[i], radix) {
            None => {
                assert(digit_value(d[k as int], radix) is None);
                assert(!all_digits(d, radix));
                return None;
            },
            Some(x) => {
                assert(all_digits(d.take(k + 1), radix)) by {
                    assert forall|j: int| 0 <= j < k + 1 implies (#[trigger] digit_value(d.take(k + 1)[j], radix)) is Some by {
                        if j < k {
                            assert(d.take(k + 1)[j] == d.take(k as int)[j]);
                        }
                    }
                }
                assert(v * (radix as u64) <= 0xffff_ffff * 36) by (nonlinear_arith)
                    requires
                        v <= 0xffff_ffff,
                        radix <= 36,
                ;
                let next = v * (radix as u64) + (x as u64);
                if next > max as u64 {
                    proof {
                        if all_digits(d, radix) {
                            lemma_digits_value_grows(d, radix, k + 1);
                        }
                    }
                    return None;
                }
                v = next;
            },
        }
        i = i + 1;
    }
    assert(d.take(i - start) =~= d);
    Some(v as u32)
}

fn coordinate(v: u32) -> (r: i16)
    requires
        v <= u16::MAX,
    ensures
        r == as_coordinate(v as int),
{
    if v < 0x8000 {
        v as i16
    } else {
        (v as i32 - 0x10000) as i16
    }
}

fn rotation(degrees: u32) -> (r: Option<Rotation>)
    ensures
        r == rotation_of(degrees as int),
{
    if degrees == 0 {
        Some(Rotation::Rotate0)
    } else if degrees == 90 {
        Some(Rotation::Rotate90)
    } else if degrees == 180 {
        Some(Rotation::Rotate180)
    } else if degrees == 270 {
        Some(Rotation::Rotate270)
    } else {
        None
    }
}

/// Reads `<x>x<y>` from `s[lo..hi]`.
fn parse_position(s: &Vec<char>, lo: usize, hi: usize) -> (r: Result<(i16, i16), ConfigErrorKind>)
    requires
        lo <= hi <= s@.len(),
    ensures
        r == position_of(s@.subrange(lo as int, hi as int)),
{
    let ghost xy = s@.subrange(lo as int, hi as int);
    match find_char(s, lo, hi, 'x') {
        None => Err(ConfigErrorKind::InvalidConfig),
        Some(m) => {
            let x = parse_number(s, lo, m, 10, 0xffff);
            let y = parse_number(s, m + 1, hi, 10, 0xffff);
            match (x, y) {
                (Some(xv), Some(yv)) => Ok((coordinate(xv), coordinate(yv))),
                _ => Err(ConfigErrorKind::InvalidPosition),
            }
        },
    }
}

/// Reads one line whose white space is taken out.
fn parse_line(s: &Vec<char>) -> (r: Option<Result<MonitorConfig, ConfigErrorKind>>)
    ensures
        r == line_meaning(s@),
{
    reveal(line_meaning);
    let n = s.len();
    if n == 0 || s[0] == '#' {
        return None;
    }
    assert(s@.subrange(0, n as int) =~= s@);
    let e = match find_char(s, 0, n, '=') {
        None => return Some(Err(ConfigErrorKind::InvalidConfig)),
        Some(e) => e,
    };
    if e == 0 || e + 1 == n {
        return Some(Err(ConfigErrorKind::InvalidConfig));
    }
    let id = match parse_number(s, 0, e, 16, 0xffff_ffff) {
        None => return Some(Err(ConfigErrorKind::InvalidMonitorId)),
        Some(id) => id,
    };
    match parse_placement(s, e + 1, n) {
        Err(k) => Some(Err(k)),
        Ok((x, y, rot)) => Some(Ok(MonitorConfig { id, x, y, rot })),
    }
}

/// Reads `<x>x<y>,<rotation>` from `s[lo..hi]`.
fn parse_placement(s: &Vec<char>, lo: usize, hi: usize) -> (r: Result<(i16, i16, Rotation), ConfigErrorKind>)
    requires
        lo <= hi <= s@.len(),
    ensures
        r == placement_of(s@.subrange(lo as int, hi as int)),
{
    let ghost rhs = s@.subrange(lo as int, hi as int);
    let c = match find_char(s, lo, hi, ',') {
        None => return Err(ConfigErrorKind::InvalidConfig),
        Some(c) => c,
    };
    if c == lo {
        return Err(ConfigErrorKind::MissingPosition);
    }
    if c + 1 == hi {
        return Err(ConfigErrorKind::MissingRotation);
    }
    let degrees = match parse_number(s, c + 1, hi, 10, 0xffff) {
        None => return Err(ConfigErrorKind::InvalidRotation),
        Some(d) => d,
    };
    let rot = match rotation(degrees) {
        None => return Err(ConfigErrorKind::InvalidRotation),
        Some(r) => r,
    };
    match parse_position(s, lo, c) {
        Err(k) => Err(k),
        Ok((x, y)) => Ok((x, y, rot)),
    }
}

/// The pieces of `t` between line feeds. A text that ends with a line feed
/// ends with an empty piece, which, as an empty line, says nothing.
pub open spec fn split_lines(t: Seq<char>) -> Seq<Seq<char>>
    decreases t.len(),
{
    if t.len() == 0 {
        seq![Seq::<char>::empty()]
    } else {
        let p = split_lines(t.drop_last());
        if t.last() == '\n' {
            p.push(Seq::<char>::empty())
        } else {
            p.update(p.len() - 1, p.last().push(t.last()))
        }
    }
}

pub open spec fn strip_white_space(l: Seq<char>) -> Seq<char> {
    l.filter(|c: char| !is_white_space(c))
}

/// The placements that `lines` declare, or the first faulty line.
pub open spec fn parse_lines(lines: Seq<Seq<char>>) -> Result<Seq<MonitorConfig>, ConfigError>
    decreases lines.len(),
{
    if lines.len() == 0 {
        Ok(Seq::empty())
    } else {
        match parse_lines(lines.drop_last()) {
            Err(e) => Err(e),
            Ok(cs) => match line_meaning(strip_white_space(lines.last())) {
                None => Ok(cs),
                Some(Ok(c)) => Ok(cs.push(c)),
                Some(Err(k)) => Err(ConfigError { line: (lines.len() - 1) as usize, kind: k }),
            },
        }
    }
}

proof fn lemma_split_lines_len(t: Seq<char>)
    ensures
        1 <= split_lines(t).len() <= t.len() + 1,
    decreases t.len(),
{
    if t.len() > 0 {
        lemma_split_lines_len(t.drop_last());
    }
}

/// The characters of `s`, in order.
fn chars_of(s: &str) -> (r: Vec<char>)
    ensures
        r@ == s@,
{
    let mut r: Vec<char> = Vec::new();
    for c in it: s.chars()
        invariant
            r@ == it.seq().take(it.index() as int),
    {
        r.push(c);
    }
    r
}

/// Reads a setup file: one line `<id> = <x>x<y>, <rotation>` per monitor,
/// with the identity in hexadecimal, white space anywhere, and empty lines
/// and lines starting with `#` ignored. The first faulty line is reported.
pub fn parse_setup_from_conf_str(text: &str) -> (r: Result<MonitorSetup, ConfigError>)
    ensures
        match parse_lines(split_lines(text@)) {
            Ok(cs) => r matches Ok(setup) && setup.configs@ == cs,
            Err(e) => r == Err::<MonitorSetup, ConfigError>(e),
        },
{
    let t = chars_of(text);
    let mut configs: Vec<MonitorConfig> = Vec::new();
    let mut stripped: Vec<char> = Vec::new();
    let mut line_n: usize = 0;
    let mut i: usize = 0;
    while i < t.len()
        invariant
            i <= t@.len(),
            t@ == text@,
            split_lines(t@.take(i as int)).len() == line_n + 1,
            stripped@ == strip_white_space(split_lines(t@.take(i as int)).last()),
            parse_lines(split_lines(t@.take(i as int)).drop_last()) == Ok::<Seq<MonitorConfig>, ConfigError>(configs@),
        decreases t@.len() - i,
    {
        let ghost before = split_lines(t@.take(i as int));
        assert(t@.take(i + 1).drop_last() =~= t@.take(i as int));
        proof {
            lemma_split_lines_len(t@.take(i as int));
        }
        let c = t[i];
        if c == '\n' {
            let ghost after = before.push(Seq::<char>::empty());
            assert(after.drop_last() =~= before);
            assert(before.drop_last().push(before.last()) =~= before);
            match parse_line(&stripped) {
                None => {},
                Some(Ok(conf)) => {
                    configs.push(conf);
                },
                Some(Err(kind)) => {
                    assert(t@.take(i + 1).drop_last() =~= t@.take(i as int));
                    assert(split_lines(t@.take(i + 1)).drop_last() == before);
                    assert(parse_lines(before) == Err::<Seq<MonitorConfig>, ConfigError>(ConfigError { line: line_n, kind }));
                    proof {
                        lemma_parse_lines_keeps_error(t@, i + 1);
                    }
                    return Err(ConfigError { line: line_n, kind });
                },
            }
            line_n = line_n + 1;
            stripped = Vec::new();
            proof {
                reveal(Seq::filter);
            }
        } else {
            let ghost after = before.update(before.len() - 1, before.last().push(c));
            assert(after.drop_last() =~= before.drop_last());
            assert(after.last().drop_last() =~= before.last());
            proof {
                reveal(Seq::filter);
            }
            if !white_space(c) {
                stripped.push(c);
            }
        }
        i = i + 1;
    }
    assert(t@.take(i as int) =~= t@);
    let ghost lines = split_lines(t@);
    assert(lines.drop_last().push(lines.last()) =~= lines);
    match parse_line(&stripped) {
        None => {},
        Some(Ok(conf)) => {
            configs.push(conf);
        },
        Some(Err(kind)) => {
            return Err(ConfigError { line: line_n, kind });
        },
    }
    Ok(MonitorSetup { configs })
}

/// A faulty line stops the reading of a text: whatever follows the line
/// feed that ends it, the text reads as that line's fault.
proof fn lemma_parse_lines_keeps_error(t: Seq<char>, n: int)
    requires
        0 <= n <= t.len(),
        parse_lines(split_lines(t.take(n)).drop_last()) is Err,
    ensures
        parse_lines(split_lines(t)) == parse_lines(split_lines(t.take(n)).drop_last()),
    decreases t.len() - n,
{
    let p = split_lines(t.take(n));
    lemma_split_lines_len(t.take(n));
    assert(p.drop_last().push(p.last()) =~= p);
    if n < t.len() {
        assert(t.take(n + 1).drop_last() =~= t.take(n));
        if t[n] == '\n' {
            assert(p.push(Seq::<char>::empty()).drop_last() =~= p);
        } else {
            let q = p.update(p.len() - 1, p.last().push(t[n]));
            assert(q.drop_last() =~= p.drop_last());
        }
        lemma_parse_lines_keeps_error(t, n + 1);
    } else {
        assert(t.take(n) =~= t);
    }
}

} // verus!
