use vstd::prelude::*;
use crate::point::{Point, V3, pts_view};
use crate::registry::Scanner;

verus! {

pub open spec fn is_digit(b: u8) -> bool {
    48 <= b <= 57
}

pub open spec fn all_digits(s: Seq<u8>) -> bool {
    s.len() > 0 && forall|i: int| 0 <= i < s.len() ==> is_digit(#[trigger] s[i])
}

/// The value of a string of decimal digits.
pub open spec fn digits_value(s: Seq<u8>) -> int
    decreases s.len(),
{
    if s.len() == 0 {
        0
    } else {
        10 * digits_value(s.drop_last()) + (s.last() - 48)
    }
}

/// An unsigned decimal number with an optional `+` sign, if it is at most `limit`.
pub open spec fn unsigned_value(s: Seq<u8>, limit: int) -> Option<int> {
    let d = if s.len() > 0 && s[0] == 43 {
        s.drop_first()
    } else {
        s
    };
    if all_digits(d) && digits_value(d) <= limit {
        Some(digits_value(d))
    } else {
        None
    }
}

/// A decimal number with an optional sign, if a 32-bit signed integer holds it.
pub open spec fn coord_value(s: Seq<u8>) -> Option<int> {
    if s.len() > 0 && s[0] == 45 {
        let d = s.drop_first();
        if all_digits(d) && digits_value(d) <= 0x8000_0000 {
            Some(-digits_value(d))
        } else {
            None
        }
    } else {
        unsigned_value(s, 0x7fff_ffff)
    }
}

/// The pieces of `l` between commas.
pub open spec fn fields(l: Seq<u8>) -> Seq<Seq<u8>>
    decreases l.len(),
{
    if l.len() == 0 {
        seq![Seq::empty()]
    } else {
        let f = fields(l.drop_last());
        if l.last() == 44 {
            f.push(Seq::empty())
        } else {
            f.update(f.len() - 1, f.last().push(l.last()))
        }
    }
}

/// A line of exactly three comma-separated coordinates.
pub open spec fn point_of(l: Seq<u8>) -> Option<V3> {
    let f = fields(l);
    if f.len() == 3 && coord_value(f[0]) is Some && coord_value(f[1]) is Some && coord_value(f[2]) is Some {
        Some((coord_value(f[0])->Some_0, coord_value(f[1])->Some_0, coord_value(f[2])->Some_0))
    } else {
        None
    }
}

/// The bytes of `--- scanner `.
pub open spec fn header_prefix() -> Seq<u8> {
    seq![45u8, 45, 45, 32, 115, 99, 97, 110, 110, 101, 114, 32]
}

pub open spec fn is_header(l: Seq<u8>) -> bool {
    l.len() >= 12 && l.take(12) == header_prefix()
}

/// The end of the word of `l` that starts at `j`.
pub open spec fn word_end(l: Seq<u8>, j: int) -> int
    decreases l.len() - j,
{
    if j < 0 || j >= l.len() || l[j] == 32 {
        j
    } else {
        word_end(l, j + 1)
    }
}

/// The id of a header line: the word after `--- scanner `.
pub open spec fn header_id(l: Seq<u8>) -> Option<int> {
    unsigned_value(l.subrange(12, word_end(l, 12)), 255)
}

/// The scanners read from `lines` so far, as ids and points, or the index
/// of the first line that cannot be read.
pub open spec fn read_model(lines: Seq<Seq<u8>>) -> Result<Seq<(u8, Seq<V3>)>, int>
    decreases lines.len(),
{
    if lines.len() == 0 {
        Ok(Seq::empty())
    } else {
        let at = lines.len() - 1;
        let l = lines.last();
        match read_model(lines.drop_last()) {
            Err(e) => Err(e),
            Ok(acc) => if l.len() == 0 {
                Ok(acc)
            } else if is_header(l) {
                match header_id(l) {
                    Some(id) => Ok(acc.push((id as u8, Seq::empty()))),
                    None => Err(at),
                }
            } else {
                match point_of(l) {
                    Some(p) => if acc.len() == 0 {
                        Err(at)
                    } else {
                        Ok(acc.update(acc.len() - 1, (acc.last().0, acc.last().1.push(p))))
                    },
                    None => Err(at),
                }
            },
        }
    }
}

proof fn lemma_digits_monotone(s: Seq<u8>, k: int)
    requires
        forall|i: int| 0 <= i < s.len() ==> is_digit(#[trigger] s[i]),
        0 <= k <= s.len(),
    ensures
        0 <= digits_value(s.take(k)) <= digits_value(s),
    decreases s.len(),
{
    if s.len() > 0 {
        if k == s.len() {
            assert(s.take(k) =~= s);
            lemma_digits_monotone(s.drop_last(), s.len() - 1);
            assert(s.drop_last().take(s.len() - 1) =~= s.drop_last());
        } else {
            lemma_digits_monotone(s.drop_last(), k);
            assert(s.drop_last().take(k) =~= s.take(k));
            lemma_digits_monotone(s.drop_last(), s.len() - 1);
            assert(s.drop_last().take(s.len() - 1) =~= s.drop_last());
        }
    } else {
        assert(s.take(k) =~= s);
    }
}

/// Reads the digits of `s` from `start` on as a number, if they are all
/// digits, at least one, and the number is at most `limit`.
fn parse_digits(s: &Vec<u8>, start: usize, limit: u64) -> (r: Option<u64>)
    requires
        start <= s.len(),
        limit <= 0x1_0000_0000,
    ensures
        ({
            let d = s@.skip(start as int);
            match r {
                Some(v) => all_digits(d) && digits_value(d) <= limit && v == digits_value(d),
                None => !(all_digits(d) && digits_value(d) <= limit),
            }
        }),
{
    let ghost d = s@.skip(start as int);
    if start == s.len() {
        return None;
    }
    let mut acc: u64 = 0;
    let mut i: usize = start;
    while i < s.len()
        invariant
            start <= i <= s.len(),
            d == s@.skip(start as int),
            forall|j: int| 0 <= j < i - start ==> is_digit(#[trigger] d[j]),
            acc == digits_value(d.take(i - start)),
            acc <= limit,
            limit <= 0x1_0000_0000,
        decreases s.len() - i,
    {
        let b = s[i];
        if b < 48 || b > 57 {
            assert(d[i - start] == b);
            return None;
        }
        assert(d.take(i - start + 1).drop_last() =~= d.take(i - start));
        acc = acc * 10 + (b - 48) as u64;
        i += 1;
        if acc > limit {
            proof {
                if all_digits(d) {
                    lemma_digits_monotone(d, i - start);
                }
            }
            return None;
        }
    }
    assert(d.take(i - start) =~= d);
    Some(acc)
}

/// Reads a 32-bit signed coordinate written in decimal.
pub fn parse_coord(field: &Vec<u8>) -> (r: Option<i64>)
    ensures
        match r {
            Some(v) => coord_value(field@) == Some(v as int),
            None => coord_value(field@) is None,
        },
{
    if field.len() > 0 && field[0] == 45 {
        assert(field@.skip(1) =~= field@.drop_first());
        match parse_digits(field, 1, 0x8000_0000) {
            Some(v) => Some(-(v as i64)),
            None => None,
        }
    } else if field.len() > 0 && field[0] == 43 {
        assert(field@.skip(1) =~= field@.drop_first());
        match parse_digits(field, 1, 0x7fff_ffff) {
            Some(v) => Some(v as i64),
            None => None,
        }
    } else {
        assert(field@.skip(0) =~= field@);
        match parse_digits(field, 0, 0x7fff_ffff) {
            Some(v) => Some(v as i64),
            None => None,
        }
    }
}

pub open spec fn bytes_view(v: Seq<Vec<u8>>) -> Seq<Seq<u8>> {
    v.map_values(|b: Vec<u8>| b@)
}

/// Cuts `line` at each comma.
pub fn split_fields(line: &Vec<u8>) -> (r: Vec<Vec<u8>>)
    ensures
        bytes_view(r@) == fields(line@),
{
    let mut out: Vec<Vec<u8>> = Vec::new();
    let mut cur: Vec<u8> = Vec::new();
    let mut i: usize = 0;
    assert(line@.take(0) =~= Seq::<u8>::empty());
    assert(bytes_view(out@).push(cur@) =~= seq![Seq::<u8>::empty()]);
    while i < line.len()
        invariant
            i <= line.len(),
            fields(line@.take(i as int)) == bytes_view(out@).push(cur@),
        decreases line.len() - i,
    {
        let b = line[i];
        assert(line@.take(i + 1).drop_last() =~= line@.take(i as int));
        if b == 44 {
            let ghost before = bytes_view(out@).push(cur@);
            out.push(cur);
            cur = Vec::new();
            assert(bytes_view(out@).push(cur@) =~= before.push(Seq::empty()));
        } else {
            let ghost before = bytes_view(out@).push(cur@);
            cur.push(b);
            assert(bytes_view(out@).push(cur@) =~= before.update(before.len() - 1, before.last().push(b)));
        }
        i += 1;
    }
    assert(line@.take(i as int) =~= line@);
    out.push(cur);
    assert(bytes_view(out@) =~= fields(line@));
    out
}

/// Reads a line of three comma-separated coordinates.
pub fn parse_point(line: &Vec<u8>) -> (r: Option<Point>)
    ensures
        match r {
            Some(p) => point_of(line@) == Some(p@),
            None => point_of(line@) is None,
        },
{
    let f = split_fields(line);
    if f.len() != 3 {
        return None;
    }
    assert(f[0]@ == fields(line@)[0] && f[1]@ == fields(line@)[1] && f[2]@ == fields(line@)[2]);
    let x = parse_coord(&f[0]);
    let y = parse_coord(&f[1]);
    let z = parse_coord(&f[2]);
    match (x, y, z) {
        (Some(x), Some(y), Some(z)) => Some(Point::new(x, y, z)),
        _ => None,
    }
}

/// Whether `line` starts with `--- scanner `.
pub fn is_header_line(line: &Vec<u8>) -> (r: bool)
    ensures
        r == is_header(line@),
{
    let prefix: Vec<u8> = vec![45u8, 45, 45, 32, 115, 99, 97, 110, 110, 101, 114, 32];
    assert(prefix@ =~= header_prefix());
    if line.len() < 12 {
        return false;
    }
    let mut i: usize = 0;
    while i < 12
        invariant
            i <= 12 <= line.len(),
            prefix@ == header_prefix(),
            forall|j: int| 0 <= j < i ==> line[j] == #[trigger] prefix[j],
        decreases 12 - i,
    {
        if line[i] != prefix[i] {
            assert(line@.take(12)[i as int] != header_prefix()[i as int]);
            return false;
        }
        i += 1;
    }
    assert(line@.take(12) =~= header_prefix());
    true
}

/// Reads the id of a header line: the word after `--- scanner `, a number
/// from 0 to 255.
pub fn parse_header_id(line: &Vec<u8>) -> (r: Option<u8>)
    requires
        is_header(line@),
    ensures
        match r {
            Some(id) => header_id(line@) == Some(id as int),
            None => header_id(line@) is None,
        },
{
    let mut j: usize = 12;
    while j < line.len() && line[j] != 32
        invariant
            12 <= j <= line.len(),
            word_end(line@, 12) == word_end(line@, j as int),
        decreases line.len() - j,
    {
        j += 1;
    }
    let mut word: Vec<u8> = Vec::new();
    let mut k: usize = 12;
    while k < j
        invariant
            12 <= k <= j <= line.len(),
            word@ == line@.subrange(12, k as int),
        decreases j - k,
    {
        word.push(line[k]);
        k += 1;
        assert(word@ =~= line@.subrange(12, k as int));
    }
    let r = if word.len() > 0 && word[0] == 43 {
        assert(word@.skip(1) =~= word@.drop_first());
        parse_digits(&word, 1, 255)
    } else {
        assert(word@.skip(0) =~= word@);
        parse_digits(&word, 0, 255)
    };
    match r {
        Some(v) => Some(v as u8),
        None => None,
    }
}

#[derive(Debug, Clone, Copy, PartialEq, Eq, Structural)]
pub enum ReadError {
    /// The line with this index (from 0) is neither blank, nor a header with
    /// an id, nor three coordinates that follow a header.
    MalformedInput { line: usize },
}

pub open spec fn scanners_view(v: Seq<Scanner>) -> Seq<(u8, Seq<V3>)> {
    v.map_values(|s: Scanner| (s.num, pts_view(s.points@)))
}

proof fn lemma_error_sticks(ls: Seq<Seq<u8>>, k: int)
    requires
        0 <= k <= ls.len(),
        read_model(ls.take(k)) is Err,
    ensures
        read_model(ls) == read_model(ls.take(k)),
    decreases ls.len(),
{
    if k == ls.len() {
        assert(ls.take(k) =~= ls);
    } else {
        assert(ls.drop_last().take(k) =~= ls.take(k));
        lemma_error_sticks(ls.drop_last(), k);
    }
}

/// Reads scanners from lines: a header `--- scanner <id>` opens a scanner,
/// each line `x,y,z` below it adds a point, blank lines are skipped.
pub fn read_scanners(lines: &Vec<Vec<u8>>) -> (r: Result<Vec<Scanner>, ReadError>)
    ensures
        match read_model(bytes_view(lines@)) {
            Ok(m) => r matches Ok(v) && scanners_view(v@) == m && forall|i: int|
                0 <= i < v.len() ==> !(#[trigger] v[i]).is_registered() && v[i].wf(),
            Err(at) => r == Err::<Vec<Scanner>, ReadError>(ReadError::MalformedInput { line: at as usize }),
        },
{
    let ghost ls = bytes_view(lines@);
    let mut out: Vec<Scanner> = Vec::new();
    let mut current: Option<Scanner> = None;
    let mut i: usize = 0;
    assert(ls.take(0) =~= Seq::<Seq<u8>>::empty());
    assert(scanners_view(out@) =~= Seq::<(u8, Seq<V3>)>::empty());
    while i < lines.len()
        invariant
            i <= lines.len(),
            ls == bytes_view(lines@),
            current is None ==> out.len() == 0,
            read_model(ls.take(i as int)) == Ok::<Seq<(u8, Seq<V3>)>, int>(
                match current {
                    Some(c) => scanners_view(out@).push((c.num, pts_view(c.points@))),
                    None => scanners_view(out@),
                },
            ),
            forall|j: int| 0 <= j < out.len() ==> !(#[trigger] out[j]).is_registered() && out[j].wf(),
            current matches Some(c) ==> !c.is_registered() && c.wf(),
        decreases lines.len() - i,
    {
        let line = &lines[i];
        assert(ls.take(i + 1).drop_last() =~= ls.take(i as int));
        assert(ls.take(i + 1).last() == line@);
        if line.len() == 0 {
        } else if is_header_line(line) {
            match parse_header_id(line) {
                Some(id) => {
                    let ghost acc = scanners_view(out@);
                    match current {
                        Some(c) => {
                            out.push(c);
                            assert(scanners_view(out@) =~= acc.push((c.num, pts_view(c.points@))));
                        },
                        None => {},
                    }
                    current = Some(Scanner::new(id));
                    assert(pts_view(Seq::<Point>::empty()) =~= Seq::<V3>::empty());
                },
                None => {
                    proof {
                        lemma_error_sticks(ls, i + 1);
                    }
                    return Err(ReadError::MalformedInput { line: i });
                },
            }
        } else {
            match parse_point(line) {
                Some(p) => match current {
                    Some(c) => {
                        let mut c = c;
                        let ghost before = pts_view(c.points@);
                        c.add_point(p);
                        assert(pts_view(c.points@) =~= before.push(p@));
                        let ghost acc = scanners_view(out@);
                        assert(acc.push((c.num, before)).update(acc.len() as int, (c.num, before.push(p@)))
                            =~= acc.push((c.num, pts_view(c.points@))));
                        current = Some(c);
                    },
                    None => {
                        proof {
                            lemma_error_sticks(ls, i + 1);
                        }
                        return Err(ReadError::MalformedInput { line: i });
                    },
                },
                None => {
                    proof {
                        lemma_error_sticks(ls, i + 1);
                    }
                    return Err(ReadError::MalformedInput { line: i });
                },
            }
        }
        i += 1;
    }
    assert(ls.take(i as int) =~= ls);
    match current {
        Some(c) => {
            let ghost acc = scanners_view(out@);
            out.push(c);
            assert(scanners_view(out@) =~= acc.push((c.num, pts_view(c.points@))));
        },
        None => {},
    }
    Ok(out)
}

} // verus!
