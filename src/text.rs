//! Text helpers: whitespace trimming and splitting a line into fields.
use vstd::prelude::*;

verus! {

/// The field delimiter of the format.
pub const DELIMITER_CHAR: char = '|';

/// Unicode `White_Space` property, as `char::is_whitespace` and `str::trim` use it.
pub open spec fn is_white_space(c: char) -> bool {
    let u = c as u32;
    (0x09 <= u && u <= 0x0d) || u == 0x20 || u == 0x85 || u == 0xa0 || u == 0x1680 || (0x2000
        <= u && u <= 0x200a) || u == 0x2028 || u == 0x2029 || u == 0x202f || u == 0x205f || u
        == 0x3000
}

/// `s` without its leading whitespace.
pub open spec fn trim_start(s: Seq<char>) -> Seq<char>
    decreases s.len(),
{
    if s.len() > 0 && is_white_space(s[0]) {
        trim_start(s.drop_first())
    } else {
        s
    }
}

/// `s` without its trailing whitespace.
pub open spec fn trim_end(s: Seq<char>) -> Seq<char>
    decreases s.len(),
{
    if s.len() > 0 && is_white_space(s.last()) {
        trim_end(s.drop_last())
    } else {
        s
    }
}

/// `s` without whitespace at either end.
pub open spec fn trim(s: Seq<char>) -> Seq<char> {
    trim_end(trim_start(s))
}

/// The pieces of `s` between occurrences of `d`: one more piece than there
/// are occurrences, empty pieces included.
pub open spec fn split_on<A>(s: Seq<A>, d: A) -> Seq<Seq<A>>
    decreases s.len(),
{
    if s.len() == 0 {
        seq![Seq::empty()]
    } else {
        let p = split_on(s.drop_last(), d);
        if s.last() == d {
            p.push(Seq::empty())
        } else {
            p.update(p.len() - 1, p.last().push(s.last()))
        }
    }
}

/// The fields of a line: the pieces between delimiters, trimmed, without
/// the piece before the first delimiter and the one after the last.
pub open spec fn fields_of(t: Seq<char>) -> Seq<Seq<char>> {
    let p = split_on(t, DELIMITER_CHAR);
    if p.len() >= 2 {
        p.subrange(1, p.len() - 1).map_values(|f: Seq<char>| trim(f))
    } else {
        Seq::empty()
    }
}

/// Whether `c` is whitespace.
pub fn is_white_space_char(c: char) -> (r: bool)
    ensures
        r == is_white_space(c),
{
    let u = c as u32;
    (0x09 <= u && u <= 0x0d) || u == 0x20 || u == 0x85 || u == 0xa0 || u == 0x1680 || (0x2000
        <= u && u <= 0x200a) || u == 0x2028 || u == 0x2029 || u == 0x202f || u == 0x205f || u
        == 0x3000
}

/// The characters of `s`, one by one.
pub fn chars_of(s: &str) -> (v: Vec<char>)
    ensures
        v@ == s@,
{
    let n = s.unicode_len();
    let mut v: Vec<char> = Vec::new();
    let mut i: usize = 0;
    while i < n
        invariant
            n == s@.len(),
            i <= n,
            v@ == s@.take(i as int),
        decreases n - i,
    {
        v.push(s.get_char(i));
        i = i + 1;
        assert(v@ =~= s@.take(i as int));
    }
    assert(v@ =~= s@);
    v
}

/// Bounds `(a, b)` such that `v[a..b]` is `v[lo..hi]` trimmed.
pub fn trim_bounds(v: &Vec<char>, lo: usize, hi: usize) -> (r: (usize, usize))
    requires
        lo <= hi <= v@.len(),
    ensures
        lo <= r.0 <= r.1 <= hi,
        v@.subrange(r.0 as int, r.1 as int) == trim(v@.subrange(lo as int, hi as int)),
{
    let mut a = lo;
    while a < hi && is_white_space_char(v[a])
        invariant
            lo <= a <= hi <= v@.len(),
            trim_start(v@.subrange(lo as int, hi as int)) == trim_start(
                v@.subrange(a as int, hi as int),
            ),
        decreases hi - a,
    {
        assert(v@.subrange(a as int, hi as int).drop_first() =~= v@.subrange(
            a + 1,
            hi as int,
        ));
        a = a + 1;
    }
    let mut b = hi;
    while b > a && is_white_space_char(v[b - 1])
        invariant
            lo <= a <= b <= hi <= v@.len(),
            trim_end(v@.subrange(a as int, hi as int)) == trim_end(v@.subrange(a as int, b as int)),
        decreases b - a,
    {
        assert(v@.subrange(a as int, b as int).drop_last() =~= v@.subrange(
            a as int,
            b - 1,
        ));
        b = b - 1;
    }
    (a, b)
}

/// Splits a line into its fields: the text between each pair of consecutive
/// delimiters, with surrounding whitespace removed.
pub fn split_line(line: &str) -> (r: Vec<String>)
    ensures
        r@.map_values(|f: String| f@) == fields_of(line@),
{
    let v = chars_of(line);
    let n = v.len();
    let mut fields: Vec<String> = Vec::new();
    let ghost mut pieces: Seq<Seq<char>> = Seq::empty();
    let mut start: usize = 0;
    let mut seen: bool = false;
    let mut i: usize = 0;
    assert(v@.take(0) =~= Seq::<char>::empty());
    assert(v@.subrange(0, 0) =~= Seq::<char>::empty());
    while i < n
        invariant
            seen == (pieces.len() >= 1),
            v@ == line@,
            n == v@.len(),
            start <= i <= n,
            split_on(v@.take(i as int), DELIMITER_CHAR) == pieces.push(
                v@.subrange(start as int, i as int),
            ),
            pieces.len() == 0 ==> fields@.len() == 0,
            pieces.len() >= 1 ==> fields@.map_values(|f: String| f@) == pieces.subrange(
                1,
                pieces.len() as int,
            ).map_values(|f: Seq<char>| trim(f)),
        decreases n - i,
    {
        assert(v@.take(i + 1).drop_last() =~= v@.take(i as int));
        if v[i] == DELIMITER_CHAR {
            if seen {
                let (a, b) = trim_bounds(&v, start, i);
                let f = line.substring_char(a, b).to_owned();
                let ghost before = fields@;
                fields.push(f);
                assert(fields@.map_values(|f: String| f@) =~= before.map_values(|f: String| f@).push(
                    trim(v@.subrange(start as int, i as int)),
                ));
            }
            seen = true;
            proof {
                let old_pieces = pieces;
                pieces = pieces.push(v@.subrange(start as int, i as int));
                assert(v@.subrange((i + 1) as int, (i + 1) as int) =~= Seq::<char>::empty());
                if old_pieces.len() >= 1 {
                    assert(pieces.subrange(1, pieces.len() as int) =~= old_pieces.subrange(
                        1,
                        old_pieces.len() as int,
                    ).push(pieces.last()));
                    assert(pieces.subrange(1, pieces.len() as int).map_values(
                        |f: Seq<char>| trim(f),
                    ) =~= old_pieces.subrange(1, old_pieces.len() as int).map_values(
                        |f: Seq<char>| trim(f),
                    ).push(trim(pieces.last())));
                } else {
                    assert(pieces.subrange(1, pieces.len() as int) =~= Seq::<Seq<char>>::empty());
                }
            }
            start = i + 1;
        } else {
            proof {
                assert(v@.subrange(start as int, i + 1) =~= v@.subrange(
                    start as int,
                    i as int,
                ).push(v@[i as int]));
            }
        }
        i = i + 1;
    }
    assert(v@.take(n as int) =~= v@);
    proof {
        if pieces.len() >= 1 {
            let p = pieces.push(v@.subrange(start as int, n as int));
            assert(p.subrange(1, p.len() - 1) =~= pieces.subrange(1, pieces.len() as int));
        }
    }
    fields
}

} // verus!
