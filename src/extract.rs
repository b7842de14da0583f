//! Extraction of the keys of one line and of one file.
use vstd::prelude::*;
use vstd::slice::slice_subrange;
use crate::decode::{decoded, get_string_utf8, trim_ascii, trim_ascii_bounds};
use crate::error::MyError;
use crate::keys::{find_keys, is_key, keys_in, lemma_found_keys_are_keys};
use crate::keyset::KeySet;
use crate::text::{fields_of, split_line, split_on};

verus! {

/// Byte that ends a line.
pub const NEWLINE_BYTE: u8 = 10;

/// First field of the line that ends the data of a file.
pub open spec fn end_marker() -> Seq<char> {
    seq!['9', '9', '9', '9']
}

/// Whether the line is the end-of-data line: its first field is `9999`.
pub open spec fn is_stop(t: Seq<char>) -> bool {
    fields_of(t).len() > 0 && fields_of(t)[0] == end_marker()
}

/// The keys of each field, in field order.
pub open spec fn keys_of_fields(fs: Seq<Seq<char>>) -> Seq<Seq<char>>
    decreases fs.len(),
{
    if fs.len() == 0 {
        Seq::empty()
    } else {
        keys_of_fields(fs.drop_last()) + keys_in(fs.last())
    }
}

/// The keys of a line.
pub open spec fn line_keys(t: Seq<char>) -> Seq<Seq<char>> {
    keys_of_fields(fields_of(t))
}

/// What becomes of one line.
#[derive(Debug, PartialEq, Eq)]
pub enum LineOutcome {
    /// The keys of the line, in the order of its fields (maybe none).
    KeysFound(Vec<String>),
    /// Fewer than two fields: the line is passed over.
    Skipped,
    /// The end-of-data line: nothing after it is read.
    Stop,
    /// The line could not be decoded.
    Failed(MyError),
}

/// The outcome that a decoded line `t` gets.
pub open spec fn classified(t: Seq<char>, r: LineOutcome) -> bool {
    if is_stop(t) {
        r is Stop
    } else if fields_of(t).len() < 2 {
        r is Skipped
    } else {
        r is KeysFound && r->KeysFound_0@.map_values(|k: String| k@) == line_keys(t)
    }
}

/// Classifies a decoded line: the end-of-data line, a line with too few
/// fields, or the keys of its fields.
pub fn classify_text(line: &str) -> (r: LineOutcome)
    ensures
        classified(line@, r),
{
    let fields = split_line(line);
    let ghost fv = fields@.map_values(|f: String| f@);
    if fields.len() > 0 {
        let first = fields[0].as_str();
        if first.unicode_len() == 4 && first.get_char(0) == '9' && first.get_char(1) == '9'
            && first.get_char(2) == '9' && first.get_char(3) == '9' {
            assert(fv[0] == first@);
            assert(first@ =~= end_marker());
            return LineOutcome::Stop;
        }
        assert(fv[0] == first@);
        assert(first@ != end_marker()) by {
            if first@ == end_marker() {
                assert(first@[0] == '9');
            }
        }
    }
    if fields.len() < 2 {
        return LineOutcome::Skipped;
    }
    let mut keys: Vec<String> = Vec::new();
    let mut i: usize = 0;
    while i < fields.len()
        invariant
            fv == fields@.map_values(|f: String| f@),
            i <= fields@.len(),
            keys@.map_values(|k: String| k@) == keys_of_fields(fv.take(i as int)),
        decreases fields.len() - i,
    {
        let found = find_keys(fields[i].as_str());
        let ghost before = keys@.map_values(|k: String| k@);
        let mut j: usize = 0;
        assert(found@.map_values(|k: String| k@).take(0) =~= Seq::<Seq<char>>::empty());
        while j < found.len()
            invariant
                j <= found@.len(),
                keys@.map_values(|k: String| k@) == before + found@.map_values(
                    |k: String| k@,
                ).take(j as int),
            decreases found.len() - j,
        {
            let ghost prev = keys@;
            keys.push(found[j].clone());
            assert(keys@.map_values(|k: String| k@) =~= prev.map_values(|k: String| k@).push(
                found@[j as int]@,
            ));
            assert(found@.map_values(|k: String| k@).take(j + 1) =~= found@.map_values(
                |k: String| k@,
            ).take(j as int).push(found@[j as int]@));
            j = j + 1;
        }
        proof {
            assert(found@.map_values(|k: String| k@).take(j as int) =~= found@.map_values(
                |k: String| k@,
            ));
            assert(fv.take(i + 1).drop_last() =~= fv.take(i as int));
            assert(fv[i as int] == fields@[i as int]@);
        }
        i = i + 1;
    }
    assert(fv.take(i as int) =~= fv);
    LineOutcome::KeysFound(keys)
}

} // verus!

verus! {

/// What becomes of a line of raw bytes: it is trimmed of ASCII whitespace,
/// decoded, and classified.
pub open spec fn line_processed(b: Seq<u8>, line_number: usize, file: Seq<char>, r: LineOutcome) -> bool {
    match decoded(trim_ascii(b)) {
        Some(t) => classified(t, r),
        None => r is Failed && r->Failed_0 is EncodingError && r->Failed_0->EncodingError_0@
            == file && r->Failed_0->EncodingError_1 == line_number,
    }
}

/// Processes line `line_number` of `file_path`: decodes it and classifies it.
pub fn process_line_for_keys(line_bytes: &[u8], line_number: usize, file_path: &str) -> (r:
    LineOutcome)
    ensures
        line_processed(line_bytes@, line_number, file_path@, r),
{
    let (a, b) = trim_ascii_bounds(line_bytes, 0, line_bytes.len());
    assert(line_bytes@.subrange(0, line_bytes@.len() as int) =~= line_bytes@);
    let trimmed = slice_subrange(line_bytes, a, b);
    match get_string_utf8(trimmed, line_number, file_path) {
        Ok(text) => classify_text(text.as_str()),
        Err(e) => LineOutcome::Failed(e),
    }
}

/// The lines of a file's bytes: the pieces between line feeds, without an
/// empty piece after a final line feed.
pub open spec fn lines_of(b: Seq<u8>) -> Seq<Seq<u8>> {
    let p = split_on(b, NEWLINE_BYTE);
    if p.last().len() == 0 {
        p.drop_last()
    } else {
        p
    }
}

/// The outcome of reading lines `i` on, with the keys `acc` found before:
/// the keys found up to the end or to the end-of-data line, or the number
/// (counted from 1) of the line that could not be decoded.
pub open spec fn scan(lines: Seq<Seq<u8>>, i: int, acc: Set<Seq<char>>) -> Result<
    Set<Seq<char>>,
    int,
>
    decreases lines.len() - i,
{
    if i < 0 || i >= lines.len() {
        Ok(acc)
    } else {
        match decoded(trim_ascii(lines[i])) {
            None => Err(i + 1),
            Some(t) => if is_stop(t) {
                Ok(acc)
            } else if fields_of(t).len() < 2 {
                scan(lines, i + 1, acc)
            } else {
                scan(lines, i + 1, acc + line_keys(t).to_set())
            },
        }
    }
}

/// The keys of a file, or the line that could not be decoded.
pub open spec fn file_keys(content: Seq<u8>) -> Result<Set<Seq<char>>, int> {
    scan(lines_of(content), 0, Set::empty())
}

/// What extracting the keys of `content`, named `file`, gives.
pub open spec fn extracted(file: Seq<char>, content: Seq<u8>, r: Result<KeySet, MyError>) -> bool {
    match file_keys(content) {
        Ok(s) => r is Ok && r->Ok_0.wf() && r->Ok_0@.to_set() == s,
        Err(n) => r is Err && r->Err_0 is EncodingError && r->Err_0->EncodingError_0@ == file
            && r->Err_0->EncodingError_1 == n,
    }
}

/// Start and end of each line of `content`.
pub fn line_bounds(content: &[u8]) -> (r: Vec<(usize, usize)>)
    ensures
        r@.len() == lines_of(content@).len(),
        forall|k: int|
            0 <= k < r@.len() ==> (#[trigger] r@[k]).0 <= r@[k].1 <= content@.len()
                && content@.subrange(r@[k].0 as int, r@[k].1 as int) == lines_of(content@)[k],
{
    let n = content.len();
    let mut r: Vec<(usize, usize)> = Vec::new();
    let ghost mut pieces: Seq<Seq<u8>> = Seq::empty();
    let mut start: usize = 0;
    let mut i: usize = 0;
    assert(content@.take(0) =~= Seq::<u8>::empty());
    assert(content@.subrange(0, 0) =~= Seq::<u8>::empty());
    while i < n
        invariant
            n == content@.len(),
            start <= i <= n,
            split_on(content@.take(i as int), NEWLINE_BYTE) == pieces.push(
                content@.subrange(start as int, i as int),
            ),
            r@.len() == pieces.len(),
            forall|k: int|
                0 <= k < r@.len() ==> (#[trigger] r@[k]).0 <= r@[k].1 <= n && content@.subrange(
                    r@[k].0 as int,
                    r@[k].1 as int,
                ) == pieces[k],
        decreases n - i,
    {
        assert(content@.take(i + 1).drop_last() =~= content@.take(i as int));
        if content[i] == NEWLINE_BYTE {
            let ghost before = r@;
            r.push((start, i));
            proof {
                pieces = pieces.push(content@.subrange(start as int, i as int));
                assert forall|k: int| 0 <= k < r@.len() implies (#[trigger] r@[k]).0 <= r@[k].1
                    <= n && content@.subrange(r@[k].0 as int, r@[k].1 as int) == pieces[k] by {
                    if k < before.len() {
                        assert(r@[k] == before[k]);
                    }
                }
                assert(content@.subrange((i + 1) as int, (i + 1) as int) =~= Seq::<u8>::empty());
            }
            start = i + 1;
        } else {
            assert(content@.subrange(start as int, i + 1) =~= content@.subrange(
                start as int,
                i as int,
            ).push(content@[i as int]));
        }
        i = i + 1;
    }
    assert(content@.take(n as int) =~= content@);
    let ghost p = pieces.push(content@.subrange(start as int, n as int));
    if start < n {
        let ghost before = r@;
        r.push((start, n));
        assert(p.last().len() > 0);
        assert forall|k: int| 0 <= k < r@.len() implies (#[trigger] r@[k]).0 <= r@[k].1
            <= content@.len() && content@.subrange(r@[k].0 as int, r@[k].1 as int)
            == lines_of(content@)[k] by {
            if k < before.len() {
                assert(r@[k] == before[k]);
            }
        }
    } else {
        assert(p.drop_last() =~= pieces);
    }
    r
}

/// Extracts the keys of one file from its bytes. Lines are read in order,
/// from line 1; reading ends, successfully, at the end-of-data line or at
/// the end of the bytes, and fails at the first line that cannot be decoded.
pub fn get_map(file_name: &str, content: &[u8]) -> (r: Result<KeySet, MyError>)
    ensures
        extracted(file_name@, content@, r),
        r is Ok ==> forall|k: Seq<char>| #[trigger] r->Ok_0@.contains(k) ==> is_key(k),
{
    let bounds = line_bounds(content);
    let ghost lines = lines_of(content@);
    let mut keys = KeySet::new();
    let mut k: usize = 0;
    assert(keys@.to_set() =~= Set::<Seq<char>>::empty());
    while k < bounds.len()
        invariant
            lines == lines_of(content@),
            bounds@.len() == lines.len(),
            forall|m: int|
                0 <= m < bounds@.len() ==> (#[trigger] bounds@[m]).0 <= bounds@[m].1
                    <= content@.len() && content@.subrange(bounds@[m].0 as int, bounds@[m].1 as int)
                    == lines[m],
            k <= bounds@.len(),
            keys.wf(),
            file_keys(content@) == scan(lines, k as int, keys@.to_set()),
            forall|x: Seq<char>| #[trigger] keys@.to_set().contains(x) ==> is_key(x),
        decreases bounds.len() - k,
    {
        let (a, b) = bounds[k];
        let line = slice_subrange(content, a, b);
        let outcome = process_line_for_keys(line, k + 1, file_name);
        match outcome {
            LineOutcome::KeysFound(found) => {
                let ghost t = decoded(trim_ascii(lines[k as int]))->0;
                proof {
                    lemma_line_keys_are_keys(t);
                }
                let ghost fv = found@.map_values(|x: String| x@);
                keys.insert_all(found);
                proof {
                    assert forall|x: Seq<char>| #[trigger] keys@.to_set().contains(x) implies is_key(
                        x,
                    ) by {
                        if fv.contains(x) {
                            let j = choose|j: int| 0 <= j < fv.len() && fv[j] == x;
                        }
                    }
                }
            },
            LineOutcome::Skipped => {},
            LineOutcome::Stop => {
                proof {
                    assert forall|x: Seq<char>| #[trigger] keys@.contains(x) implies is_key(x) by {
                        assert(keys@.to_set().contains(x));
                    }
                }
                return Ok(keys);
            },
            LineOutcome::Failed(e) => {
                return Err(e);
            },
        }
        k = k + 1;
    }
    proof {
        assert forall|x: Seq<char>| #[trigger] keys@.contains(x) implies is_key(x) by {
            assert(keys@.to_set().contains(x));
        }
    }
    Ok(keys)
}

/// The keys of a line are keys.
pub proof fn lemma_line_keys_are_keys(t: Seq<char>)
    ensures
        forall|j: int| 0 <= j < line_keys(t).len() ==> is_key(#[trigger] line_keys(t)[j]),
{
    lemma_keys_of_fields_are_keys(fields_of(t));
}

proof fn lemma_keys_of_fields_are_keys(fs: Seq<Seq<char>>)
    ensures
        forall|j: int| 0 <= j < keys_of_fields(fs).len() ==> is_key(#[trigger] keys_of_fields(fs)[j]),
    decreases fs.len(),
{
    if fs.len() > 0 {
        lemma_keys_of_fields_are_keys(fs.drop_last());
        lemma_found_keys_are_keys(fs.last());
        let a = keys_of_fields(fs.drop_last());
        let b = keys_in(fs.last());
        assert forall|j: int| 0 <= j < keys_of_fields(fs).len() implies is_key(
            #[trigger] keys_of_fields(fs)[j],
        ) by {
            if j < a.len() {
                assert(keys_of_fields(fs)[j] == a[j]);
            } else {
                assert(keys_of_fields(fs)[j] == b[j - a.len()]);
            }
        }
    }
}

} // verus!

verus! {

proof fn lemma_scan_keys(lines: Seq<Seq<u8>>, i: int, acc: Set<Seq<char>>)
    requires
        forall|x: Seq<char>| #[trigger] acc.contains(x) ==> is_key(x),
    ensures
        scan(lines, i, acc) is Ok ==> forall|x: Seq<char>| #[trigger] scan(
            lines,
            i,
            acc,
        )->Ok_0.contains(x) ==> is_key(x),
    decreases lines.len() - i,
{
    if 0 <= i < lines.len() {
        if let Some(t) = decoded(trim_ascii(lines[i])) {
            if !is_stop(t) {
                if fields_of(t).len() < 2 {
                    lemma_scan_keys(lines, i + 1, acc);
                } else {
                    let next = acc + line_keys(t).to_set();
                    lemma_line_keys_are_keys(t);
                    assert forall|x: Seq<char>| #[trigger] next.contains(x) implies is_key(x) by {
                        if line_keys(t).contains(x) {
                            let j = choose|j: int| 0 <= j < line_keys(t).len() && line_keys(t)[j] == x;
                        }
                    }
                    lemma_scan_keys(lines, i + 1, next);
                }
            }
        }
    }
}

/// Every key extracted from a file has 44 characters, all of them digits.
pub proof fn lemma_file_keys_are_keys(content: Seq<u8>)
    ensures
        file_keys(content) is Ok ==> forall|x: Seq<char>| #[trigger] file_keys(
            content,
        )->Ok_0.contains(x) ==> is_key(x),
{
    lemma_scan_keys(lines_of(content), 0, Set::empty());
}

proof fn lemma_scan_stops(
    lines: Seq<Seq<u8>>,
    rest: Seq<Seq<u8>>,
    i: int,
    k: int,
    acc: Set<Seq<char>>,
)
    requires
        0 <= k <= i < lines.len(),
        decoded(trim_ascii(lines[i])) is Some,
        is_stop(decoded(trim_ascii(lines[i]))->0),
    ensures
        scan(lines + rest, k, acc) == scan(lines, k, acc),
    decreases i - k,
{
    assert((lines + rest)[k] == lines[k]);
    if k < i {
        let t = decoded(trim_ascii(lines[k]));
        if t is Some && !is_stop(t->0) {
            if fields_of(t->0).len() < 2 {
                lemma_scan_stops(lines, rest, i, k + 1, acc);
            } else {
                lemma_scan_stops(lines, rest, i, k + 1, acc + line_keys(t->0).to_set());
            }
        }
    }
}

/// Nothing after the end-of-data line is read: once a line decodes to a
/// line whose first field is `9999`, whatever lines follow leave the
/// outcome unchanged.
pub proof fn lemma_nothing_after_end_marker(lines: Seq<Seq<u8>>, i: int, rest: Seq<Seq<u8>>)
    requires
        0 <= i < lines.len(),
        decoded(trim_ascii(lines[i])) is Some,
        is_stop(decoded(trim_ascii(lines[i]))->0),
    ensures
        scan(lines + rest, 0, Set::empty()) == scan(lines, 0, Set::empty()),
{
    lemma_scan_stops(lines, rest, i, 0, Set::empty());
}

/// An empty file has no keys and is no error.
pub proof fn lemma_empty_file()
    ensures
        file_keys(Seq::empty()) == Ok::<Set<Seq<char>>, int>(Set::empty()),
{
    let e = Seq::<u8>::empty();
    assert(split_on(e, NEWLINE_BYTE) == seq![Seq::<u8>::empty()]);
    assert(lines_of(e) =~= Seq::<Seq<u8>>::empty());
}

} // verus!

verus! {

/// Extracts the keys of one file from its bytes; the same extraction as
/// `get_map`, under the name its callers know it by.
pub fn get_map_funcional(file_name: &str, content: &[u8]) -> (r: Result<KeySet, MyError>)
    ensures
        extracted(file_name@, content@, r),
        r is Ok ==> forall|k: Seq<char>| #[trigger] r->Ok_0@.contains(k) ==> is_key(k),
{
    get_map(file_name, content)
}

} // verus!
