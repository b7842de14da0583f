//! Recognition of 44-digit keys inside free text.
use vstd::prelude::*;
use crate::text::chars_of;

verus! {

/// Number of digits in a key.
pub const KEY_LEN: usize = 44;

pub open spec fn is_digit(c: char) -> bool {
    '0' <= c && c <= '9'
}

/// A key: exactly 44 ASCII digits.
pub open spec fn is_key(k: Seq<char>) -> bool {
    k.len() == KEY_LEN && forall|i: int| 0 <= i < k.len() ==> is_digit(#[trigger] k[i])
}

/// Length of the run of digits that starts at `i`.
pub open spec fn run_len(s: Seq<char>, i: int) -> nat
    decreases s.len() - i,
{
    if 0 <= i < s.len() && is_digit(s[i]) {
        1 + run_len(s, i + 1)
    } else {
        0
    }
}

/// Whether a run of exactly 44 digits, not preceded by a digit, begins at `i`.
pub open spec fn starts_key(s: Seq<char>, i: int) -> bool {
    0 <= i < s.len() && (i == 0 || !is_digit(s[i - 1])) && run_len(s, i) == KEY_LEN
}

/// The keys that begin at position `i` or later.
pub open spec fn keys_from(s: Seq<char>, i: int) -> Seq<Seq<char>>
    decreases s.len() - i,
{
    if i < 0 || i >= s.len() {
        Seq::empty()
    } else if starts_key(s, i) {
        seq![s.subrange(i, i + KEY_LEN)].add(keys_from(s, i + 1))
    } else {
        keys_from(s, i + 1)
    }
}

/// Every maximal run of digits of length exactly 44 in `s`, left to right.
pub open spec fn keys_in(s: Seq<char>) -> Seq<Seq<char>> {
    keys_from(s, 0)
}

pub proof fn lemma_run_len_bounds(s: Seq<char>, i: int)
    requires
        0 <= i <= s.len(),
    ensures
        i + run_len(s, i) <= s.len(),
        forall|k: int| i <= k < i + run_len(s, i) ==> is_digit(#[trigger] s[k]),
        i + run_len(s, i) < s.len() ==> !is_digit(s[i + run_len(s, i)]),
    decreases s.len() - i,
{
    if i < s.len() && is_digit(s[i]) {
        lemma_run_len_bounds(s, i + 1);
    }
}

/// What `keys_from` yields is a sequence of keys.
pub proof fn lemma_keys_from_are_keys(s: Seq<char>, i: int)
    ensures
        forall|j: int| 0 <= j < keys_from(s, i).len() ==> is_key(#[trigger] keys_from(s, i)[j]),
    decreases s.len() - i,
{
    if 0 <= i < s.len() {
        lemma_keys_from_are_keys(s, i + 1);
        if starts_key(s, i) {
            lemma_run_len_bounds(s, i);
            let k = s.subrange(i, i + KEY_LEN);
            assert forall|m: int| 0 <= m < k.len() implies is_digit(#[trigger] k[m]) by {
                assert(k[m] == s[i + m]);
            }
            let rest = keys_from(s, i + 1);
            assert forall|j: int| 0 <= j < keys_from(s, i).len() implies is_key(
                #[trigger] keys_from(s, i)[j],
            ) by {
                if j > 0 {
                    assert(keys_from(s, i)[j] == rest[j - 1]);
                }
            }
        }
    }
}

/// Inside a run of digits no key begins.
proof fn lemma_skip_run(s: Seq<char>, k: int, j: int)
    requires
        0 < k <= j <= s.len(),
        forall|m: int| k - 1 <= m < j ==> is_digit(#[trigger] s[m]),
    ensures
        keys_from(s, k) == keys_from(s, j),
    decreases j - k,
{
    if k < j {
        assert(is_digit(s[k - 1]));
        lemma_skip_run(s, k + 1, j);
    }
}

/// Every key found in a text has exactly 44 characters, all of them digits.
pub proof fn lemma_found_keys_are_keys(s: Seq<char>)
    ensures
        forall|j: int| 0 <= j < keys_in(s).len() ==> is_key(#[trigger] keys_in(s)[j]),
{
    lemma_keys_from_are_keys(s, 0);
}

/// No run of digits crosses from the end of `x` into the start of `y`.
pub open spec fn separated(x: Seq<char>, y: Seq<char>) -> bool {
    x.len() == 0 || y.len() == 0 || !is_digit(x.last()) || !is_digit(y[0])
}

proof fn lemma_run_len_prefix(x: Seq<char>, y: Seq<char>, i: int)
    requires
        separated(x, y),
        0 <= i < x.len(),
    ensures
        run_len(x + y, i) == run_len(x, i),
    decreases x.len() - i,
{
    let s = x + y;
    assert(s[i] == x[i]);
    if is_digit(x[i]) {
        if i + 1 < x.len() {
            lemma_run_len_prefix(x, y, i + 1);
        } else {
            assert(x.last() == x[i]);
            if y.len() > 0 {
                assert(s[i + 1] == y[0]);
            }
            assert(run_len(s, i + 1) == 0);
            assert(run_len(x, i + 1) == 0);
        }
    }
}

proof fn lemma_run_len_suffix(x: Seq<char>, y: Seq<char>, i: int)
    requires
        0 <= i <= y.len(),
    ensures
        run_len(x + y, x.len() + i) == run_len(y, i),
    decreases y.len() - i,
{
    if i < y.len() {
        assert((x + y)[x.len() + i] == y[i]);
        lemma_run_len_suffix(x, y, i + 1);
    }
}

proof fn lemma_keys_from_prefix(x: Seq<char>, y: Seq<char>, i: int)
    requires
        separated(x, y),
        0 <= i <= x.len(),
    ensures
        keys_from(x + y, i) == keys_from(x, i) + keys_from(x + y, x.len() as int),
    decreases x.len() - i,
{
    let s = x + y;
    if i < x.len() {
        lemma_keys_from_prefix(x, y, i + 1);
        lemma_run_len_prefix(x, y, i);
        if i > 0 {
            assert(s[i - 1] == x[i - 1]);
        }
        if starts_key(x, i) {
            lemma_run_len_bounds(x, i);
            assert(s.subrange(i, i + KEY_LEN) =~= x.subrange(i, i + KEY_LEN));
            assert(keys_from(s, i) =~= keys_from(x, i) + keys_from(s, x.len() as int));
        } else {
            assert(keys_from(s, i) == keys_from(s, i + 1));
        }
    } else {
        assert(keys_from(x, i) =~= Seq::<Seq<char>>::empty());
        assert(keys_from(s, i) =~= keys_from(x, i) + keys_from(s, i));
    }
}

proof fn lemma_keys_from_suffix(x: Seq<char>, y: Seq<char>, i: int)
    requires
        separated(x, y),
        0 <= i <= y.len(),
    ensures
        keys_from(x + y, x.len() + i) == keys_from(y, i),
    decreases y.len() - i,
{
    let s = x + y;
    let k = x.len() + i;
    if i < y.len() {
        lemma_keys_from_suffix(x, y, i + 1);
        lemma_run_len_suffix(x, y, i);
        assert(s[k] == y[i]);
        if i > 0 {
            assert(s[k - 1] == y[i - 1]);
        } else if x.len() > 0 {
            assert(s[k - 1] == x.last());
        }
        if starts_key(y, i) {
            lemma_run_len_bounds(y, i);
            assert(s.subrange(k, k + KEY_LEN) =~= y.subrange(i, i + KEY_LEN));
        }
        assert(starts_key(s, k) == starts_key(y, i));
    }
}

/// Where no run of digits crosses from `x` into `y`, the keys of `x + y`
/// are those of `x` followed by those of `y`.
pub proof fn lemma_keys_in_concat(x: Seq<char>, y: Seq<char>)
    requires
        separated(x, y),
    ensures
        keys_in(x + y) == keys_in(x) + keys_in(y),
{
    lemma_keys_from_prefix(x, y, 0);
    lemma_keys_from_suffix(x, y, 0);
}

/// A run of digits with a non-digit or the end of the text on each side is
/// found as a key exactly when it holds 44 digits; with 43, 45 or any other
/// count it adds nothing.
pub proof fn lemma_isolated_run(a: Seq<char>, d: Seq<char>, b: Seq<char>)
    requires
        d.len() > 0,
        forall|m: int| 0 <= m < d.len() ==> is_digit(#[trigger] d[m]),
        a.len() == 0 || !is_digit(a.last()),
        b.len() == 0 || !is_digit(b[0]),
    ensures
        keys_in(a + d + b) == keys_in(a) + (if d.len() == KEY_LEN {
            seq![d]
        } else {
            Seq::empty()
        }) + keys_in(b),
{
    lemma_keys_in_concat(d, b);
    lemma_keys_in_concat(a, d + b);
    assert(a + d + b =~= a + (d + b));
    lemma_run_len_all(d, 0);
    lemma_skip_run(d, 1, d.len() as int);
    assert(keys_from(d, d.len() as int) =~= Seq::<Seq<char>>::empty());
    if d.len() == KEY_LEN {
        assert(d.subrange(0, KEY_LEN as int) =~= d);
    }
}

proof fn lemma_run_len_all(d: Seq<char>, i: int)
    requires
        0 <= i <= d.len(),
        forall|m: int| 0 <= m < d.len() ==> is_digit(#[trigger] d[m]),
    ensures
        run_len(d, i) == d.len() - i,
    decreases d.len() - i,
{
    if i < d.len() {
        lemma_run_len_all(d, i + 1);
    }
}

pub fn is_ascii_digit(c: char) -> (r: bool)
    ensures
        r == is_digit(c),
{
    '0' <= c && c <= '9'
}

/// Finds, left to right, every run of exactly 44 digits that is not part
/// of a longer run of digits.
pub fn find_keys(text: &str) -> (r: Vec<String>)
    ensures
        r@.map_values(|k: String| k@) == keys_in(text@),
{
    let v = chars_of(text);
    let n = v.len();
    let mut out: Vec<String> = Vec::new();
    let mut i: usize = 0;
    while i < n
        invariant
            v@ == text@,
            n == v@.len(),
            i <= n,
            keys_in(v@) == out@.map_values(|k: String| k@).add(keys_from(v@, i as int)),
            0 < i < n && is_digit(v@[i as int]) ==> !is_digit(v@[i - 1]),
        decreases n - i,
    {
        if is_ascii_digit(v[i]) {
            let mut j: usize = i + 1;
            while j < n && is_ascii_digit(v[j])
                invariant
                    v@ == text@,
                    n == v@.len(),
                    i < j <= n,
                    run_len(v@, i as int) == (j - i) + run_len(v@, j as int),
                    forall|m: int| i <= m < j ==> is_digit(#[trigger] v@[m]),
                decreases n - j,
            {
                j = j + 1;
            }
            assert(run_len(v@, j as int) == 0);
            proof {
                lemma_skip_run(v@, i + 1, j as int);
            }
            let ghost rest = keys_from(v@, j as int);
            let ghost before = out@.map_values(|k: String| k@);
            if j - i == KEY_LEN {
                let k = text.substring_char(i, j).to_owned();
                out.push(k);
                assert(out@.map_values(|k: String| k@) =~= before.push(k@));
                assert(keys_from(v@, i as int) == seq![k@].add(rest));
                assert(before.add(seq![k@].add(rest)) =~= before.push(k@).add(rest));
            }
            i = j;
        } else {
            i = i + 1;
        }
    }
    assert(out@.map_values(|k: String| k@).add(keys_from(v@, n as int)) =~= out@.map_values(
        |k: String| k@,
    ));
    out
}

} // verus!
