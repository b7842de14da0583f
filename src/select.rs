//! Which files are read, and where they are looked for.
use vstd::prelude::*;
use crate::error::MyError;
use crate::text::chars_of;

verus! {

/// Settings of a run.
pub struct Arguments {
    /// Least depth, below the starting directory, at which files are taken.
    pub min_depth: usize,
    /// Greatest depth at which files are taken.
    pub max_depth: usize,
    /// Directory to search; the current directory when absent.
    pub path: Option<String>,
    /// Whether to report the time taken.
    pub time: bool,
    /// Whether to report the keys found.
    pub verbose: bool,
}

/// Upper-case form of `s`, as `str::to_uppercase` gives it.
pub uninterp spec fn upper_of(s: Seq<char>) -> Seq<char>;

/// Relies on `str::to_uppercase`: the result depends on the characters alone.
#[verifier::external_body]
fn to_upper(s: &str) -> (r: String)
    ensures
        r@ == upper_of(s@),
{
    s.to_uppercase()
}

/// Position of the last `.` in `s`, or -1.
pub open spec fn last_dot(s: Seq<char>) -> int
    decreases s.len(),
{
    if s.len() == 0 {
        -1
    } else if s.last() == '.' {
        s.len() - 1
    } else {
        last_dot(s.drop_last())
    }
}

/// The extension of a file name, as `Path::extension` has it: the text
/// after the last `.`, where that `.` is not the first character.
pub open spec fn extension_of(name: Seq<char>) -> Option<Seq<char>> {
    let d = last_dot(name);
    if d <= 0 || name == seq!['.', '.'] {
        None
    } else {
        Some(name.subrange(d + 1, name.len() as int))
    }
}

/// Whether `s` reads `txt` without regard to ASCII case.
pub open spec fn is_txt(s: Seq<char>) -> bool {
    s.len() == 3 && (s[0] == 't' || s[0] == 'T') && (s[1] == 'x' || s[1] == 'X') && (s[2] == 't'
        || s[2] == 'T')
}

/// The prefix that the names of the files read begin with, in upper case.
pub open spec fn name_prefix() -> Seq<char> {
    seq!['P', 'I', 'S', 'C', 'O', 'F', 'I', 'N', 'S']
}

/// Whether a file is read: a regular file with extension `txt` in any case
/// whose name, in upper case, begins with `PISCOFINS`.
pub open spec fn is_selected(name: Seq<char>, is_file: bool) -> bool {
    is_file && extension_of(name) is Some && is_txt(extension_of(name)->0) && upper_of(name).len()
        >= 9 && upper_of(name).take(9) == name_prefix()
}

/// Whether the file named `file_name` is one to read keys from.
pub fn is_efd_contribuicoes_file(file_name: &str, is_file: bool) -> (r: bool)
    ensures
        r == is_selected(file_name@, is_file),
{
    if !is_file {
        return false;
    }
    let v = chars_of(file_name);
    let n = v.len();
    let mut i: usize = n;
    assert(v@.take(n as int) =~= v@);
    while i > 0 && v[i - 1] != '.'
        invariant
            v@ == file_name@,
            n == v@.len(),
            i <= n,
            last_dot(v@) == last_dot(v@.take(i as int)),
        decreases i,
    {
        assert(v@.take(i as int).drop_last() =~= v@.take(i - 1));
        i = i - 1;
    }
    assert(v@.take(n as int) =~= v@);
    if i == 0 {
        assert(v@.take(0) =~= Seq::<char>::empty());
        return false;
    }
    assert(v@.take(i as int).last() == v@[i - 1]);
    let d = i - 1;
    if d == 0 || (n == 2 && v[0] == '.' && v[1] == '.') {
        return false;
    }
    assert(v@ != seq!['.', '.']) by {
        if v@ == seq!['.', '.'] {
            assert(v@[0] == '.' && v@[1] == '.');
        }
    }
    if n - i != 3 || !(v[i] == 't' || v[i] == 'T') || !(v[i + 1] == 'x' || v[i + 1] == 'X')
        || !(v[i + 2] == 't' || v[i + 2] == 'T') {
        proof {
            let e = v@.subrange(i as int, n as int);
            if n - i == 3 {
                assert(e[0] == v@[i as int] && e[1] == v@[i + 1] && e[2] == v@[i + 2]);
            }
        }
        return false;
    }
    proof {
        let e = v@.subrange(i as int, n as int);
        assert(e[0] == v@[i as int] && e[1] == v@[i + 1] && e[2] == v@[i + 2]);
    }
    let upper = to_upper(file_name);
    let u = chars_of(upper.as_str());
    if u.len() < 9 {
        return false;
    }
    let r = u[0] == 'P' && u[1] == 'I' && u[2] == 'S' && u[3] == 'C' && u[4] == 'O' && u[5] == 'F'
        && u[6] == 'I' && u[7] == 'N' && u[8] == 'S';
    proof {
        if r {
            assert(u@.take(9) =~= name_prefix());
        } else {
            assert(u@.take(9) != name_prefix()) by {
                let p = name_prefix();
                if u@.take(9) == p {
                    assert(u@.take(9)[0] == u@[0] && u@.take(9)[1] == u@[1] && u@.take(9)[2]
                        == u@[2] && u@.take(9)[3] == u@[3] && u@.take(9)[4] == u@[4] && u@.take(
                        9,
                    )[5] == u@[5] && u@.take(9)[6] == u@[6] && u@.take(9)[7] == u@[7] && u@.take(
                        9,
                    )[8] == u@[8]);
                }
            }
        }
    }
    r
}

/// The directory to search: the one given, or the current directory.
pub fn get_path(opt_path: &Option<String>) -> (r: Result<String, MyError>)
    ensures
        r is Ok,
        opt_path is Some ==> r->Ok_0@ == opt_path->0@,
        opt_path is None ==> r->Ok_0@ == seq!['.'],
{
    match opt_path {
        Some(path) => Ok(path.clone()),
        None => {
            let r = String::from_str(".");
            proof {
                reveal_strlit(".");
            }
            Ok(r)
        },
    }
}

} // verus!
