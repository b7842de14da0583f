//! Extraction over many files at once, and the merge of their keys.
use vstd::prelude::*;
use rayon::iter::{IntoParallelRefIterator, ParallelIterator};
use crate::error::MyError;
use crate::extract::{extracted, file_keys, get_map, lemma_file_keys_are_keys};
use crate::keys::is_key;
use crate::keyset::{lemma_sorted_no_duplicates, lemma_sorted_unique};
use crate::keyset::KeySet;

verus! {

/// A file to read keys from: its name and its bytes.
pub struct SourceFile {
    pub name: String,
    pub content: Vec<u8>,
}

/// The bytes of each file.
pub open spec fn contents(files: Seq<SourceFile>) -> Seq<Seq<u8>> {
    files.map_values(|f: SourceFile| f.content@)
}

/// Whether every file of `cs` can be read to its end or end-of-data line.
pub open spec fn all_readable(cs: Seq<Seq<u8>>) -> bool {
    forall|i: int| 0 <= i < cs.len() ==> (#[trigger] file_keys(cs[i])) is Ok
}

/// The keys of all files of `cs` that can be read.
pub open spec fn union_keys(cs: Seq<Seq<u8>>) -> Set<Seq<char>>
    decreases cs.len(),
{
    if cs.len() == 0 {
        Set::empty()
    } else {
        union_keys(cs.drop_last()) + match file_keys(cs.last()) {
            Ok(s) => s,
            Err(_) => Set::empty(),
        }
    }
}

/// Whether `i` is the first file of `cs` that cannot be read.
pub open spec fn first_failure(cs: Seq<Seq<u8>>, i: int) -> bool {
    0 <= i < cs.len() && file_keys(cs[i]) is Err && forall|j: int|
        0 <= j < i ==> (#[trigger] file_keys(cs[j])) is Ok
}

/// What extraction over `files` gives: the union of the keys of all files,
/// or the error of the first file that cannot be read.
pub open spec fn aggregated(files: Seq<SourceFile>, r: Result<KeySet, MyError>) -> bool {
    let cs = contents(files);
    if all_readable(cs) {
        r is Ok && r->Ok_0.wf() && r->Ok_0@.to_set() == union_keys(cs)
    } else {
        exists|i: int|
            first_failure(cs, i) && r is Err && r->Err_0 is EncodingError
                && r->Err_0->EncodingError_0@ == files[i].name@ && r->Err_0->EncodingError_1
                == file_keys(cs[i])->Err_0
    }
}

/// The keys of the successful results of `rs`.
pub open spec fn union_of(rs: Seq<Result<KeySet, MyError>>) -> Set<Seq<char>>
    decreases rs.len(),
{
    if rs.len() == 0 {
        Set::empty()
    } else {
        union_of(rs.drop_last()) + match rs.last() {
            Ok(k) => k@.to_set(),
            Err(_) => Set::empty(),
        }
    }
}

/// Relies on rayon's `par_iter`, `map` and `collect` into a `Vec`: one
/// result per file, in the order of the files.
#[verifier::external_body]
fn extract_each_parallel(files: &Vec<SourceFile>) -> (r: Vec<Result<KeySet, MyError>>)
    ensures
        r@.len() == files@.len(),
        forall|i: int|
            0 <= i < r@.len() ==> extracted(files@[i].name@, files@[i].content@, #[trigger] r@[i]),
{
    files.par_iter().map(|f| get_map(f.name.as_str(), f.content.as_slice())).collect()
}

/// Merges per-file results: the union of all key sets when every result is
/// a success, else the first error.
pub fn merge_file_results(results: Vec<Result<KeySet, MyError>>) -> (r: Result<KeySet, MyError>)
    requires
        forall|i: int| 0 <= i < results@.len() && (#[trigger] results@[i]) is Ok ==> results@[i]->Ok_0.wf(),
    ensures
        (forall|i: int| 0 <= i < results@.len() ==> (#[trigger] results@[i]) is Ok) ==> r is Ok
            && r->Ok_0.wf() && r->Ok_0@.to_set() == union_of(results@),
        !(forall|i: int| 0 <= i < results@.len() ==> (#[trigger] results@[i]) is Ok) ==> exists|
            i: int,
        |
            0 <= i < results@.len() && (#[trigger] results@[i]) is Err && (forall|j: int|
                0 <= j < i ==> (#[trigger] results@[j]) is Ok) && r == results@[i],
{
    let ghost rs = results@;
    let mut pending = results;
    let mut acc = KeySet::new();
    let mut i: usize = 0;
    assert(acc@.to_set() =~= Set::<Seq<char>>::empty());
    assert(rs.take(0) =~= Seq::<Result<KeySet, MyError>>::empty());
    while i < pending.len()
        invariant
            pending@ == rs,
            results@ == rs,
            i <= rs.len(),
            acc.wf(),
            acc@.to_set() == union_of(rs.take(i as int)),
            forall|j: int| 0 <= j < i ==> (#[trigger] rs[j]) is Ok,
        decreases pending.len() - i,
    {
        assert(rs.take(i + 1).drop_last() =~= rs.take(i as int));
        match &pending[i] {
            Ok(ks) => {
                acc.extend(ks);
            },
            Err(_) => {
                assert(rs[i as int] is Err);
                let e = pending.remove(i);
                assert(e == rs[i as int]);
                assert(!(rs[i as int] is Ok));
                return e;
            },
        }
        i = i + 1;
    }
    assert(rs.take(i as int) =~= rs);
    Ok(acc)
}

proof fn lemma_results_match(files: Seq<SourceFile>, rs: Seq<Result<KeySet, MyError>>, n: int)
    requires
        rs.len() == files.len(),
        0 <= n <= rs.len(),
        forall|i: int| 0 <= i < rs.len() ==> extracted(files[i].name@, files[i].content@, #[trigger] rs[i]),
    ensures
        union_of(rs.take(n)) == union_keys(contents(files).take(n)),
    decreases n,
{
    let cs = contents(files);
    if n > 0 {
        lemma_results_match(files, rs, n - 1);
        assert(rs.take(n).drop_last() =~= rs.take(n - 1));
        assert(cs.take(n).drop_last() =~= cs.take(n - 1));
        assert(extracted(files[n - 1].name@, files[n - 1].content@, rs[n - 1]));
        assert(cs[n - 1] == files[n - 1].content@);
    } else {
        assert(rs.take(n) =~= Seq::<Result<KeySet, MyError>>::empty());
        assert(cs.take(n) =~= Seq::<Seq<u8>>::empty());
    }
}

/// Extracts the keys of every file, the files in parallel, and merges them
/// into one set; fails with the error of the first file, in the order of
/// `files`, that cannot be read.
pub fn process_all_efd_files_parallel(files: &Vec<SourceFile>) -> (r: Result<KeySet, MyError>)
    ensures
        aggregated(files@, r),
{
    let results = extract_each_parallel(files);
    let ghost rs = results@;
    let ghost cs = contents(files@);
    proof {
        assert forall|i: int| 0 <= i < rs.len() && (#[trigger] rs[i]) is Ok implies rs[i]->Ok_0.wf() by {
            assert(extracted(files@[i].name@, files@[i].content@, rs[i]));
        }
        lemma_results_match(files@, rs, rs.len() as int);
        assert(rs.take(rs.len() as int) =~= rs);
        assert(cs.take(cs.len() as int) =~= cs);
    }
    let r = merge_file_results(results);
    proof {
        if all_readable(cs) {
            assert forall|i: int| 0 <= i < rs.len() implies (#[trigger] rs[i]) is Ok by {
                assert(extracted(files@[i].name@, files@[i].content@, rs[i]));
                assert(cs[i] == files@[i].content@);
                assert(file_keys(cs[i]) is Ok);
            }
        } else {
            let k = choose|k: int| 0 <= k < cs.len() && !(file_keys(cs[k]) is Ok);
            assert(extracted(files@[k].name@, files@[k].content@, rs[k]));
            assert(cs[k] == files@[k].content@);
            assert(!(rs[k] is Ok));
            let i = choose|i: int|
                0 <= i < rs.len() && (#[trigger] rs[i]) is Err && (forall|j: int|
                    0 <= j < i ==> (#[trigger] rs[j]) is Ok) && r == rs[i];
            assert(extracted(files@[i].name@, files@[i].content@, rs[i]));
            assert(cs[i] == files@[i].content@);
            assert forall|j: int| 0 <= j < i implies (#[trigger] file_keys(cs[j])) is Ok by {
                assert(extracted(files@[j].name@, files@[j].content@, rs[j]));
                assert(cs[j] == files@[j].content@);
                assert(rs[j] is Ok);
            }
            assert(first_failure(cs, i));
        }
    }
    r
}

proof fn lemma_union_keys_member(cs: Seq<Seq<u8>>, x: Seq<char>)
    ensures
        union_keys(cs).contains(x) <==> exists|i: int|
            0 <= i < cs.len() && (#[trigger] file_keys(cs[i])) is Ok && file_keys(cs[i])->Ok_0.contains(x),
    decreases cs.len(),
{
    if cs.len() > 0 {
        let d = cs.drop_last();
        lemma_union_keys_member(d, x);
        if union_keys(cs).contains(x) {
            if union_keys(d).contains(x) {
                let i = choose|i: int|
                    0 <= i < d.len() && (#[trigger] file_keys(d[i])) is Ok && file_keys(d[i])->Ok_0.contains(x);
                assert(cs[i] == d[i]);
            } else {
                assert(file_keys(cs[cs.len() - 1]) is Ok);
            }
        }
        if exists|i: int|
            0 <= i < cs.len() && (#[trigger] file_keys(cs[i])) is Ok && file_keys(cs[i])->Ok_0.contains(x) {
            let i = choose|i: int|
                0 <= i < cs.len() && (#[trigger] file_keys(cs[i])) is Ok && file_keys(cs[i])->Ok_0.contains(x);
            if i < cs.len() - 1 {
                assert(d[i] == cs[i]);
                assert(file_keys(d[i]) is Ok);
            }
        }
    }
}

/// A successful run yields each key once, in ascending order, and every key
/// has 44 characters, all of them digits.
pub proof fn lemma_result_is_key_set(files: Seq<SourceFile>, r: Result<KeySet, MyError>)
    requires
        aggregated(files, r),
        r is Ok,
    ensures
        r->Ok_0@.no_duplicates(),
        forall|k: Seq<char>| #[trigger] r->Ok_0@.contains(k) ==> is_key(k),
{
    let cs = contents(files);
    let ks = r->Ok_0;
    lemma_sorted_no_duplicates(ks@);
    assert forall|k: Seq<char>| #[trigger] ks@.contains(k) implies is_key(k) by {
        assert(ks@.to_set().contains(k));
        lemma_union_keys_member(cs, k);
        let i = choose|i: int|
            0 <= i < cs.len() && (#[trigger] file_keys(cs[i])) is Ok && file_keys(cs[i])->Ok_0.contains(k);
        lemma_file_keys_are_keys(cs[i]);
    }
}

/// Running the extraction twice over the same files gives the same keys in
/// the same order, or the same error of the same file and line.
pub proof fn lemma_repeatable(files: Seq<SourceFile>, r1: Result<KeySet, MyError>, r2: Result<
    KeySet,
    MyError,
>)
    requires
        aggregated(files, r1),
        aggregated(files, r2),
    ensures
        r1 is Ok <==> r2 is Ok,
        r1 is Ok ==> r1->Ok_0@ == r2->Ok_0@,
        r1 is Err ==> r1->Err_0->EncodingError_0@ == r2->Err_0->EncodingError_0@
            && r1->Err_0->EncodingError_1 == r2->Err_0->EncodingError_1,
{
    let cs = contents(files);
    if all_readable(cs) {
        lemma_sorted_unique(r1->Ok_0@, r2->Ok_0@);
    } else {
        let i = choose|i: int|
            first_failure(cs, i) && r1 is Err && r1->Err_0 is EncodingError
                && r1->Err_0->EncodingError_0@ == files[i].name@ && r1->Err_0->EncodingError_1
                == file_keys(cs[i])->Err_0;
        let j = choose|j: int|
            first_failure(cs, j) && r2 is Err && r2->Err_0 is EncodingError
                && r2->Err_0->EncodingError_0@ == files[j].name@ && r2->Err_0->EncodingError_1
                == file_keys(cs[j])->Err_0;
        if i < j {
            assert(file_keys(cs[i]) is Ok);
        } else if j < i {
            assert(file_keys(cs[j]) is Ok);
        }
    }
}

/// The keys do not depend on the order of the files: two lists that hold
/// the same file contents, in any order, give the same keys in the same
/// order when every file can be read.
pub proof fn lemma_order_independent(
    a: Seq<SourceFile>,
    b: Seq<SourceFile>,
    ra: Result<KeySet, MyError>,
    rb: Result<KeySet, MyError>,
)
    requires
        contents(a).to_multiset() == contents(b).to_multiset(),
        all_readable(contents(a)),
        aggregated(a, ra),
        aggregated(b, rb),
    ensures
        rb is Ok,
        ra->Ok_0@ == rb->Ok_0@,
{
    let ca = contents(a);
    let cb = contents(b);
    assert forall|y: Seq<u8>| ca.contains(y) <==> cb.contains(y) by {
        ca.to_multiset_ensures();
        cb.to_multiset_ensures();
        assert(ca.to_multiset().count(y) == cb.to_multiset().count(y));
    }
    assert forall|i: int| 0 <= i < cb.len() implies (#[trigger] file_keys(cb[i])) is Ok by {
        assert(cb.contains(cb[i]));
        let j = choose|j: int| 0 <= j < ca.len() && ca[j] == cb[i];
        assert(file_keys(ca[j]) is Ok);
    }
    assert forall|x: Seq<char>| union_keys(ca).contains(x) <==> union_keys(cb).contains(x) by {
        lemma_union_keys_member(ca, x);
        lemma_union_keys_member(cb, x);
        if union_keys(ca).contains(x) {
            let i = choose|i: int|
                0 <= i < ca.len() && (#[trigger] file_keys(ca[i])) is Ok && file_keys(ca[i])->Ok_0.contains(x);
            assert(ca.contains(ca[i]));
            let j = choose|j: int| 0 <= j < cb.len() && cb[j] == ca[i];
            assert(file_keys(cb[j]) is Ok);
        }
        if union_keys(cb).contains(x) {
            let i = choose|i: int|
                0 <= i < cb.len() && (#[trigger] file_keys(cb[i])) is Ok && file_keys(cb[i])->Ok_0.contains(x);
            assert(cb.contains(cb[i]));
            let j = choose|j: int| 0 <= j < ca.len() && ca[j] == cb[i];
            assert(file_keys(ca[j]) is Ok);
        }
    }
    assert(union_keys(ca) =~= union_keys(cb));
    lemma_sorted_unique(ra->Ok_0@, rb->Ok_0@);
}

} // verus!
