//! File enumeration rules: which directory entries are capture files, and
//! the "zero entries is an error" policy of the listings.
//!
//! The directory read itself is the surrounding application's; the rules
//! applied to the listed names live here.

use vstd::prelude::*;
use crate::codec::seq_ends_with;
use crate::codec::seq_starts_with;
use crate::codec::str_ends_with;
use crate::codec::str_starts_with;
use crate::error::Error;

verus! {

/// A directory entry holds captures by naming convention exactly when its
/// name starts with `_` and ends with `.md`.
pub open spec fn is_capture_file_spec(name: Seq<char>) -> bool {
    seq_starts_with(name, seq!['_']) && seq_ends_with(name, seq!['.', 'm', 'd'])
}

/// Whether a file name follows the capture naming convention.
pub fn is_capture_file(name: &str) -> (r: bool)
    ensures
        r == is_capture_file_spec(name@),
{
    proof {
        reveal_strlit("_");
        reveal_strlit(".md");
        assert("_"@ =~= seq!['_']);
        assert(".md"@ =~= seq!['.', 'm', 'd']);
    }
    str_starts_with(name, "_") && str_ends_with(name, ".md")
}

/// The names that follow the capture naming convention, in order.
pub open spec fn capture_files_of(names: Seq<Seq<char>>) -> Seq<Seq<char>>
    decreases names.len(),
{
    if names.len() == 0 {
        Seq::empty()
    } else if is_capture_file_spec(names[0]) {
        seq![names[0]] + capture_files_of(names.drop_first())
    } else {
        capture_files_of(names.drop_first())
    }
}

pub proof fn lemma_capture_files_snoc(names: Seq<Seq<char>>, n: Seq<char>)
    ensures
        capture_files_of(names.push(n)) == capture_files_of(names) + (if is_capture_file_spec(n) {
            seq![n]
        } else {
            Seq::empty()
        }),
    decreases names.len(),
{
    let tail: Seq<Seq<char>> = if is_capture_file_spec(n) {
        seq![n]
    } else {
        Seq::empty()
    };
    if names.len() == 0 {
        assert(names.push(n)[0] == n);
        assert(names.push(n).drop_first() =~~= Seq::<Seq<char>>::empty());
        assert(capture_files_of(Seq::<Seq<char>>::empty()) == Seq::<Seq<char>>::empty());
        if is_capture_file_spec(n) {
            assert(capture_files_of(names.push(n)) == seq![n] + Seq::<Seq<char>>::empty());
            assert(seq![n] + Seq::<Seq<char>>::empty() =~~= Seq::<Seq<char>>::empty() + seq![n]);
        } else {
            assert(Seq::<Seq<char>>::empty() + Seq::<Seq<char>>::empty() =~~= Seq::<
                Seq<char>,
            >::empty());
        }
    } else {
        assert(names.push(n)[0] == names[0]);
        assert(names.push(n).drop_first() =~~= names.drop_first().push(n));
        lemma_capture_files_snoc(names.drop_first(), n);
        if is_capture_file_spec(names[0]) {
            assert(seq![names[0]] + (capture_files_of(names.drop_first()) + tail) =~~= (seq![
                names[0],
            ] + capture_files_of(names.drop_first())) + tail);
        }
    }
}

/// Keeps the directory entries named like capture files.  Zero matching
/// entries is surfaced as `FileNotFound`, not an empty success: callers
/// relying on "no captures yet" must special-case the error.
pub fn filter_capture_files(names: &Vec<String>) -> (r: Result<Vec<String>, Error>)
    ensures
        match r {
            Ok(v) => {
                &&& capture_files_of(names.deep_view()).len() > 0
                &&& v.deep_view() == capture_files_of(names.deep_view())
            },
            Err(e) => {
                &&& capture_files_of(names.deep_view()).len() == 0
                &&& e == Error::FileNotFound
            },
        },
{
    let ghost ndv: Seq<Seq<char>> = names.deep_view();
    let mut out: Vec<String> = Vec::new();
    assert(out.deep_view() =~~= capture_files_of(ndv.subrange(0, 0))) by {
        assert(ndv.subrange(0, 0) =~~= Seq::<Seq<char>>::empty());
    }
    let mut i: usize = 0;
    while i < names.len()
        invariant
            0 <= i <= names.len(),
            ndv == names.deep_view(),
            ndv.len() == names.len(),
            out.deep_view() == capture_files_of(ndv.subrange(0, i as int)),
        decreases names.len() - i,
    {
        if is_capture_file(names[i].as_str()) {
            out.push(names[i].clone());
        }
        proof {
            lemma_capture_files_snoc(ndv.subrange(0, i as int), ndv[i as int]);
            assert(ndv.subrange(0, i + 1) =~~= ndv.subrange(0, i as int).push(ndv[i as int]));
            assert(out.deep_view() =~~= capture_files_of(ndv.subrange(0, i + 1)));
        }
        i += 1;
    }
    proof {
        assert(ndv.subrange(0, ndv.len() as int) =~~= ndv);
        assert(out.deep_view().len() == out@.len());
    }
    if out.len() == 0 {
        Err(Error::FileNotFound)
    } else {
        Ok(out)
    }
}

/// The "zero entries is an error" rule of the plain file listing: an empty
/// directory yield is `FileNotFound`, anything else passes through.
pub fn require_nonempty(names: Vec<String>) -> (r: Result<Vec<String>, Error>)
    ensures
        match r {
            Ok(v) => {
                &&& names@.len() > 0
                &&& v == names
            },
            Err(e) => {
                &&& names@.len() == 0
                &&& e == Error::FileNotFound
            },
        },
{
    if names.len() == 0 {
        Err(Error::FileNotFound)
    } else {
        Ok(names)
    }
}

} // verus!
