//! The normalizer: turns a raw sentence fragment into the canonical key
//! under which matching fragments are grouped.

use crate::text::{alphanumeric, is_alphanum, lower_of, lowercase};
use vstd::prelude::*;

verus! {

/// The alphanumeric characters of `s`, in order; whitespace and punctuation
/// are dropped.
pub open spec fn keep_alphanum(s: Seq<char>) -> Seq<char>
    decreases s.len(),
{
    if s.len() == 0 {
        Seq::empty()
    } else if is_alphanum(s.last()) {
        keep_alphanum(s.drop_last()).push(s.last())
    } else {
        keep_alphanum(s.drop_last())
    }
}

/// The canonical key of a fragment: its alphanumeric characters, taken from
/// the lowercased fragment when `fold_case` is set.
pub open spec fn canonical_key(s: Seq<char>, fold_case: bool) -> Seq<char> {
    if fold_case {
        keep_alphanum(lower_of(s))
    } else {
        keep_alphanum(s)
    }
}

/// Computes the canonical key of a fragment. Total: any text is accepted.
pub fn normalize(s: &str, fold_case: bool) -> (r: String)
    ensures
        r@ == canonical_key(s@, fold_case),
{
    let folded: String = if fold_case {
        lowercase(s)
    } else {
        s.to_owned()
    };
    let fstr = folded.as_str();
    let n = fstr.unicode_len();
    let mut r = String::new();
    let mut i: usize = 0;
    proof {
        assert(fstr@.take(0) =~= Seq::<char>::empty());
    }
    while i < n
        invariant
            n == fstr@.len(),
            i <= n,
            r@ == keep_alphanum(fstr@.take(i as int)),
        decreases n - i,
    {
        let c = fstr.get_char(i);
        proof {
            assert(fstr@.take(i as int + 1).drop_last() =~= fstr@.take(i as int));
            assert(fstr@.take(i as int + 1).last() == c);
        }
        if alphanumeric(c) {
            let cs = fstr.substring_char(i, i + 1);
            r.append(cs);
            proof {
                assert(keep_alphanum(fstr@.take(i as int)).push(c) =~= keep_alphanum(
                    fstr@.take(i as int),
                ) + cs@);
            }
        }
        i += 1;
    }
    proof {
        assert(fstr@.take(n as int) =~= fstr@);
    }
    r
}

} // verus!
