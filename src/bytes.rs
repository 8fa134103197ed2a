//! Small verified operations on byte buffers shared by the extractors.
use vstd::prelude::*;

use crate::model::{count_sep, SEPARATOR};

verus! {

/// True iff no byte of `s` is a separator.
pub open spec fn no_sep(s: Seq<u8>) -> bool {
    forall|j: int| 0 <= j < s.len() ==> s[j] != SEPARATOR
}

/// True iff no line of `g` holds a separator.
pub open spec fn all_no_sep(g: Seq<Seq<u8>>) -> bool {
    forall|i: int| 0 <= i < g.len() ==> no_sep(#[trigger] g[i])
}

/// A byte sequence without separators holds none.
pub proof fn lemma_no_sep_count(x: Seq<u8>)
    requires
        no_sep(x),
    ensures
        count_sep(x) == 0,
    decreases x.len(),
{
    if x.len() > 0 {
        assert(no_sep(x.drop_last()));
        lemma_no_sep_count(x.drop_last());
    }
}

/// Appends `src[a..b]` to `out`.
pub fn push_range(out: &mut Vec<u8>, src: &Vec<u8>, a: usize, b: usize)
    requires
        a <= b <= src.len(),
    ensures
        final(out)@ == old(out)@ + src@.subrange(a as int, b as int),
{
    let mut i: usize = a;
    while i < b
        invariant
            a <= i <= b <= src.len(),
            out@ == old(out)@ + src@.subrange(a as int, i as int),
        decreases b - i,
    {
        out.push(src[i]);
        i = i + 1;
        assert(src@.subrange(a as int, i as int) =~= src@.subrange(a as int, i - 1).push(src@[i - 1]));
    }
}

/// The position of the last separator in `v[0..p]`, if any.
pub fn rfind_sep(v: &Vec<u8>, p: usize) -> (r: Option<usize>)
    requires
        p <= v.len(),
    ensures
        match r {
            Some(q) => q < p && v@[q as int] == SEPARATOR && no_sep(v@.subrange(q + 1, p as int)),
            None => no_sep(v@.subrange(0, p as int)),
        },
{
    let mut i: usize = p;
    while i > 0
        invariant
            i <= p <= v.len(),
            no_sep(v@.subrange(i as int, p as int)),
        decreases i,
    {
        if v[i - 1] == SEPARATOR {
            return Some(i - 1);
        }
        assert forall|j: int| 0 <= j < p - (i - 1) implies #[trigger] v@.subrange(i - 1, p as int)[j] != SEPARATOR by {
            if j > 0 {
                assert(v@.subrange(i - 1, p as int)[j] == v@.subrange(i as int, p as int)[j - 1]);
            }
        }
        i = i - 1;
    }
    None
}

} // verus!
