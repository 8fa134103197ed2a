//! The mathematical model: what the last `n` lines or bytes of a source are.
use vstd::prelude::*;

verus! {

/// The line separator.
pub const SEPARATOR: u8 = 10;

/// The largest number of bytes read from a seekable source at once.
pub const CHUNK_CAPACITY: usize = 4096;

/// Number of separators in `s`.
pub open spec fn count_sep(s: Seq<u8>) -> nat
    decreases s.len(),
{
    if s.len() == 0 {
        0
    } else {
        count_sep(s.drop_last()) + if s.last() == SEPARATOR { 1nat } else { 0nat }
    }
}

/// True iff `s` ends with a separator.
pub open spec fn ends_with_sep(s: Seq<u8>) -> bool {
    s.len() > 0 && s.last() == SEPARATOR
}

/// Length of the part of `s` that holds its lines: a final separator ends the
/// last line and does not open an empty one.
pub open spec fn body_len(s: Seq<u8>) -> int {
    if ends_with_sep(s) {
        s.len() - 1
    } else {
        s.len() as int
    }
}

/// Number of lines in `s`.
pub open spec fn line_count(s: Seq<u8>) -> nat {
    if s.len() == 0 {
        0
    } else {
        count_sep(s.subrange(0, body_len(s))) + 1
    }
}

/// Index where the last `n` lines of `s[0..end]` begin: just past the `n`-th
/// separator counted back from `end`, or 0 where there are fewer.
pub open spec fn line_start(s: Seq<u8>, end: int, n: nat) -> int
    decreases end,
{
    if end <= 0 {
        0
    } else if s[end - 1] == SEPARATOR {
        if n <= 1 {
            end
        } else {
            line_start(s, end - 1, (n - 1) as nat)
        }
    } else {
        line_start(s, end - 1, n)
    }
}

/// The last `n` lines of `s`, with the final separator exactly when `s` has one.
pub open spec fn tail_lines(s: Seq<u8>, n: nat) -> Seq<u8> {
    s.subrange(line_start(s, body_len(s), n), s.len() as int)
}

/// The last `min(n, s.len())` bytes of `s`.
pub open spec fn tail_bytes(s: Seq<u8>, n: nat) -> Seq<u8> {
    if n >= s.len() {
        s
    } else {
        s.subrange(s.len() - n, s.len() as int)
    }
}

/// Separators of `s[a..b+1]` are those of `s[a..b]` and perhaps `s[b]`.
pub proof fn lemma_count_step(s: Seq<u8>, a: int, b: int)
    requires
        0 <= a <= b < s.len(),
    ensures
        count_sep(s.subrange(a, b + 1)) == count_sep(s.subrange(a, b)) + if s[b] == SEPARATOR {
            1nat
        } else {
            0nat
        },
{
    assert(s.subrange(a, b + 1).drop_last() =~= s.subrange(a, b));
}

/// A lone separator counts once.
pub proof fn lemma_count_one()
    ensures
        count_sep(seq![SEPARATOR]) == 1,
{
    let one = seq![SEPARATOR];
    assert(one.drop_last() =~= Seq::<u8>::empty());
    assert(count_sep(one.drop_last()) == 0);
}

/// Separators of a concatenation add up.
pub proof fn lemma_count_concat(a: Seq<u8>, b: Seq<u8>)
    ensures
        count_sep(a + b) == count_sep(a) + count_sep(b),
    decreases b.len(),
{
    if b.len() == 0 {
        assert(a + b =~= a);
    } else {
        lemma_count_concat(a, b.drop_last());
        assert((a + b).drop_last() =~= a + b.drop_last());
    }
}

/// `line_start` lies in `[0, end]`, below `end` unless `s[end-1]` is a
/// separator, and the lines it keeps hold at most `n - 1` separators, exactly
/// `n - 1` where it stopped short of 0.
pub proof fn lemma_line_start_props(s: Seq<u8>, end: int, n: nat)
    requires
        0 <= end <= s.len(),
        n >= 1,
    ensures
        0 <= line_start(s, end, n) <= end,
        end > 0 && s[end - 1] != SEPARATOR ==> line_start(s, end, n) < end,
        line_start(s, end, n) > 0 ==> s[line_start(s, end, n) - 1] == SEPARATOR,
        count_sep(s.subrange(line_start(s, end, n), end)) <= n - 1,
        line_start(s, end, n) > 0 ==> count_sep(s.subrange(line_start(s, end, n), end)) == n - 1,
    decreases end,
{
    if end > 0 {
        let r = line_start(s, end, n);
        if s[end - 1] == SEPARATOR && n <= 1 {
            assert(s.subrange(end, end).len() == 0);
        } else {
            let m: nat = if s[end - 1] == SEPARATOR { (n - 1) as nat } else { n };
            lemma_line_start_props(s, end - 1, m);
            lemma_count_step(s, r, end - 1);
        }
    } else {
        assert(s.subrange(0, 0).len() == 0);
    }
}

/// Where `s[e..end]` holds fewer than `n` separators, the last `n` lines of
/// `s[0..end]` start where the remaining ones of `s[0..e]` do.
pub proof fn lemma_line_start_skip(s: Seq<u8>, e: int, end: int, n: nat)
    requires
        0 <= e <= end <= s.len(),
        count_sep(s.subrange(e, end)) < n,
    ensures
        line_start(s, end, n) == line_start(s, e, (n - count_sep(s.subrange(e, end))) as nat),
    decreases end - e,
{
    if e < end {
        lemma_count_step(s, e, end - 1);
        if s[end - 1] == SEPARATOR {
            lemma_line_start_skip(s, e, end - 1, (n - 1) as nat);
        } else {
            lemma_line_start_skip(s, e, end - 1, n);
        }
    } else {
        assert(s.subrange(e, e).len() == 0);
    }
}

/// An empty source has an empty tail, in lines and in bytes, for every count.
pub proof fn lemma_tail_of_empty(n: nat)
    ensures
        tail_lines(Seq::<u8>::empty(), n) == Seq::<u8>::empty(),
        tail_bytes(Seq::<u8>::empty(), n) == Seq::<u8>::empty(),
{
    assert(tail_lines(Seq::<u8>::empty(), n) =~= Seq::<u8>::empty());
}

/// The last line kept ends with a separator exactly when the source does.
pub proof fn lemma_tail_lines_final_separator(s: Seq<u8>, n: nat)
    requires
        n >= 1,
    ensures
        s.len() > 0 ==> tail_lines(s, n).len() > 0 && tail_lines(s, n).last() == s.last(),
        ends_with_sep(tail_lines(s, n)) == ends_with_sep(s),
{
    lemma_line_start_props(s, body_len(s), n);
}

/// Asking for at least as many lines or bytes as the source holds gives the
/// whole source.
pub proof fn lemma_tail_short_source(s: Seq<u8>, n: nat)
    requires
        n >= 1,
    ensures
        n >= line_count(s) ==> tail_lines(s, n) == s,
        n >= s.len() ==> tail_bytes(s, n) == s,
{
    if n >= line_count(s) && s.len() > 0 {
        lemma_line_start_skip(s, 0, body_len(s), n);
        assert(tail_lines(s, n) =~= s);
    }
    if s.len() == 0 {
        lemma_tail_of_empty(n);
    }
}

/// Taking the tail of a tail changes nothing.
pub proof fn lemma_tail_idempotent(s: Seq<u8>, n: nat)
    requires
        n >= 1,
    ensures
        tail_lines(tail_lines(s, n), n) == tail_lines(s, n),
        tail_bytes(tail_bytes(s, n), n) == tail_bytes(s, n),
{
    let b = body_len(s);
    let r = line_start(s, b, n);
    let t = tail_lines(s, n);
    lemma_line_start_props(s, b, n);
    lemma_tail_lines_final_separator(s, n);
    if t.len() > 0 {
        assert(body_len(t) == b - r);
        assert(t.subrange(0, body_len(t)) =~= s.subrange(r, b));
        lemma_line_start_skip(t, 0, body_len(t), n);
        assert(t.subrange(0, t.len() as int) =~= t);
    } else {
        assert(tail_lines(t, n) =~= t);
    }
}

} // verus!
