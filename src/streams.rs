//! Single forward pass extraction for sources that can only be read once.
//!
//! The caller hands the source in, chunk after chunk, in order; memory stays
//! bounded by the count asked for (and, for lines, by one partial line).
use vstd::prelude::*;

use crate::bytes::{all_no_sep, lemma_no_sep_count, no_sep, push_range};
use crate::model::{
    body_len, count_sep, lemma_count_concat, lemma_count_one, lemma_count_step, lemma_line_start_skip,
    line_start, tail_bytes, tail_lines, SEPARATOR,
};
use crate::ring::{last_n, CircularBuffer};

verus! {

/// Each line of `l` followed by a separator, in order.
pub open spec fn term(l: Seq<Seq<u8>>) -> Seq<u8>
    decreases l.len(),
{
    if l.len() == 0 {
        Seq::empty()
    } else {
        term(l.drop_last()) + l.last() + seq![SEPARATOR]
    }
}

/// The byte contents of a sequence of buffers.
pub open spec fn views(v: Seq<Vec<u8>>) -> Seq<Seq<u8>> {
    v.map_values(|x: Vec<u8>| x@)
}

/// Terminated lines concatenate.
pub proof fn lemma_term_concat(a: Seq<Seq<u8>>, b: Seq<Seq<u8>>)
    ensures
        term(a + b) == term(a) + term(b),
    decreases b.len(),
{
    if b.len() == 0 {
        assert(a + b =~= a);
        assert(term(a) + term(b) =~= term(a));
    } else {
        lemma_term_concat(a, b.drop_last());
        assert((a + b).drop_last() =~= a + b.drop_last());
        assert(term(a + b) =~= term(a) + term(b));
    }
}

/// Lines without separators, each terminated, hold one separator apiece, the
/// last of them at the end.
pub proof fn lemma_term_count(l: Seq<Seq<u8>>)
    requires
        all_no_sep(l),
    ensures
        count_sep(term(l)) == l.len(),
        l.len() > 0 ==> term(l).len() > 0 && term(l).last() == SEPARATOR,
    decreases l.len(),
{
    if l.len() > 0 {
        let d = l.drop_last();
        assert(all_no_sep(d)) by {
            assert forall|i: int| 0 <= i < d.len() implies no_sep(#[trigger] d[i]) by {
                assert(d[i] == l[i]);
            }
        }
        lemma_term_count(d);
        assert(no_sep(l[l.len() - 1]));
        lemma_no_sep_count(l.last());
        lemma_count_concat(term(d), l.last());
        lemma_count_one();
        lemma_count_concat(term(d) + l.last(), seq![SEPARATOR]);
    }
}

/// The last `n` lines of a source only depend on the bytes before where they
/// are looked for.
pub proof fn lemma_line_start_prefix(s1: Seq<u8>, s2: Seq<u8>, e: int, n: nat)
    requires
        0 <= e <= s1.len(),
        e <= s2.len(),
        s1.subrange(0, e) == s2.subrange(0, e),
    ensures
        line_start(s1, e, n) == line_start(s2, e, n),
    decreases e,
{
    if e > 0 {
        assert(s1[e - 1] == s1.subrange(0, e)[e - 1]);
        assert(s2[e - 1] == s2.subrange(0, e)[e - 1]);
        assert(s1.subrange(0, e - 1) =~= s1.subrange(0, e).subrange(0, e - 1));
        assert(s2.subrange(0, e - 1) =~= s2.subrange(0, e).subrange(0, e - 1));
        if s1[e - 1] == SEPARATOR && n > 1 {
            lemma_line_start_prefix(s1, s2, e - 1, (n - 1) as nat);
        } else {
            lemma_line_start_prefix(s1, s2, e - 1, n);
        }
    }
}

/// In a source made of terminated lines, the last `n` lines are the last `n`
/// of the list, terminated.
pub proof fn lemma_tail_of_term(l: Seq<Seq<u8>>, n: nat)
    requires
        n >= 1,
        all_no_sep(l),
    ensures
        term(last_n(l, n)).len() <= term(l).len(),
        line_start(term(l), body_len(term(l)), n) == term(l).len() - term(last_n(l, n)).len(),
        tail_lines(term(l), n) == term(last_n(l, n)),
{
    let t = term(l);
    let b = last_n(l, n);
    let m: int = if l.len() <= n {
        l.len() as int
    } else {
        n as int
    };
    let a = l.subrange(0, l.len() - m);
    assert(b =~= l.subrange(l.len() - m, l.len() as int));
    assert(a + b =~= l);
    lemma_term_concat(a, b);
    let p = term(a).len() as int;
    if l.len() == 0 {
        assert(t.len() == 0);
        assert(tail_lines(t, n) =~= term(b));
    } else {
        assert(all_no_sep(b)) by {
            assert forall|i: int| 0 <= i < b.len() implies no_sep(#[trigger] b[i]) by {
                assert(b[i] == l[l.len() - m + i]);
            }
        }
        assert(all_no_sep(a)) by {
            assert forall|i: int| 0 <= i < a.len() implies no_sep(#[trigger] a[i]) by {
                assert(a[i] == l[i]);
            }
        }
        lemma_term_count(b);
        lemma_term_count(a);
        let tb = term(b);
        let bl = t.len() - 1;
        assert(t.last() == tb.last());
        assert(body_len(t) == bl);
        assert(t.subrange(p, bl) =~= tb.drop_last());
        assert(tb.drop_last() =~= tb.subrange(0, tb.len() - 1));
        lemma_count_step(tb, 0, tb.len() - 1);
        assert(tb.subrange(0, tb.len() as int) =~= tb);
        lemma_line_start_skip(t, p, bl, n);
        if p > 0 {
            assert(t[p - 1] == term(a).last());
        }
        assert(t.subrange(p, t.len() as int) =~= tb);
    }
}

/// Keeps the last `count` lines of a source handed in forward.
pub struct LineStream {
    ring: CircularBuffer<Vec<u8>>,
    current: Vec<u8>,
    seen: Ghost<Seq<u8>>,
}

impl LineStream {
    /// The number of lines asked for.
    pub closed spec fn count(&self) -> nat {
        self.ring.capacity()
    }

    /// The bytes handed in so far.
    pub closed spec fn seen(&self) -> Seq<u8> {
        self.seen@
    }

    /// The stream's invariant: the complete lines seen went through the ring,
    /// and `current` holds the bytes after the last separator.
    pub closed spec fn wf(&self) -> bool {
        &&& self.ring.wf()
        &&& self.ring.capacity() >= 1
        &&& all_no_sep(views(self.ring.pushed()))
        &&& no_sep(self.current@)
        &&& self.seen@ == term(views(self.ring.pushed())) + self.current@
    }

    /// A stream extractor for the last `count` lines.
    pub fn new(count: usize) -> (r: Self)
        requires
            count >= 1,
        ensures
            r.wf(),
            r.count() == count,
            r.seen() == Seq::<u8>::empty(),
    {
        let r = LineStream { ring: CircularBuffer::new(count), current: Vec::new(), seen: Ghost(Seq::empty()) };
        assert(views(r.ring.pushed()) =~= Seq::<Seq<u8>>::empty());
        assert(r.seen@ =~= term(views(r.ring.pushed())) + r.current@);
        r
    }

    /// Takes the next bytes of the source.
    pub fn feed(&mut self, chunk: &Vec<u8>)
        requires
            old(self).wf(),
        ensures
            final(self).wf(),
            final(self).count() == old(self).count(),
            final(self).seen() == old(self).seen() + chunk@,
    {
        let ghost start = self.seen@;
        let mut i: usize = 0;
        while i < chunk.len()
            invariant
                self.wf(),
                self.count() == old(self).count(),
                i <= chunk.len(),
                start == old(self).seen(),
                self.seen@ == start + chunk@.subrange(0, i as int),
            decreases chunk.len() - i,
        {
            let b = chunk[i];
            let ghost pushed = views(self.ring.pushed());
            self.seen = Ghost(self.seen@.push(b));
            if b == SEPARATOR {
                let mut line: Vec<u8> = Vec::new();
                std::mem::swap(&mut line, &mut self.current);
                self.ring.push(line);
                proof {
                    let np = views(self.ring.pushed());
                    assert(np =~= pushed.push(line@));
                    assert(np.drop_last() =~= pushed);
                    assert(all_no_sep(np)) by {
                        assert forall|j: int| 0 <= j < np.len() implies no_sep(#[trigger] np[j]) by {
                            if j < pushed.len() {
                                assert(np[j] == pushed[j]);
                            }
                        }
                    }
                    assert(self.seen@ =~= term(np) + self.current@);
                }
            } else {
                self.current.push(b);
                assert(self.seen@ =~= term(pushed) + self.current@);
            }
            i = i + 1;
            assert(chunk@.subrange(0, i as int) =~= chunk@.subrange(0, i - 1).push(b));
        }
        assert(chunk@.subrange(0, chunk@.len() as int) =~= chunk@);
    }

    /// The last `count()` lines seen, each followed by a separator but the
    /// last, which has one exactly when the source does.
    pub fn finish(self) -> (r: Vec<u8>)
        requires
            self.wf(),
        ensures
            r@ == tail_lines(self.seen(), self.count()),
    {
        let n = Ghost(self.count());
        let partial = self.current.len() > 0;
        let mut ring = self.ring;
        let ghost before = views(ring.pushed());
        if partial {
            ring.push(self.current);
        }
        let ghost all = views(ring.pushed());
        proof {
            if partial {
                assert(all =~= before.push(self.current@));
                assert(all_no_sep(all)) by {
                    assert forall|j: int| 0 <= j < all.len() implies no_sep(#[trigger] all[j]) by {
                        if j < before.len() {
                            assert(all[j] == before[j]);
                        }
                    }
                }
                assert(all.drop_last() =~= before);
            } else {
                assert(all == before);
            }
        }
        let lines = ring.into_ordered();
        let ghost kept = views(lines@);
        assert(kept =~= last_n(all, n@));
        let mut out: Vec<u8> = Vec::new();
        let mut i: usize = 0;
        while i < lines.len()
            invariant
                i <= lines@.len(),
                kept == views(lines@),
                out@ == term(kept.subrange(0, i as int)),
            decreases lines.len() - i,
        {
            let line = &lines[i];
            push_range(&mut out, line, 0, line.len());
            out.push(SEPARATOR);
            assert(line@.subrange(0, line@.len() as int) =~= line@);
            assert(kept.subrange(0, i + 1).drop_last() =~= kept.subrange(0, i as int));
            i = i + 1;
        }
        assert(kept.subrange(0, kept.len() as int) =~= kept);
        proof {
            lemma_tail_of_term(all, n@);
        }
        if partial {
            out.pop();
            proof {
                let t = term(all);
                let s = self.seen@;
                lemma_term_count(all);
                assert(s =~= t.drop_last());
                assert(s.last() == self.current@.last());
                assert(self.current@[self.current@.len() - 1] != SEPARATOR);
                assert(body_len(s) == body_len(t));
                assert(s.subrange(0, body_len(s)) =~= t.subrange(0, body_len(s)));
                lemma_line_start_prefix(s, t, body_len(s), n@);
                assert(out@ =~= tail_lines(s, n@));
            }
        }
        out
    }
}

/// Keeps the last `count` bytes of a source handed in forward.
pub struct ByteStream {
    ring: CircularBuffer<u8>,
}

impl ByteStream {
    /// The number of bytes asked for.
    pub closed spec fn count(&self) -> nat {
        self.ring.capacity()
    }

    /// The bytes handed in so far.
    pub closed spec fn seen(&self) -> Seq<u8> {
        self.ring.pushed()
    }

    /// The stream's invariant.
    pub closed spec fn wf(&self) -> bool {
        self.ring.wf()
    }

    /// A stream extractor for the last `count` bytes.
    pub fn new(count: usize) -> (r: Self)
        requires
            count >= 1,
        ensures
            r.wf(),
            r.count() == count,
            r.seen() == Seq::<u8>::empty(),
    {
        ByteStream { ring: CircularBuffer::new(count) }
    }

    /// Takes the next bytes of the source.
    pub fn feed(&mut self, chunk: &Vec<u8>)
        requires
            old(self).wf(),
        ensures
            final(self).wf(),
            final(self).count() == old(self).count(),
            final(self).seen() == old(self).seen() + chunk@,
    {
        let mut i: usize = 0;
        while i < chunk.len()
            invariant
                self.wf(),
                self.count() == old(self).count(),
                i <= chunk.len(),
                self.seen() == old(self).seen() + chunk@.subrange(0, i as int),
            decreases chunk.len() - i,
        {
            self.ring.push(chunk[i]);
            i = i + 1;
            assert(chunk@.subrange(0, i as int) =~= chunk@.subrange(0, i - 1).push(chunk@[i - 1]));
        }
        assert(chunk@.subrange(0, chunk@.len() as int) =~= chunk@);
    }

    /// The last `count()` bytes seen, in order.
    pub fn finish(self) -> (r: Vec<u8>)
        requires
            self.wf(),
        ensures
            r@ == tail_bytes(self.seen(), self.count()),
    {
        self.ring.into_ordered()
    }
}

/// The last `count` lines of `src`, kept in a circular buffer in one forward
/// pass.
pub fn tail_non_seekable(src: &Vec<u8>, count: usize) -> (r: Vec<u8>)
    requires
        count >= 1,
    ensures
        r@ == tail_lines(src@, count as nat),
{
    let mut stream = LineStream::new(count);
    stream.feed(src);
    assert(stream.seen() =~= src@);
    stream.finish()
}

/// The last `count` bytes of `src`, kept in a circular buffer in one forward
/// pass.
pub fn tailc_non_seekable(src: &Vec<u8>, count: usize) -> (r: Vec<u8>)
    requires
        count >= 1,
    ensures
        r@ == tail_bytes(src@, count as nat),
{
    let mut stream = ByteStream::new(count);
    stream.feed(src);
    assert(stream.seen() =~= src@);
    stream.finish()
}

} // verus!
