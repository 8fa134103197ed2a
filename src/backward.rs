//! Backward chunked extraction for sources that can be read at any offset.
//!
//! A scanner never touches the source itself. It names the next range to read
//! (`next_read`), and the caller hands those bytes back (`feed`) until the
//! scanner is done. Ranges move from the end of the source towards its start,
//! at most `CHUNK_CAPACITY` bytes at a time, and stop as soon as enough has
//! been seen.
use vstd::prelude::*;

use crate::bytes::{all_no_sep, lemma_no_sep_count, no_sep, push_range, rfind_sep};
use crate::model::{
    body_len, count_sep, ends_with_sep, lemma_count_concat, lemma_count_one, lemma_line_start_skip,
    lemma_tail_of_empty, line_start, tail_bytes, tail_lines, CHUNK_CAPACITY, SEPARATOR,
};

verus! {

/// Each gathered line preceded by a separator, in source order. Lines are
/// listed most recent first, so the oldest one (`g.last()`) comes first.
pub open spec fn emitted(g: Seq<Seq<u8>>) -> Seq<u8>
    decreases g.len(),
{
    if g.len() == 0 {
        Seq::empty()
    } else {
        seq![SEPARATOR] + g.last() + emitted(g.drop_last())
    }
}

/// `s` without its final byte where `strip` holds.
pub open spec fn strip_final(s: Seq<u8>, strip: bool) -> Seq<u8> {
    if strip && s.len() > 0 {
        s.drop_last()
    } else {
        s
    }
}

/// `emitted(g)` holds one separator per line, the first of them in front.
pub proof fn lemma_emitted(g: Seq<Seq<u8>>)
    requires
        all_no_sep(g),
    ensures
        count_sep(emitted(g)) == g.len(),
        g.len() > 0 ==> emitted(g).len() > 0 && emitted(g)[0] == SEPARATOR,
    decreases g.len(),
{
    if g.len() > 0 {
        let d = g.drop_last();
        assert(all_no_sep(d)) by {
            assert forall|i: int| 0 <= i < d.len() implies no_sep(#[trigger] d[i]) by {
                assert(d[i] == g[i]);
            }
        }
        lemma_emitted(d);
        assert(no_sep(g[g.len() - 1]));
        lemma_no_sep_count(g.last());
        lemma_count_concat(seq![SEPARATOR], g.last());
        lemma_count_concat(seq![SEPARATOR] + g.last(), emitted(d));
        lemma_count_one();
    }
}

/// Stage of a backward line scan.
#[derive(PartialEq, Eq, Structural, Clone, Copy, Debug)]
pub enum ScanPhase {
    /// Nothing read yet: the next chunk ends with the source's final byte.
    First,
    /// Lines are being gathered; a fragment may wait for older bytes.
    Scanning,
    /// The result is complete.
    Done,
}

/// Gathers the last `count` lines of a source of `size` bytes, reading it
/// backward in chunks.
///
/// `trailing` records whether the source's final byte is a separator; it is
/// taken from the first chunk, which ends with that byte. `leftover` holds the
/// oldest fragment of the bytes seen, whose start lies in a chunk not yet
/// read. `gathered` holds complete lines, most recent first.
pub struct LineScanner {
    count: usize,
    size: usize,
    cursor: usize,
    phase: ScanPhase,
    trailing: bool,
    leftover: Vec<u8>,
    gathered: Vec<Vec<u8>>,
    seen: Ghost<Seq<u8>>,
}

impl LineScanner {
    /// The number of lines asked for.
    pub closed spec fn count(&self) -> nat {
        self.count as nat
    }

    /// The size of the source.
    pub closed spec fn size(&self) -> nat {
        self.size as nat
    }

    /// Where the bytes seen so far begin in the source.
    pub closed spec fn cursor(&self) -> nat {
        self.cursor as nat
    }

    /// The bytes handed in so far: the source from `cursor()` to its end.
    pub closed spec fn seen(&self) -> Seq<u8> {
        self.seen@
    }

    /// True once the result is complete.
    pub closed spec fn done(&self) -> bool {
        self.phase == ScanPhase::Done
    }

    /// The gathered lines, most recent first.
    pub closed spec fn lines(&self) -> Seq<Seq<u8>> {
        self.gathered@.map_values(|v: Vec<u8>| v@)
    }

    /// The seen bytes that hold lines: without the source's final separator.
    closed spec fn body_seen(&self) -> Seq<u8> {
        strip_final(self.seen@, self.trailing)
    }

    /// What `finish` returns.
    closed spec fn output(&self) -> Seq<u8> {
        if self.gathered@.len() == 0 {
            Seq::empty()
        } else if self.trailing {
            emitted(self.lines()).drop_first().push(SEPARATOR)
        } else {
            emitted(self.lines()).drop_first()
        }
    }

    /// The scanner's invariant.
    pub closed spec fn wf(&self) -> bool {
        let e = emitted(self.lines());
        let b = self.body_seen();
        &&& self.count >= 1
        &&& self.cursor <= self.size
        &&& self.seen@.len() == self.size - self.cursor
        &&& (self.phase == ScanPhase::First <==> (self.seen@.len() == 0 && self.size > 0))
        &&& (self.phase == ScanPhase::First ==> self.cursor == self.size)
        &&& (self.seen@.len() == 0 ==> !self.trailing && self.gathered@.len() == 0
            && self.leftover@.len() == 0)
        &&& (self.seen@.len() > 0 ==> self.trailing == ends_with_sep(self.seen@))
        &&& all_no_sep(self.lines())
        &&& self.gathered@.len() <= self.count
        &&& (self.phase == ScanPhase::Scanning ==> {
            &&& self.cursor > 0
            &&& self.gathered@.len() < self.count
            &&& no_sep(self.leftover@)
            &&& b == self.leftover@ + e
        })
        &&& (self.phase == ScanPhase::Done ==> {
            ||| self.size == 0
            ||| (self.gathered@.len() == self.count && e.len() <= b.len() && b.subrange(
                b.len() - e.len(),
                b.len() as int,
            ) == e)
            ||| (self.cursor == 0 && seq![SEPARATOR] + b == e)
        })
    }

    /// A scanner for the last `count` lines of a source of `size` bytes.
    pub fn new(size: usize, count: usize) -> (r: Self)
        requires
            count >= 1,
        ensures
            r.wf(),
            r.size() == size,
            r.count() == count,
            r.cursor() == size,
            r.seen() == Seq::<u8>::empty(),
            r.done() == (size == 0),
    {
        let r = LineScanner {
            count,
            size,
            cursor: size,
            phase: if size == 0 {
                ScanPhase::Done
            } else {
                ScanPhase::First
            },
            trailing: false,
            leftover: Vec::new(),
            gathered: Vec::new(),
            seen: Ghost(Seq::empty()),
        };
        assert(r.lines() =~= Seq::<Seq<u8>>::empty());
        r
    }

    /// True once `finish` may be called.
    pub fn is_done(&self) -> (r: bool)
        ensures
            r == self.done(),
    {
        self.phase == ScanPhase::Done
    }

    /// The offset and length of the next chunk to read: the bytes just before
    /// those seen so far.
    pub fn next_read(&self) -> (r: (usize, usize))
        requires
            self.wf(),
            !self.done(),
        ensures
            r.1 > 0,
            r.1 as int == if self.cursor() < CHUNK_CAPACITY {
                self.cursor() as int
            } else {
                CHUNK_CAPACITY as int
            },
            r.0 + r.1 == self.cursor(),
    {
        let len = if self.cursor < CHUNK_CAPACITY {
            self.cursor
        } else {
            CHUNK_CAPACITY
        };
        (self.cursor - len, len)
    }
    /// Takes the chunk that `next_read` named. The chunk is put in front of
    /// the fragment left from the previous one and split at its separators;
    /// complete lines are gathered from the most recent back, and the oldest
    /// fragment waits for the next chunk, unless the chunk reaches the start of
    /// the source, where it is the first line.
    pub fn feed(&mut self, chunk: Vec<u8>)
        requires
            old(self).wf(),
            !old(self).done(),
            chunk@.len() == if old(self).cursor() < CHUNK_CAPACITY {
                old(self).cursor() as int
            } else {
                CHUNK_CAPACITY as int
            },
        ensures
            final(self).wf(),
            final(self).seen() == chunk@ + old(self).seen(),
            final(self).cursor() == old(self).cursor() - chunk@.len(),
            final(self).size() == old(self).size(),
            final(self).count() == old(self).count(),
    {
        let ghost old_seen = self.seen@;
        let ghost old_body = self.body_seen();
        let ghost old_lines = self.lines();
        let ghost read = chunk@;
        let len = chunk.len();
        let terminal = len == self.cursor;
        self.cursor = self.cursor - len;
        self.seen = Ghost(chunk@ + old_seen);
        let mut combined = chunk;
        if self.phase == ScanPhase::First {
            self.trailing = combined[len - 1] == SEPARATOR;
            if self.trailing {
                combined.pop();
            }
            self.phase = ScanPhase::Scanning;
            assert(old_seen.len() == 0);
            assert(self.seen@ =~= chunk@);
            assert(self.body_seen() =~= combined@);
            assert(old_body =~= Seq::<u8>::empty());
            assert(emitted(old_lines) =~= Seq::<u8>::empty());
        } else {
            assert(old_seen.len() > 0);
            assert(self.seen@.last() == old_seen.last());
            assert(self.body_seen() =~= combined@ + old_body);
        }
        assert(self.body_seen() == combined@ + self.leftover@ + emitted(old_lines));
        combined.append(&mut self.leftover);
        let mut p: usize = combined.len();
        loop
            invariant
                p <= combined.len(),
                self.body_seen() == combined@.subrange(0, p as int) + emitted(self.lines()),
                all_no_sep(self.lines()),
                self.gathered@.len() < self.count,
                self.leftover@.len() == 0,
                self.phase == ScanPhase::Scanning,
                self.count >= 1,
                self.cursor <= self.size,
                self.seen@.len() == self.size - self.cursor,
                self.seen@.len() > 0,
                self.trailing == ends_with_sep(self.seen@),
                self.seen@ == read + old_seen,
                read == chunk@,
                old_seen == old(self).seen(),
                self.cursor == old(self).cursor - read.len(),
                self.size == old(self).size,
                self.count == old(self).count,
                terminal ==> self.cursor == 0,
                !terminal ==> self.cursor > 0,
            decreases p,
        {
            let ghost lines_before = self.lines();
            match rfind_sep(&combined, p) {
                Some(q) => {
                    let mut line: Vec<u8> = Vec::new();
                    push_range(&mut line, &combined, q + 1, p);
                    self.gathered.push(line);
                    assert(self.lines() =~= lines_before.push(line@));
                    assert(combined@.subrange(0, p as int) =~= combined@.subrange(0, q as int)
                        + seq![SEPARATOR] + combined@.subrange(q + 1, p as int));
                    assert(self.lines().drop_last() =~= lines_before);
                    assert(emitted(self.lines()) == seq![SEPARATOR] + line@ + emitted(lines_before));
                    assert(self.body_seen() =~= combined@.subrange(0, q as int) + emitted(
                        self.lines(),
                    ));
                    assert(all_no_sep(self.lines())) by {
                        assert forall|i: int| 0 <= i < self.lines().len() implies no_sep(
                            #[trigger] self.lines()[i],
                        ) by {
                            if i < lines_before.len() {
                                assert(self.lines()[i] == lines_before[i]);
                            }
                        }
                    }
                    p = q;
                    if self.gathered.len() >= self.count {
                        self.phase = ScanPhase::Done;
                        let ghost b = self.body_seen();
                        let ghost e = emitted(self.lines());
                        assert(b.subrange(b.len() - e.len(), b.len() as int) =~= e);
                        return;
                    }
                },
                None => {
                    combined.truncate(p);
                    if terminal {
                        self.gathered.push(combined);
                        self.phase = ScanPhase::Done;
                        assert(self.lines() =~= lines_before.push(combined@));
                        assert(self.lines().drop_last() =~= lines_before);
                        assert(emitted(self.lines()) =~= seq![SEPARATOR] + self.body_seen());
                        assert(all_no_sep(self.lines())) by {
                            assert forall|i: int| 0 <= i < self.lines().len() implies no_sep(
                                #[trigger] self.lines()[i],
                            ) by {
                                if i < lines_before.len() {
                                    assert(self.lines()[i] == lines_before[i]);
                                }
                            }
                        }
                    } else {
                        self.leftover = combined;
                    }
                    return;
                },
            }
        }
    }
    /// Where the scan is done, its output is the last `count()` lines of every
    /// source of `size()` bytes that ends with the bytes seen.
    proof fn lemma_output(&self, s: Seq<u8>)
        requires
            self.wf(),
            self.done(),
            s.len() == self.size(),
            s.subrange(self.cursor() as int, s.len() as int) == self.seen(),
        ensures
            self.output() == tail_lines(s, self.count()),
    {
        let n = self.count();
        if self.size == 0 {
            lemma_tail_of_empty(n);
            assert(s =~= Seq::<u8>::empty());
            return;
        }
        let e = emitted(self.lines());
        let b = self.body_seen();
        let c = self.cursor as int;
        lemma_emitted(self.lines());
        assert(self.seen@.len() > 0);
        assert(s.last() == self.seen@.last());
        let bl = body_len(s);
        assert(bl == c + b.len());
        assert(s.subrange(c, bl) =~= b);
        lemma_count_concat(seq![SEPARATOR], e.drop_first());
        assert(e =~= seq![SEPARATOR] + e.drop_first());
        lemma_count_one();
        if self.gathered@.len() == self.count && e.len() <= b.len() && b.subrange(
            b.len() - e.len(),
            b.len() as int,
        ) == e {
            let st = bl - e.len() + 1;
            assert(s[st - 1] == b.subrange(b.len() - e.len(), b.len() as int)[0]);
            assert(s.subrange(st, bl) =~= e.drop_first());
            lemma_line_start_skip(s, st, bl, n);
            assert(line_start(s, st, 1) == st);
            if self.trailing {
                assert(s.subrange(st, s.len() as int) =~= e.drop_first().push(SEPARATOR));
            } else {
                assert(s.subrange(st, s.len() as int) =~= e.drop_first());
            }
        } else {
            assert(c == 0);
            assert(b =~= e.drop_first());
            assert(s.subrange(0, bl) =~= b);
            lemma_line_start_skip(s, 0, bl, n);
            if self.trailing {
                assert(s =~= b.push(SEPARATOR));
            } else {
                assert(s =~= b);
            }
            assert(s.subrange(0, s.len() as int) =~= s);
        }
    }

    /// The gathered lines in source order, each followed by a separator but
    /// the last, which has one exactly when the source does. The result is the
    /// last `count()` lines of the source.
    pub fn finish(&self) -> (r: Vec<u8>)
        requires
            self.wf(),
            self.done(),
        ensures
            forall|s: Seq<u8>|
                s.len() == self.size() && s.subrange(self.cursor() as int, s.len() as int)
                    == self.seen() ==> r@ == #[trigger] tail_lines(s, self.count()),
    {
        let k = self.gathered.len();
        let mut out: Vec<u8> = Vec::new();
        if k > 0 {
            let lines = Ghost(self.lines());
            let oldest = &self.gathered[k - 1];
            push_range(&mut out, oldest, 0, oldest.len());
            assert(oldest@.subrange(0, oldest@.len() as int) =~= oldest@);
            assert(lines@.subrange(0, k - 1) =~= lines@.drop_last());
            let mut j: usize = k - 1;
            while j > 0
                invariant
                    j < k,
                    k == self.gathered@.len(),
                    lines@ == self.lines(),
                    seq![SEPARATOR] + out@ + emitted(lines@.subrange(0, j as int)) == emitted(
                        lines@,
                    ),
                decreases j,
            {
                let line = &self.gathered[j - 1];
                let ghost before = out@;
                out.push(SEPARATOR);
                push_range(&mut out, line, 0, line.len());
                assert(line@.subrange(0, line@.len() as int) =~= line@);
                let ghost sub = lines@.subrange(0, j as int);
                assert(sub.drop_last() =~= lines@.subrange(0, j - 1));
                assert(sub.last() == line@);
                assert(seq![SEPARATOR] + out@ + emitted(lines@.subrange(0, j - 1))
                    =~= seq![SEPARATOR] + before + emitted(sub));
                j = j - 1;
            }
            assert(lines@.subrange(0, 0) =~= Seq::<Seq<u8>>::empty());
            assert(out@ =~= emitted(lines@).drop_first());
            if self.trailing {
                out.push(SEPARATOR);
            }
        }
        assert forall|s: Seq<u8>|
            s.len() == self.size() && s.subrange(self.cursor() as int, s.len() as int)
                == self.seen() implies out@ == #[trigger] tail_lines(s, self.count()) by {
            self.lemma_output(s);
        }
        out
    }
}

/// The last `count` lines of `src`, gathered by reading it backward in chunks.
pub fn tail_seekable(src: &Vec<u8>, count: usize) -> (r: Vec<u8>)
    requires
        count >= 1,
    ensures
        r@ == tail_lines(src@, count as nat),
{
    let mut scanner = LineScanner::new(src.len(), count);
    assert(src@.subrange(src@.len() as int, src@.len() as int) =~= Seq::<u8>::empty());
    while !scanner.is_done()
        invariant
            scanner.wf(),
            scanner.size() == src@.len(),
            scanner.count() == count,
            src@.subrange(scanner.cursor() as int, src@.len() as int) == scanner.seen(),
        decreases scanner.cursor(),
    {
        let (offset, len) = scanner.next_read();
        let mut chunk: Vec<u8> = Vec::new();
        push_range(&mut chunk, src, offset, offset + len);
        let ghost before = scanner.seen();
        scanner.feed(chunk);
        assert(src@.subrange(offset as int, src@.len() as int) =~= src@.subrange(
            offset as int,
            offset + len,
        ) + before);
    }
    scanner.finish()
}

/// Gathers the last `count` bytes of a source of `size` bytes, reading it
/// backward in chunks.
pub struct ByteScanner {
    count: usize,
    size: usize,
    cursor: usize,
    gathered: Vec<u8>,
}

impl ByteScanner {
    /// The number of bytes asked for.
    pub closed spec fn count(&self) -> nat {
        self.count as nat
    }

    /// The size of the source.
    pub closed spec fn size(&self) -> nat {
        self.size as nat
    }

    /// Where the bytes seen so far begin in the source.
    pub closed spec fn cursor(&self) -> nat {
        self.cursor as nat
    }

    /// The bytes handed in so far: the source from `cursor()` to its end.
    pub closed spec fn seen(&self) -> Seq<u8> {
        self.gathered@
    }

    /// True once the result is complete.
    pub closed spec fn done(&self) -> bool {
        self.gathered@.len() >= self.count || self.cursor == 0
    }

    /// The scanner's invariant.
    pub closed spec fn wf(&self) -> bool {
        &&& self.cursor <= self.size
        &&& self.gathered@.len() == self.size - self.cursor
        &&& self.gathered@.len() <= self.count
    }

    /// A scanner for the last `count` bytes of a source of `size` bytes.
    pub fn new(size: usize, count: usize) -> (r: Self)
        ensures
            r.wf(),
            r.size() == size,
            r.count() == count,
            r.cursor() == size,
            r.seen() == Seq::<u8>::empty(),
    {
        ByteScanner { count, size, cursor: size, gathered: Vec::new() }
    }

    /// True once `finish` may be called.
    pub fn is_done(&self) -> (r: bool)
        requires
            self.wf(),
        ensures
            r == self.done(),
    {
        self.gathered.len() >= self.count || self.cursor == 0
    }

    /// The offset and length of the next chunk to read: no more than a chunk,
    /// no more than is still wanted, and no more than lies before the bytes
    /// seen so far.
    pub fn next_read(&self) -> (r: (usize, usize))
        requires
            self.wf(),
            !self.done(),
        ensures
            r.1 > 0,
            r.1 <= CHUNK_CAPACITY,
            r.1 <= self.count() - self.seen().len(),
            r.1 as int == vstd::math::min(
                vstd::math::min(CHUNK_CAPACITY as int, self.count() - self.seen().len()),
                self.cursor() as int,
            ),
            r.0 + r.1 == self.cursor(),
    {
        let wanted = self.count - self.gathered.len();
        let mut len = if wanted < CHUNK_CAPACITY {
            wanted
        } else {
            CHUNK_CAPACITY
        };
        if len > self.cursor {
            len = self.cursor;
        }
        (self.cursor - len, len)
    }

    /// Takes the chunk that `next_read` named and puts it in front of the
    /// bytes gathered so far.
    pub fn feed(&mut self, chunk: Vec<u8>)
        requires
            old(self).wf(),
            !old(self).done(),
            chunk@.len() == vstd::math::min(
                vstd::math::min(CHUNK_CAPACITY as int, old(self).count() - old(self).seen().len()),
                old(self).cursor() as int,
            ),
        ensures
            final(self).wf(),
            final(self).seen() == chunk@ + old(self).seen(),
            final(self).cursor() == old(self).cursor() - chunk@.len(),
            final(self).size() == old(self).size(),
            final(self).count() == old(self).count(),
    {
        let mut front = chunk;
        self.cursor = self.cursor - front.len();
        front.append(&mut self.gathered);
        self.gathered = front;
    }

    /// The gathered bytes: the last `count()` bytes of the source.
    pub fn finish(self) -> (r: Vec<u8>)
        requires
            self.wf(),
            self.done(),
        ensures
            forall|s: Seq<u8>|
                s.len() == self.size() && s.subrange(self.cursor() as int, s.len() as int)
                    == self.seen() ==> r@ == #[trigger] tail_bytes(s, self.count()),
    {
        assert forall|s: Seq<u8>|
            s.len() == self.size() && s.subrange(self.cursor() as int, s.len() as int)
                == self.seen() implies self.gathered@ == #[trigger] tail_bytes(s, self.count()) by {
            if self.cursor == 0 {
                assert(s.subrange(0, s.len() as int) =~= s);
            }
        }
        self.gathered
    }
}

/// The last `count` bytes of `src`, gathered by reading it backward in chunks.
pub fn tailc_seekable(src: &Vec<u8>, count: usize) -> (r: Vec<u8>)
    ensures
        r@ == tail_bytes(src@, count as nat),
{
    let mut scanner = ByteScanner::new(src.len(), count);
    assert(src@.subrange(src@.len() as int, src@.len() as int) =~= Seq::<u8>::empty());
    while !scanner.is_done()
        invariant
            scanner.wf(),
            scanner.size() == src@.len(),
            scanner.count() == count,
            src@.subrange(scanner.cursor() as int, src@.len() as int) == scanner.seen(),
        decreases scanner.cursor(),
    {
        let (offset, len) = scanner.next_read();
        let mut chunk: Vec<u8> = Vec::new();
        push_range(&mut chunk, src, offset, offset + len);
        let ghost before = scanner.seen();
        scanner.feed(chunk);
        assert(src@.subrange(offset as int, src@.len() as int) =~= src@.subrange(
            offset as int,
            offset + len,
        ) + before);
    }
    scanner.finish()
}

} // verus!
