//! Reassembly of arbitrary byte chunks into complete logical lines.
//!
//! Lines end with the two-byte terminator `"\r\n"`; one leading frame
//! marker `'$'` is stripped from each line and empty lines are dropped.
//! Bytes after the last terminator are carried to the next call, so the
//! extracted lines do not depend on how the input was chunked.

use vstd::prelude::*;

use crate::bytes::find_pair;
use crate::bytes::find_pair_from;
use crate::bytes::lemma_find_pair_extend;
use crate::bytes::lemma_find_pair_props;
use crate::bytes::lemma_views_push;
use crate::bytes::subvec;
use crate::bytes::views;

verus! {

/// A line with one leading frame marker `'$'` stripped.
pub open spec fn clean_line(s: Seq<u8>) -> Seq<u8> {
    if s.len() > 0 && s[0] == 36 {
        s.drop_first()
    } else {
        s
    }
}

/// The complete lines extractable from `s`: each prefix up to the next
/// `"\r\n"`, cleaned, with empty lines dropped.
pub open spec fn process_lines(s: Seq<u8>) -> Seq<Seq<u8>>
    decreases s.len(),
{
    let i = find_pair(s, 13, 10);
    if 0 <= i && i + 2 <= s.len() {
        let line = clean_line(s.take(i));
        let rest = process_lines(s.skip(i + 2));
        if line.len() == 0 {
            rest
        } else {
            seq![line] + rest
        }
    } else {
        seq![]
    }
}

/// What remains of `s` after the last complete line.
pub open spec fn process_rest(s: Seq<u8>) -> Seq<u8>
    decreases s.len(),
{
    let i = find_pair(s, 13, 10);
    if 0 <= i && i + 2 <= s.len() {
        process_rest(s.skip(i + 2))
    } else {
        s
    }
}

/// Processing a buffer in two pieces yields the same lines as processing
/// it whole, provided the remainder of the first piece is carried over.
pub proof fn lemma_process_split(s: Seq<u8>, t: Seq<u8>)
    ensures
        process_lines(s + t) == process_lines(s) + process_lines(process_rest(s) + t),
        process_rest(s + t) == process_rest(process_rest(s) + t),
    decreases s.len(),
{
    let i = find_pair(s, 13, 10);
    lemma_find_pair_props(s, 13, 10);
    if i == -1 {
        assert(process_lines(s) + process_lines(s + t) =~= process_lines(s + t));
    } else {
        lemma_find_pair_extend(s, t, 13, 10);
        assert((s + t).take(i) =~= s.take(i));
        assert((s + t).skip(i + 2) =~= s.skip(i + 2) + t);
        lemma_process_split(s.skip(i + 2), t);
        let line = clean_line(s.take(i));
        if line.len() != 0 {
            assert((seq![line] + process_lines(s.skip(i + 2))) + process_lines(
                process_rest(s.skip(i + 2)) + t,
            ) =~= seq![line] + (process_lines(s.skip(i + 2)) + process_lines(
                process_rest(s.skip(i + 2)) + t,
            )));
        }
    }
}

/// The chunks of a stream, joined back into one buffer.
pub open spec fn concat_chunks(chunks: Seq<Seq<u8>>) -> Seq<u8>
    decreases chunks.len(),
{
    if chunks.len() == 0 {
        Seq::empty()
    } else {
        concat_chunks(chunks.drop_last()) + chunks.last()
    }
}

/// The lines produced by feeding the chunks one at a time, starting from
/// an empty carry buffer.
pub open spec fn feed_all_lines(chunks: Seq<Seq<u8>>) -> Seq<Seq<u8>>
    decreases chunks.len(),
{
    if chunks.len() == 0 {
        seq![]
    } else {
        feed_all_lines(chunks.drop_last()) + process_lines(
            feed_all_rest(chunks.drop_last()) + chunks.last(),
        )
    }
}

/// The carry buffer left after feeding the chunks one at a time.
pub open spec fn feed_all_rest(chunks: Seq<Seq<u8>>) -> Seq<u8>
    decreases chunks.len(),
{
    if chunks.len() == 0 {
        Seq::empty()
    } else {
        process_rest(feed_all_rest(chunks.drop_last()) + chunks.last())
    }
}

/// Law (chunk-boundary invariance): splitting a byte stream at arbitrary
/// boundaries and feeding the pieces incrementally yields exactly the
/// lines of the whole stream processed at once, and the same carry.
pub proof fn lemma_chunk_boundary_invariance(chunks: Seq<Seq<u8>>)
    ensures
        feed_all_lines(chunks) == process_lines(concat_chunks(chunks)),
        feed_all_rest(chunks) == process_rest(concat_chunks(chunks)),
    decreases chunks.len(),
{
    if chunks.len() == 0 {
    } else {
        lemma_chunk_boundary_invariance(chunks.drop_last());
        lemma_process_split(concat_chunks(chunks.drop_last()), chunks.last());
    }
}

/// Turns arbitrary byte chunks into complete, terminator-free lines,
/// carrying any unterminated tail across calls.
pub struct Reassembler {
    carry: Vec<u8>,
}

impl Reassembler {
    /// The bytes read so far that no terminator has yet closed.
    pub closed spec fn pending(&self) -> Seq<u8> {
        self.carry@
    }

    /// The carry never contains a terminator.
    pub closed spec fn wf(&self) -> bool {
        find_pair(self.carry@, 13, 10) == -1
    }

    pub fn new() -> (r: Reassembler)
        ensures
            r.wf(),
            r.pending() == Seq::<u8>::empty(),
    {
        let r = Reassembler { carry: Vec::new() };
        proof {
            assert(r.carry@ =~= Seq::<u8>::empty());
        }
        r
    }

    /// Appends one chunk and returns every line it completes, in order.
    pub fn push(&mut self, chunk: &Vec<u8>) -> (lines: Vec<Vec<u8>>)
        requires
            old(self).wf(),
        ensures
            final(self).wf(),
            views(lines@) == process_lines(old(self).pending() + chunk@),
            final(self).pending() == process_rest(old(self).pending() + chunk@),
    {
        let ghost all = self.carry@ + chunk@;
        let ghost c0 = self.carry@;
        let mut k: usize = 0;
        while k < chunk.len()
            invariant
                k <= chunk@.len(),
                self.carry@ == c0 + chunk@.take(k as int),
            decreases chunk@.len() - k,
        {
            self.carry.push(chunk[k]);
            proof {
                assert(c0 + chunk@.take(k as int) + seq![chunk@[k as int]] =~= c0 + chunk@.take(
                    k + 1 as int,
                ));
            }
            k += 1;
        }
        proof {
            assert(self.carry@ =~= all);
        }
        let mut lines: Vec<Vec<u8>> = Vec::new();
        proof {
            assert(views(lines@) + process_lines(self.carry@) =~= process_lines(all));
        }
        loop
            invariant
                process_lines(all) == views(lines@) + process_lines(self.carry@),
                process_rest(all) == process_rest(self.carry@),
            ensures
                process_lines(all) == views(lines@) + process_lines(self.carry@),
                process_rest(all) == process_rest(self.carry@),
                find_pair(self.carry@, 13, 10) == -1,
            decreases self.carry@.len(),
        {
            proof {
                assert(self.carry@.skip(0) =~= self.carry@);
            }
            match find_pair_from(&self.carry, 13, 10, 0) {
                None => {
                    break ;
                },
                Some(i) => {
                    let cn = self.carry.len();
                    proof {
                        lemma_find_pair_props(self.carry@, 13, 10);
                    }
                    let line = if i > 0 && self.carry[0] == 36 {
                        subvec(&self.carry, 1, i)
                    } else {
                        subvec(&self.carry, 0, i)
                    };
                    proof {
                        assert(line@ =~= clean_line(self.carry@.take(i as int)));
                    }
                    let rest = subvec(&self.carry, i + 2, cn);
                    let ghost cur = self.carry@;
                    proof {
                        assert(rest@ =~= cur.skip(i + 2));
                    }
                    if line.len() > 0 {
                        proof {
                            lemma_views_push(lines@, line);
                            assert((views(lines@) + seq![line@]) + process_lines(cur.skip(i + 2))
                                =~= views(lines@) + (seq![line@] + process_lines(cur.skip(i + 2))));
                        }
                        lines.push(line);
                    }
                    self.carry = rest;
                },
            }
        }
        proof {
            assert(views(lines@) + process_lines(self.carry@) =~= views(lines@));
        }
        lines
    }
}

} // verus!
