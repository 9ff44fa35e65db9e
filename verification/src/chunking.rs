//! Boundary-safe chunk splitting: the byte region is partitioned into
//! line-aligned, non-overlapping ranges, at most one per worker, whose
//! concatenation reproduces the region exactly.

use vstd::prelude::*;

use crate::byteseq::{
    contains_byte, last_index, lemma_last_index, lemma_last_index_is, rfind_byte, LINE_TERMINATOR,
};
use crate::PipelineError;

verus! {

/// A contiguous byte range `[start, end)` of the source region, assigned to
/// one worker. A chunk owns no data, only its bounds.
#[derive(Clone, Copy, Debug, PartialEq, Eq, Structural)]
pub struct Chunk {
    pub start: usize,
    pub end: usize,
}

/// The targeted even split `len / workers`, at least one byte.
pub open spec fn chunk_target(len: nat, workers: nat) -> nat
    recommends
        workers >= 1,
{
    if len / workers < 1 {
        1
    } else {
        len / workers
    }
}

/// The split of `s` from position `start` on into at most `budget` chunks
/// of about `cs` bytes: each candidate range is clipped to the region's end,
/// then cut back to just after its last line terminator. The last chunk of
/// the budget — and any candidate that reaches the region's end — takes the
/// whole remainder, so the chunk count never exceeds the worker count and a
/// final line may omit its terminator. A candidate before that with no
/// terminator and more data after it is refused, which keeps the earlier
/// workers' ranges bounded instead of growing them.
pub open spec fn split_from(s: Seq<u8>, cs: nat, start: int, budget: int) -> Option<
    Seq<(int, int)>,
>
    decreases s.len() - start,
    when 0 <= start && cs >= 1 && budget >= 1
{
    if start >= s.len() {
        Some(Seq::empty())
    } else if budget <= 1 || start + cs >= s.len() {
        Some(seq![(start, s.len() as int)])
    } else {
        let sub = s.subrange(start, start + cs as int);
        if contains_byte(sub, LINE_TERMINATOR) {
            let p = start + if 0 <= last_index(sub, LINE_TERMINATOR) < sub.len() as int {
                last_index(sub, LINE_TERMINATOR)
            } else {
                0
            };
            match split_from(s, cs, p + 1, budget - 1) {
                None => None,
                Some(tail) => Some(seq![(start, p + 1)] + tail),
            }
        } else {
            None
        }
    }
}

/// Chunk integrity: a successful split partitions `[start, len)` into
/// adjacent, non-empty chunks, no more of them than the budget, every chunk
/// but the last ends just after a line terminator, and the concatenation of
/// the chunks' byte content is the region itself.
pub proof fn lemma_chunks_cover(s: Seq<u8>, cs: nat, start: int, budget: int, chunks: Seq<(int, int)>)
    requires
        cs >= 1,
        budget >= 1,
        0 <= start <= s.len(),
        split_from(s, cs, start, budget) == Some(chunks),
    ensures
        chunks.len() == 0 <==> start == s.len(),
        chunks.len() <= budget,
        chunks.len() > 0 ==> chunks[0].0 == start && chunks[chunks.len() - 1].1 == s.len(),
        forall|i: int| 0 <= i < chunks.len() ==> (#[trigger] chunks[i]).0 < chunks[i].1 <= s.len(),
        forall|i: int| 0 < i < chunks.len() ==> (#[trigger] chunks[i]).0 == chunks[i - 1].1,
        forall|i: int|
            0 <= i < chunks.len() - 1 ==> s[(#[trigger] chunks[i]).1 - 1] == LINE_TERMINATOR,
        chunks.map_values(|c: (int, int)| s.subrange(c.0, c.1)).flatten() == s.subrange(
            start,
            s.len() as int,
        ),
    decreases s.len() - start,
{
    let f = |c: (int, int)| s.subrange(c.0, c.1);
    if start >= s.len() {
        assert(chunks.map_values(f).flatten() =~= s.subrange(start, s.len() as int));
    } else if budget <= 1 || start + cs >= s.len() {
        assert(chunks == seq![(start, s.len() as int)]);
        assert(chunks.map_values(f) =~= seq![s.subrange(start, s.len() as int)]);
        assert(chunks.map_values(f).flatten() =~= s.subrange(start, s.len() as int)) by {
            let m = chunks.map_values(f);
            assert(m.drop_first() =~= Seq::<Seq<u8>>::empty());
            assert(m.flatten() == m.first() + m.drop_first().flatten());
        }
    } else {
        let sub = s.subrange(start, start + cs as int);
        lemma_last_index(sub, LINE_TERMINATOR);
        let p = start + last_index(sub, LINE_TERMINATOR);
        assert(s[p] == LINE_TERMINATOR) by {
            assert(sub[last_index(sub, LINE_TERMINATOR)] == LINE_TERMINATOR);
        }
        let tail = split_from(s, cs, p + 1, budget - 1).unwrap();
        assert(chunks == seq![(start, p + 1)] + tail);
        lemma_chunks_cover(s, cs, p + 1, budget - 1, tail);
        assert(chunks[0] == (start, p + 1));
        assert(forall|i: int| 0 <= i < tail.len() ==> chunks[i + 1] == #[trigger] tail[i]);
        assert(tail.len() > 0);
        assert(chunks[chunks.len() - 1] == tail[tail.len() - 1]);
        assert forall|i: int|
            0 <= i < chunks.len() - 1 implies s[(#[trigger] chunks[i]).1 - 1]
            == LINE_TERMINATOR by {
            if i > 0 {
                assert(chunks[i] == tail[i - 1]);
                if i - 1 < tail.len() - 1 {
                } else {
                    assert(i == chunks.len() - 1);
                }
            }
        }
        assert(chunks.map_values(f).flatten() =~= s.subrange(start, s.len() as int)) by {
            let m = chunks.map_values(f);
            assert(m.first() == s.subrange(start, p + 1));
            assert(m.drop_first() =~= tail.map_values(f));
            assert(m.flatten() == m.first() + m.drop_first().flatten());
            assert(tail.map_values(f).flatten() == s.subrange(p + 1, s.len() as int));
            assert(s.subrange(start, p + 1) + s.subrange(p + 1, s.len() as int) =~= s.subrange(
                start,
                s.len() as int,
            ));
        }
    }
}

/// Splits the region into between one and `num_threads` line-aligned
/// chunks; an empty region yields zero.
///
/// The targeted chunk size is `len / num_threads`, at least one byte. Each
/// chunk takes its candidate range and retreats to just after the last line
/// terminator inside it; the last worker's chunk — and any candidate that
/// reaches the region's end — takes the remainder whole, which keeps the
/// chunk count within the worker count and covers a final line without a
/// terminator. When an earlier candidate holds no terminator although more
/// data follows, the region has a logical line beyond the supported size
/// and the run is refused rather than the chunk grown.
#[verifier::loop_isolation(false)]
pub fn create_chunks(data: &[u8], num_threads: usize) -> (r: Result<Vec<Chunk>, PipelineError>)
    requires
        num_threads >= 1,
    ensures
        match r {
            Ok(chunks) => {
                &&& split_from(
                    data@,
                    chunk_target(data@.len(), num_threads as nat),
                    0,
                    num_threads as int,
                ) == Some(chunks@.map_values(|c: Chunk| (c.start as int, c.end as int)))
                &&& chunks@.len() <= num_threads
                &&& data@.len() > 0 ==> chunks@.len() >= 1
            },
            Err(e) => {
                &&& e == PipelineError::LineTooLong
                &&& split_from(
                    data@,
                    chunk_target(data@.len(), num_threads as nat),
                    0,
                    num_threads as int,
                ) is None
            },
        },
{
    let len = data.len();
    let mut chunk_size = len / num_threads;
    if chunk_size < 1 {
        chunk_size = 1;
    }
    let ghost cs = chunk_target(data@.len(), num_threads as nat);
    proof {
        assert(chunk_size == cs);
    }
    let mut chunks: Vec<Chunk> = Vec::new();
    let mut start: usize = 0;
    let mut remaining: usize = num_threads;
    loop
        invariant
            num_threads >= 1,
            chunk_size == cs,
            cs >= 1,
            len == data@.len(),
            0 <= start <= len,
            1 <= remaining <= num_threads,
            match split_from(data@, cs, start as int, remaining as int) {
                Some(tail) => split_from(data@, cs, 0, num_threads as int) == Some(
                    chunks@.map_values(|c: Chunk| (c.start as int, c.end as int)) + tail,
                ),
                None => split_from(data@, cs, 0, num_threads as int) is None,
            },
        decreases len - start,
    {
        let ghost models = chunks@.map_values(|c: Chunk| (c.start as int, c.end as int));
        if start >= len {
            proof {
                assert(split_from(data@, cs, start as int, remaining as int) == Some(
                    Seq::<(int, int)>::empty(),
                ));
                assert(models + Seq::<(int, int)>::empty() =~= models);
                lemma_chunks_cover(data@, cs, 0, num_threads as int, models);
            }
            return Ok(chunks);
        }
        if remaining <= 1 || chunk_size >= len - start {
            let c = Chunk { start, end: len };
            chunks.push(c);
            proof {
                assert(split_from(data@, cs, start as int, remaining as int) == Some(
                    seq![(start as int, len as int)],
                ));
                let full = chunks@.map_values(|c2: Chunk| (c2.start as int, c2.end as int));
                assert(full =~= models + seq![(start as int, len as int)]);
                lemma_chunks_cover(data@, cs, 0, num_threads as int, full);
            }
            return Ok(chunks);
        }
        let cand_end = start + chunk_size;
        let found = rfind_byte(data, start, cand_end, LINE_TERMINATOR);
        proof {
            let sub = data@.subrange(start as int, start as int + cs as int);
            assert(forall|j: int| 0 <= j < sub.len() ==> sub[j] == data@[start + j]);
            match found {
                Some(p) => {
                    lemma_last_index_is(sub, LINE_TERMINATOR, p - start);
                    assert(contains_byte(sub, LINE_TERMINATOR)) by {
                        assert(sub[p - start] == LINE_TERMINATOR);
                    }
                },
                None => {
                    assert(!contains_byte(sub, LINE_TERMINATOR)) by {
                        if contains_byte(sub, LINE_TERMINATOR) {
                            let j = choose|j: int|
                                0 <= j < sub.len() && sub[j] == LINE_TERMINATOR;
                            assert(data@[start + j] == LINE_TERMINATOR);
                        }
                    }
                    assert(split_from(data@, cs, start as int, remaining as int) is None);
                },
            }
        }
        match found {
            None => {
                return Err(PipelineError::LineTooLong);
            },
            Some(p) => {
                let c = Chunk { start, end: p + 1 };
                chunks.push(c);
                proof {
                    let tail2 = split_from(data@, cs, p + 1 as int, remaining - 1 as int);
                    assert(split_from(data@, cs, start as int, remaining as int) == match tail2 {
                        None => None::<Seq<(int, int)>>,
                        Some(t) => Some(seq![(start as int, p + 1 as int)] + t),
                    });
                    assert(chunks@.map_values(|c2: Chunk| (c2.start as int, c2.end as int))
                        =~= models + seq![(start as int, p + 1 as int)]);
                    if tail2 is Some {
                        assert(models + (seq![(start as int, p + 1 as int)] + tail2.unwrap())
                            =~= (models + seq![(start as int, p + 1 as int)]) + tail2.unwrap());
                    }
                }
                start = p + 1;
                remaining = remaining - 1;
            },
        }
    }
}

} // verus!
