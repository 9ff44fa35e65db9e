//! The map and reduce phases: parsing one chunk into an aggregation map,
//! and folding all chunks of a region into the one result the whole record
//! set determines.

use vstd::prelude::*;

use crate::aggmap::{
    agg_of_records, canonical_entries, lemma_agg_concat, lemma_agg_of_records_wf, lemma_agg_push,
    lemma_canonical_entries, merge_maps, AggregationMap,
};
use crate::byteseq::{
    contains_byte, find_byte, lemma_first_index_is, DELIMITER, LINE_TERMINATOR,
};
use crate::chunking::{chunk_target, create_chunks, lemma_chunks_cover, split_from, Chunk};
use crate::decimal::Decimal;
use crate::format::{format_output, render_map};
use crate::records::{lemma_records_of_concat, lemma_records_of_valid, parse_line, records_of};
use crate::PipelineError;

verus! {

/// Splits one line at its first delimiter into the key before it and the
/// numeral after it, and parses the numeral.
///
/// Fails exactly when the line is a malformed record: no delimiter, an
/// empty key, or a numeral outside the value grammar.
pub fn parse_record<'a>(line: &'a [u8]) -> (r: Result<(&'a [u8], Decimal), PipelineError>)
    ensures
        match r {
            Ok((key, value)) => {
                &&& parse_line(line@) == Some((key@, value@))
                &&& -999 <= value@ <= 999
            },
            Err(e) => {
                &&& e == PipelineError::MalformedRecord
                &&& parse_line(line@) is None
            },
        },
{
    let len = line.len();
    let semi = find_byte(line, 0, len, DELIMITER);
    let si = match semi {
        Some(si) => si,
        None => {
            proof {
                assert(!contains_byte(line@, DELIMITER)) by {
                    if contains_byte(line@, DELIMITER) {
                        let j = choose|j: int| 0 <= j < line@.len() && line@[j] == DELIMITER;
                    }
                }
            }
            return Err(PipelineError::MalformedRecord);
        },
    };
    proof {
        lemma_first_index_is(line@, DELIMITER, si as int);
        assert(contains_byte(line@, DELIMITER));
    }
    if si == 0 {
        return Err(PipelineError::MalformedRecord);
    }
    let numeral = vstd::slice::slice_subrange(line, si + 1, len);
    let value = match Decimal::parse(numeral) {
        Ok(v) => v,
        Err(e) => {
            return Err(e);
        },
    };
    let key = vstd::slice::slice_subrange(line, 0, si);
    Ok((key, value))
}

/// Parses one line-aligned chunk and folds its records into a fresh
/// aggregation map.
///
/// Succeeds exactly when every line of the chunk is a well-formed record;
/// the map then aggregates exactly those records. The first malformed line
/// aborts the pass.
#[verifier::loop_isolation(false)]
pub fn process_chunk(chunk: &[u8]) -> (r: Result<AggregationMap, PipelineError>)
    ensures
        match r {
            Ok(m) => {
                &&& records_of(chunk@) is Some
                &&& m.wf()
                &&& m@ == agg_of_records(records_of(chunk@).unwrap())
            },
            Err(e) => {
                &&& e == PipelineError::MalformedRecord
                &&& records_of(chunk@) is None
            },
        },
{
    let len = chunk.len();
    let mut m = AggregationMap::new();
    let ghost mut recs: Seq<(Seq<u8>, int)> = Seq::empty();
    let mut pos: usize = 0;
    proof {
        assert(chunk@.subrange(0, len as int) =~= chunk@);
        if records_of(chunk@) is Some {
            assert(recs + records_of(chunk@).unwrap() =~= records_of(chunk@).unwrap());
        }
    }
    loop
        invariant
            0 <= pos <= len,
            m.wf(),
            m@ == agg_of_records(recs),
            forall|i: int| 0 <= i < recs.len() ==> -999 <= (#[trigger] recs[i]).1 <= 999,
            5 * recs.len() <= pos + 1,
            match records_of(chunk@.subrange(pos as int, len as int)) {
                Some(t) => records_of(chunk@) == Some(recs + t),
                None => records_of(chunk@) is None,
            },
        decreases len - pos,
    {
        if pos >= len {
            proof {
                let sub = chunk@.subrange(pos as int, len as int);
                assert(sub.len() == 0);
                assert(records_of(sub) == Some(Seq::<(Seq<u8>, int)>::empty()));
                assert(recs + Seq::<(Seq<u8>, int)>::empty() =~= recs);
            }
            return Ok(m);
        }
        let ghost sub = chunk@.subrange(pos as int, len as int);
        proof {
            assert(forall|j: int| 0 <= j < sub.len() ==> sub[j] == chunk@[pos + j]);
        }
        let nl = find_byte(chunk, pos, len, LINE_TERMINATOR);
        let line_end: usize = match nl {
            Some(i) => i,
            None => len,
        };
        let ghost line = sub.subrange(
            0,
            line_end - pos,
        );
        let ghost rest = if nl is Some {
            sub.subrange(line_end - pos + 1, sub.len() as int)
        } else {
            Seq::<u8>::empty()
        };
        proof {
            match nl {
                Some(i) => {
                    assert(sub[i - pos] == LINE_TERMINATOR);
                    assert(forall|j: int| 0 <= j < i - pos ==> sub[j] != LINE_TERMINATOR);
                    lemma_first_index_is(sub, LINE_TERMINATOR, i - pos);
                    assert(contains_byte(sub, LINE_TERMINATOR));
                },
                None => {
                    assert(!contains_byte(sub, LINE_TERMINATOR)) by {
                        if contains_byte(sub, LINE_TERMINATOR) {
                            let j = choose|j: int|
                                0 <= j < sub.len() && sub[j] == LINE_TERMINATOR;
                            assert(chunk@[pos + j] == LINE_TERMINATOR);
                        }
                    }
                    assert(line =~= sub);
                },
            }
            assert(records_of(sub) == match parse_line(line) {
                None => None::<Seq<(Seq<u8>, int)>>,
                Some(r0) => match records_of(rest) {
                    None => None,
                    Some(tail) => Some(seq![r0] + tail),
                },
            });
        }
        let line_slice = vstd::slice::slice_subrange(chunk, pos, line_end);
        proof {
            assert(line_slice@ =~= line);
        }
        let (key, value) = match parse_record(line_slice) {
            Ok(kv) => kv,
            Err(e) => {
                return Err(e);
            },
        };
        proof {
            assert(parse_line(line) == Some((key@, value@)));
            // counts in the aggregation stay below the number of records
            lemma_agg_of_records_wf(recs);
            if m@.dom().contains(key@) {
                assert(m@[key@].count <= recs.len());
                assert(5 * recs.len() <= pos + 1);
                assert(pos + 1 <= usize::MAX + 1);
                assert(recs.len() < u64::MAX) by (nonlinear_arith)
                    requires
                        5 * recs.len() <= usize::MAX + 1,
                        usize::MAX <= u64::MAX,
                ;
            }
        }
        m.add_record(key, value);
        proof {
            lemma_agg_push(recs, key@, value@);
            recs = recs.push((key@, value@));
            assert(m@ == agg_of_records(recs));
        }
        let next_pos: usize = match nl {
            Some(i) => i + 1,
            None => len,
        };
        proof {
            let new_sub = chunk@.subrange(next_pos as int, len as int);
            assert(new_sub =~= rest);
            match records_of(rest) {
                Some(tail) => {
                    let t = records_of(sub).unwrap();
                    assert(records_of(sub) == Some(seq![(key@, value@)] + tail));
                    assert(records_of(chunk@) == Some(recs.drop_last() + t));
                    assert(recs.drop_last() + t =~= recs + tail);
                },
                None => {
                    assert(records_of(sub) is None);
                },
            }
            // each record spans at least five bytes of the chunk
            assert(!contains_byte(line, LINE_TERMINATOR)) by {
                if contains_byte(line, LINE_TERMINATOR) {
                    let j = choose|j: int| 0 <= j < line.len() && line[j] == LINE_TERMINATOR;
                    assert(sub[j] == LINE_TERMINATOR);
                }
            }
            crate::records::lemma_parse_line_valid(line);
            assert(line.len() >= 5);
            assert(5 * recs.len() <= next_pos + 1);
        }
        pos = next_pos;
    }
}

/// Runs the whole map and reduce over a byte region: split into
/// line-aligned chunks, aggregate each, and merge.
///
/// The result is determined by the region's bytes alone — the worker count
/// only shapes the chunking, never the aggregated statistics.
pub fn aggregate(data: &[u8], worker_count: usize) -> (r: Result<AggregationMap, PipelineError>)
    requires
        worker_count >= 1,
    ensures
        match r {
            Ok(m) => {
                &&& split_from(
                    data@,
                    chunk_target(data@.len(), worker_count as nat),
                    0,
                    worker_count as int,
                ) is Some
                &&& records_of(data@) is Some
                &&& m.wf()
                &&& m@ == agg_of_records(records_of(data@).unwrap())
            },
            Err(PipelineError::LineTooLong) => split_from(
                data@,
                chunk_target(data@.len(), worker_count as nat),
                0,
                worker_count as int,
            ) is None,
            Err(PipelineError::MalformedRecord) => records_of(data@) is None,
        },
{
    let chunks = match create_chunks(data, worker_count) {
        Ok(chunks) => chunks,
        Err(e) => {
            return Err(e);
        },
    };
    let ghost cs = chunk_target(data@.len(), worker_count as nat);
    proof {
        lemma_chunks_cover(
            data@,
            cs,
            0,
            worker_count as int,
            chunks@.map_values(|c: Chunk| (c.start as int, c.end as int)),
        );
    }
    reduce_chunks(data, &chunks)
}

/// The reduce phase: aggregates a line-aligned partition of the region,
/// chunk by chunk, into one map.
#[verifier::loop_isolation(false)]
fn reduce_chunks(data: &[u8], chunks: &Vec<Chunk>) -> (r: Result<AggregationMap, PipelineError>)
    requires
        ({
            let cm = chunks@.map_values(|c: Chunk| (c.start as int, c.end as int));
            &&& (cm.len() == 0 <==> data@.len() == 0)
            &&& cm.len() > 0 ==> cm[0].0 == 0 && cm[cm.len() - 1].1 == data@.len()
            &&& forall|i: int|
                0 <= i < cm.len() ==> (#[trigger] cm[i]).0 < cm[i].1 <= data@.len()
            &&& forall|i: int| 0 < i < cm.len() ==> (#[trigger] cm[i]).0 == cm[i - 1].1
            &&& forall|i: int|
                0 <= i < cm.len() - 1 ==> data@[(#[trigger] cm[i]).1 - 1] == LINE_TERMINATOR
        }),
    ensures
        match r {
            Ok(m) => {
                &&& records_of(data@) is Some
                &&& m.wf()
                &&& m@ == agg_of_records(records_of(data@).unwrap())
            },
            Err(e) => {
                &&& e == PipelineError::MalformedRecord
                &&& records_of(data@) is None
            },
        },
{
    let len = data.len();
    let ghost cmodels = chunks@.map_values(|c: Chunk| (c.start as int, c.end as int));
    let n = chunks.len();
    let mut acc = AggregationMap::new();
    let mut i: usize = 0;
    proof {
        assert(records_of(data@.subrange(0, 0)) == Some(Seq::<(Seq<u8>, int)>::empty()));
    }
    loop
        invariant
            0 <= i <= n,
            acc.wf(),
            ({
                let prev_end: int = if i == 0 {
                    0
                } else {
                    cmodels[i - 1].1
                };
                &&& 0 <= prev_end <= len
                &&& (i == n && n > 0) ==> prev_end == len
                &&& prev_end == 0 || prev_end == len || data@[prev_end - 1] == LINE_TERMINATOR
                &&& records_of(data@.subrange(0, prev_end)) is Some
                &&& acc@ == agg_of_records(records_of(data@.subrange(0, prev_end)).unwrap())
            }),
        decreases n - i,
    {
        if i >= n {
            break;
        }
        let c = chunks[i];
        proof {
            assert(cmodels[i as int] == (c.start as int, c.end as int));
            if i > 0 {
                assert(c.start as int == cmodels[i - 1].1);
            }
            assert(c.start < c.end <= len);
            if (c.end as int) < len {
                assert(i < n - 1 || cmodels[n - 1].1 == len);
                assert(data@[c.end - 1] == LINE_TERMINATOR);
            }
        }
        match merge_chunk_into(&mut acc, data, c.start, c.end) {
            Err(e) => {
                return Err(e);
            },
            Ok(_) => {},
        }
        i = i + 1;
    }
    proof {
        if n == 0 {
            assert(len == 0);
            assert(data@.subrange(0, 0) =~= data@);
        } else {
            assert(data@.subrange(0, len as int) =~= data@);
        }
    }
    Ok(acc)
}

/// Determinism across chunk boundaries: cutting a region just after any
/// line terminator changes nothing — aggregating the two pieces separately
/// and merging equals aggregating the whole region, and the pieces are
/// well-formed exactly when the whole is.
pub proof fn lemma_split_determinism(a: Seq<u8>, b: Seq<u8>)
    requires
        a.len() == 0 || a[a.len() - 1] == LINE_TERMINATOR,
        records_of(a + b) is Some,
    ensures
        records_of(a) is Some,
        records_of(b) is Some,
        merge_maps(
            agg_of_records(records_of(a).unwrap()),
            agg_of_records(records_of(b).unwrap()),
        ) == agg_of_records(records_of(a + b).unwrap()),
{
    lemma_records_of_concat(a, b);
    lemma_agg_concat(records_of(a).unwrap(), records_of(b).unwrap());
}

/// The summary line a byte region determines: its records aggregated, laid
/// out in ascending key order, and rendered. A function of the region's
/// bytes alone.
pub open spec fn spec_summary(s: Seq<u8>) -> Seq<u8> {
    render_map(canonical_entries(agg_of_records(records_of(s).unwrap())))
}

/// Runs the whole pipeline and renders the result.
///
/// Determinism: the returned line equals `spec_summary` of the input bytes,
/// whatever the worker count and hence whatever the chunk boundaries — only
/// whether the run is refused for an oversized line can depend on the
/// worker count, never the rendered summary.
pub fn summarize(data: &[u8], worker_count: usize) -> (r: Result<Vec<u8>, PipelineError>)
    requires
        worker_count >= 1,
    ensures
        match r {
            Ok(out) => {
                &&& split_from(
                    data@,
                    chunk_target(data@.len(), worker_count as nat),
                    0,
                    worker_count as int,
                ) is Some
                &&& records_of(data@) is Some
                &&& out@ == spec_summary(data@)
            },
            Err(PipelineError::LineTooLong) => split_from(
                data@,
                chunk_target(data@.len(), worker_count as nat),
                0,
                worker_count as int,
            ) is None,
            Err(PipelineError::MalformedRecord) => records_of(data@) is None,
        },
{
    let m = match aggregate(data, worker_count) {
        Ok(m) => m,
        Err(e) => {
            return Err(e);
        },
    };
    let out = format_output(&m);
    proof {
        lemma_canonical_entries(m@, m.models());
    }
    Ok(out)
}

/// Aggregates the chunk `[start, end)` of the region and merges it into the
/// accumulator covering everything before `start`.
fn merge_chunk_into(acc: &mut AggregationMap, data: &[u8], start: usize, end: usize) -> (r: Result<
    (),
    PipelineError,
>)
    requires
        start < end <= data@.len(),
        start == 0 || data@[start as int - 1] == LINE_TERMINATOR,
        end == data@.len() || data@[end - 1] == LINE_TERMINATOR,
        records_of(data@.subrange(0, start as int)) is Some,
        old(acc).wf(),
        old(acc)@ == agg_of_records(records_of(data@.subrange(0, start as int)).unwrap()),
    ensures
        r is Ok ==> {
            &&& records_of(data@.subrange(0, end as int)) is Some
            &&& final(acc).wf()
            &&& final(acc)@ == agg_of_records(records_of(data@.subrange(0, end as int)).unwrap())
        },
        r matches Err(e) ==> {
            &&& e == PipelineError::MalformedRecord
            &&& records_of(data@) is None
        },
{
    let len = data.len();
    let piece = vstd::slice::slice_subrange(data, start, end);
    let ghost prefix = data@.subrange(0, start as int);
    let ghost after = data@.subrange(end as int, len as int);
    proof {
        if start > 0 {
            assert(prefix[start as int - 1] == data@[start as int - 1]);
        }
    }
    match process_chunk(piece) {
        Err(e) => {
            proof {
                // a malformed record inside this chunk poisons the whole region
                if (end as int) < len {
                    assert(piece@[piece@.len() - 1] == data@[end - 1]);
                    lemma_records_of_concat(piece@, after);
                    assert(piece@ + after =~= data@.subrange(start as int, len as int));
                    assert(records_of(data@.subrange(start as int, len as int)) is None);
                } else {
                    assert(piece@ =~= data@.subrange(start as int, len as int));
                }
                lemma_records_of_concat(prefix, data@.subrange(start as int, len as int));
                assert(prefix + data@.subrange(start as int, len as int) =~= data@);
                assert(records_of(data@) is None);
            }
            Err(e)
        },
        Ok(part) => {
            proof {
                let prefix_recs = records_of(prefix).unwrap();
                let chunk_recs = records_of(piece@).unwrap();
                lemma_records_of_concat(prefix, piece@);
                assert(prefix + piece@ =~= data@.subrange(0, end as int));
                assert(records_of(data@.subrange(0, end as int)) == Some(
                    prefix_recs + chunk_recs,
                ));
                lemma_agg_concat(prefix_recs, chunk_recs);
                // both operands' counts are bounded by their record counts
                lemma_records_of_valid(prefix);
                lemma_records_of_valid(piece@);
                lemma_agg_of_records_wf(prefix_recs);
                lemma_agg_of_records_wf(chunk_recs);
                assert forall|k: Seq<u8>|
                    acc@.dom().contains(k) && part@.dom().contains(k)
                    implies (#[trigger] acc@[k]).count + part@[k].count <= u64::MAX by {
                    assert(acc@[k].count <= prefix_recs.len());
                    assert(part@[k].count <= chunk_recs.len());
                    assert(5 * prefix_recs.len() <= prefix.len() + 1);
                    assert(5 * chunk_recs.len() <= piece@.len() + 1);
                    assert(prefix.len() + piece@.len() <= len);
                    assert(prefix_recs.len() + chunk_recs.len() <= u64::MAX) by (nonlinear_arith)
                        requires
                            5 * prefix_recs.len() <= prefix.len() + 1,
                            5 * chunk_recs.len() <= piece@.len() + 1,
                            prefix.len() + piece@.len() <= len,
                            len <= usize::MAX,
                            usize::MAX <= u64::MAX,
                    ;
                }
            }
            acc.merge(part);
            Ok(())
        },
    }
}

} // verus!
