//! The record model: a byte region as a sequence of `(key, value)` records,
//! one per line, and how that sequence composes across line-aligned splits.

use vstd::prelude::*;

use crate::byteseq::{
    contains_byte, first_index, lemma_first_index, lemma_first_index_prefix, DELIMITER,
    LINE_TERMINATOR,
};
use crate::decimal::{is_valid_numeral, lemma_numeral_value_range, numeral_value};

verus! {

/// One line as a record: bytes before the first delimiter form the key,
/// bytes after it must match the value grammar. `None` is a malformed
/// record: no delimiter, an empty key, or a value outside the grammar.
pub open spec fn parse_line(line: Seq<u8>) -> Option<(Seq<u8>, int)> {
    if !contains_byte(line, DELIMITER) {
        None
    } else {
        let p = first_index(line, DELIMITER) as int;
        if p == 0 {
            None
        } else {
            let numeral = line.subrange(p + 1, line.len() as int);
            if is_valid_numeral(numeral) {
                Some((line.subrange(0, p), numeral_value(numeral)))
            } else {
                None
            }
        }
    }
}

/// The records of a byte region: split at each line terminator, parse every
/// line, `None` as soon as any line is malformed. The final line may omit
/// its terminator; an empty region holds no records.
pub open spec fn records_of(s: Seq<u8>) -> Option<Seq<(Seq<u8>, int)>>
    decreases s.len(),
{
    if s.len() == 0 {
        Some(Seq::empty())
    } else {
        let line = if contains_byte(s, LINE_TERMINATOR) {
            s.subrange(0, first_index(s, LINE_TERMINATOR) as int)
        } else {
            s
        };
        let rest = if contains_byte(s, LINE_TERMINATOR) && first_index(s, LINE_TERMINATOR) + 1
            <= s.len() {
            s.subrange(first_index(s, LINE_TERMINATOR) as int + 1, s.len() as int)
        } else {
            Seq::<u8>::empty()
        };
        match parse_line(line) {
            None => None,
            Some(r) => match records_of(rest) {
                None => None,
                Some(tail) => Some(seq![r] + tail),
            },
        }
    }
}

/// A record's key is non-empty and delimiter-free, and its value is in
/// `[-999, 999]` tenths.
pub open spec fn record_valid(r: (Seq<u8>, int)) -> bool {
    &&& r.0.len() >= 1
    &&& !contains_byte(r.0, DELIMITER)
    &&& !contains_byte(r.0, LINE_TERMINATOR)
    &&& -999 <= r.1 <= 999
}

/// A parsed line is a valid record, and the line itself spans at least five
/// bytes (key, delimiter, and a three-byte numeral at least).
pub proof fn lemma_parse_line_valid(line: Seq<u8>)
    requires
        parse_line(line) is Some,
        !contains_byte(line, LINE_TERMINATOR),
    ensures
        record_valid(parse_line(line).unwrap()),
        line.len() >= 5,
{
    let p = first_index(line, DELIMITER) as int;
    lemma_first_index(line, DELIMITER);
    let key = line.subrange(0, p);
    let numeral = line.subrange(p + 1, line.len() as int);
    lemma_numeral_value_range(numeral);
    assert(numeral.len() >= 3);
    assert(!contains_byte(key, DELIMITER)) by {
        if contains_byte(key, DELIMITER) {
            let i = choose|i: int| 0 <= i < key.len() && key[i] == DELIMITER;
            assert(line[i] == DELIMITER);
        }
    }
    assert(!contains_byte(key, LINE_TERMINATOR)) by {
        if contains_byte(key, LINE_TERMINATOR) {
            let i = choose|i: int| 0 <= i < key.len() && key[i] == LINE_TERMINATOR;
            assert(line[i] == LINE_TERMINATOR);
        }
    }
}

/// Every record of a region is valid, and the region grants each record at
/// least five bytes: `5 * count <= len + 1`.
pub proof fn lemma_records_of_valid(s: Seq<u8>)
    requires
        records_of(s) is Some,
    ensures
        forall|i: int|
            0 <= i < records_of(s).unwrap().len() ==> record_valid(
                #[trigger] records_of(s).unwrap()[i],
            ),
        5 * records_of(s).unwrap().len() <= s.len() + 1,
    decreases s.len(),
{
    if s.len() > 0 {
        lemma_first_index(s, LINE_TERMINATOR);
        let has_nl = contains_byte(s, LINE_TERMINATOR);
        let line = if has_nl {
            s.subrange(0, first_index(s, LINE_TERMINATOR) as int)
        } else {
            s
        };
        let rest = if has_nl && first_index(s, LINE_TERMINATOR) + 1 <= s.len() {
            s.subrange(first_index(s, LINE_TERMINATOR) as int + 1, s.len() as int)
        } else {
            Seq::<u8>::empty()
        };
        assert(!contains_byte(line, LINE_TERMINATOR)) by {
            if contains_byte(line, LINE_TERMINATOR) {
                let i = choose|i: int| 0 <= i < line.len() && line[i] == LINE_TERMINATOR;
                if has_nl {
                    assert(s[i] == LINE_TERMINATOR);
                } else {
                    assert(s[i] == LINE_TERMINATOR);
                }
            }
        }
        lemma_parse_line_valid(line);
        lemma_records_of_valid(rest);
        let r = parse_line(line).unwrap();
        let tail = records_of(rest).unwrap();
        assert(records_of(s).unwrap() == seq![r] + tail);
        assert(forall|i: int| 0 <= i < tail.len() ==> (seq![r] + tail)[i + 1] == #[trigger] tail[i]);
        assert((seq![r] + tail)[0] == r);
        if has_nl {
            assert(s.len() >= line.len() + 1 + rest.len());
        }
    }
}

/// Splitting just after a line terminator splits the record sequence: the
/// records of `a + b` are the records of `a` followed by the records of `b`,
/// and a malformed record on either side poisons the whole.
pub proof fn lemma_records_of_concat(a: Seq<u8>, b: Seq<u8>)
    requires
        a.len() == 0 || a[a.len() - 1] == LINE_TERMINATOR,
    ensures
        records_of(a + b) == match (records_of(a), records_of(b)) {
            (Some(ra), Some(rb)) => Some(ra + rb),
            _ => None::<Seq<(Seq<u8>, int)>>,
        },
    decreases a.len(),
{
    if a.len() == 0 {
        assert(a + b =~= b);
        if records_of(b) is Some {
            assert(Seq::<(Seq<u8>, int)>::empty() + records_of(b).unwrap() =~= records_of(
                b,
            ).unwrap());
        }
    } else {
        let s = a + b;
        assert(contains_byte(a, LINE_TERMINATOR)) by {
            assert(a[a.len() - 1] == LINE_TERMINATOR);
        }
        lemma_first_index_prefix(a, b, LINE_TERMINATOR);
        lemma_first_index(a, LINE_TERMINATOR);
        let p = first_index(a, LINE_TERMINATOR) as int;
        assert(first_index(s, LINE_TERMINATOR) == p);
        let line_a = a.subrange(0, p);
        let line_s = s.subrange(0, p);
        assert(line_s =~= line_a);
        let rest_a = a.subrange(p + 1, a.len() as int);
        let rest_s = s.subrange(p + 1, s.len() as int);
        assert(rest_s =~= rest_a + b);
        assert(rest_a.len() == 0 || rest_a[rest_a.len() - 1] == LINE_TERMINATOR) by {
            if rest_a.len() > 0 {
                assert(rest_a[rest_a.len() - 1] == a[a.len() - 1]);
            }
        }
        lemma_records_of_concat(rest_a, b);
        match parse_line(line_a) {
            None => {
                assert(records_of(s) is None);
                assert(records_of(a) is None);
            },
            Some(r) => {
                match (records_of(rest_a), records_of(b)) {
                    (Some(ra_tail), Some(rb)) => {
                        assert(records_of(a) == Some(seq![r] + ra_tail));
                        assert(records_of(rest_s) == Some(ra_tail + rb));
                        assert(records_of(s) == Some(seq![r] + (ra_tail + rb)));
                        assert(seq![r] + (ra_tail + rb) =~= (seq![r] + ra_tail) + rb);
                    },
                    _ => {
                        assert(records_of(rest_s) is None);
                        assert(records_of(s) is None);
                    },
                }
            },
        }
    }
}

} // verus!
