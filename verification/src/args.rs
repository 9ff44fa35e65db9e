//! Command-line arguments of the summariser: an optional worker-count
//! override followed by the input file's path.

use vstd::prelude::*;
use vstd::utf8::encode_utf8;

use crate::byteseq::{find_byte, first_index, lemma_first_index_is};
use crate::decimal::{digit_val, is_digit, DIGIT_ZERO};

verus! {

/// ASCII `'+'`.
pub const PLUS: u8 = 43;

/// ASCII `'='`.
pub const EQUALS: u8 = 61;

/// Every byte is an ASCII digit.
pub open spec fn all_digits(b: Seq<u8>) -> bool {
    forall|i: int| 0 <= i < b.len() ==> is_digit(#[trigger] b[i])
}

/// The number the digit bytes denote, most significant first.
pub open spec fn digits_value(b: Seq<u8>) -> int
    decreases b.len(),
{
    if b.len() == 0 {
        0
    } else {
        digits_value(b.drop_last()) * 10 + digit_val(b.last())
    }
}

pub proof fn lemma_digits_value_nonneg(b: Seq<u8>)
    requires
        all_digits(b),
    ensures
        digits_value(b) >= 0,
    decreases b.len(),
{
    if b.len() > 0 {
        let t = b.drop_last();
        assert(forall|i: int| 0 <= i < t.len() ==> t[i] == #[trigger] b[i]);
        lemma_digits_value_nonneg(t);
    }
}

/// The digit part of an unsigned numeric string: an optional leading plus
/// sign is skipped.
pub open spec fn numeric_body(b: Seq<u8>) -> Seq<u8> {
    if b.len() > 0 && b[0] == PLUS {
        b.drop_first()
    } else {
        b
    }
}

/// Whether the bytes denote an unsigned machine-word number: an optional
/// plus sign, then at least one digit, and a value that fits.
pub open spec fn parses_as_usize(b: Seq<u8>) -> bool {
    &&& numeric_body(b).len() >= 1
    &&& all_digits(numeric_body(b))
    &&& digits_value(numeric_body(b)) <= usize::MAX
}

/// Parses an unsigned decimal number with an optional leading plus sign.
///
/// `None` exactly when the bytes hold no digit, a non-digit, or a value
/// beyond the machine word.
#[verifier::loop_isolation(false)]
pub fn parse_usize_bytes(b: &[u8]) -> (r: Option<usize>)
    ensures
        match r {
            Some(v) => parses_as_usize(b@) && v as int == digits_value(numeric_body(b@)),
            None => !parses_as_usize(b@),
        },
{
    let n = b.len();
    let start: usize = if n > 0 && b[0] == PLUS {
        1
    } else {
        0
    };
    if n == start {
        return None;
    }
    let ghost body = numeric_body(b@);
    proof {
        assert(body =~= b@.subrange(start as int, n as int));
    }
    let mut i: usize = start;
    let mut acc: usize = 0;
    let mut overflow: bool = false;
    proof {
        assert(body.take(0) =~= Seq::<u8>::empty());
    }
    while i < n
        invariant
            start <= i <= n,
            all_digits(body.take(i - start)),
            !overflow ==> acc as int == digits_value(body.take(i - start)),
            overflow ==> digits_value(body.take(i - start)) > usize::MAX,
        decreases n - i,
    {
        let c = b[i];
        if c < DIGIT_ZERO || c > DIGIT_ZERO + 9 {
            proof {
                assert(body[i - start] == c);
                assert(!all_digits(body));
            }
            return None;
        }
        let d = (c - DIGIT_ZERO) as usize;
        proof {
            let t = body.take(i - start + 1);
            assert(t.drop_last() =~= body.take(i - start));
            assert(t.last() == body[i - start] == c);
            lemma_digits_value_nonneg(body.take(i - start));
        }
        if overflow {
            proof {
                assert(digits_value(body.take(i - start + 1)) > usize::MAX);
            }
        } else if acc > (usize::MAX - d) / 10 {
            proof {
                // acc * 10 + d would exceed the machine word
                assert(acc as int * 10 + d > usize::MAX) by {
                    if acc as int * 10 + d <= usize::MAX {
                        assert(acc as int * 10 <= usize::MAX - d);
                        assert(acc as int <= (usize::MAX - d) / 10) by {
                            vstd::arithmetic::div_mod::lemma_div_is_ordered(
                                acc as int * 10,
                                usize::MAX - d,
                                10,
                            );
                            vstd::arithmetic::div_mod::lemma_div_multiples_vanish(acc as int, 10);
                        }
                    }
                }
            }
            overflow = true;
        } else {
            proof {
                assert(acc as int * 10 + d <= usize::MAX) by {
                    assert(acc as int <= (usize::MAX - d) / 10);
                    assert(acc as int * 10 <= ((usize::MAX - d) / 10) * 10) by (nonlinear_arith)
                        requires
                            acc as int <= (usize::MAX - d) / 10,
                    ;
                    assert(((usize::MAX - d) / 10) * 10 <= usize::MAX - d) by {
                        vstd::arithmetic::div_mod::lemma_fundamental_div_mod(
                            usize::MAX - d,
                            10,
                        );
                        vstd::arithmetic::div_mod::lemma_mod_division_less_than_divisor(
                            usize::MAX - d,
                            10,
                        );
                    }
                }
            }
            acc = acc * 10 + d;
        }
        i = i + 1;
    }
    proof {
        assert(body.take(n - start) =~= body);
    }
    if overflow {
        None
    } else {
        Some(acc)
    }
}

/// The worker-count flag, `--threads`, as a byte prefix.
pub open spec fn has_threads_prefix(b: Seq<u8>) -> bool {
    &&& b.len() >= 9
    &&& b[0] == 45 && b[1] == 45  // "--"
    &&& b[2] == 116 && b[3] == 104 && b[4] == 114 && b[5] == 101  // "thre"
    &&& b[6] == 97 && b[7] == 100 && b[8] == 115  // "ads"
}

/// What a command line denotes: the input path's bytes and the worker
/// override, or nothing when the line is unusable.
///
/// The first argument is the executable's own name and is skipped. A first
/// real argument starting with `--threads` must carry `=`; the number after
/// the first `=` becomes the override when it parses, and is ignored
/// otherwise. The next argument is the path; a missing path refuses the
/// whole line.
pub open spec fn spec_parse_args(argv: Seq<Seq<u8>>) -> Option<(Seq<u8>, Option<int>)> {
    if argv.len() < 1 {
        None
    } else {
        let rest = argv.drop_first();
        if rest.len() >= 1 && has_threads_prefix(rest[0]) {
            if !crate::byteseq::contains_byte(rest[0], EQUALS) {
                None
            } else {
                let num = rest[0].subrange(
                    first_index(rest[0], EQUALS) as int + 1,
                    rest[0].len() as int,
                );
                let threads = if parses_as_usize(num) {
                    Some(digits_value(numeric_body(num)))
                } else {
                    None::<int>
                };
                if rest.len() >= 2 {
                    Some((rest[1], threads))
                } else {
                    None
                }
            }
        } else if rest.len() >= 1 {
            Some((rest[0], None))
        } else {
            None
        }
    }
}

/// The run's inputs: the file path and an optional worker-count override.
pub struct Args {
    pub path: String,
    pub threads: Option<usize>,
}

impl Args {
    /// Reads the command line, executable name first.
    pub fn parse(args: &Vec<String>) -> (r: Option<Args>)
        ensures
            ({
                let argv = args@.map_values(|s: String| encode_utf8(s@));
                match r {
                    Some(a) => match spec_parse_args(argv) {
                        Some(pa) => {
                            &&& encode_utf8(a.path@) == pa.0
                            &&& match (a.threads, pa.1) {
                                (Some(t), Some(v)) => t as int == v,
                                (None, None) => true,
                                _ => false,
                            }
                        },
                        None => false,
                    },
                    None => spec_parse_args(argv) is None,
                }
            }),
    {
        let ghost argv = args@.map_values(|s: String| encode_utf8(s@));
        if args.len() < 1 {
            return None;
        }
        let ghost rest = argv.drop_first();
        proof {
            assert(forall|j: int| 0 <= j < rest.len() ==> rest[j] == #[trigger] argv[j + 1]);
        }
        let mut current: usize = 1;
        let mut threads: Option<usize> = None;
        if args.len() >= 2 {
            let first = args[1].as_str().as_bytes();
            proof {
                assert(first@ == argv[1]);
                assert(rest[0] == argv[1]);
            }
            let flagged = first.len() >= 9 && first[0] == 45 && first[1] == 45 && first[2] == 116
                && first[3] == 104 && first[4] == 114 && first[5] == 101 && first[6] == 97
                && first[7] == 100 && first[8] == 115;
            proof {
                assert(flagged == has_threads_prefix(rest[0]));
            }
            if flagged {
                let eq = find_byte(first, 0, first.len(), EQUALS);
                let ei = match eq {
                    Some(ei) => ei,
                    None => {
                        proof {
                            if crate::byteseq::contains_byte(rest[0], EQUALS) {
                                let j = choose|j: int|
                                    0 <= j < rest[0].len() && rest[0][j] == EQUALS;
                            }
                        }
                        return None;
                    },
                };
                proof {
                    lemma_first_index_is(rest[0], EQUALS, ei as int);
                }
                let number = vstd::slice::slice_subrange(first, ei + 1, first.len());
                proof {
                    assert(number@ =~= rest[0].subrange(
                        first_index(rest[0], EQUALS) as int + 1,
                        rest[0].len() as int,
                    ));
                }
                threads = parse_usize_bytes(number);
                current = 2;
            }
        }
        if current >= args.len() {
            return None;
        }
        let path = args[current].clone();
        proof {
            assert(encode_utf8(path@) == argv[current as int]);
            if current == 2 {
                assert(rest[1] == argv[2]);
            }
        }
        Some(Args { path, threads })
    }
}

} // verus!
