//! Rendering the merged aggregation map as the one-line summary: entries in
//! ascending key order, each `key=min/mean/max` with exactly one digit after
//! the decimal point, joined by `", "` and wrapped in braces.

use vstd::prelude::*;

use crate::aggmap::AggregationMap;
use crate::decimal::{DIGIT_ZERO, DOT, MINUS};
use crate::stats::{round_to_nearest, StatModel};

verus! {

/// ASCII `'='`.
pub const EQUALS_SIGN: u8 = 61;

/// ASCII `'/'`.
pub const SLASH: u8 = 47;

/// ASCII `'{'`.
pub const OPEN_BRACE: u8 = 123;

/// ASCII `'}'`.
pub const CLOSE_BRACE: u8 = 125;

/// ASCII `','`.
pub const COMMA: u8 = 44;

/// ASCII `' '`.
pub const SPACE: u8 = 32;

/// The digit byte for `0 <= d <= 9`.
pub open spec fn digit_byte(d: int) -> u8 {
    (DIGIT_ZERO + d) as u8
}

/// The rendering of `0 <= n <= 999` tenths: one or two integer digits, the
/// decimal point, and the tenths digit.
pub open spec fn render_unsigned(n: int) -> Seq<u8> {
    if n >= 100 {
        seq![digit_byte(n / 100), digit_byte((n / 10) % 10), DOT, digit_byte(n % 10)]
    } else {
        seq![digit_byte(n / 10), DOT, digit_byte(n % 10)]
    }
}

/// The rendering of `-999 <= t <= 999` tenths, a leading minus when
/// negative.
pub open spec fn render_tenths(t: int) -> Seq<u8> {
    if t < 0 {
        seq![MINUS] + render_unsigned(-t)
    } else {
        render_unsigned(t)
    }
}

/// One output entry: `key=min/mean/max`.
pub open spec fn render_entry(k: Seq<u8>, s: StatModel) -> Seq<u8> {
    k + seq![EQUALS_SIGN] + render_tenths(s.min) + seq![SLASH] + render_tenths(
        round_to_nearest(s.sum, s.count),
    ) + seq![SLASH] + render_tenths(s.max)
}

/// The items joined with the separator between consecutive items.
pub open spec fn join_with(items: Seq<Seq<u8>>, sep: Seq<u8>) -> Seq<u8>
    decreases items.len(),
{
    if items.len() == 0 {
        Seq::empty()
    } else if items.len() == 1 {
        items[0]
    } else {
        join_with(items.drop_last(), sep) + sep + items.last()
    }
}

/// The whole summary line for an entry sequence: entries joined with `", "`
/// and wrapped in braces; an empty sequence renders as `{}`.
pub open spec fn render_map(es: Seq<(Seq<u8>, StatModel)>) -> Seq<u8> {
    seq![OPEN_BRACE] + join_with(
        es.map_values(|e: (Seq<u8>, StatModel)| render_entry(e.0, e.1)),
        seq![COMMA, SPACE],
    ) + seq![CLOSE_BRACE]
}

/// Appends the rendering of `t` tenths to `out`.
fn push_tenths(out: &mut Vec<u8>, t: i16)
    requires
        -999 <= t <= 999,
    ensures
        final(out)@ == old(out)@ + render_tenths(t as int),
{
    let ghost before = out@;
    let n: u16 = if t < 0 {
        out.push(MINUS);
        (-t) as u16
    } else {
        t as u16
    };
    if n >= 100 {
        out.push(DIGIT_ZERO + (n / 100) as u8);
        out.push(DIGIT_ZERO + ((n / 10) % 10) as u8);
        out.push(DOT);
        out.push(DIGIT_ZERO + (n % 10) as u8);
    } else {
        out.push(DIGIT_ZERO + (n / 10) as u8);
        out.push(DOT);
        out.push(DIGIT_ZERO + (n % 10) as u8);
    }
    proof {
        assert(out@ =~= before + render_tenths(t as int));
    }
}

/// Joining a collection of byte strings with a separator.
pub trait Join {
    type Item;

    /// The byte strings to be joined, in order.
    spec fn join_model(&self) -> Seq<Seq<u8>>;

    /// The items with the separator between consecutive items.
    fn join(&self, separator: &[u8]) -> (r: Vec<u8>)
        ensures
            r@ == join_with(self.join_model(), separator@),
    ;
}

impl Join for Vec<Vec<u8>> {
    type Item = Vec<u8>;

    open spec fn join_model(&self) -> Seq<Seq<u8>> {
        self@.map_values(|v: Vec<u8>| v@)
    }

    #[verifier::loop_isolation(false)]
    fn join(&self, separator: &[u8]) -> (r: Vec<u8>) {
        let ghost items = self.join_model();
        let n = self.len();
        let mut out: Vec<u8> = Vec::new();
        let mut i: usize = 0;
        proof {
            assert(items.take(0) =~= Seq::<Seq<u8>>::empty());
        }
        while i < n
            invariant
                0 <= i <= n,
                out@ == join_with(items.take(i as int), separator@),
            decreases n - i,
        {
            if i > 0 {
                out.extend_from_slice(separator);
            }
            out.extend_from_slice(self[i].as_slice());
            proof {
                let t = items.take(i + 1);
                assert(t.drop_last() =~= items.take(i as int));
                assert(t.last() == items[i as int]);
                if i == 0 {
                    assert(out@ =~= join_with(t, separator@));
                } else {
                    assert(out@ =~= join_with(t, separator@));
                }
            }
            i = i + 1;
        }
        proof {
            assert(items.take(n as int) =~= items);
        }
        out
    }
}

/// Renders the merged mapping as the output line.
///
/// Entries come out in ascending byte-lexicographic key order — the map's
/// own canonical order — each as `key=min/mean/max` with one digit after
/// the decimal point, the mean rounded to the nearest tenth, ties away from
/// zero.
#[verifier::loop_isolation(false)]
pub fn format_output(m: &AggregationMap) -> (r: Vec<u8>)
    requires
        m.wf(),
    ensures
        r@ == render_map(m.models()),
{
    let n = m.len();
    let mut items: Vec<Vec<u8>> = Vec::new();
    let mut i: usize = 0;
    proof {
        assert(items.join_model() =~= m.models().take(0).map_values(
            |e: (Seq<u8>, StatModel)| render_entry(e.0, e.1),
        ));
    }
    while i < n
        invariant
            0 <= i <= n,
            items.join_model() == m.models().take(i as int).map_values(
                |e: (Seq<u8>, StatModel)| render_entry(e.0, e.1),
            ),
        decreases n - i,
    {
        let mut entry: Vec<u8> = Vec::new();
        entry.extend_from_slice(m.key_at(i).as_slice());
        entry.push(EQUALS_SIGN);
        let st = m.stat_at(i);
        push_tenths(&mut entry, st.min().tenths());
        entry.push(SLASH);
        let mean = st.mean();
        push_tenths(&mut entry, mean.tenths());
        entry.push(SLASH);
        push_tenths(&mut entry, st.max().tenths());
        proof {
            let e = m.models()[i as int];
            assert(entry@ =~= render_entry(e.0, e.1));
        }
        let ghost entry_view = entry@;
        let ghost prev_join = items.join_model();
        items.push(entry);
        proof {
            let mv = |e: (Seq<u8>, StatModel)| render_entry(e.0, e.1);
            assert(items.join_model() =~= prev_join.push(entry_view));
            assert(m.models().take(i + 1).map_values(mv) =~= m.models().take(i as int).map_values(
                mv,
            ).push(mv(m.models()[i as int])));
            assert(items.join_model() =~= m.models().take(i + 1).map_values(mv));
        }
        i = i + 1;
    }
    proof {
        assert(m.models().take(n as int) =~= m.models());
    }
    let mut sep: Vec<u8> = Vec::new();
    sep.push(COMMA);
    sep.push(SPACE);
    proof {
        assert(sep@ =~= seq![COMMA, SPACE]);
    }
    let joined = items.join(sep.as_slice());
    let mut out: Vec<u8> = Vec::new();
    out.push(OPEN_BRACE);
    out.extend_from_slice(joined.as_slice());
    out.push(CLOSE_BRACE);
    proof {
        assert(out@ =~= render_map(m.models()));
    }
    out
}

} // verus!
