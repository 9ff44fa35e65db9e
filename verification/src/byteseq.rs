//! Byte-sequence primitives: first/last occurrence search and the ascending
//! byte-lexicographic order used to sort output keys.

use vstd::prelude::*;

verus! {

/// The line terminator between records (`'\n'`).
pub const LINE_TERMINATOR: u8 = 10;

/// The field delimiter between a key and its value (`';'`).
pub const DELIMITER: u8 = 59;

/// Whether `b` occurs in `s`.
pub open spec fn contains_byte(s: Seq<u8>, b: u8) -> bool {
    exists|i: int| 0 <= i < s.len() && s[i] == b
}

/// Index of the first occurrence of `b` in `s`; equals `s.len()` when `b`
/// does not occur.
pub open spec fn first_index(s: Seq<u8>, b: u8) -> nat
    decreases s.len(),
{
    if s.len() == 0 {
        0
    } else if s[0] == b {
        0
    } else {
        (1 + first_index(s.drop_first(), b)) as nat
    }
}

pub proof fn lemma_first_index(s: Seq<u8>, b: u8)
    ensures
        contains_byte(s, b) ==> {
            let p = first_index(s, b) as int;
            &&& 0 <= p < s.len()
            &&& s[p] == b
            &&& forall|j: int| 0 <= j < p ==> s[j] != b
        },
        !contains_byte(s, b) ==> first_index(s, b) == s.len(),
    decreases s.len(),
{
    if s.len() > 0 && s[0] != b {
        lemma_first_index(s.drop_first(), b);
        let t = s.drop_first();
        assert(forall|i: int| 0 <= i < t.len() ==> t[i] == s[i + 1]);
        if contains_byte(s, b) {
            let i = choose|i: int| 0 <= i < s.len() && s[i] == b;
            assert(t[i - 1] == b);
            assert(contains_byte(t, b));
            let p = first_index(t, b) as int;
            assert(first_index(s, b) == p + 1);
            assert(s[p + 1] == t[p]);
            assert(forall|j: int| 1 <= j < p + 1 ==> s[j] == t[j - 1]);
        } else {
            assert(!contains_byte(t, b)) by {
                if contains_byte(t, b) {
                    let i = choose|i: int| 0 <= i < t.len() && t[i] == b;
                    assert(s[i + 1] == b);
                }
            }
        }
    }
}

/// The first index determines itself: if `b` stands at `i` and nowhere
/// before, then `first_index` is `i`.
pub proof fn lemma_first_index_is(s: Seq<u8>, b: u8, i: int)
    requires
        0 <= i < s.len(),
        s[i] == b,
        forall|j: int| 0 <= j < i ==> s[j] != b,
    ensures
        first_index(s, b) == i,
{
    assert(contains_byte(s, b));
    lemma_first_index(s, b);
    let p = first_index(s, b) as int;
    if p < i {
        assert(s[p] != b);
    }
}

/// The first occurrence within a prefix is the first occurrence of the
/// whole sequence.
pub proof fn lemma_first_index_prefix(a: Seq<u8>, b: Seq<u8>, t: u8)
    requires
        contains_byte(a, t),
    ensures
        contains_byte(a + b, t),
        first_index(a + b, t) == first_index(a, t),
{
    lemma_first_index(a, t);
    let p = first_index(a, t) as int;
    assert((a + b)[p] == t);
    assert(forall|j: int| 0 <= j < p ==> (a + b)[j] == a[j]);
    lemma_first_index_is(a + b, t, p);
}

/// Index of the last occurrence of `b` in `s`; equals `-1` when `b` does
/// not occur.
pub open spec fn last_index(s: Seq<u8>, b: u8) -> int
    decreases s.len(),
{
    if s.len() == 0 {
        -1
    } else if s[s.len() - 1] == b {
        s.len() - 1
    } else {
        last_index(s.drop_last(), b)
    }
}

pub proof fn lemma_last_index(s: Seq<u8>, b: u8)
    ensures
        contains_byte(s, b) ==> {
            let p = last_index(s, b);
            &&& 0 <= p < s.len()
            &&& s[p] == b
            &&& forall|j: int| p < j < s.len() ==> s[j] != b
        },
        !contains_byte(s, b) ==> last_index(s, b) == -1,
    decreases s.len(),
{
    if s.len() > 0 && s[s.len() - 1] != b {
        lemma_last_index(s.drop_last(), b);
        let t = s.drop_last();
        assert(contains_byte(s, b) ==> contains_byte(t, b)) by {
            if contains_byte(s, b) {
                let i = choose|i: int| 0 <= i < s.len() && s[i] == b;
                assert(t[i] == b);
            }
        }
        assert(forall|i: int| 0 <= i < t.len() ==> t[i] == s[i]);
    }
}

/// The last index determines itself: if `b` stands at `i` and nowhere
/// after, then `last_index` is `i`.
pub proof fn lemma_last_index_is(s: Seq<u8>, b: u8, i: int)
    requires
        0 <= i < s.len(),
        s[i] == b,
        forall|j: int| i < j < s.len() ==> s[j] != b,
    ensures
        last_index(s, b) == i,
{
    assert(contains_byte(s, b));
    lemma_last_index(s, b);
    let p = last_index(s, b);
    if p > i {
        assert(s[p] != b);
    }
}

/// Finds the first occurrence of `target` in `data[from..to]`.
///
/// This is the single bounds-checked byte-search routine behind line
/// splitting and field splitting: `Some(i)` is the first match at or after
/// `from` and before `to`, and `None` means no match in that range.
pub fn find_byte(data: &[u8], from: usize, to: usize, target: u8) -> (r: Option<usize>)
    requires
        from <= to <= data@.len(),
    ensures
        match r {
            Some(i) => {
                &&& from <= i < to
                &&& data@[i as int] == target
                &&& forall|j: int| from <= j < i ==> data@[j] != target
            },
            None => forall|j: int| from <= j < to ==> data@[j] != target,
        },
{
    let mut i: usize = from;
    while i < to
        invariant
            from <= i <= to <= data@.len(),
            forall|j: int| from <= j < i ==> data@[j] != target,
        decreases to - i,
    {
        if data[i] == target {
            return Some(i);
        }
        i = i + 1;
    }
    None
}

/// Finds the last occurrence of `target` in `data[from..to]`.
pub fn rfind_byte(data: &[u8], from: usize, to: usize, target: u8) -> (r: Option<usize>)
    requires
        from <= to <= data@.len(),
    ensures
        match r {
            Some(i) => {
                &&& from <= i < to
                &&& data@[i as int] == target
                &&& forall|j: int| i < j < to ==> data@[j] != target
            },
            None => forall|j: int| from <= j < to ==> data@[j] != target,
        },
{
    let mut i: usize = to;
    while i > from
        invariant
            from <= i <= to <= data@.len(),
            forall|j: int| i <= j < to ==> data@[j] != target,
        decreases i,
    {
        i = i - 1;
        if data[i] == target {
            return Some(i);
        }
    }
    None
}

/// Ascending byte-lexicographic order on byte sequences: a strict total
/// order, with a proper prefix ordered before its extensions.
pub open spec fn lex_lt(a: Seq<u8>, b: Seq<u8>) -> bool
    decreases a.len(),
{
    if b.len() == 0 {
        false
    } else if a.len() == 0 {
        true
    } else if a[0] < b[0] {
        true
    } else if a[0] > b[0] {
        false
    } else {
        lex_lt(a.drop_first(), b.drop_first())
    }
}

pub proof fn lemma_lex_lt_irreflexive(a: Seq<u8>)
    ensures
        !lex_lt(a, a),
    decreases a.len(),
{
    if a.len() > 0 {
        lemma_lex_lt_irreflexive(a.drop_first());
    }
}

pub proof fn lemma_lex_lt_transitive(a: Seq<u8>, b: Seq<u8>, c: Seq<u8>)
    requires
        lex_lt(a, b),
        lex_lt(b, c),
    ensures
        lex_lt(a, c),
    decreases a.len(),
{
    if a.len() > 0 && b.len() > 0 && c.len() > 0 && a[0] == b[0] && b[0] == c[0] {
        lemma_lex_lt_transitive(a.drop_first(), b.drop_first(), c.drop_first());
    }
}

/// Two sequences are equal or one is strictly below the other.
pub proof fn lemma_lex_lt_trichotomy(a: Seq<u8>, b: Seq<u8>)
    ensures
        lex_lt(a, b) || lex_lt(b, a) || a == b,
    decreases a.len(),
{
    if a.len() > 0 && b.len() > 0 && a[0] == b[0] {
        lemma_lex_lt_trichotomy(a.drop_first(), b.drop_first());
        if !lex_lt(a, b) && !lex_lt(b, a) {
            assert(a.drop_first() == b.drop_first());
            assert(a =~= b) by {
                assert(forall|i: int| 1 <= i < a.len() ==> a[i] == a.drop_first()[i - 1]);
            }
        }
    }
}

/// Compares two byte strings in ascending byte-lexicographic order.
pub fn key_lt(a: &[u8], b: &[u8]) -> (r: bool)
    ensures
        r == lex_lt(a@, b@),
{
    let a_len = a.len();
    let b_len = b.len();
    let mut i: usize = 0;
    proof {
        assert(a@.skip(0) =~= a@);
        assert(b@.skip(0) =~= b@);
    }
    loop
        invariant
            0 <= i <= a_len <= a@.len(),
            i <= b_len <= b@.len(),
            a_len == a@.len() && b_len == b@.len(),
            lex_lt(a@, b@) == lex_lt(a@.skip(i as int), b@.skip(i as int)),
        decreases a_len - i,
    {
        if i == b_len {
            proof {
                assert(b@.skip(i as int).len() == 0);
            }
            return false;
        }
        if i == a_len {
            proof {
                assert(a@.skip(i as int).len() == 0);
                assert(b@.skip(i as int).len() > 0);
            }
            return true;
        }
        let x = a[i];
        let y = b[i];
        proof {
            let sa = a@.skip(i as int);
            let sb = b@.skip(i as int);
            assert(sa[0] == a@[i as int] && sb[0] == b@[i as int]);
            assert(sa.drop_first() =~= a@.skip(i + 1));
            assert(sb.drop_first() =~= b@.skip(i + 1));
        }
        if x < y {
            return true;
        }
        if x > y {
            return false;
        }
        i = i + 1;
    }
}

/// Byte-wise equality of two byte strings.
pub fn bytes_eq(a: &[u8], b: &[u8]) -> (r: bool)
    ensures
        r == (a@ == b@),
{
    let a_len = a.len();
    let b_len = b.len();
    if a_len != b_len {
        proof {
            assert(a@ != b@);
        }
        return false;
    }
    let mut i: usize = 0;
    while i < a_len
        invariant
            0 <= i <= a_len,
            a_len == a@.len() && a_len == b@.len(),
            forall|j: int| 0 <= j < i ==> a@[j] == b@[j],
        decreases a_len - i,
    {
        if a[i] != b[i] {
            proof {
                assert(a@[i as int] != b@[i as int]);
            }
            return false;
        }
        i = i + 1;
    }
    proof {
        assert(a@ =~= b@);
    }
    true
}

} // verus!
