//! Ordering documents by a field, and sorting by that order.
use vstd::prelude::*;
use std::cmp::Ordering;
use crate::document::{Document, Val, docs_view, lemma_docs_view};
use crate::matcher::{field_of, get_field_value};

verus! {

/// The sign bit of a 64-bit float's encoding.
pub const SIGN_BIT: u64 = 0x8000_0000_0000_0000;

/// The encoding of positive infinity: magnitudes above it are NaN.
pub const INFINITY_BITS: u64 = 0x7ff0_0000_0000_0000;

/// Lexicographic order of two character sequences, by code point.
pub open spec fn lex_cmp(a: Seq<char>, b: Seq<char>) -> Ordering
    decreases a.len(),
{
    if a.len() == 0 {
        if b.len() == 0 {
            Ordering::Equal
        } else {
            Ordering::Less
        }
    } else if b.len() == 0 {
        Ordering::Greater
    } else if (a[0] as u32) < (b[0] as u32) {
        Ordering::Less
    } else if (a[0] as u32) > (b[0] as u32) {
        Ordering::Greater
    } else {
        lex_cmp(a.drop_first(), b.drop_first())
    }
}

/// Order of two integers.
pub open spec fn int_cmp(a: int, b: int) -> Ordering {
    if a < b {
        Ordering::Less
    } else if a > b {
        Ordering::Greater
    } else {
        Ordering::Equal
    }
}

/// The magnitude part of a float encoding.
pub open spec fn magnitude(x: u64) -> int {
    if x >= SIGN_BIT {
        x - SIGN_BIT
    } else {
        x as int
    }
}

/// Order of the 64-bit floats encoded by `x` and `y`: NaN is unordered
/// (equal to everything), both zeros are equal, negatives precede
/// positives, and magnitudes order like their encodings.
pub open spec fn float_cmp(x: u64, y: u64) -> Ordering {
    let mx = magnitude(x);
    let my = magnitude(y);
    if mx > INFINITY_BITS || my > INFINITY_BITS {
        Ordering::Equal
    } else if mx == 0 && my == 0 {
        Ordering::Equal
    } else if x < SIGN_BIT && y < SIGN_BIT {
        int_cmp(mx, my)
    } else if x >= SIGN_BIT && y >= SIGN_BIT {
        int_cmp(my, mx)
    } else if x >= SIGN_BIT {
        Ordering::Less
    } else {
        Ordering::Greater
    }
}

/// Order of two optional field values: strings lexicographically, numbers
/// as floats, booleans false before true, a missing value before a present
/// one; anything else is equal.
pub open spec fn field_cmp(a: Option<Val>, b: Option<Val>) -> Ordering {
    match (a, b) {
        (Some(Val::Text(x)), Some(Val::Text(y))) => lex_cmp(x, y),
        (Some(Val::Num(_, x)), Some(Val::Num(_, y))) => float_cmp(x, y),
        (Some(Val::Bool(x)), Some(Val::Bool(y))) => int_cmp(
            if x {
                1
            } else {
                0
            },
            if y {
                1
            } else {
                0
            },
        ),
        (None, Some(_)) => Ordering::Less,
        (Some(_), None) => Ordering::Greater,
        _ => Ordering::Equal,
    }
}

/// The reverse of an ordering.
pub open spec fn reversed(o: Ordering) -> Ordering {
    match o {
        Ordering::Less => Ordering::Greater,
        Ordering::Greater => Ordering::Less,
        Ordering::Equal => Ordering::Equal,
    }
}

/// Order of two documents by field `field`, descending when `desc`.
#[verifier::opaque]
pub open spec fn sort_cmp(a: Val, b: Val, field: Seq<char>, desc: bool) -> Ordering {
    let c = field_cmp(field_of(a, field), field_of(b, field));
    if desc {
        reversed(c)
    } else {
        c
    }
}

/// `x` inserted into `t` after every element it does not precede, scanning
/// from the end: what a stable insertion sort does with each element.
pub open spec fn insert_by(t: Seq<Val>, x: Val, field: Seq<char>, desc: bool) -> Seq<Val>
    decreases t.len(),
{
    if t.len() == 0 {
        seq![x]
    } else if sort_cmp(x, t.last(), field, desc) == Ordering::Less {
        insert_by(t.drop_last(), x, field, desc).push(t.last())
    } else {
        t.push(x)
    }
}

/// `s` stably sorted by field `field`, descending when `desc`.
pub open spec fn sorted_by(s: Seq<Val>, field: Seq<char>, desc: bool) -> Seq<Val>
    decreases s.len(),
{
    if s.len() == 0 {
        Seq::empty()
    } else {
        insert_by(sorted_by(s.drop_last(), field, desc), s.last(), field, desc)
    }
}

/// Relies on the `Ord` of `str`, which orders strings lexicographically by
/// their UTF-8 bytes, that is by code point.
#[verifier::external_body]
fn text_cmp(a: &str, b: &str) -> (r: Ordering)
    ensures
        r == lex_cmp(a@, b@),
{
    a.cmp(b)
}

/// Integer order of two `u64`.
fn u64_cmp(a: u64, b: u64) -> (r: Ordering)
    ensures
        r == int_cmp(a as int, b as int),
{
    if a < b {
        Ordering::Less
    } else if a > b {
        Ordering::Greater
    } else {
        Ordering::Equal
    }
}

/// Order of the 64-bit floats encoded by `x` and `y`.
pub fn float_order(x: u64, y: u64) -> (r: Ordering)
    ensures
        r == float_cmp(x, y),
{
    let mx = if x >= SIGN_BIT {
        x - SIGN_BIT
    } else {
        x
    };
    let my = if y >= SIGN_BIT {
        y - SIGN_BIT
    } else {
        y
    };
    if mx > INFINITY_BITS || my > INFINITY_BITS {
        Ordering::Equal
    } else if mx == 0 && my == 0 {
        Ordering::Equal
    } else if x < SIGN_BIT && y < SIGN_BIT {
        u64_cmp(mx, my)
    } else if x >= SIGN_BIT && y >= SIGN_BIT {
        u64_cmp(my, mx)
    } else if x >= SIGN_BIT {
        Ordering::Less
    } else {
        Ordering::Greater
    }
}

/// Order of two documents by field `field`: descending when `order` is
/// "desc", ascending otherwise.
pub fn compare_values(a: &Document, b: &Document, field: &str, order: &str) -> (r: Ordering)
    ensures
        r == sort_cmp(a@, b@, field@, order@ == "desc"@),
{
    let c = match (get_field_value(a, field), get_field_value(b, field)) {
        (Some(Document::Text(x)), Some(Document::Text(y))) => text_cmp(x.as_str(), y.as_str()),
        (Some(Document::Number(x)), Some(Document::Number(y))) => float_order(x.bits, y.bits),
        (Some(Document::Bool(x)), Some(Document::Bool(y))) => u64_cmp(
            if *x {
                1
            } else {
                0
            },
            if *y {
                1
            } else {
                0
            },
        ),
        (None, Some(_)) => Ordering::Less,
        (Some(_), None) => Ordering::Greater,
        _ => Ordering::Equal,
    };
    let desc = String::from_str(order).eq(&String::from_str("desc"));
    proof {
        reveal(sort_cmp);
    }
    if desc {
        match c {
            Ordering::Less => Ordering::Greater,
            Ordering::Greater => Ordering::Less,
            Ordering::Equal => Ordering::Equal,
        }
    } else {
        c
    }
}

/// Where `insert_by` puts `x`: after the last element it does not precede.
pub open spec fn ins_pos(t: Seq<Val>, x: Val, field: Seq<char>, desc: bool) -> int
    decreases t.len(),
{
    if t.len() == 0 {
        0
    } else if sort_cmp(x, t.last(), field, desc) == Ordering::Less {
        ins_pos(t.drop_last(), x, field, desc)
    } else {
        t.len() as int
    }
}

/// The insertion position: `x` precedes every element after it, and not
/// the one before it.
pub proof fn lemma_ins_pos(t: Seq<Val>, x: Val, field: Seq<char>, desc: bool)
    ensures
        0 <= ins_pos(t, x, field, desc) <= t.len(),
        forall|j: int|
            ins_pos(t, x, field, desc) <= j < t.len() ==> sort_cmp(x, #[trigger] t[j], field, desc)
                == Ordering::Less,
        ins_pos(t, x, field, desc) > 0 ==> sort_cmp(x, t[ins_pos(t, x, field, desc) - 1], field, desc)
            != Ordering::Less,
    decreases t.len(),
{
    if t.len() > 0 && sort_cmp(x, t.last(), field, desc) == Ordering::Less {
        lemma_ins_pos(t.drop_last(), x, field, desc);
        let p = ins_pos(t, x, field, desc);
        assert forall|j: int| p <= j < t.len() implies sort_cmp(x, #[trigger] t[j], field, desc) == Ordering::Less by {
            if j < t.len() - 1 {
                assert(t.drop_last()[j] == t[j]);
            }
        }
        if p > 0 {
            assert(t.drop_last()[p - 1] == t[p - 1]);
        }
    }
}

/// `insert_by` inserts at any position with the properties of `lemma_ins_pos`.
pub proof fn lemma_insert_by_at(t: Seq<Val>, x: Val, field: Seq<char>, desc: bool, p: int)
    requires
        0 <= p <= t.len(),
        forall|j: int| p <= j < t.len() ==> sort_cmp(x, #[trigger] t[j], field, desc) == Ordering::Less,
        p > 0 ==> sort_cmp(x, t[p - 1], field, desc) != Ordering::Less,
    ensures
        insert_by(t, x, field, desc) == t.insert(p, x),
    decreases t.len(),
{
    if t.len() == 0 {
        assert(t.insert(p, x) =~= seq![x]);
    } else if p == t.len() {
        assert(t.insert(p, x) =~= t.push(x));
    } else {
        assert(sort_cmp(x, t[t.len() - 1], field, desc) == Ordering::Less);
        let init = t.drop_last();
        assert forall|j: int| p <= j < init.len() implies sort_cmp(x, #[trigger] init[j], field, desc) == Ordering::Less by {
            assert(init[j] == t[j]);
        }
        if p > 0 {
            assert(init[p - 1] == t[p - 1]);
        }
        lemma_insert_by_at(init, x, field, desc, p);
        assert(init.insert(p, x).push(t.last()) =~= t.insert(p, x));
    }
}

/// Lexicographic order is antisymmetric.
pub proof fn lemma_lex_cmp_antisymmetric(a: Seq<char>, b: Seq<char>)
    ensures
        lex_cmp(a, b) == Ordering::Less <==> lex_cmp(b, a) == Ordering::Greater,
        lex_cmp(a, b) == Ordering::Equal <==> lex_cmp(b, a) == Ordering::Equal,
    decreases a.len(),
{
    if a.len() > 0 && b.len() > 0 {
        lemma_lex_cmp_antisymmetric(a.drop_first(), b.drop_first());
    }
}

/// The document order is antisymmetric: if `a` precedes `b`, `b` does not
/// precede `a`.
pub proof fn lemma_sort_cmp_antisymmetric(a: Val, b: Val, field: Seq<char>, desc: bool)
    ensures
        sort_cmp(a, b, field, desc) == Ordering::Less ==> sort_cmp(b, a, field, desc) != Ordering::Less,
{
    reveal(sort_cmp);
    match (field_of(a, field), field_of(b, field)) {
        (Some(Val::Text(x)), Some(Val::Text(y))) => {
            lemma_lex_cmp_antisymmetric(x, y);
        },
        _ => {},
    }
}

/// Neighbours are in order: no element precedes the one before it.
pub open spec fn neighbours_ordered(t: Seq<Val>, field: Seq<char>, desc: bool) -> bool {
    forall|i: int| 0 < i < t.len() ==> #[trigger] sort_cmp(t[i], t[i - 1], field, desc) != Ordering::Less
}

/// Inserting at the insertion position keeps neighbours in order.
proof fn lemma_insert_keeps_order(t: Seq<Val>, x: Val, field: Seq<char>, desc: bool)
    requires
        neighbours_ordered(t, field, desc),
    ensures
        neighbours_ordered(insert_by(t, x, field, desc), field, desc),
{
    lemma_ins_pos(t, x, field, desc);
    let p = ins_pos(t, x, field, desc);
    lemma_insert_by_at(t, x, field, desc, p);
    let r = t.insert(p, x);
    assert forall|i: int| 0 < i < r.len() implies #[trigger] sort_cmp(r[i], r[i - 1], field, desc) != Ordering::Less by {
        if i < p {
            assert(r[i] == t[i] && r[i - 1] == t[i - 1]);
            assert(sort_cmp(t[i], t[i - 1], field, desc) != Ordering::Less);
        } else if i == p {
            assert(r[i] == x && r[i - 1] == t[i - 1]);
        } else if i == p + 1 {
            assert(r[i] == t[p] && r[i - 1] == x);
            lemma_sort_cmp_antisymmetric(x, t[p], field, desc);
        } else {
            let j = i - 1;
            assert(r[i] == t[j] && r[i - 1] == t[j - 1]);
            assert(sort_cmp(t[j], t[j - 1], field, desc) != Ordering::Less);
        }
    }
}

/// Inserting adds the element to the multiset.
proof fn lemma_insert_multiset(t: Seq<Val>, x: Val, field: Seq<char>, desc: bool)
    ensures
        insert_by(t, x, field, desc).to_multiset() == t.to_multiset().insert(x),
        insert_by(t, x, field, desc).len() == t.len() + 1,
{
    broadcast use vstd::seq_lib::to_multiset_insert;

    lemma_ins_pos(t, x, field, desc);
    lemma_insert_by_at(t, x, field, desc, ins_pos(t, x, field, desc));
}

/// Sorting by a field keeps the documents (as a multiset) and leaves
/// neighbours in order.
pub proof fn lemma_sorted_by(s: Seq<Val>, field: Seq<char>, desc: bool)
    ensures
        sorted_by(s, field, desc).to_multiset() == s.to_multiset(),
        sorted_by(s, field, desc).len() == s.len(),
        neighbours_ordered(sorted_by(s, field, desc), field, desc),
    decreases s.len(),
{
    broadcast use vstd::seq_lib::to_multiset_build;

    if s.len() == 0 {
        assert(s =~= Seq::<Val>::empty());
    } else {
        let init = s.drop_last();
        let x = s.last();
        lemma_sorted_by(init, field, desc);
        let t = sorted_by(init, field, desc);
        lemma_insert_keeps_order(t, x, field, desc);
        lemma_insert_multiset(t, x, field, desc);
        assert(init.push(x) =~= s);
    }
}

/// Position `k` of `s` inserted into the positions `t` the way `insert_by`
/// inserts `s[k]` into the documents at `t`.
pub open spec fn insert_idx(s: Seq<Val>, t: Seq<int>, k: int, field: Seq<char>, desc: bool) -> Seq<int>
    decreases t.len(),
{
    if t.len() == 0 {
        seq![k]
    } else if sort_cmp(s[k], s[t.last()], field, desc) == Ordering::Less {
        insert_idx(s, t.drop_last(), k, field, desc).push(t.last())
    } else {
        t.push(k)
    }
}

/// The positions of the first `n` documents of `s` in sorted order.
pub open spec fn sort_idx(s: Seq<Val>, n: nat, field: Seq<char>, desc: bool) -> Seq<int>
    decreases n,
{
    if n == 0 {
        Seq::empty()
    } else {
        insert_idx(s, sort_idx(s, (n - 1) as nat, field, desc), n - 1, field, desc)
    }
}

/// The documents of `s` at positions `t`.
pub open spec fn pick(s: Seq<Val>, t: Seq<int>) -> Seq<Val> {
    Seq::new(t.len(), |i: int| s[t[i]])
}

/// Positions in `[0, n)`, each at most once, and every inversion justified:
/// a later document placed before an earlier one sorts strictly before it.
pub open spec fn stable_positions(s: Seq<Val>, t: Seq<int>, n: int, field: Seq<char>, desc: bool) -> bool {
    &&& forall|a: int| 0 <= a < t.len() ==> 0 <= #[trigger] t[a] < n
    &&& forall|a: int, b: int| 0 <= a < b < t.len() ==> #[trigger] t[a] != #[trigger] t[b]
    &&& forall|a: int, b: int|
        0 <= a < b < t.len() && #[trigger] t[a] > #[trigger] t[b] ==> sort_cmp(s[t[a]], s[t[b]], field, desc)
            == Ordering::Less
}

/// Inserting a position: the result holds the old positions and the new one.
proof fn lemma_insert_idx_members(s: Seq<Val>, t: Seq<int>, k: int, field: Seq<char>, desc: bool)
    ensures
        insert_idx(s, t, k, field, desc).len() == t.len() + 1,
        forall|a: int|
            0 <= a < t.len() + 1 ==> #[trigger] insert_idx(s, t, k, field, desc)[a] == k || exists|j: int|
                0 <= j < t.len() && insert_idx(s, t, k, field, desc)[a] == #[trigger] t[j],
    decreases t.len(),
{
    if t.len() > 0 && sort_cmp(s[k], s[t.last()], field, desc) == Ordering::Less {
        let init = t.drop_last();
        lemma_insert_idx_members(s, init, k, field, desc);
        let r = insert_idx(s, t, k, field, desc);
        assert forall|a: int| 0 <= a < t.len() + 1 implies #[trigger] r[a] == k || exists|j: int|
            0 <= j < t.len() && r[a] == #[trigger] t[j] by {
            if a < t.len() {
                let r0 = insert_idx(s, init, k, field, desc);
                assert(r[a] == r0[a]);
                if r0[a] != k {
                    let j = choose|j: int| 0 <= j < init.len() && r0[a] == #[trigger] init[j];
                    assert(t[j] == init[j]);
                }
            } else {
                assert(r[a] == t[t.len() - 1]);
            }
        }
    } else if t.len() > 0 {
        let r = insert_idx(s, t, k, field, desc);
        assert forall|a: int| 0 <= a < t.len() + 1 implies #[trigger] r[a] == k || exists|j: int|
            0 <= j < t.len() && r[a] == #[trigger] t[j] by {
            if a < t.len() {
                assert(r[a] == t[a]);
            }
        }
    }
}

/// Inserting a position larger than all others keeps positions stable.
proof fn lemma_insert_idx_stable(s: Seq<Val>, t: Seq<int>, k: int, field: Seq<char>, desc: bool)
    requires
        0 <= k,
        stable_positions(s, t, k, field, desc),
    ensures
        stable_positions(s, insert_idx(s, t, k, field, desc), k + 1, field, desc),
    decreases t.len(),
{
    lemma_insert_idx_members(s, t, k, field, desc);
    let r = insert_idx(s, t, k, field, desc);
    if t.len() == 0 {
        assert(r =~= seq![k]);
    } else if sort_cmp(s[k], s[t.last()], field, desc) == Ordering::Less {
        let init = t.drop_last();
        let last = t.last();
        assert forall|a: int| 0 <= a < init.len() implies 0 <= #[trigger] init[a] < k by {
            assert(init[a] == t[a]);
        }
        assert forall|a: int, b: int| 0 <= a < b < init.len() implies #[trigger] init[a] != #[trigger] init[b] by {
            assert(init[a] == t[a] && init[b] == t[b]);
        }
        assert forall|a: int, b: int|
            0 <= a < b < init.len() && #[trigger] init[a] > #[trigger] init[b] implies sort_cmp(s[init[a]], s[init[b]], field, desc)
                == Ordering::Less by {
            assert(init[a] == t[a] && init[b] == t[b]);
        }
        lemma_insert_idx_stable(s, init, k, field, desc);
        let r0 = insert_idx(s, init, k, field, desc);
        lemma_insert_idx_members(s, init, k, field, desc);
        assert(r =~= r0.push(last));
        assert forall|a: int| 0 <= a < r.len() implies 0 <= #[trigger] r[a] < k + 1 by {
            if a < r0.len() {
                assert(r[a] == r0[a]);
            }
        }
        assert forall|a: int, b: int| 0 <= a < b < r.len() implies #[trigger] r[a] != #[trigger] r[b] by {
            if b == r.len() - 1 {
                assert(r[a] == r0[a]);
                if r0[a] != k {
                    let j = choose|j: int| 0 <= j < init.len() && r0[a] == #[trigger] init[j];
                    assert(t[j] == init[j]);
                    assert(t[j] != t[t.len() - 1]);
                }
            } else {
                assert(r[a] == r0[a] && r[b] == r0[b]);
            }
        }
        assert forall|a: int, b: int|
            0 <= a < b < r.len() && #[trigger] r[a] > #[trigger] r[b] implies sort_cmp(s[r[a]], s[r[b]], field, desc)
                == Ordering::Less by {
            if b == r.len() - 1 {
                assert(r[a] == r0[a] && r[b] == last);
                if r0[a] != k {
                    let j = choose|j: int| 0 <= j < init.len() && r0[a] == #[trigger] init[j];
                    assert(t[j] == init[j]);
                    assert(t[j] > t[t.len() - 1]);
                }
            } else {
                assert(r[a] == r0[a] && r[b] == r0[b]);
            }
        }
    } else {
        assert(r =~= t.push(k));
        assert forall|a: int| 0 <= a < r.len() implies 0 <= #[trigger] r[a] < k + 1 by {
            if a < t.len() {
                assert(r[a] == t[a]);
            }
        }
        assert forall|a: int, b: int| 0 <= a < b < r.len() implies #[trigger] r[a] != #[trigger] r[b] by {
            assert(r[a] == t[a]);
            if b < t.len() {
                assert(r[b] == t[b]);
            }
        }
        assert forall|a: int, b: int|
            0 <= a < b < r.len() && #[trigger] r[a] > #[trigger] r[b] implies sort_cmp(s[r[a]], s[r[b]], field, desc)
                == Ordering::Less by {
            assert(r[a] == t[a]);
            if b < t.len() {
                assert(r[b] == t[b]);
            }
        }
    }
}

/// Inserting into picked documents picks the inserted positions.
proof fn lemma_insert_pick(s: Seq<Val>, t: Seq<int>, k: int, field: Seq<char>, desc: bool)
    requires
        0 <= k < s.len(),
        forall|a: int| 0 <= a < t.len() ==> 0 <= #[trigger] t[a] < s.len(),
    ensures
        insert_by(pick(s, t), s[k], field, desc) == pick(s, insert_idx(s, t, k, field, desc)),
    decreases t.len(),
{
    if t.len() == 0 {
        assert(pick(s, seq![k]) =~= seq![s[k]]);
    } else {
        let init = t.drop_last();
        assert(pick(s, t).drop_last() =~= pick(s, init));
        assert(pick(s, t).last() == s[t.last()]);
        if sort_cmp(s[k], s[t.last()], field, desc) == Ordering::Less {
            assert forall|a: int| 0 <= a < init.len() implies 0 <= #[trigger] init[a] < s.len() by {
                assert(init[a] == t[a]);
            }
            lemma_insert_pick(s, init, k, field, desc);
            assert(pick(s, insert_idx(s, init, k, field, desc)).push(s[t.last()]) =~= pick(
                s,
                insert_idx(s, init, k, field, desc).push(t.last()),
            ));
        } else {
            assert(pick(s, t).push(s[k]) =~= pick(s, t.push(k)));
        }
    }
}

/// Sorting is stable: the sorted documents are those of `s` at the
/// distinct positions `sort_idx` lists, and a document is placed before
/// one that came earlier in `s` only when it sorts strictly before it.
pub proof fn lemma_sort_stable(s: Seq<Val>, field: Seq<char>, desc: bool)
    ensures
        sorted_by(s, field, desc) == pick(s, sort_idx(s, s.len(), field, desc)),
        sort_idx(s, s.len(), field, desc).len() == s.len(),
        stable_positions(s, sort_idx(s, s.len(), field, desc), s.len() as int, field, desc),
{
    lemma_sort_stable_prefix(s, s.len(), field, desc);
    assert(s.subrange(0, s.len() as int) =~= s);
}

/// `lemma_sort_stable` for the first `n` documents.
proof fn lemma_sort_stable_prefix(s: Seq<Val>, n: nat, field: Seq<char>, desc: bool)
    requires
        n <= s.len(),
    ensures
        sorted_by(s.subrange(0, n as int), field, desc) == pick(s, sort_idx(s, n, field, desc)),
        sort_idx(s, n, field, desc).len() == n,
        stable_positions(s, sort_idx(s, n, field, desc), n as int, field, desc),
    decreases n,
{
    if n == 0 {
        assert(pick(s, Seq::<int>::empty()) =~= Seq::<Val>::empty());
        assert(s.subrange(0, 0) =~= Seq::<Val>::empty());
    } else {
        let m = (n - 1) as nat;
        lemma_sort_stable_prefix(s, m, field, desc);
        let t = sort_idx(s, m, field, desc);
        assert(s.subrange(0, n as int).drop_last() =~= s.subrange(0, m as int));
        assert(s.subrange(0, n as int).last() == s[m as int]);
        lemma_insert_pick(s, t, m as int, field, desc);
        lemma_insert_idx_stable(s, t, m as int, field, desc);
        lemma_insert_idx_members(s, t, m as int, field, desc);
    }
}

/// `a` sorts before `b` by field `field` in order `order`.
fn precedes(a: &Document, b: &Document, field: &str, order: &str) -> (r: bool)
    ensures
        r == (sort_cmp(a@, b@, field@, order@ == "desc"@) == Ordering::Less),
{
    match compare_values(a, b, field, order) {
        Ordering::Less => true,
        _ => false,
    }
}

/// Copies of the documents of `data`, stably sorted by field `field`:
/// descending when `order` is "desc", ascending otherwise.
pub fn sort_documents(data: &Vec<Document>, field: &str, order: &str) -> (r: Vec<Document>)
    ensures
        docs_view(r@) == sorted_by(docs_view(data@), field@, order@ == "desc"@),
{
    proof {
        lemma_docs_view(data@);
    }
    let ghost s = docs_view(data@);
    let ghost desc = order@ == "desc"@;
    let mut out: Vec<Document> = Vec::new();
    let mut i: usize = 0;
    while i < data.len()
        invariant
            i <= data.len(),
            s == docs_view(data@),
            desc == (order@ == "desc"@),
            s.len() == data.len(),
            forall|k: int| 0 <= k < data.len() ==> #[trigger] s[k] == data@[k]@,
            docs_view(out@) == sorted_by(s.subrange(0, i as int), field@, desc),
        decreases data.len() - i,
    {
        let x = data[i].copy();
        let ghost t = docs_view(out@);
        proof {
            lemma_docs_view(out@);
        }
        let mut p: usize = out.len();
        while p > 0 && precedes(&x, &out[p - 1], field, order)
            invariant
                p <= out.len(),
                t == docs_view(out@),
                t.len() == out.len(),
                forall|k: int| 0 <= k < out.len() ==> #[trigger] t[k] == out@[k]@,
                desc == (order@ == "desc"@),
                forall|j: int| p <= j < t.len() ==> sort_cmp(x@, #[trigger] t[j], field@, desc) == Ordering::Less,
            decreases p,
        {
            p = p - 1;
        }
        proof {
            lemma_insert_by_at(t, x@, field@, desc, p as int);
            assert(s.subrange(0, i + 1).drop_last() =~= s.subrange(0, i as int));
        }
        let ghost xv = x@;
        out.insert(p, x);
        proof {
            lemma_docs_view(out@);
            assert(docs_view(out@) =~= t.insert(p as int, xv));
        }
        i = i + 1;
    }
    proof {
        assert(s.subrange(0, data.len() as int) =~= s);
    }
    out
}

} // verus!
