//! Field-level edits of mapping documents: setting a field, merging a
//! patch, stamping system fields.
use vstd::prelude::*;
use crate::document::{Document, Entry, Val, entries_view, lemma_entries_view};

verus! {

/// Index of the first field named `k`, or -1.
pub open spec fn key_index(fields: Seq<(Seq<char>, Val)>, k: Seq<char>) -> int
    decreases fields.len(),
{
    if fields.len() == 0 {
        -1
    } else if key_index(fields.drop_last(), k) >= 0 {
        key_index(fields.drop_last(), k)
    } else if fields.last().0 == k {
        fields.len() - 1
    } else {
        -1
    }
}

/// Field `k` set to `v`: in place when a field has that name, else appended.
pub open spec fn set_field(fields: Seq<(Seq<char>, Val)>, k: Seq<char>, v: Val) -> Seq<(Seq<char>, Val)> {
    let i = key_index(fields, k);
    if i >= 0 {
        fields.update(i, (k, v))
    } else {
        fields.push((k, v))
    }
}

/// The fields of `patch` set one after the other, in order.
pub open spec fn merge_fields(fields: Seq<(Seq<char>, Val)>, patch: Seq<(Seq<char>, Val)>) -> Seq<
    (Seq<char>, Val),
>
    decreases patch.len(),
{
    if patch.len() == 0 {
        fields
    } else {
        let m = merge_fields(fields, patch.drop_last());
        set_field(m, patch.last().0, patch.last().1)
    }
}

/// `key_index` gives the first index with the key.
pub proof fn lemma_key_index(fields: Seq<(Seq<char>, Val)>, k: Seq<char>)
    ensures
        -1 <= key_index(fields, k) < fields.len(),
        key_index(fields, k) >= 0 ==> fields[key_index(fields, k)].0 == k,
        forall|j: int|
            0 <= j < fields.len() && (key_index(fields, k) < 0 || j < key_index(fields, k)) ==> (
            #[trigger] fields[j]).0 != k,
    decreases fields.len(),
{
    if fields.len() > 0 {
        lemma_key_index(fields.drop_last(), k);
        assert forall|j: int|
            0 <= j < fields.len() && (key_index(fields, k) < 0 || j < key_index(fields, k)) implies (
            #[trigger] fields[j]).0 != k by {
            if j < fields.len() - 1 {
                assert(fields.drop_last()[j] == fields[j]);
            }
        }
    }
}

/// The first index with the key is determined by the properties that
/// `lemma_key_index` states.
pub proof fn lemma_key_index_is(fields: Seq<(Seq<char>, Val)>, k: Seq<char>, i: int)
    requires
        -1 <= i < fields.len(),
        i >= 0 ==> fields[i].0 == k,
        forall|j: int| 0 <= j < fields.len() && (i < 0 || j < i) ==> (#[trigger] fields[j]).0 != k,
    ensures
        key_index(fields, k) == i,
{
    lemma_key_index(fields, k);
    let f = key_index(fields, k);
    if f >= 0 && i >= 0 {
        if f < i {
            assert(fields[f].0 != k);
        } else if i < f {
            assert(fields[i].0 != k);
        }
    } else if f >= 0 {
        assert(fields[f].0 != k);
    } else if i >= 0 {
        assert(fields[i].0 != k);
    }
}

/// Sets field `key` of `fields` to `value`: in place when a field has that
/// name, else appended.
pub fn set_field_value(fields: &mut Vec<Entry>, key: String, value: Document)
    ensures
        entries_view(final(fields)@) == set_field(entries_view(old(fields)@), key@, value@),
{
    proof {
        lemma_entries_view(fields@);
    }
    let ghost fs = entries_view(fields@);
    let ghost k = key@;
    let ghost v = value@;
    let mut i: usize = 0;
    while i < fields.len()
        invariant
            i <= fields.len(),
            fs == entries_view(fields@),
            fs == entries_view(old(fields)@),
            k == key@,
            v == value@,
            fs.len() == fields.len(),
            forall|j: int| 0 <= j < fields.len() ==> #[trigger] fs[j] == (fields@[j].key@, fields@[j].value@),
            forall|j: int| 0 <= j < i ==> (#[trigger] fs[j]).0 != key@,
        decreases fields.len() - i,
    {
        if fields[i].key.eq(&key) {
            proof {
                lemma_key_index_is(fs, k, i as int);
            }
            let ghost before = fields@;
            fields.set(i, Entry { key, value });
            proof {
                lemma_entries_view(fields@);
                assert forall|j: int| 0 <= j < fs.len() implies #[trigger] entries_view(fields@)[j] == fs.update(i as int, (k, v))[j] by {
                    if j != i {
                        assert(fields@[j] == before[j]);
                    }
                }
                assert(entries_view(fields@) =~= fs.update(i as int, (k, v)));
            }
            return;
        }
        i = i + 1;
    }
    proof {
        lemma_key_index_is(fs, k, -1);
    }
    fields.push(Entry { key, value });
    proof {
        lemma_entries_view(fields@);
        assert(entries_view(fields@) =~= fs.push((k, v)));
    }
}

/// Sets every field of `patch` on `fields`, in the patch's order.
pub fn merge_patch(fields: &mut Vec<Entry>, patch: &Vec<Entry>)
    ensures
        entries_view(final(fields)@) == merge_fields(entries_view(old(fields)@), entries_view(patch@)),
{
    proof {
        lemma_entries_view(patch@);
    }
    let ghost start = entries_view(fields@);
    let ghost ps = entries_view(patch@);
    let mut i: usize = 0;
    while i < patch.len()
        invariant
            i <= patch.len(),
            ps == entries_view(patch@),
            ps.len() == patch.len(),
            forall|j: int| 0 <= j < patch.len() ==> #[trigger] ps[j] == (patch@[j].key@, patch@[j].value@),
            entries_view(fields@) == merge_fields(start, ps.subrange(0, i as int)),
        decreases patch.len() - i,
    {
        let v = patch[i].value.copy();
        set_field_value(fields, patch[i].key.clone(), v);
        proof {
            assert(ps.subrange(0, i + 1).drop_last() =~= ps.subrange(0, i as int));
        }
        i = i + 1;
    }
    proof {
        assert(ps.subrange(0, patch.len() as int) =~= ps);
    }
}

} // verus!
