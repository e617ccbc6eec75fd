//! Predicate matching over documents: substring / structural search,
//! key presence and field filters.
use vstd::prelude::*;
use crate::document::{Document, Entry, Val, docs_view, entries_view, lemma_docs_view, lemma_entries_view};

verus! {

/// `q` occurs in `s` as a contiguous run of characters.
pub open spec fn has_substring(s: Seq<char>, q: Seq<char>) -> bool {
    exists|i: int| 0 <= i && i + q.len() <= s.len() && #[trigger] s.subrange(i, i + q.len()) == q
}

/// The textual rendering of a boolean.
pub open spec fn bool_text(b: bool) -> Seq<char> {
    if b {
        "true"@
    } else {
        "false"@
    }
}

/// Substring / structural mode: some string, number rendering or boolean
/// rendering inside `v` contains `q`.
pub open spec fn val_matches(v: Val, q: Seq<char>) -> bool
    decreases v,
{
    match v {
        Val::Null => false,
        Val::Bool(b) => has_substring(bool_text(b), q),
        Val::Num(t, _) => has_substring(t, q),
        Val::Text(s) => has_substring(s, q),
        Val::Arr(items) => some_matches(items, q),
        Val::Obj(fields) => some_field_matches(fields, q),
    }
}

/// Some element of `items` matches `q`.
pub open spec fn some_matches(items: Seq<Val>, q: Seq<char>) -> bool
    decreases items,
{
    if items.len() == 0 {
        false
    } else {
        some_matches(items.drop_last(), q) || val_matches(items.last(), q)
    }
}

/// Some field value of `fields` matches `q`.
pub open spec fn some_field_matches(fields: Seq<(Seq<char>, Val)>, q: Seq<char>) -> bool
    decreases fields,
{
    if fields.len() == 0 {
        false
    } else {
        some_field_matches(fields.drop_last(), q) || val_matches(fields.last().1, q)
    }
}

/// `some_matches` holds exactly when one element matches.
pub proof fn lemma_some_matches(items: Seq<Val>, q: Seq<char>)
    ensures
        some_matches(items, q) <==> exists|i: int|
            0 <= i < items.len() && val_matches(#[trigger] items[i], q),
    decreases items.len(),
{
    if items.len() > 0 {
        lemma_some_matches(items.drop_last(), q);
        if some_matches(items.drop_last(), q) {
            let i = choose|i: int|
                0 <= i < items.drop_last().len() && val_matches(#[trigger] items.drop_last()[i], q);
            assert(items[i] == items.drop_last()[i]);
        }
        if exists|i: int| 0 <= i < items.len() && val_matches(#[trigger] items[i], q) {
            let i = choose|i: int| 0 <= i < items.len() && val_matches(#[trigger] items[i], q);
            if i < items.len() - 1 {
                assert(items.drop_last()[i] == items[i]);
            }
        }
    }
}

/// `some_field_matches` holds exactly when one field value matches.
pub proof fn lemma_some_field_matches(fields: Seq<(Seq<char>, Val)>, q: Seq<char>)
    ensures
        some_field_matches(fields, q) <==> exists|i: int|
            0 <= i < fields.len() && val_matches(#[trigger] fields[i].1, q),
    decreases fields.len(),
{
    if fields.len() > 0 {
        lemma_some_field_matches(fields.drop_last(), q);
        if some_field_matches(fields.drop_last(), q) {
            let i = choose|i: int|
                0 <= i < fields.drop_last().len() && val_matches(#[trigger] fields.drop_last()[i].1, q);
            assert(fields[i] == fields.drop_last()[i]);
        }
        if exists|i: int| 0 <= i < fields.len() && val_matches(#[trigger] fields[i].1, q) {
            let i = choose|i: int| 0 <= i < fields.len() && val_matches(#[trigger] fields[i].1, q);
            if i < fields.len() - 1 {
                assert(fields.drop_last()[i] == fields[i]);
            }
        }
    }
}

/// Key-presence mode: `v` is a mapping with a field named `k`.
pub open spec fn val_has_key(v: Val, k: Seq<char>) -> bool {
    match v {
        Val::Obj(fields) => key_in(fields, k),
        _ => false,
    }
}

/// Some field of `fields` is named `k`.
pub open spec fn key_in(fields: Seq<(Seq<char>, Val)>, k: Seq<char>) -> bool {
    exists|i: int| 0 <= i < fields.len() && #[trigger] fields[i].0 == k
}

/// The value of the first field named `k`, if any.
pub open spec fn field_in(fields: Seq<(Seq<char>, Val)>, k: Seq<char>) -> Option<Val>
    decreases fields.len(),
{
    if fields.len() == 0 {
        None
    } else if fields[0].0 == k {
        Some(fields[0].1)
    } else {
        field_in(fields.drop_first(), k)
    }
}

/// The value of field `k` of a mapping document; nothing for other documents.
pub open spec fn field_of(v: Val, k: Seq<char>) -> Option<Val> {
    match v {
        Val::Obj(fields) => field_in(fields, k),
        _ => None,
    }
}

/// A filter value is met by a literal equal to it or, when it is a sequence,
/// by any of its elements.
pub open spec fn filter_value_met(item: Val, filter: Val) -> bool {
    match filter {
        Val::Arr(choices) => among(choices, item),
        _ => item == filter,
    }
}

/// `item` is one of `choices`.
pub open spec fn among(choices: Seq<Val>, item: Val) -> bool {
    exists|i: int| 0 <= i < choices.len() && #[trigger] choices[i] == item
}

/// A document satisfies a filter set when it has every constrained field
/// and each of those fields meets its filter value.
pub open spec fn filters_met(v: Val, filters: Seq<(Seq<char>, Val)>) -> bool {
    forall|i: int|
        0 <= i < filters.len() ==> match #[trigger] field_of(v, filters[i].0) {
            Some(x) => filter_value_met(x, filters[i].1),
            None => false,
        }
}

/// Relies on str::contains: true exactly when `q` is a substring of `s`.
#[verifier::external_body]
fn text_contains(s: &str, q: &str) -> (r: bool)
    ensures
        r == has_substring(s@, q@),
{
    s.contains(q)
}

/// Substring / structural match of `query` against `value`.
pub fn search_in_json_value(value: &Document, query: &str) -> (r: bool)
    ensures
        r == val_matches(value@, query@),
    decreases value,
{
    match value {
        Document::Null => false,
        Document::Bool(b) => {
            if *b {
                text_contains("true", query)
            } else {
                text_contains("false", query)
            }
        },
        Document::Number(n) => text_contains(n.text.as_str(), query),
        Document::Text(s) => text_contains(s.as_str(), query),
        Document::Array(items) => {
            proof {
                lemma_docs_view(items@);
                lemma_some_matches(docs_view(items@), query@);
            }
            any_item_matches(items, query)
        },
        Document::Object(fields) => {
            proof {
                lemma_entries_view(fields@);
                lemma_some_field_matches(entries_view(fields@), query@);
            }
            any_field_matches(fields, query)
        },
    }
}

/// Some element of `items` matches `query` in substring / structural mode.
fn any_item_matches(items: &Vec<Document>, query: &str) -> (r: bool)
    ensures
        r == exists|k: int|
            0 <= k < items.len() && val_matches(#[trigger] docs_view(items@)[k], query@),
    decreases items,
{
    proof {
        lemma_docs_view(items@);
    }
    let mut i: usize = 0;
    while i < items.len()
        invariant
            i <= items.len(),
            docs_view(items@).len() == items@.len(),
            forall|k: int| 0 <= k < items.len() ==> #[trigger] docs_view(items@)[k] == items@[k]@,
            forall|k: int| 0 <= k < i ==> !val_matches(#[trigger] docs_view(items@)[k], query@),
        decreases items.len() - i,
    {
        proof {
            vstd::std_specs::vec::axiom_vec_index_decreases(*items, i as int);
        }
        if search_in_json_value(&items[i], query) {
            assert(val_matches(docs_view(items@)[i as int], query@));
            return true;
        }
        i = i + 1;
    }
    false
}

/// Some field value of `fields` matches `query` in substring / structural mode.
fn any_field_matches(fields: &Vec<Entry>, query: &str) -> (r: bool)
    ensures
        r == exists|k: int|
            0 <= k < fields.len() && val_matches(#[trigger] entries_view(fields@)[k].1, query@),
    decreases fields,
{
    proof {
        lemma_entries_view(fields@);
    }
    let mut i: usize = 0;
    while i < fields.len()
        invariant
            i <= fields.len(),
            entries_view(fields@).len() == fields@.len(),
            forall|k: int|
                0 <= k < fields.len() ==> #[trigger] entries_view(fields@)[k] == (
                fields@[k].key@,
                fields@[k].value@,
            ),
            forall|k: int| 0 <= k < i ==> !val_matches(#[trigger] entries_view(fields@)[k].1, query@),
        decreases fields.len() - i,
    {
        proof {
            vstd::std_specs::vec::axiom_vec_index_decreases(*fields, i as int);
        }
        if search_in_json_value(&fields[i].value, query) {
            assert(val_matches(entries_view(fields@)[i as int].1, query@));
            return true;
        }
        i = i + 1;
    }
    false
}

/// Key-presence match: `value` is a mapping with a field named `key`.
pub fn has_key(value: &Document, key: &str) -> (r: bool)
    ensures
        r == val_has_key(value@, key@),
{
    let wanted = String::from_str(key);
    match value {
        Document::Object(fields) => {
            proof {
                lemma_entries_view(fields@);
            }
            let mut i: usize = 0;
            while i < fields.len()
                invariant
                    i <= fields.len(),
                    wanted@ == key@,
                    value@ == Val::Obj(entries_view(fields@)),
                    entries_view(fields@).len() == fields@.len(),
                    forall|k: int|
                        0 <= k < fields.len() ==> #[trigger] entries_view(fields@)[k] == (
                        fields@[k].key@,
                        fields@[k].value@,
                    ),
                    forall|k: int| 0 <= k < i ==> #[trigger] entries_view(fields@)[k].0 != key@,
                decreases fields.len() - i,
            {
                if fields[i].key.eq(&wanted) {
                    assert(entries_view(fields@)[i as int].0 == key@);
                    return true;
                }
                i = i + 1;
            }
            false
        },
        _ => false,
    }
}

/// The first field named `k` of `fields`, as an index.
pub open spec fn first_key_index(fields: Seq<(Seq<char>, Val)>, k: Seq<char>, i: int) -> bool {
    &&& 0 <= i < fields.len()
    &&& fields[i].0 == k
    &&& forall|j: int| 0 <= j < i ==> #[trigger] fields[j].0 != k
}

/// `field_in` finds the first field with the key, or nothing.
pub proof fn lemma_field_in(fields: Seq<(Seq<char>, Val)>, k: Seq<char>)
    ensures
        field_in(fields, k) is None <==> forall|j: int| 0 <= j < fields.len() ==> #[trigger] fields[j].0 != k,
        forall|i: int| #[trigger] first_key_index(fields, k, i) ==> field_in(fields, k) == Some(fields[i].1),
    decreases fields.len(),
{
    if fields.len() > 0 {
        lemma_field_in(fields.drop_first(), k);
        assert forall|i: int| #[trigger] first_key_index(fields, k, i) implies field_in(fields, k) == Some(fields[i].1) by {
            if i > 0 {
                assert(first_key_index(fields.drop_first(), k, i - 1));
            }
        }
        if field_in(fields, k) is None {
            assert forall|j: int| 0 <= j < fields.len() implies #[trigger] fields[j].0 != k by {
                if j > 0 {
                    assert(fields.drop_first()[j - 1] == fields[j]);
                }
            }
        }
        if forall|j: int| 0 <= j < fields.len() ==> #[trigger] fields[j].0 != k {
            assert forall|j: int| 0 <= j < fields.drop_first().len() implies #[trigger] fields.drop_first()[j].0 != k by {
                assert(fields.drop_first()[j] == fields[j + 1]);
            }
        }
    }
}

/// The value of field `field` of `item`: the first field with that name of
/// a mapping document; nothing for other documents.
pub fn get_field_value<'a>(item: &'a Document, field: &str) -> (r: Option<&'a Document>)
    ensures
        match r {
            Some(d) => field_of(item@, field@) == Some(d@),
            None => field_of(item@, field@) is None,
        },
{
    let wanted = String::from_str(field);
    match item {
        Document::Object(fields) => {
            proof {
                lemma_entries_view(fields@);
            }
            let mut i: usize = 0;
            while i < fields.len()
                invariant
                    i <= fields.len(),
                    wanted@ == field@,
                    item@ == Val::Obj(entries_view(fields@)),
                    entries_view(fields@).len() == fields@.len(),
                    forall|k: int|
                        0 <= k < fields.len() ==> #[trigger] entries_view(fields@)[k] == (
                        fields@[k].key@,
                        fields@[k].value@,
                    ),
                    forall|k: int| 0 <= k < i ==> #[trigger] entries_view(fields@)[k].0 != field@,
                decreases fields.len() - i,
            {
                if fields[i].key.eq(&wanted) {
                    proof {
                        lemma_field_in(entries_view(fields@), field@);
                    }
                    assert(first_key_index(entries_view(fields@), field@, i as int));
                    return Some(&fields[i].value);
                }
                i = i + 1;
            }
            proof {
                lemma_field_in(entries_view(fields@), field@);
            }
            None
        },
        _ => None,
    }
}

/// Structural equality of two documents.
pub fn doc_equals(a: &Document, b: &Document) -> (r: bool)
    ensures
        r == (a@ == b@),
    decreases a,
{
    match (a, b) {
        (Document::Null, Document::Null) => true,
        (Document::Bool(x), Document::Bool(y)) => *x == *y,
        (Document::Number(x), Document::Number(y)) => x.bits == y.bits && x.text.eq(&y.text),
        (Document::Text(x), Document::Text(y)) => x.eq(y),
        (Document::Array(x), Document::Array(y)) => {
            let r = docs_equal(x, y);
            proof {
                lemma_docs_view(x@);
                lemma_docs_view(y@);
                if r {
                    assert(docs_view(x@) =~= docs_view(y@));
                } else if x.len() == y.len() {
                    let k = choose|k: int| 0 <= k < x.len() && #[trigger] x@[k]@ != y@[k]@;
                    assert(docs_view(x@)[k] != docs_view(y@)[k]);
                }
            }
            r
        },
        (Document::Object(x), Document::Object(y)) => {
            let r = entries_equal(x, y);
            proof {
                lemma_entries_view(x@);
                lemma_entries_view(y@);
                if r {
                    assert forall|k: int| 0 <= k < x.len() implies entries_view(x@)[k] == entries_view(y@)[k] by {
                        assert(same_entry(x@[k], y@[k]));
                    }
                    assert(entries_view(x@) =~= entries_view(y@));
                } else if x.len() == y.len() {
                    let k = choose|k: int| 0 <= k < x.len() && !#[trigger] same_entry(x@[k], y@[k]);
                    assert(entries_view(x@)[k] != entries_view(y@)[k]);
                }
            }
            r
        },
        _ => false,
    }
}

/// Pointwise equality of two sequences of documents.
fn docs_equal(x: &Vec<Document>, y: &Vec<Document>) -> (r: bool)
    ensures
        r == (x.len() == y.len() && forall|k: int| 0 <= k < x.len() ==> #[trigger] x@[k]@ == y@[k]@),
    decreases x,
{
    if x.len() != y.len() {
        return false;
    }
    let mut i: usize = 0;
    while i < x.len()
        invariant
            i <= x.len(),
            x.len() == y.len(),
            forall|k: int| 0 <= k < i ==> #[trigger] x@[k]@ == y@[k]@,
        decreases x.len() - i,
    {
        proof {
            vstd::std_specs::vec::axiom_vec_index_decreases(*x, i as int);
        }
        if !doc_equals(&x[i], &y[i]) {
            return false;
        }
        i = i + 1;
    }
    true
}

/// Two fields with equal names and equal value models.
pub open spec fn same_entry(a: Entry, b: Entry) -> bool {
    a.key@ == b.key@ && a.value@ == b.value@
}

/// Pointwise equality of two sequences of fields.
fn entries_equal(x: &Vec<Entry>, y: &Vec<Entry>) -> (r: bool)
    ensures
        r == (x.len() == y.len() && forall|k: int| 0 <= k < x.len() ==> #[trigger] same_entry(x@[k], y@[k])),
    decreases x,
{
    if x.len() != y.len() {
        return false;
    }
    let mut i: usize = 0;
    while i < x.len()
        invariant
            i <= x.len(),
            x.len() == y.len(),
            forall|k: int| 0 <= k < i ==> #[trigger] same_entry(x@[k], y@[k]),
        decreases x.len() - i,
    {
        proof {
            vstd::std_specs::vec::axiom_vec_index_decreases(*x, i as int);
        }
        let same_key = x[i].key.eq(&y[i].key);
        if !same_key {
            assert(!same_entry(x@[i as int], y@[i as int]));
            return false;
        }
        let same_value = doc_equals(&x[i].value, &y[i].value);
        if !same_value {
            assert(!same_entry(x@[i as int], y@[i as int]));
            return false;
        }
        assert(same_entry(x@[i as int], y@[i as int]));
        i = i + 1;
    }
    true
}

/// A field value meets a filter value: equal to it or, when the filter is a
/// sequence, equal to one of its elements.
pub fn value_matches_filter(item_value: &Document, filter_value: &Document) -> (r: bool)
    ensures
        r == filter_value_met(item_value@, filter_value@),
{
    match filter_value {
        Document::Array(choices) => {
            proof {
                lemma_docs_view(choices@);
            }
            let mut i: usize = 0;
            while i < choices.len()
                invariant
                    i <= choices.len(),
                    filter_value@ == Val::Arr(docs_view(choices@)),
                    docs_view(choices@).len() == choices@.len(),
                    forall|k: int| 0 <= k < choices.len() ==> #[trigger] docs_view(choices@)[k] == choices@[k]@,
                    forall|k: int| 0 <= k < i ==> #[trigger] docs_view(choices@)[k] != item_value@,
                decreases choices.len() - i,
            {
                if doc_equals(item_value, &choices[i]) {
                    assert(docs_view(choices@)[i as int] == item_value@);
                    return true;
                }
                i = i + 1;
            }
            false
        },
        _ => doc_equals(item_value, filter_value),
    }
}

/// Field-filter match: `item` has every field named in `filters`, and each
/// meets its filter value.
pub fn matches_filters(item: &Document, filters: &Vec<Entry>) -> (r: bool)
    ensures
        r == filters_met(item@, entries_view(filters@)),
{
    proof {
        lemma_entries_view(filters@);
    }
    let ghost fs = entries_view(filters@);
    let mut i: usize = 0;
    while i < filters.len()
        invariant
            i <= filters.len(),
            fs == entries_view(filters@),
            fs.len() == filters@.len(),
            forall|k: int| 0 <= k < filters.len() ==> #[trigger] fs[k] == (filters@[k].key@, filters@[k].value@),
            forall|k: int| 0 <= k < i ==> match #[trigger] field_of(item@, fs[k].0) {
                Some(x) => filter_value_met(x, fs[k].1),
                None => false,
            },
        decreases filters.len() - i,
    {
        let ok = match get_field_value(item, filters[i].key.as_str()) {
            Some(v) => value_matches_filter(v, &filters[i].value),
            None => false,
        };
        if !ok {
            assert(!match field_of(item@, fs[i as int].0) {
                Some(x) => filter_value_met(x, fs[i as int].1),
                None => false,
            });
            return false;
        }
        i = i + 1;
    }
    true
}

} // verus!
