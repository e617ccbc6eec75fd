//! The open-schema document value and its mathematical model.
use vstd::prelude::*;

verus! {

/// A JSON number: its canonical decimal rendering and the IEEE-754 bit
/// pattern of its value as a 64-bit float.
pub struct Number {
    pub text: String,
    pub bits: u64,
}

/// One field of a mapping document.
pub struct Entry {
    pub key: String,
    pub value: Document,
}

/// A document: null, boolean, number, string, sequence or mapping.
/// A mapping keeps its fields in insertion order; its keys are unique.
pub enum Document {
    Null,
    Bool(bool),
    Number(Number),
    Text(String),
    Array(Vec<Document>),
    Object(Vec<Entry>),
}

/// The mathematical model of a document.
pub enum Val {
    Null,
    Bool(bool),
    Num(Seq<char>, u64),
    Text(Seq<char>),
    Arr(Seq<Val>),
    Obj(Seq<(Seq<char>, Val)>),
}

impl Document {
    pub open spec fn view(&self) -> Val
        decreases self,
    {
        match self {
            Document::Null => Val::Null,
            Document::Bool(b) => Val::Bool(*b),
            Document::Number(n) => Val::Num(n.text@, n.bits),
            Document::Text(s) => Val::Text(s@),
            Document::Array(v) => Val::Arr(docs_view(v@)),
            Document::Object(v) => Val::Obj(entries_view(v@)),
        }
    }
}

/// The models of a sequence of documents.
pub open spec fn docs_view(s: Seq<Document>) -> Seq<Val>
    decreases s,
{
    if s.len() == 0 {
        Seq::empty()
    } else {
        docs_view(s.drop_last()).push(s.last().view())
    }
}

/// The models of a sequence of fields.
pub open spec fn entries_view(s: Seq<Entry>) -> Seq<(Seq<char>, Val)>
    decreases s,
{
    if s.len() == 0 {
        Seq::empty()
    } else {
        entries_view(s.drop_last()).push((s.last().key@, s.last().value.view()))
    }
}

} // verus!

verus! {

/// The models of a sequence of documents, element by element.
pub proof fn lemma_docs_view(s: Seq<Document>)
    ensures
        docs_view(s).len() == s.len(),
        forall|i: int| 0 <= i < s.len() ==> #[trigger] docs_view(s)[i] == s[i]@,
    decreases s.len(),
{
    if s.len() > 0 {
        lemma_docs_view(s.drop_last());
    }
}

/// The models of a sequence of fields, element by element.
pub proof fn lemma_entries_view(s: Seq<Entry>)
    ensures
        entries_view(s).len() == s.len(),
        forall|i: int|
            0 <= i < s.len() ==> #[trigger] entries_view(s)[i] == (s[i].key@, s[i].value@),
    decreases s.len(),
{
    if s.len() > 0 {
        lemma_entries_view(s.drop_last());
    }
}

/// Documents with equal models have equal sequences of models.
pub proof fn lemma_docs_view_ext(a: Seq<Document>, b: Seq<Document>)
    requires
        a.len() == b.len(),
        forall|i: int| 0 <= i < a.len() ==> #[trigger] a[i]@ == b[i]@,
    ensures
        docs_view(a) == docs_view(b),
{
    lemma_docs_view(a);
    lemma_docs_view(b);
    assert(docs_view(a) =~= docs_view(b));
}

/// Appending a document appends its model.
pub proof fn lemma_docs_view_push(s: Seq<Document>, d: Document)
    ensures
        docs_view(s.push(d)) == docs_view(s).push(d@),
{
    assert(s.push(d).drop_last() =~= s);
}

impl Document {
    /// A deep copy: a new document with the same model.
    pub fn copy(&self) -> (r: Document)
        ensures
            r@ == self@,
        decreases self,
    {
        match self {
            Document::Null => Document::Null,
            Document::Bool(b) => Document::Bool(*b),
            Document::Number(n) => Document::Number(Number { text: n.text.clone(), bits: n.bits }),
            Document::Text(s) => Document::Text(s.clone()),
            Document::Array(v) => Document::Array(copy_docs(v)),
            Document::Object(v) => Document::Object(copy_entries(v)),
        }
    }
}

/// Deep copies of a sequence of documents.
pub fn copy_docs(v: &Vec<Document>) -> (r: Vec<Document>)
    ensures
        r.len() == v.len(),
        forall|i: int| 0 <= i < v.len() ==> #[trigger] r@[i]@ == v@[i]@,
        docs_view(r@) == docs_view(v@),
    decreases v,
{
    let mut r: Vec<Document> = Vec::new();
    let mut i: usize = 0;
    while i < v.len()
        invariant
            i <= v.len(),
            r.len() == i,
            forall|j: int| 0 <= j < i ==> #[trigger] r@[j]@ == v@[j]@,
        decreases v.len() - i,
    {
        proof {
            vstd::std_specs::vec::axiom_vec_index_decreases(*v, i as int);
        }
        r.push(v[i].copy());
        i = i + 1;
    }
    proof {
        lemma_docs_view_ext(r@, v@);
    }
    r
}

/// Deep copies of a sequence of fields.
pub fn copy_entries(v: &Vec<Entry>) -> (r: Vec<Entry>)
    ensures
        entries_view(r@) == entries_view(v@),
    decreases v,
{
    let mut r: Vec<Entry> = Vec::new();
    let mut i: usize = 0;
    while i < v.len()
        invariant
            i <= v.len(),
            r.len() == i,
            forall|j: int|
                0 <= j < i ==> #[trigger] r@[j].key@ == v@[j].key@ && r@[j].value@ == v@[j].value@,
        decreases v.len() - i,
    {
        proof {
            vstd::std_specs::vec::axiom_vec_index_decreases(*v, i as int);
        }
        r.push(Entry { key: v[i].key.clone(), value: v[i].value.copy() });
        i = i + 1;
    }
    proof {
        lemma_entries_view(r@);
        lemma_entries_view(v@);
        assert(entries_view(r@) =~= entries_view(v@));
    }
    r
}

} // verus!
