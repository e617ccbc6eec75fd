//! The query pipeline: search, insert, update, delete, browse and list over
//! one collection, with the result cache read through on search and
//! invalidated on every write.
use vstd::prelude::*;
use crate::document::{Document, Entry, Val, docs_view, entries_view, lemma_docs_view, lemma_docs_view_push, copy_entries};
use crate::matcher::{val_matches, val_has_key, field_of, filters_met, search_in_json_value, has_key, get_field_value, matches_filters};
use crate::order::{sorted_by, sort_documents};
use crate::search::{matching, matching_nodes, nodes_view, split_nodes, get_optimal_node_count, parallel_search, search_node, lemma_matching_flatten};
use crate::cache::{SearchCache, CachedV, cache_lookup, stored, without_collection, get_cached_search, cache_search_results, invalidate_cache_for_path, opt_docs_view};
use crate::fields::{set_field, merge_fields, set_field_value, merge_patch};
use crate::paging::{window, page_count, total_pages, page_offset, copy_window};

verus! {

/// Time-to-live of cached search results and collections, in seconds.
pub const CACHE_TTL_SECS: u64 = 300;

/// The file of collection `db` of user `u`.
pub open spec fn db_path(u: Seq<char>, db: Seq<char>) -> Seq<char> {
    "users/"@ + u + "/"@ + db + ".json"@
}

/// A mapping document with its identifier and creation time set; other
/// documents unchanged.
pub open spec fn stamped(v: Val, id: Seq<char>, created: Seq<char>) -> Val {
    match v {
        Val::Obj(f) => Val::Obj(
            set_field(set_field(f, "_id"@, Val::Text(id)), "_created_at"@, Val::Text(created)),
        ),
        _ => v,
    }
}

/// A mapping document with the fields of a mapping patch set on it and its
/// update time set; anything else unchanged.
pub open spec fn patched(v: Val, patch: Val, ts: Seq<char>) -> Val {
    match (v, patch) {
        (Val::Obj(f), Val::Obj(p)) => Val::Obj(
            set_field(merge_fields(f, p), "_updated_at"@, Val::Text(ts)),
        ),
        _ => v,
    }
}

/// Both the document and the patch are mappings.
pub open spec fn patchable(v: Val, patch: Val) -> bool {
    v is Obj && patch is Obj
}

/// The document's identifier field is the string `id`.
pub open spec fn has_id(v: Val, id: Seq<char>) -> bool {
    field_of(v, "_id"@) == Some(Val::Text(id))
}

/// Index of the first document with identifier `id`, or -1.
pub open spec fn first_with_id(s: Seq<Val>, id: Seq<char>) -> int
    decreases s.len(),
{
    if s.len() == 0 {
        -1
    } else if first_with_id(s.drop_last(), id) >= 0 {
        first_with_id(s.drop_last(), id)
    } else if has_id(s.last(), id) {
        s.len() - 1
    } else {
        -1
    }
}

/// The collection after an update by identifier: the first document with
/// that identifier patched, when the patch is a mapping.
pub open spec fn updated_by_id(s: Seq<Val>, id: Seq<char>, patch: Val, ts: Seq<char>) -> Seq<Val> {
    let i = first_with_id(s, id);
    if i >= 0 && patchable(s[i], patch) {
        s.update(i, patched(s[i], patch, ts))
    } else {
        s
    }
}

/// Number of documents an update by identifier changes.
pub open spec fn count_by_id(s: Seq<Val>, id: Seq<char>, patch: Val) -> nat {
    let i = first_with_id(s, id);
    if i >= 0 && patchable(s[i], patch) {
        1
    } else {
        0
    }
}

/// An update by query applies to the document.
pub open spec fn query_update_applies(v: Val, q: Seq<char>, patch: Val) -> bool {
    val_matches(v, q) && patchable(v, patch)
}

/// The collection after an update by query: every matching mapping
/// document patched.
pub open spec fn updated_by_query(s: Seq<Val>, q: Seq<char>, patch: Val, ts: Seq<char>) -> Seq<Val> {
    Seq::new(
        s.len(),
        |i: int|
            if query_update_applies(s[i], q, patch) {
                patched(s[i], patch, ts)
            } else {
                s[i]
            },
    )
}

/// Number of documents an update by query changes.
pub open spec fn count_by_query(s: Seq<Val>, q: Seq<char>, patch: Val) -> nat
    decreases s.len(),
{
    if s.len() == 0 {
        0
    } else {
        count_by_query(s.drop_last(), q, patch) + if query_update_applies(s.last(), q, patch) {
            1nat
        } else {
            0nat
        }
    }
}

/// An optional string's model.
pub open spec fn opt_text(o: Option<&str>) -> Option<Seq<char>> {
    match o {
        Some(t) => Some(t@),
        None => None,
    }
}

/// `after` and `count` are what an update of `before` gives at time `ts`:
/// by identifier when `id` is given, else by query `q`.
pub open spec fn update_outcome(
    before: Seq<Val>,
    after: Seq<Val>,
    count: int,
    id: Option<Seq<char>>,
    q: Seq<char>,
    patch: Val,
    ts: Seq<char>,
) -> bool {
    match id {
        Some(id) => after == updated_by_id(before, id, patch, ts) && count == count_by_id(before, id, patch),
        None => after == updated_by_query(before, q, patch, ts) && count == count_by_query(before, q, patch),
    }
}

/// The documents of `s` that do not match `q`, in order.
pub open spec fn not_matching(s: Seq<Val>, q: Seq<char>) -> Seq<Val>
    decreases s.len(),
{
    if s.len() == 0 {
        Seq::empty()
    } else if val_matches(s.last(), q) {
        not_matching(s.drop_last(), q)
    } else {
        not_matching(s.drop_last(), q).push(s.last())
    }
}

/// The mapping documents of `s` with a field named `k`, in order.
pub open spec fn with_key(s: Seq<Val>, k: Seq<char>) -> Seq<Val>
    decreases s.len(),
{
    if s.len() == 0 {
        Seq::empty()
    } else if val_has_key(s.last(), k) {
        with_key(s.drop_last(), k).push(s.last())
    } else {
        with_key(s.drop_last(), k)
    }
}

/// Relies on uuid's `Uuid::new_v4` and its hyphenated rendering: a fresh
/// random identifier.
#[verifier::external_body]
fn new_record_id() -> String {
    uuid::Uuid::new_v4().to_string()
}

/// Relies on chrono's `Utc::now().to_rfc3339()`: the current time as text.
#[verifier::external_body]
fn now_rfc3339() -> String {
    chrono::Utc::now().to_rfc3339()
}

/// `record` with its identifier and creation time set, when it is a
/// mapping document.
pub fn stamp_record(record: Document, id: &str, created_at: &str) -> (r: Document)
    ensures
        r@ == stamped(record@, id@, created_at@),
{
    match record {
        Document::Object(fields) => {
            let mut fields = fields;
            set_field_value(&mut fields, String::from_str("_id"), Document::Text(String::from_str(id)));
            set_field_value(
                &mut fields,
                String::from_str("_created_at"),
                Document::Text(String::from_str(created_at)),
            );
            Document::Object(fields)
        },
        other => other,
    }
}

/// `doc` patched with `patch` at time `ts`.
pub fn patch_document(doc: &Document, patch: &Document, ts: &str) -> (r: Document)
    ensures
        r@ == patched(doc@, patch@, ts@),
{
    match (doc, patch) {
        (Document::Object(f), Document::Object(p)) => {
            let mut nf = copy_entries(f);
            merge_patch(&mut nf, p);
            set_field_value(&mut nf, String::from_str("_updated_at"), Document::Text(String::from_str(ts)));
            Document::Object(nf)
        },
        _ => doc.copy(),
    }
}

/// The document's identifier field is the string `id`.
pub fn document_id_is(doc: &Document, id: &str) -> (r: bool)
    ensures
        r == has_id(doc@, id@),
{
    let wanted = String::from_str(id);
    match get_field_value(doc, "_id") {
        Some(Document::Text(s)) => s.eq(&wanted),
        _ => false,
    }
}

/// `first_with_id` gives the first index with the identifier.
pub proof fn lemma_first_with_id(s: Seq<Val>, id: Seq<char>)
    ensures
        -1 <= first_with_id(s, id) < s.len(),
        first_with_id(s, id) >= 0 ==> has_id(s[first_with_id(s, id)], id),
        forall|j: int|
            0 <= j < s.len() && (first_with_id(s, id) < 0 || j < first_with_id(s, id)) ==> !has_id(
                #[trigger] s[j],
                id,
            ),
    decreases s.len(),
{
    if s.len() > 0 {
        lemma_first_with_id(s.drop_last(), id);
        assert forall|j: int|
            0 <= j < s.len() && (first_with_id(s, id) < 0 || j < first_with_id(s, id)) implies !has_id(
            #[trigger] s[j],
            id,
        ) by {
            if j < s.len() - 1 {
                assert(s.drop_last()[j] == s[j]);
            }
        }
    }
}

/// Applies an update to `data` at time `updated_at`: with `id_update`, to
/// the first document with that identifier; otherwise to every document
/// matching `query`. Returns the number of documents updated.
pub fn apply_update(
    data: &mut Vec<Document>,
    query: &str,
    update_data: &Document,
    id_update: Option<&str>,
    updated_at: &str,
) -> (r: usize)
    ensures
        match id_update {
            Some(id) => {
                &&& docs_view(final(data)@) == updated_by_id(docs_view(old(data)@), id@, update_data@, updated_at@)
                &&& r == count_by_id(docs_view(old(data)@), id@, update_data@)
            },
            None => {
                &&& docs_view(final(data)@) == updated_by_query(docs_view(old(data)@), query@, update_data@, updated_at@)
                &&& r == count_by_query(docs_view(old(data)@), query@, update_data@)
            },
        },
{
    let ghost s = docs_view(data@);
    proof {
        lemma_docs_view(data@);
    }
    match id_update {
        Some(id) => {
            proof {
                lemma_first_with_id(s, id@);
            }
            let mut i: usize = 0;
            while i < data.len()
                invariant
                    i <= data.len(),
                    id_update == Some(id),
                    s == docs_view(data@),
                    s == docs_view(old(data)@),
                    s.len() == data.len(),
                    forall|k: int| 0 <= k < data.len() ==> #[trigger] s[k] == data@[k]@,
                    forall|k: int| 0 <= k < i ==> !has_id(#[trigger] s[k], id@),
                    -1 <= first_with_id(s, id@) < s.len(),
                    first_with_id(s, id@) >= 0 ==> has_id(s[first_with_id(s, id@)], id@),
                    forall|j: int|
                        0 <= j < s.len() && (first_with_id(s, id@) < 0 || j < first_with_id(s, id@)) ==> !has_id(
                            #[trigger] s[j],
                            id@,
                        ),
                decreases data.len() - i,
            {
                if document_id_is(&data[i], id) {
                    assert(first_with_id(s, id@) == i);
                    match (&data[i], update_data) {
                        (Document::Object(f), Document::Object(p)) => {
                            assert(data@[i as int]@ == Val::Obj(entries_view(f@)));
                            assert(update_data@ == Val::Obj(entries_view(p@)));
                            assert(patchable(s[i as int], update_data@));
                            let d = patch_document(&data[i], update_data, updated_at);
                            let ghost before = data@;
                            data.set(i, d);
                            proof {
                                lemma_docs_view(data@);
                                assert forall|k: int| 0 <= k < s.len() implies #[trigger] docs_view(data@)[k] == s.update(i as int, patched(s[i as int], update_data@, updated_at@))[k] by {
                                    if k != i {
                                        assert(data@[k] == before[k]);
                                    }
                                }
                                assert(docs_view(data@) =~= s.update(i as int, patched(s[i as int], update_data@, updated_at@)));
                            }

                            return 1;
                        },
                        _ => {
                            assert(!patchable(s[i as int], update_data@));

                            return 0;
                        },
                    }
                }
                i = i + 1;
            }
            0
        },
        None => {
            let mut count: usize = 0;
            let mut i: usize = 0;
            while i < data.len()
                invariant
                    i <= data.len(),
                    id_update is None,
                    s == docs_view(old(data)@),
                    s.len() == data.len(),
                    docs_view(data@).len() == data.len(),
                    forall|k: int| 0 <= k < data.len() ==> #[trigger] docs_view(data@)[k] == data@[k]@,
                    forall|k: int| 0 <= k < i ==> #[trigger] data@[k]@ == updated_by_query(s, query@, update_data@, updated_at@)[k],
                    forall|k: int| i <= k < data.len() ==> #[trigger] data@[k]@ == s[k],
                    count == count_by_query(s.subrange(0, i as int), query@, update_data@),
                    count <= i,
                decreases data.len() - i,
            {
                proof {
                    assert(s.subrange(0, i + 1).drop_last() =~= s.subrange(0, i as int));
                }
                let applies = search_in_json_value(&data[i], query) && match (&data[i], update_data) {
                    (Document::Object(_), Document::Object(_)) => true,
                    _ => false,
                };
                if applies {
                    let d = patch_document(&data[i], update_data, updated_at);
                    let ghost before = data@;
                    data.set(i, d);
                    proof {
                        lemma_docs_view(data@);
                        assert forall|k: int| 0 <= k < data.len() && k != i implies #[trigger] data@[k] == before[k] by {}
                    }
                    count = count + 1;
                }
                i = i + 1;
            }
            proof {
                assert(s.subrange(0, data.len() as int) =~= s);
                assert(docs_view(data@) =~= updated_by_query(s, query@, update_data@, updated_at@));
            }
            count
        },
    }
}

/// Removes from `data` every document matching `query`; returns how many.
pub fn remove_matching(data: &mut Vec<Document>, query: &str) -> (r: usize)
    ensures
        docs_view(final(data)@) == not_matching(docs_view(old(data)@), query@),
        r == old(data).len() - final(data).len(),
{
    proof {
        lemma_docs_view(data@);
    }
    let initial_count = data.len();
    let ghost s = docs_view(data@);
    let ghost n = s.len();
    let mut i: usize = 0;
    let mut j: usize = 0;
    while i < data.len()
        invariant
            n == s.len(),
            n == old(data).len(),
            n == initial_count,
            s == docs_view(old(data)@),
            j <= n,
            i <= j,
            i == not_matching(s.subrange(0, j as int), query@).len(),
            docs_view(data@) == not_matching(s.subrange(0, j as int), query@) + s.subrange(j as int, n as int),
            data.len() == i + (n - j),
        decreases data.len() - i,
    {
        let ghost before = data@;
        proof {
            assert(s.subrange(0, j + 1).drop_last() =~= s.subrange(0, j as int));
            lemma_docs_view(before);
            assert(docs_view(before)[i as int] == s[j as int]);
        }
        if search_in_json_value(&data[i], query) {
            let _gone = data.remove(i);
            proof {
                lemma_docs_view(data@);
                assert(docs_view(data@) =~= docs_view(before).remove(i as int));
                assert(docs_view(data@) =~= not_matching(s.subrange(0, j + 1), query@) + s.subrange(j + 1, n as int));
            }
        } else {
            i = i + 1;
            proof {
                assert(docs_view(data@) =~= not_matching(s.subrange(0, j + 1), query@) + s.subrange(j + 1, n as int));
            }
        }
        j = j + 1;
    }
    proof {
        assert(s.subrange(0, n as int) =~= s);
        assert(docs_view(data@) =~= not_matching(s, query@));
    }
    initial_count - data.len()
}

/// The mapping documents of `data` with a field named `key_name`, copied.
fn search_by_key(data: &Vec<Document>, key_name: &str) -> (r: Vec<Document>)
    ensures
        docs_view(r@) == with_key(docs_view(data@), key_name@),
{
    proof {
        lemma_docs_view(data@);
    }
    let ghost vs = docs_view(data@);
    let mut r: Vec<Document> = Vec::new();
    let mut i: usize = 0;
    while i < data.len()
        invariant
            i <= data.len(),
            vs == docs_view(data@),
            vs.len() == data.len(),
            forall|k: int| 0 <= k < data.len() ==> #[trigger] vs[k] == data@[k]@,
            docs_view(r@) == with_key(vs.subrange(0, i as int), key_name@),
        decreases data.len() - i,
    {
        proof {
            assert(vs.subrange(0, i + 1).drop_last() =~= vs.subrange(0, i as int));
        }
        if has_key(&data[i], key_name) {
            let d = data[i].copy();
            proof {
                lemma_docs_view_push(r@, d);
            }
            r.push(d);
        }
        i = i + 1;
    }
    proof {
        assert(vs.subrange(0, data.len() as int) =~= vs);
    }
    r
}

/// Read-through parallel search: the cached results for `query` on `path`
/// when an entry is usable at time `now`; otherwise a parallel search over
/// `nodes`, whose results are then cached for `ttl_seconds`.
pub fn cached_parallel_search(
    cache: &mut SearchCache,
    path: &str,
    nodes: &Vec<Vec<Document>>,
    query: &str,
    ttl_seconds: u64,
    now: u64,
) -> (r: Vec<Document>)
    ensures
        match cache_lookup(old(cache)@, path@, query@, now) {
            Some(v) => docs_view(r@) == v && final(cache)@ == old(cache)@,
            None => {
                &&& docs_view(r@) == matching_nodes(nodes_view(nodes@), query@).flatten()
                &&& final(cache)@ == stored(
                    old(cache)@,
                    CachedV {
                        collection: path@,
                        query: query@,
                        results: docs_view(r@),
                        timestamp: now,
                        ttl_seconds,
                    },
                    now,
                )
            },
        },
{
    match get_cached_search(cache, path, query, now) {
        Some(cached) => cached,
        None => {
            let results = parallel_search(nodes, query);
            let kept = crate::document::copy_docs(&results);
            cache_search_results(cache, path, query, kept, ttl_seconds, now);
            results
        },
    }
}

/// Page size of `browse_records` when neither page nor limit is given,
/// and the default of `list_records`.
pub const DEFAULT_PAGE_SIZE: usize = 10;

/// How `browse_records` chose its window.
#[derive(PartialEq, Eq, Structural, Clone, Copy, Debug)]
pub enum BrowseMode {
    /// A limit without a page: the first documents.
    LimitOnly,
    /// A page and a limit.
    Paginated,
    /// Neither: the first page of the default size.
    Default,
}

/// One window of a collection, with its pagination metadata. Page counts
/// and neighbour flags are absent in `BrowseMode::LimitOnly`.
pub struct BrowsePage {
    pub data: Vec<Document>,
    pub mode: BrowseMode,
    pub page: Option<usize>,
    pub limit: usize,
    pub returned: usize,
    pub total_records: usize,
    pub total_pages: Option<usize>,
    pub has_next: Option<bool>,
    pub has_prev: Option<bool>,
}

/// The browse window's metadata, as the inputs determine it.
pub open spec fn browse_meta(r: BrowsePage, n: int, page: Option<usize>, limit: Option<usize>) -> bool {
    &&& r.total_records == n
    &&& r.returned == r.data.len()
    &&& match (page, limit) {
        (None, Some(lim)) => {
            &&& r.mode == BrowseMode::LimitOnly
            &&& r.limit == lim
            &&& r.page is None && r.total_pages is None && r.has_next is None && r.has_prev is None
        },
        (Some(p), Some(lim)) => {
            let pn: int = if p < 1 {
                1
            } else {
                p as int
            };
            &&& r.mode == BrowseMode::Paginated
            &&& r.limit == lim
            &&& r.page == Some(pn as usize)
            &&& r.total_pages == Some(page_count(n, lim as int) as usize)
            &&& r.has_next == Some(pn < page_count(n, lim as int))
            &&& r.has_prev == Some(pn > 1)
        },
        _ => {
            &&& r.mode == BrowseMode::Default
            &&& r.limit == DEFAULT_PAGE_SIZE
            &&& r.page == Some(1usize)
            &&& r.total_pages == Some(page_count(n, DEFAULT_PAGE_SIZE as int) as usize)
            &&& r.has_next == Some(page_count(n, DEFAULT_PAGE_SIZE as int) > 1)
            &&& r.has_prev == Some(false)
        },
    }
}

/// The browse window's documents.
pub open spec fn browse_window(s: Seq<Val>, page: Option<usize>, limit: Option<usize>) -> Seq<Val> {
    match (page, limit) {
        (None, Some(lim)) => window(s, 0, lim as int),
        (Some(p), Some(lim)) => window(s, (if p < 1 { 0 } else { p - 1 }) * lim, lim as int),
        _ => window(s, 0, DEFAULT_PAGE_SIZE as int),
    }
}

/// The documents of `s` that satisfy the filter set `fs`, in order.
pub open spec fn filtered_by(s: Seq<Val>, fs: Seq<(Seq<char>, Val)>) -> Seq<Val>
    decreases s.len(),
{
    if s.len() == 0 {
        Seq::empty()
    } else if filters_met(s.last(), fs) {
        filtered_by(s.drop_last(), fs).push(s.last())
    } else {
        filtered_by(s.drop_last(), fs)
    }
}

/// The documents a listing keeps: those satisfying a mapping filter set
/// (all of them without one).
pub open spec fn list_filtered(s: Seq<Val>, filters: Option<Val>) -> Seq<Val> {
    match filters {
        Some(Val::Obj(fs)) => filtered_by(s, fs),
        _ => s,
    }
}

/// The documents a listing keeps, in listing order: sorted by the field
/// when one is given.
pub open spec fn list_ordered(s: Seq<Val>, filters: Option<Val>, sort_by: Option<Seq<char>>, desc: bool) -> Seq<Val> {
    match sort_by {
        Some(field) => sorted_by(list_filtered(s, filters), field, desc),
        None => list_filtered(s, filters),
    }
}

/// An optional document's model.
pub open spec fn opt_val(d: Option<&Document>) -> Option<Val> {
    match d {
        Some(x) => Some(x@),
        None => None,
    }
}

/// One page of a filtered, sorted listing, with its metadata.
pub struct ListPage {
    pub data: Vec<Document>,
    pub page: usize,
    pub limit: usize,
    pub total_records: usize,
    pub filtered_records: usize,
    pub total_pages: usize,
    pub has_next: bool,
    pub has_prev: bool,
    pub sort_field: Option<String>,
    pub sort_order: String,
}

/// Copies of the documents of `data` that satisfy the filter set `filters`.
fn filter_documents(data: &Vec<Document>, filters: &Vec<Entry>) -> (r: Vec<Document>)
    ensures
        docs_view(r@) == filtered_by(docs_view(data@), entries_view(filters@)),
{
    proof {
        lemma_docs_view(data@);
    }
    let ghost vs = docs_view(data@);
    let ghost fs = entries_view(filters@);
    let mut r: Vec<Document> = Vec::new();
    let mut i: usize = 0;
    while i < data.len()
        invariant
            i <= data.len(),
            vs == docs_view(data@),
            fs == entries_view(filters@),
            vs.len() == data.len(),
            forall|k: int| 0 <= k < data.len() ==> #[trigger] vs[k] == data@[k]@,
            docs_view(r@) == filtered_by(vs.subrange(0, i as int), fs),
        decreases data.len() - i,
    {
        proof {
            assert(vs.subrange(0, i + 1).drop_last() =~= vs.subrange(0, i as int));
        }
        if matches_filters(&data[i], filters) {
            let d = data[i].copy();
            proof {
                lemma_docs_view_push(r@, d);
            }
            r.push(d);
        }
        i = i + 1;
    }
    proof {
        assert(vs.subrange(0, data.len() as int) =~= vs);
    }
    r
}

/// The query engine over the collections: it owns the result cache, which
/// also holds whole collections under the empty query.
pub struct DatabaseManager {
    pub cache: SearchCache,
}

impl DatabaseManager {
    /// A manager with an empty cache.
    pub fn new() -> (r: DatabaseManager)
        ensures
            r.cache@ == Seq::<CachedV>::empty(),
    {
        DatabaseManager { cache: SearchCache::new() }
    }

    /// The file of collection `db_name` of user `username`:
    /// `users/<username>/<db_name>.json`.
    pub fn get_db_path(username: &str, db_name: &str) -> (r: String)
        ensures
            r@ == db_path(username@, db_name@),
    {
        let mut p = String::from_str("users/");
        p.append(username);
        p.append("/");
        p.append(db_name);
        p.append(".json");
        p
    }

    /// Removes every cached entry of the collection: its cached documents and
    /// every cached search over it.
    pub fn invalidate_cache(&mut self, username: &str, db_name: &str)
        ensures
            final(self).cache@ == without_collection(old(self).cache@, db_path(username@, db_name@)),
    {
        let path = Self::get_db_path(username, db_name);
        invalidate_cache_for_path(&mut self.cache, path.as_str());
    }

    /// The collection's documents as cached at time `now`, if they are.
    pub fn cached_collection(&self, username: &str, db_name: &str, now: u64) -> (r: Option<Vec<Document>>)
        ensures
            opt_docs_view(r) == cache_lookup(self.cache@, db_path(username@, db_name@), Seq::empty(), now),
    {
        let path = Self::get_db_path(username, db_name);
        proof {
            reveal_strlit("");
            assert(""@ =~= Seq::<char>::empty());
        }
        get_cached_search(&self.cache, path.as_str(), "", now)
    }

    /// Caches the collection's documents at time `now` for `CACHE_TTL_SECS`.
    pub fn remember_collection(&mut self, username: &str, db_name: &str, data: &Vec<Document>, now: u64)
        ensures
            final(self).cache@ == stored(
                old(self).cache@,
                CachedV {
                    collection: db_path(username@, db_name@),
                    query: Seq::empty(),
                    results: docs_view(data@),
                    timestamp: now,
                    ttl_seconds: CACHE_TTL_SECS,
                },
                now,
            ),
    {
        let path = Self::get_db_path(username, db_name);
        proof {
            reveal_strlit("");
            assert(""@ =~= Seq::<char>::empty());
        }
        let copy = crate::document::copy_docs(data);
        cache_search_results(&mut self.cache, path.as_str(), "", copy, CACHE_TTL_SECS, now);
    }

    /// Searches the collection `data`. Without a query, or with an empty one,
    /// every document. With `query_type` "key", the mapping documents with
    /// that field; with "value", the documents matching it; otherwise a
    /// read-through cached parallel substring search at time `now`.
    pub fn search_records(
        &mut self,
        username: &str,
        db_name: &str,
        data: Vec<Document>,
        query: Option<&str>,
        query_type: Option<&str>,
        now: u64,
    ) -> (r: Vec<Document>)
        ensures
            match query {
                Some(q) if q@.len() > 0 => match query_type {
                    Some(t) if t@ == "key"@ => docs_view(r@) == with_key(docs_view(data@), q@)
                        && final(self).cache@ == old(self).cache@,
                    Some(t) if t@ == "value"@ => docs_view(r@) == matching(docs_view(data@), q@)
                        && final(self).cache@ == old(self).cache@,
                    _ => match cache_lookup(old(self).cache@, db_path(username@, db_name@), q@, now) {
                        Some(v) => docs_view(r@) == v && final(self).cache@ == old(self).cache@,
                        None => {
                            &&& docs_view(r@) == matching(docs_view(data@), q@)
                            &&& final(self).cache@ == stored(
                                old(self).cache@,
                                CachedV {
                                    collection: db_path(username@, db_name@),
                                    query: q@,
                                    results: docs_view(r@),
                                    timestamp: now,
                                    ttl_seconds: CACHE_TTL_SECS,
                                },
                                now,
                            )
                        },
                    },
                },
                _ => r@ == data@ && final(self).cache@ == old(self).cache@,
            },
    {
        match query {
            Some(q) => {
                if q.is_empty() {
                    return data;
                }
                let kind = match query_type {
                    Some(t) => String::from_str(t),
                    None => String::new(),
                };
                if query_type.is_some() && kind.eq(&String::from_str("key")) {
                    search_by_key(&data, q)
                } else if query_type.is_some() && kind.eq(&String::from_str("value")) {
                    search_node(&data, q)
                } else {
                    let path = Self::get_db_path(username, db_name);
                    let node_count = get_optimal_node_count();
                    let ghost whole = docs_view(data@);
                    let nodes = split_nodes(data, node_count);
                    proof {
                        lemma_matching_flatten(nodes_view(nodes@), q@);
                    }
                    cached_parallel_search(&mut self.cache, path.as_str(), &nodes, q, CACHE_TTL_SECS, now)
                }
            },
            None => data,
        }
    }

    /// Adds `record` to `data` at time `created_at` with identifier `id`
    /// (a mapping document gets both as fields), and invalidates the
    /// collection's cache entries.
    pub fn insert_record_with(
        &mut self,
        username: &str,
        db_name: &str,
        data: &mut Vec<Document>,
        record: Document,
        id: &str,
        created_at: &str,
    )
        ensures
            docs_view(final(data)@) == docs_view(old(data)@).push(stamped(record@, id@, created_at@)),
            final(self).cache@ == without_collection(old(self).cache@, db_path(username@, db_name@)),
    {
        let d = stamp_record(record, id, created_at);
        proof {
            lemma_docs_view_push(data@, d);
        }
        data.push(d);
        self.invalidate_cache(username, db_name);
    }

    /// Adds `record` to `data` with a fresh identifier and the current time,
    /// and invalidates the collection's cache entries.
    pub fn insert_record(&mut self, username: &str, db_name: &str, data: &mut Vec<Document>, record: Document)
        ensures
            exists|id: Seq<char>, created: Seq<char>|
                docs_view(final(data)@) == docs_view(old(data)@).push(stamped(record@, id, created)),
            final(self).cache@ == without_collection(old(self).cache@, db_path(username@, db_name@)),
    {
        let id = new_record_id();
        let created_at = now_rfc3339();
        self.insert_record_with(username, db_name, data, record, id.as_str(), created_at.as_str());
    }

    /// Updates `data` at time `updated_at` (see `apply_update`), invalidates
    /// the collection's cache entries, and returns the number of documents
    /// updated.
    pub fn update_records_at(
        &mut self,
        username: &str,
        db_name: &str,
        data: &mut Vec<Document>,
        query: &str,
        update_data: Document,
        id_update: Option<&str>,
        updated_at: &str,
    ) -> (r: usize)
        ensures
            update_outcome(
                docs_view(old(data)@),
                docs_view(final(data)@),
                r as int,
                opt_text(id_update),
                query@,
                update_data@,
                updated_at@,
            ),
            final(self).cache@ == without_collection(old(self).cache@, db_path(username@, db_name@)),
    {
        let n = apply_update(data, query, &update_data, id_update, updated_at);
        self.invalidate_cache(username, db_name);
        n
    }

    /// Updates `data` at the current time: with `id_update`, the first
    /// document with that identifier; otherwise every document matching
    /// `query`. Invalidates the collection's cache entries and returns the
    /// number of documents updated.
    pub fn update_records(
        &mut self,
        username: &str,
        db_name: &str,
        data: &mut Vec<Document>,
        query: &str,
        update_data: Document,
        id_update: Option<&str>,
    ) -> (r: usize)
        ensures
            exists|ts: Seq<char>|
                #[trigger] update_outcome(
                    docs_view(old(data)@),
                    docs_view(final(data)@),
                    r as int,
                    opt_text(id_update),
                    query@,
                    update_data@,
                    ts,
                ),
            final(self).cache@ == without_collection(old(self).cache@, db_path(username@, db_name@)),
    {
        let ts = now_rfc3339();
        let ghost patch = update_data@;
        let r = self.update_records_at(username, db_name, data, query, update_data, id_update, ts.as_str());
        proof {
            assert(update_outcome(
                docs_view(old(data)@),
                docs_view(data@),
                r as int,
                opt_text(id_update),
                query@,
                patch,
                ts@,
            ));
        }
        r
    }

    /// Removes from `data` every document matching `query`, invalidates the
    /// collection's cache entries, and returns how many were removed.
    pub fn delete_records(&mut self, username: &str, db_name: &str, data: &mut Vec<Document>, query: &str) -> (r: usize)
        ensures
            docs_view(final(data)@) == not_matching(docs_view(old(data)@), query@),
            r == old(data).len() - final(data).len(),
            final(self).cache@ == without_collection(old(self).cache@, db_path(username@, db_name@)),
    {
        let n = remove_matching(data, query);
        self.invalidate_cache(username, db_name);
        n
    }

    /// A window of the collection `data`: with a limit only, the first
    /// `limit` documents; with a page and a limit, page `page` (counted from
    /// one, lower pages taken as the first) of `limit` documents; with
    /// neither, the first `DEFAULT_PAGE_SIZE`. A page without a limit is an
    /// error.
    pub fn browse_records(&self, data: &Vec<Document>, page: Option<usize>, limit: Option<usize>) -> (r: Result<BrowsePage, String>)
        ensures
            r is Err <==> page is Some && limit is None,
            r matches Ok(b) ==> browse_meta(b, data.len() as int, page, limit)
                && docs_view(b.data@) == browse_window(docs_view(data@), page, limit),
    {
        let n = data.len();
        match (page, limit) {
            (None, Some(lim)) => {
                let d = copy_window(data, 0, lim);
                let returned = d.len();
                Ok(BrowsePage {
                    data: d,
                    mode: BrowseMode::LimitOnly,
                    page: None,
                    limit: lim,
                    returned,
                    total_records: n,
                    total_pages: None,
                    has_next: None,
                    has_prev: None,
                })
            },
            (Some(p), Some(lim)) => {
                let page_num = if p < 1 {
                    1
                } else {
                    p
                };
                let offset = page_offset(page_num, lim, n);
                let d = copy_window(data, offset, lim);
                proof {
                    let w = window(docs_view(data@), (page_num - 1) * lim, lim as int);
                    lemma_docs_view(data@);
                    assert(docs_view(d@) =~= w);
                }
                let pages = total_pages(n, lim);
                let returned = d.len();
                Ok(BrowsePage {
                    data: d,
                    mode: BrowseMode::Paginated,
                    page: Some(page_num),
                    limit: lim,
                    returned,
                    total_records: n,
                    total_pages: Some(pages),
                    has_next: Some(page_num < pages),
                    has_prev: Some(page_num > 1),
                })
            },
            (Some(_), None) => Err(String::from_str("Cannot use 'page' without 'limit'. Please provide both parameters.")),
            (None, None) => {
                let d = copy_window(data, 0, DEFAULT_PAGE_SIZE);
                let pages = total_pages(n, DEFAULT_PAGE_SIZE);
                let returned = d.len();
                Ok(BrowsePage {
                    data: d,
                    mode: BrowseMode::Default,
                    page: Some(1),
                    limit: DEFAULT_PAGE_SIZE,
                    returned,
                    total_records: n,
                    total_pages: Some(pages),
                    has_next: Some(pages > 1),
                    has_prev: Some(false),
                })
            },
        }
    }

    /// A page of the collection `data` after filtering and sorting: the
    /// documents satisfying `filters` (when it is a mapping), stably sorted
    /// by `sort_by` (descending when `sort_order` is "desc"), then page
    /// `page` (default 1) of `limit` (default `DEFAULT_PAGE_SIZE`) documents.
    /// Pages past the end are empty.
    pub fn list_records(
        &self,
        data: &Vec<Document>,
        page: Option<usize>,
        limit: Option<usize>,
        sort_by: Option<&str>,
        sort_order: Option<&str>,
        filters: Option<&Document>,
    ) -> (r: ListPage)
        ensures
            ({
                let pn: int = match page {
                    Some(p) => p as int,
                    None => 1,
                };
                let size: int = match limit {
                    Some(l) => l as int,
                    None => DEFAULT_PAGE_SIZE as int,
                };
                let desc = sort_order matches Some(o) && o@ == "desc"@;
                let kept = list_filtered(docs_view(data@), opt_val(filters));
                let ordered = list_ordered(docs_view(data@), opt_val(filters), opt_text(sort_by), desc);
                &&& r.page == pn
                &&& r.limit == size
                &&& r.total_records == data.len()
                &&& r.filtered_records == kept.len()
                &&& r.total_pages == page_count(kept.len() as int, size)
                &&& r.has_next == (pn < r.total_pages)
                &&& r.has_prev == (pn > 1)
                &&& docs_view(r.data@) == window(ordered, (if pn > 0 { pn - 1 } else { 0 }) * size, size)
                &&& match sort_by {
                    Some(f) => r.sort_field matches Some(x) && x@ == f@,
                    None => r.sort_field is None,
                }
                &&& r.sort_order@ == match sort_order {
                    Some(o) => o@,
                    None => "asc"@,
                }
            }),
    {
        let total_records = data.len();
        let kept = match filters {
            Some(Document::Object(fs)) => filter_documents(data, fs),
            _ => {
                assert(!(opt_val(filters) matches Some(Val::Obj(_))));
                crate::document::copy_docs(data)
            },
        };
        assert(docs_view(kept@) == list_filtered(docs_view(data@), opt_val(filters)));
        proof {
            lemma_docs_view(data@);
            lemma_docs_view(kept@);
        }
        let filtered_count = kept.len();
        let order = match sort_order {
            Some(o) => String::from_str(o),
            None => String::from_str("asc"),
        };
        proof {
            reveal_strlit("asc");
            reveal_strlit("desc");
            assert("asc"@.len() == 3 && "desc"@.len() == 4);
            assert("asc"@ != "desc"@);
        }
        let ghost desc = sort_order matches Some(o) && o@ == "desc"@;
        assert(desc == (order@ == "desc"@));
        let ordered = match sort_by {
            Some(field) => sort_documents(&kept, field, order.as_str()),
            None => kept,
        };
        assert(docs_view(ordered@) == list_ordered(docs_view(data@), opt_val(filters), opt_text(sort_by), desc));
        let page_num = match page {
            Some(p) => p,
            None => 1,
        };
        let page_size = match limit {
            Some(l) => l,
            None => DEFAULT_PAGE_SIZE,
        };
        let offset = page_offset(page_num, page_size, ordered.len());
        let d = copy_window(&ordered, offset, page_size);
        proof {
            lemma_docs_view(ordered@);
            let skip: int = if page_num > 0 { page_num - 1 } else { 0 };
            assert(docs_view(d@) =~= window(docs_view(ordered@), skip * page_size, page_size as int));
        }
        let pages = total_pages(filtered_count, page_size);
        let sort_field = match sort_by {
            Some(f) => Some(String::from_str(f)),
            None => None,
        };
        ListPage {
            data: d,
            page: page_num,
            limit: page_size,
            total_records,
            filtered_records: filtered_count,
            total_pages: pages,
            has_next: page_num < pages,
            has_prev: page_num > 1,
            sort_field,
            sort_order: order,
        }
    }
}

/// An update by identifier changes at most one document, and only the
/// first with that identifier; an update by query changes every matching
/// mapping document when the patch is a mapping.
pub proof fn lemma_update_scope(s: Seq<Val>, id: Seq<char>, q: Seq<char>, patch: Val, ts: Seq<char>)
    ensures
        updated_by_id(s, id, patch, ts).len() == s.len(),
        forall|j: int, k: int|
            0 <= j < s.len() && 0 <= k < s.len() && updated_by_id(s, id, patch, ts)[j] != s[j]
                && updated_by_id(s, id, patch, ts)[k] != s[k] ==> j == k,
        forall|j: int|
            0 <= j < s.len() && updated_by_id(s, id, patch, ts)[j] != s[j] ==> j == first_with_id(s, id),
        count_by_id(s, id, patch) <= 1,
        forall|j: int|
            0 <= j < s.len() && #[trigger] query_update_applies(s[j], q, patch) ==> updated_by_query(
                s,
                q,
                patch,
                ts,
            )[j] == patched(s[j], patch, ts),
{
    lemma_first_with_id(s, id);
}

/// Deleting twice deletes nothing more, and deleting when nothing matches
/// leaves the collection as it was.
pub proof fn lemma_delete_idempotent(s: Seq<Val>, q: Seq<char>)
    ensures
        not_matching(not_matching(s, q), q) == not_matching(s, q),
        (forall|j: int| 0 <= j < s.len() ==> !val_matches(#[trigger] s[j], q)) ==> not_matching(s, q) == s,
    decreases s.len(),
{
    if s.len() > 0 {
        let init = s.drop_last();
        lemma_delete_idempotent(init, q);
        let m = not_matching(init, q);
        if !val_matches(s.last(), q) {
            assert(m.push(s.last()).drop_last() =~= m);
        }
        if forall|j: int| 0 <= j < s.len() ==> !val_matches(#[trigger] s[j], q) {
            assert forall|j: int| 0 <= j < init.len() implies !val_matches(#[trigger] init[j], q) by {
                assert(init[j] == s[j]);
            }
            assert(!val_matches(s[s.len() - 1], q));
            assert(init.push(s.last()) =~= s);
        }
    }
}

} // verus!
