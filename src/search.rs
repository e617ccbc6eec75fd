//! Partitioning a collection into nodes, and the four search strategies
//! that scan the nodes with the substring / structural matcher.
use vstd::prelude::*;
use rayon::iter::{IntoParallelRefIterator, ParallelIterator};
use crate::document::{Document, Val, docs_view, lemma_docs_view, lemma_docs_view_push};
use crate::matcher::{val_matches, search_in_json_value};

verus! {

/// Below this many documents in all, smart search scans the nodes one after
/// the other; from it on, in parallel.
pub const PARALLEL_THRESHOLD: usize = 1000;

/// The documents of `s` that match `q`, in order.
pub open spec fn matching(s: Seq<Val>, q: Seq<char>) -> Seq<Val>
    decreases s.len(),
{
    if s.len() == 0 {
        Seq::empty()
    } else if val_matches(s.last(), q) {
        matching(s.drop_last(), q).push(s.last())
    } else {
        matching(s.drop_last(), q)
    }
}

/// The models of a sequence of nodes.
pub open spec fn nodes_view(nodes: Seq<Vec<Document>>) -> Seq<Seq<Val>> {
    Seq::new(nodes.len(), |i: int| docs_view(nodes[i]@))
}

/// Each node filtered on its own.
pub open spec fn matching_nodes(nodes: Seq<Seq<Val>>, q: Seq<char>) -> Seq<Seq<Val>> {
    Seq::new(nodes.len(), |i: int| matching(nodes[i], q))
}

/// Size of node `i` when `n` documents are dealt out to `p` nodes: the
/// first `n % p` nodes take one document more than the others.
pub open spec fn node_size(n: int, p: int, i: int) -> int {
    n / p + if i < n % p {
        1int
    } else {
        0int
    }
}

/// Filtering distributes over concatenation.
pub proof fn lemma_matching_add(a: Seq<Val>, b: Seq<Val>, q: Seq<char>)
    ensures
        matching(a + b, q) == matching(a, q) + matching(b, q),
    decreases b.len(),
{
    if b.len() == 0 {
        assert(a + b =~= a);
        assert(matching(a, q) + matching(b, q) =~= matching(a, q));
    } else {
        lemma_matching_add(a, b.drop_last(), q);
        assert((a + b).drop_last() =~= a + b.drop_last());
        assert((a + b).last() == b.last());
        if val_matches(b.last(), q) {
            assert(matching(a, q) + matching(b.drop_last(), q).push(b.last()) =~= (matching(a, q)
                + matching(b.drop_last(), q)).push(b.last()));
        }
    }
}

/// Filtering the concatenation of the nodes gives the concatenation of the
/// nodes filtered one by one: every strategy finds the same documents in
/// the same order.
pub proof fn lemma_matching_flatten(nodes: Seq<Seq<Val>>, q: Seq<char>)
    ensures
        matching(nodes.flatten(), q) == matching_nodes(nodes, q).flatten(),
    decreases nodes.len(),
{
    if nodes.len() > 0 {
        let init = nodes.drop_last();
        lemma_matching_flatten(init, q);
        assert(init.push(nodes.last()) =~= nodes);
        init.lemma_flatten_push(nodes.last());
        lemma_matching_add(init.flatten(), nodes.last(), q);
        let m = matching_nodes(nodes, q);
        assert(matching_nodes(init, q).push(matching(nodes.last(), q)) =~= m);
        matching_nodes(init, q).lemma_flatten_push(matching(nodes.last(), q));
    }
}

/// Relies on rayon::current_num_threads: the number of threads of the
/// current pool, at least one.
#[verifier::external_body]
pub fn get_optimal_node_count() -> (r: usize)
    ensures
        r >= 1,
{
    rayon::current_num_threads()
}

/// Splits `items` into `num_nodes` contiguous nodes whose sizes differ by at
/// most one; with `num_nodes == 0`, into as many nodes as the thread pool
/// has threads.
pub fn split_nodes(items: Vec<Document>, num_nodes: usize) -> (r: Vec<Vec<Document>>)
    ensures
        num_nodes > 0 ==> r.len() == num_nodes,
        r.len() >= 1,
        nodes_view(r@).flatten() == docs_view(items@),
        forall|i: int|
            0 <= i < r.len() ==> #[trigger] r@[i].len() == node_size(
                items.len() as int,
                r.len() as int,
                i,
            ),
{
    let p = if num_nodes == 0 {
        get_optimal_node_count()
    } else {
        num_nodes
    };
    let n = items.len();
    let base = n / p;
    let extra = n % p;
    let mut rest = items;
    let mut r: Vec<Vec<Document>> = Vec::new();
    let mut start: usize = 0;
    let mut k: usize = 0;
    proof {
        lemma_docs_view(items@);
    }
    while k < p
        invariant
            p >= 1,
            base == n / p,
            extra == n % p,
            n == items.len(),
            k <= p,
            r.len() == k,
            start == k * base + if k < extra {
                k as int
            } else {
                extra as int
            },
            start <= n,
            rest@ == items@.subrange(start as int, n as int),
            nodes_view(r@).flatten() == docs_view(items@.subrange(0, start as int)),
            forall|i: int| 0 <= i < k ==> #[trigger] r@[i].len() == node_size(n as int, p as int, i),
        decreases p - k,
    {
        proof {
            assert(n == base * p + extra) by (nonlinear_arith)
                requires
                    base == n / p,
                    extra == n % p,
                    p >= 1,
            ;
            assert(extra > 0 ==> base + 1 <= n) by (nonlinear_arith)
                requires
                    n == base * p + extra,
                    p >= 1,
            ;
        }
        let size = if k < extra {
            base + 1
        } else {
            base
        };
        proof {
            assert(start + size <= n) by (nonlinear_arith)
                requires
                    n == base * p + extra,
                    start == k * base + if k < extra {
                        k as int
                    } else {
                        extra as int
                    },
                    size == if k < extra {
                        base + 1
                    } else {
                        base as int
                    },
                    k < p,
                    extra < p,
            ;
        }
        let tail = rest.split_off(size);
        let ghost node = rest@;
        let ghost before = r@;
        r.push(rest);
        rest = tail;
        proof {
            assert(node == items@.subrange(start as int, start + size));
            assert(nodes_view(r@) =~= nodes_view(before).push(docs_view(node)));
            nodes_view(before).lemma_flatten_push(docs_view(node));
            lemma_docs_view(items@.subrange(0, start as int));
            lemma_docs_view(items@.subrange(0, start + size));
            lemma_docs_view(node);
            assert(docs_view(items@.subrange(0, start + size)) =~= docs_view(
                items@.subrange(0, start as int),
            ) + docs_view(node));
            assert((k + 1) * base == k * base + base) by (nonlinear_arith);
        }
        start = start + size;
        k = k + 1;
    }
    proof {
        assert(n == base * p + extra) by (nonlinear_arith)
            requires
                base == n / p,
                extra == n % p,
                p >= 1,
        ;
        assert(start == p * base + extra);
        assert(p * base == base * p) by (nonlinear_arith);
        assert(items@.subrange(0, n as int) =~= items@);
    }
    r
}

/// The documents of `node` that match `query`, in order.
pub fn search_node(node: &Vec<Document>, query: &str) -> (r: Vec<Document>)
    ensures
        docs_view(r@) == matching(docs_view(node@), query@),
{
    let ghost vs = docs_view(node@);
    proof {
        lemma_docs_view(node@);
    }
    let mut r: Vec<Document> = Vec::new();
    let mut i: usize = 0;
    while i < node.len()
        invariant
            i <= node.len(),
            vs == docs_view(node@),
            vs.len() == node.len(),
            forall|k: int| 0 <= k < node.len() ==> #[trigger] vs[k] == node@[k]@,
            docs_view(r@) == matching(vs.subrange(0, i as int), query@),
        decreases node.len() - i,
    {
        proof {
            assert(vs.subrange(0, i + 1).drop_last() =~= vs.subrange(0, i as int));
        }
        if search_in_json_value(&node[i], query) {
            let d = node[i].copy();
            proof {
                lemma_docs_view_push(r@, d);
            }
            r.push(d);
        }
        i = i + 1;
    }
    proof {
        assert(vs.subrange(0, node.len() as int) =~= vs);
    }
    r
}

/// Appends copies of `src` to `dst`.
fn append_copies(dst: &mut Vec<Document>, src: &Vec<Document>)
    ensures
        docs_view(final(dst)@) == docs_view(old(dst)@) + docs_view(src@),
{
    proof {
        lemma_docs_view(src@);
    }
    let ghost start = docs_view(dst@);
    let mut i: usize = 0;
    while i < src.len()
        invariant
            i <= src.len(),
            docs_view(src@).len() == src.len(),
            forall|k: int| 0 <= k < src.len() ==> #[trigger] docs_view(src@)[k] == src@[k]@,
            start == docs_view(old(dst)@),
            docs_view(dst@) == start + docs_view(src@).subrange(0, i as int),
        decreases src.len() - i,
    {
        let d = src[i].copy();
        proof {
            lemma_docs_view_push(dst@, d);
            assert(docs_view(src@).subrange(0, i + 1) =~= docs_view(src@).subrange(0, i as int).push(d@));
            assert(start + docs_view(src@).subrange(0, i + 1) =~= (start + docs_view(src@).subrange(0, i as int)).push(d@));
        }
        dst.push(d);
        i = i + 1;
    }
    proof {
        assert(docs_view(src@).subrange(0, src.len() as int) =~= docs_view(src@));
    }
}

/// Concatenates the per-node results in node order.
fn concat_results(parts: &Vec<Vec<Document>>) -> (r: Vec<Document>)
    ensures
        docs_view(r@) == nodes_view(parts@).flatten(),
{
    let mut r: Vec<Document> = Vec::new();
    let mut i: usize = 0;
    while i < parts.len()
        invariant
            i <= parts.len(),
            docs_view(r@) == nodes_view(parts@.subrange(0, i as int)).flatten(),
        decreases parts.len() - i,
    {
        append_copies(&mut r, &parts[i]);
        proof {
            assert(nodes_view(parts@.subrange(0, i + 1)) =~= nodes_view(parts@.subrange(0, i as int)).push(docs_view(parts@[i as int]@)));
            nodes_view(parts@.subrange(0, i as int)).lemma_flatten_push(docs_view(parts@[i as int]@));
        }
        i = i + 1;
    }
    proof {
        assert(parts@.subrange(0, parts.len() as int) =~= parts@);
    }
    r
}

/// Centralized search: the nodes put back into one sequence, then filtered.
pub fn centralized_search(nodes: &Vec<Vec<Document>>, query: &str) -> (r: Vec<Document>)
    ensures
        docs_view(r@) == matching(nodes_view(nodes@).flatten(), query@),
{
    let all = concat_results(nodes);
    search_node(&all, query)
}

/// Sequential multi-node search: each node filtered in turn, the results
/// concatenated in node order.
pub fn sequential_search(nodes: &Vec<Vec<Document>>, query: &str) -> (r: Vec<Document>)
    ensures
        docs_view(r@) == matching_nodes(nodes_view(nodes@), query@).flatten(),
{
    let mut r: Vec<Document> = Vec::new();
    let mut i: usize = 0;
    while i < nodes.len()
        invariant
            i <= nodes.len(),
            docs_view(r@) == matching_nodes(nodes_view(nodes@.subrange(0, i as int)), query@).flatten(),
        decreases nodes.len() - i,
    {
        let found = search_node(&nodes[i], query);
        append_copies(&mut r, &found);
        proof {
            let before = matching_nodes(nodes_view(nodes@.subrange(0, i as int)), query@);
            assert(matching_nodes(nodes_view(nodes@.subrange(0, i + 1)), query@) =~= before.push(docs_view(found@)));
            before.lemma_flatten_push(docs_view(found@));
        }
        i = i + 1;
    }
    proof {
        assert(nodes@.subrange(0, nodes.len() as int) =~= nodes@);
    }
    r
}

/// Relies on rayon's indexed parallel iterator: `par_iter().map(f).collect()`
/// yields `f` of each node, in node order; `f` is `search_node`.
#[verifier::external_body]
fn search_nodes_in_parallel(nodes: &Vec<Vec<Document>>, query: &str) -> (r: Vec<Vec<Document>>)
    ensures
        r.len() == nodes.len(),
        forall|i: int|
            0 <= i < nodes.len() ==> docs_view(#[trigger] r@[i]@) == matching(docs_view(nodes@[i]@), query@),
{
    nodes.par_iter().map(|n| search_node(n, query)).collect()
}

/// Parallel multi-node search: every node filtered concurrently, the results
/// merged back in node order.
pub fn parallel_search(nodes: &Vec<Vec<Document>>, query: &str) -> (r: Vec<Document>)
    ensures
        docs_view(r@) == matching_nodes(nodes_view(nodes@), query@).flatten(),
{
    let parts = search_nodes_in_parallel(nodes, query);
    let r = concat_results(&parts);
    proof {
        assert(nodes_view(parts@) =~= matching_nodes(nodes_view(nodes@), query@));
    }
    r
}

/// Whether the nodes hold fewer than `PARALLEL_THRESHOLD` documents in all.
fn below_threshold(nodes: &Vec<Vec<Document>>) -> (r: bool)
    ensures
        r == (nodes_view(nodes@).flatten().len() < PARALLEL_THRESHOLD),
{
    let mut total: usize = 0;
    let mut i: usize = 0;
    while i < nodes.len()
        invariant
            i <= nodes.len(),
            total < PARALLEL_THRESHOLD,
            total == nodes_view(nodes@.subrange(0, i as int)).flatten().len(),
        decreases nodes.len() - i,
    {
        proof {
            lemma_docs_view(nodes@[i as int]@);
            assert(nodes_view(nodes@.subrange(0, i + 1)) =~= nodes_view(nodes@.subrange(0, i as int)).push(docs_view(nodes@[i as int]@)));
            nodes_view(nodes@.subrange(0, i as int)).lemma_flatten_push(docs_view(nodes@[i as int]@));
        }
        if nodes[i].len() >= PARALLEL_THRESHOLD - total {
            proof {
                lemma_flatten_prefix_len(nodes_view(nodes@), i as int + 1);
                assert(nodes@.subrange(0, i + 1) == nodes@.subrange(0, nodes.len() as int).subrange(0, i + 1));
                assert(nodes_view(nodes@.subrange(0, i + 1)) =~= nodes_view(nodes@).subrange(0, i + 1));
            }
            return false;
        }
        total = total + nodes[i].len();
        i = i + 1;
    }
    proof {
        assert(nodes@.subrange(0, nodes.len() as int) =~= nodes@);
    }
    true
}

/// A prefix of the nodes holds no more documents than all of them.
proof fn lemma_flatten_prefix_len(nodes: Seq<Seq<Val>>, k: int)
    requires
        0 <= k <= nodes.len(),
    ensures
        nodes.subrange(0, k).flatten().len() <= nodes.flatten().len(),
    decreases nodes.len(),
{
    if k < nodes.len() {
        let init = nodes.drop_last();
        assert(init.push(nodes.last()) =~= nodes);
        init.lemma_flatten_push(nodes.last());
        assert(init.subrange(0, k) =~= nodes.subrange(0, k));
        lemma_flatten_prefix_len(init, k);
    } else {
        assert(nodes.subrange(0, k) =~= nodes);
    }
}

/// Smart search: sequential below `PARALLEL_THRESHOLD` documents in all,
/// parallel from it on; either way the same result.
pub fn smart_search(nodes: &Vec<Vec<Document>>, query: &str) -> (r: Vec<Document>)
    ensures
        docs_view(r@) == matching_nodes(nodes_view(nodes@), query@).flatten(),
{
    if below_threshold(nodes) {
        sequential_search(nodes, query)
    } else {
        parallel_search(nodes, query)
    }
}

} // verus!
