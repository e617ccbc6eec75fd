//! Windows over a collection for pagination.
use vstd::prelude::*;
use crate::document::{Document, Val, docs_view, lemma_docs_view, lemma_docs_view_push};

verus! {

/// The documents of `s` at positions `[offset, offset + len)`, as far as
/// `s` reaches.
pub open spec fn window(s: Seq<Val>, offset: int, len: int) -> Seq<Val> {
    let lo = if offset < s.len() {
        offset
    } else {
        s.len() as int
    };
    let hi = if offset + len < s.len() {
        offset + len
    } else {
        s.len() as int
    };
    s.subrange(lo, hi)
}

/// Number of pages of `size` documents that `n` documents fill; none when
/// pages are empty.
pub open spec fn page_count(n: int, size: int) -> int {
    if size <= 0 {
        0
    } else {
        n / size + if n % size == 0 {
            0int
        } else {
            1int
        }
    }
}

/// `ceil(n / size)` pages, or 0 for empty pages.
pub fn total_pages(n: usize, size: usize) -> (r: usize)
    ensures
        r == page_count(n as int, size as int),
{
    if size == 0 {
        0
    } else if n % size == 0 {
        n / size
    } else {
        proof {
            vstd::arithmetic::div_mod::lemma_fundamental_div_mod(n as int, size as int);
            assert(n / size < n) by (nonlinear_arith)
                requires
                    size >= 1,
                    n % size != 0,
                    n == size * (n / size) + n % size,
            ;
        }
        n / size + 1
    }
}

/// Where page `page` (counted from one; zero counts as one) of `size`
/// documents starts, capped at `n`.
pub fn page_offset(page: usize, size: usize, n: usize) -> (r: usize)
    ensures
        r == if (if page > 0 {
            page - 1
        } else {
            0
        }) * size < n {
            (if page > 0 {
                page - 1
            } else {
                0
            }) * size
        } else {
            n as int
        },
{
    let skip: usize = if page > 0 {
        page - 1
    } else {
        0
    };
    if size == 0 {
        proof {
            assert(skip * size == 0) by (nonlinear_arith)
                requires
                    size == 0,
            ;
        }
        if n > 0 {
            0
        } else {
            n
        }
    } else if skip > n / size {
        proof {
            vstd::arithmetic::div_mod::lemma_fundamental_div_mod(n as int, size as int);
            assert(skip * size >= n) by (nonlinear_arith)
                requires
                    size >= 1,
                    skip > n / size,
                    n == size * (n / size) + n % size,
                    n % size < size,
            ;
        }
        n
    } else {
        proof {
            vstd::arithmetic::div_mod::lemma_fundamental_div_mod(n as int, size as int);
            assert(skip * size <= n) by (nonlinear_arith)
                requires
                    size >= 1,
                    skip <= n / size,
                    n == size * (n / size) + n % size,
                    n % size >= 0,
            ;
        }
        if skip * size < n {
            skip * size
        } else {
            n
        }
    }
}

/// Copies of the documents of `data` at positions `[offset, offset + len)`,
/// as far as `data` reaches.
pub fn copy_window(data: &Vec<Document>, offset: usize, len: usize) -> (r: Vec<Document>)
    ensures
        docs_view(r@) == window(docs_view(data@), offset as int, len as int),
{
    proof {
        lemma_docs_view(data@);
    }
    let ghost s = docs_view(data@);
    let n = data.len();
    let lo = if offset < n {
        offset
    } else {
        n
    };
    let hi = if len < n - lo {
        lo + len
    } else {
        n
    };
    let mut r: Vec<Document> = Vec::new();
    let mut i: usize = lo;
    while i < hi
        invariant
            lo <= i <= hi <= n,
            n == data.len(),
            s == docs_view(data@),
            s.len() == n,
            forall|k: int| 0 <= k < n ==> #[trigger] s[k] == data@[k]@,
            docs_view(r@) == s.subrange(lo as int, i as int),
        decreases hi - i,
    {
        let d = data[i].copy();
        proof {
            lemma_docs_view_push(r@, d);
            assert(s.subrange(lo as int, i + 1) =~= s.subrange(lo as int, i as int).push(d@));
        }
        r.push(d);
        i = i + 1;
    }
    r
}

} // verus!
