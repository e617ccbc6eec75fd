//! The `sarychdb://` lookup URL: credentials, collection, operation and
//! an optional percent-encoded query.
use vstd::prelude::*;

verus! {

/// A parsed lookup URL.
pub struct SarychProtocol {
    pub username: String,
    pub password: String,
    pub database: String,
    pub operation: String,
    pub query: Option<String>,
}

/// The protocol front end.
pub struct SarychServer {}

/// What percent-decoding `s` as UTF-8 gives, or nothing when the decoded
/// bytes are not UTF-8.
pub uninterp spec fn url_decoded(s: Seq<char>) -> Option<Seq<char>>;

/// Relies on `urlencoding::decode`: a deterministic percent-decoding that
/// fails only on invalid UTF-8, and returns text without `%` unchanged.
#[verifier::external_body]
fn decode_component(s: &str) -> (r: Option<String>)
    ensures
        match r {
            Some(d) => url_decoded(s@) == Some(d@),
            None => url_decoded(s@) is None,
        },
        (forall|i: int| 0 <= i < s@.len() ==> s@[i] != '%') ==> (r is Some && r.unwrap()@ == s@),
{
    urlencoding::decode(s).ok().map(|d| d.into_owned())
}

/// The pieces of `s` between occurrences of `c`, as `str::split` gives them.
pub open spec fn split_on(s: Seq<char>, c: char) -> Seq<Seq<char>>
    decreases s.len(),
{
    if s.len() == 0 {
        seq![Seq::<char>::empty()]
    } else {
        let p = split_on(s.drop_last(), c);
        if s.last() == c {
            p.push(Seq::empty())
        } else {
            p.update(p.len() - 1, p.last().push(s.last()))
        }
    }
}

/// Index of the first `c` in `s`, or -1.
pub open spec fn index_of(s: Seq<char>, c: char) -> int
    decreases s.len(),
{
    if s.len() == 0 {
        -1
    } else if index_of(s.drop_last(), c) >= 0 {
        index_of(s.drop_last(), c)
    } else if s.last() == c {
        s.len() - 1
    } else {
        -1
    }
}

/// The scheme every lookup URL starts with.
pub open spec fn scheme() -> Seq<char> {
    "sarychdb://"@
}

/// The raw value of the first `query=` parameter among `params`.
pub open spec fn query_param(params: Seq<Seq<char>>) -> Option<Seq<char>>
    decreases params.len(),
{
    if params.len() == 0 {
        None
    } else {
        let p = params[0];
        let eq = index_of(p, '=');
        if eq >= 0 && p.subrange(0, eq) == "query"@ {
            Some(p.subrange(eq + 1, p.len() as int))
        } else {
            query_param(params.drop_first())
        }
    }
}

/// The parts of a lookup URL that precede its query string.
pub open spec fn main_part(rest: Seq<char>) -> Seq<char> {
    let q = index_of(rest, '?');
    if q >= 0 {
        rest.subrange(0, q)
    } else {
        rest
    }
}

/// The result of parsing `url`: the five fields, or the error message.
pub open spec fn parse_spec(url: Seq<char>) -> Result<(Seq<char>, Seq<char>, Seq<char>, Seq<char>, Option<Seq<char>>), Seq<char>> {
    if !(url.len() >= scheme().len() && url.subrange(0, scheme().len() as int) == scheme()) {
        Err("URL must start with sarychdb://"@)
    } else {
        let rest = url.subrange(scheme().len() as int, url.len() as int);
        let q = index_of(rest, '?');
        let parts = split_on(main_part(rest), '/');
        if parts.len() < 3 {
            Err("Invalid format. Use: sarychdb://username@password/database/operation"@)
        } else {
            let auth = split_on(parts[0], '@');
            if index_of(parts[0], '@') < 0 || auth.len() != 2 {
                Err("Invalid authentication format. Use: username@password"@)
            } else if auth[0].len() == 0 || auth[1].len() == 0 {
                Err("Username and password cannot be empty"@)
            } else {
                let raw = if q >= 0 {
                    query_param(split_on(rest.subrange(q + 1, rest.len() as int), '&'))
                } else {
                    None
                };
                match raw {
                    None => Ok((auth[0], auth[1], parts[1], parts[2], None)),
                    Some(v) => match url_decoded(v) {
                        Some(d) => Ok((auth[0], auth[1], parts[1], parts[2], Some(d))),
                        None => Err("Error decoding query"@),
                    },
                }
            }
        }
    }
}

/// The models of a sequence of strings.
pub open spec fn strings_view(v: Seq<String>) -> Seq<Seq<char>> {
    Seq::new(v.len(), |i: int| v[i]@)
}

/// Splits `s` at every `c`.
fn split_chars(s: &str, c: char) -> (r: Vec<String>)
    ensures
        strings_view(r@) == split_on(s@, c),
{
    let n = s.unicode_len();
    let mut r: Vec<String> = Vec::new();
    let mut start: usize = 0;
    let mut i: usize = 0;
    proof {
        assert(s@.subrange(0, 0) =~= Seq::<char>::empty());
        assert(strings_view(r@) =~= Seq::<Seq<char>>::empty());
        assert(strings_view(r@).push(s@.subrange(0, 0)) =~= seq![Seq::<char>::empty()]);
    }
    while i < n
        invariant
            n == s@.len(),
            start <= i <= n,
            strings_view(r@).push(s@.subrange(start as int, i as int)) == split_on(s@.subrange(0, i as int), c),
        decreases n - i,
    {
        let ghost before = strings_view(r@);
        proof {
            assert(s@.subrange(0, i + 1).drop_last() =~= s@.subrange(0, i as int));
            assert(s@.subrange(0, i + 1).last() == s@[i as int]);
        }
        if s.get_char(i) == c {
            let piece = String::from_str(s.substring_char(start, i));
            r.push(piece);
            proof {
                assert(strings_view(r@) =~= before.push(s@.subrange(start as int, i as int)));
                assert(s@.subrange((i + 1) as int, (i + 1) as int) =~= Seq::<char>::empty());
            }
            start = i + 1;
        } else {
            proof {
                assert(strings_view(r@) =~= before);
                assert(s@.subrange(start as int, i + 1) =~= s@.subrange(start as int, i as int).push(s@[i as int]));
                let p = split_on(s@.subrange(0, i as int), c);
                assert(p.update(p.len() - 1, p.last().push(s@[i as int])) =~= before.push(s@.subrange(start as int, i + 1)));
            }
        }
        i = i + 1;
    }
    let last = String::from_str(s.substring_char(start, n));
    let ghost before = strings_view(r@);
    r.push(last);
    proof {
        assert(strings_view(r@) =~= before.push(s@.subrange(start as int, n as int)));
        assert(s@.subrange(0, n as int) =~= s@);
    }
    r
}

/// Index of the first `c` in `s`.
fn find_char(s: &str, c: char) -> (r: Option<usize>)
    ensures
        index_of(s@, c) == match r {
            Some(i) => i as int,
            None => -1,
        },
        r matches Some(i) ==> i < s@.len(),
{
    let n = s.unicode_len();
    let mut i: usize = 0;
    while i < n
        invariant
            n == s@.len(),
            i <= n,
            index_of(s@.subrange(0, i as int), c) == -1,
        decreases n - i,
    {
        proof {
            assert(s@.subrange(0, i + 1).drop_last() =~= s@.subrange(0, i as int));
        }
        if s.get_char(i) == c {
            proof {
                lemma_index_of_prefix(s@, c, i as int + 1);
            }
            return Some(i);
        }
        i = i + 1;
    }
    proof {
        assert(s@.subrange(0, n as int) =~= s@);
    }
    None
}

/// A first occurrence found in a prefix is the first occurrence.
proof fn lemma_index_of_prefix(s: Seq<char>, c: char, k: int)
    requires
        0 <= k <= s.len(),
        index_of(s.subrange(0, k), c) >= 0,
    ensures
        index_of(s, c) == index_of(s.subrange(0, k), c),
    decreases s.len() - k,
{
    if k < s.len() {
        assert(s.subrange(0, k + 1).drop_last() =~= s.subrange(0, k));
        lemma_index_of_prefix(s, c, k + 1);
    } else {
        assert(s.subrange(0, k) =~= s);
    }
}

/// The raw value of the first `query=` parameter of `query_str`.
fn find_query_param(params: &Vec<String>) -> (r: Option<String>)
    ensures
        match r {
            Some(v) => query_param(strings_view(params@)) == Some(v@),
            None => query_param(strings_view(params@)) is None,
        },
{
    let ghost ps = strings_view(params@);
    let mut i: usize = 0;
    assert(ps.subrange(0, ps.len() as int) =~= ps);
    while i < params.len()
        invariant
            i <= params.len(),
            ps == strings_view(params@),
            query_param(ps) == query_param(ps.subrange(i as int, ps.len() as int)),
        decreases params.len() - i,
    {
        let p = params[i].as_str();
        let plen = p.unicode_len();
        let ghost rest = ps.subrange(i as int, ps.len() as int);
        proof {
            assert(rest[0] == p@);
            assert(rest.drop_first() =~= ps.subrange(i + 1, ps.len() as int));
        }
        match find_char(p, '=') {
            Some(eq) => {
                let key = String::from_str(p.substring_char(0, eq));
                proof {
                    reveal_strlit("query");
                }
                if key.eq(&String::from_str("query")) {
                    let value = String::from_str(p.substring_char(eq + 1, plen));
                    return Some(value);
                }
            },
            None => {},
        }
        i = i + 1;
    }
    None
}

impl SarychServer {
    /// Parses `sarychdb://username@password/database/operation?query=value`.
    /// The query is the first `query` parameter, percent-decoded.
    pub fn parse_sarych_url(url_str: &str) -> (r: Result<SarychProtocol, String>)
        ensures
            match parse_spec(url_str@) {
                Ok((u, p, d, o, q)) => r matches Ok(x) && x.username@ == u && x.password@ == p
                    && x.database@ == d && x.operation@ == o && match q {
                    Some(qv) => x.query matches Some(y) && y@ == qv,
                    None => x.query is None,
                },
                Err(m) => r matches Err(e) && e@ == m,
            },
    {
        let n = url_str.unicode_len();
        let scheme_len = "sarychdb://".unicode_len();
        proof {
            reveal_strlit("sarychdb://");
        }
        let starts = if n >= scheme_len {
            let head = String::from_str(url_str.substring_char(0, scheme_len));
            head.eq(&String::from_str("sarychdb://"))
        } else {
            false
        };
        if !starts {
            return Err(String::from_str("URL must start with sarychdb://"));
        }
        let rest = url_str.substring_char(scheme_len, n);
        let rest_len = rest.unicode_len();
        let qpos = find_char(rest, '?');
        let main = match qpos {
            Some(q) => rest.substring_char(0, q),
            None => rest,
        };
        let parts = split_chars(main, '/');
        if parts.len() < 3 {
            return Err(String::from_str("Invalid format. Use: sarychdb://username@password/database/operation"));
        }
        let auth_part = parts[0].as_str();
        let has_at = find_char(auth_part, '@').is_some();
        let auth = split_chars(auth_part, '@');
        proof {
            assert(strings_view(parts@)[0] == parts@[0]@);
        }
        if !has_at || auth.len() != 2 {
            return Err(String::from_str("Invalid authentication format. Use: username@password"));
        }
        proof {
            assert(strings_view(auth@)[0] == auth@[0]@);
            assert(strings_view(auth@)[1] == auth@[1]@);
            assert(strings_view(parts@)[1] == parts@[1]@);
            assert(strings_view(parts@)[2] == parts@[2]@);
        }
        if auth[0].unicode_len() == 0 || auth[1].unicode_len() == 0 {
            return Err(String::from_str("Username and password cannot be empty"));
        }
        let raw = match qpos {
            Some(q) => {
                let params = split_chars(rest.substring_char(q + 1, rest_len), '&');
                find_query_param(&params)
            },
            None => None,
        };
        let query = match raw {
            Some(v) => match decode_component(v.as_str()) {
                Some(d) => Some(d),
                None => {
                    return Err(String::from_str("Error decoding query"));
                },
            },
            None => None,
        };
        Ok(SarychProtocol {
            username: auth[0].clone(),
            password: auth[1].clone(),
            database: parts[1].clone(),
            operation: parts[2].clone(),
            query,
        })
    }
}

} // verus!
