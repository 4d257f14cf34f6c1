//! AWS Signature Version 4: canonical requests, signing keys and signatures.

use vstd::prelude::*;
use vstd::utf8::encode_utf8;
use vstd::relations::{sorted_by, total_ordering};
use crate::auth::{AuthError, AuthErrorView, AuthResult};
use crate::digest::{hex_encode, hmac_sha256, hmac_sha256_tag, sha256_digest, sha256_hex};
use crate::keyed::{sorted_seq_of, strictly_sorted, lemma_sorted_seq_of};
use crate::text::{
    ascii_lower_seq, chars_of, find, find_from, is_prefix, join_strings, join_with, lemma_lex_irreflexive,
    lemma_lex_total, lemma_lex_transitive, lemma_find_from_bounds, lex_less, lex_lt, slice_range, split_char,
    split_on_char, starts_with, string_from_chars, to_ascii_lower_str, trim_ws, trim_ws_str, views,
};
use crate::time::{amz_date, amz_date_text, Timestamp};

verus! {

/// Headers by lower-cased name; of several headers with one name, the last counts.
pub open spec fn lower_map(headers: Seq<(String, String)>) -> Map<Seq<char>, Seq<char>>
    decreases headers.len(),
{
    if headers.len() == 0 {
        Map::empty()
    } else {
        lower_map(headers.drop_last()).insert(ascii_lower_seq(headers.last().0@), headers.last().1@)
    }
}

/// `a` is `b` or comes before it.
pub open spec fn lex_le(a: Seq<char>, b: Seq<char>) -> bool {
    a == b || lex_lt(a, b)
}

/// The order of query parameters: by name, then by value.
pub open spec fn pair_leq(a: (Seq<char>, Seq<char>), b: (Seq<char>, Seq<char>)) -> bool {
    lex_lt(a.0, b.0) || (a.0 == b.0 && lex_le(a.1, b.1))
}

/// `pair_leq` as a relation.
pub open spec fn query_order() -> spec_fn((Seq<char>, Seq<char>), (Seq<char>, Seq<char>)) -> bool {
    |a: (Seq<char>, Seq<char>), b: (Seq<char>, Seq<char>)| pair_leq(a, b)
}

/// The order of query parameters is a total order.
pub proof fn lemma_query_order_total()
    ensures
        total_ordering(query_order()),
{
    let r = query_order();
    assert forall|x: (Seq<char>, Seq<char>)| #[trigger] r(x, x) by {}
    assert forall|x: (Seq<char>, Seq<char>), y: (Seq<char>, Seq<char>)| #[trigger] r(x, y) && #[trigger] r(y, x) implies x == y by {
        if lex_lt(x.0, y.0) {
            if lex_lt(y.0, x.0) {
                lemma_lex_transitive(x.0, y.0, x.0);
            }
            lemma_lex_irreflexive(x.0);
        } else if lex_lt(y.0, x.0) {
            lemma_lex_irreflexive(x.0);
        } else {
            if lex_lt(x.1, y.1) && lex_lt(y.1, x.1) {
                lemma_lex_transitive(x.1, y.1, x.1);
                lemma_lex_irreflexive(x.1);
            }
            if lex_lt(x.1, y.1) && x.1 == y.1 {
                lemma_lex_irreflexive(x.1);
            }
        }
    }
    assert forall|x: (Seq<char>, Seq<char>), y: (Seq<char>, Seq<char>), z: (Seq<char>, Seq<char>)|
        #[trigger] r(x, y) && #[trigger] r(y, z) implies r(x, z) by {
        if lex_lt(x.0, y.0) && lex_lt(y.0, z.0) {
            lemma_lex_transitive(x.0, y.0, z.0);
        }
        if lex_lt(x.1, y.1) && lex_lt(y.1, z.1) {
            lemma_lex_transitive(x.1, y.1, z.1);
        }
    }
    assert forall|x: (Seq<char>, Seq<char>), y: (Seq<char>, Seq<char>)| #[trigger] r(x, y) || #[trigger] r(y, x) by {
        if x.0 != y.0 {
            lemma_lex_total(x.0, y.0);
        } else if x.1 != y.1 {
            lemma_lex_total(x.1, y.1);
        }
    }
}

/// The views of a sequence of string pairs.
pub open spec fn pair_views(v: Seq<(String, String)>) -> Seq<(Seq<char>, Seq<char>)> {
    v.map_values(|p: (String, String)| (p.0@, p.1@))
}

/// The value of header `name` (lower case), if the request has it.
fn header_value(headers: &Vec<(String, String)>, name: &String) -> (r: Option<String>)
    ensures
        match r {
            Some(v) => lower_map(headers@).dom().contains(name@) && v@ == lower_map(headers@)[name@],
            None => !lower_map(headers@).dom().contains(name@),
        },
{
    let mut found: Option<String> = None;
    let mut i: usize = 0;
    assert(headers@.subrange(0, 0) =~= Seq::<(String, String)>::empty());
    while i < headers.len()
        invariant
            i <= headers@.len(),
            match found {
                Some(v) => lower_map(headers@.subrange(0, i as int)).dom().contains(name@)
                    && v@ == lower_map(headers@.subrange(0, i as int))[name@],
                None => !lower_map(headers@.subrange(0, i as int)).dom().contains(name@),
            },
        decreases headers.len() - i,
    {
        assert(headers@.subrange(0, i + 1).drop_last() =~= headers@.subrange(0, i as int));
        let lowered = to_ascii_lower_str(headers[i].0.as_str());
        if lowered == *name {
            found = Some(headers[i].1.clone());
        }
        i = i + 1;
    }
    assert(headers@.subrange(0, headers@.len() as int) =~= headers@);
    found
}

/// Inserts `x` into an ascending list of distinct strings, unless it is there.
fn insert_sorted_unique(v: &mut Vec<String>, x: String)
    requires
        strictly_sorted(views(old(v)@)),
    ensures
        strictly_sorted(views(final(v)@)),
        views(final(v)@).to_set() == views(old(v)@).to_set().insert(x@),
{
    let xc = chars_of(x.as_str());
    let mut i: usize = 0;
    while i < v.len()
        invariant
            v@ == old(v)@,
            strictly_sorted(views(v@)),
            xc@ == x@,
            i <= v@.len(),
            forall|j: int| 0 <= j < i ==> lex_lt((#[trigger] v@[j])@, x@),
        decreases v.len() - i,
    {
        let vc = chars_of(v[i].as_str());
        if !lex_less(vc.as_slice(), xc.as_slice()) {
            if !lex_less(xc.as_slice(), vc.as_slice()) {
                proof {
                    if v@[i as int]@ != x@ {
                        lemma_lex_total(v@[i as int]@, x@);
                    }
                    assert(views(v@)[i as int] == x@);
                    assert(views(v@).to_set() =~= views(v@).to_set().insert(x@));
                }
                return;
            }
            let ghost old_v = views(v@);
            v.insert(i, x);
            proof {
                let nv = views(v@);
                assert(nv =~= old_v.insert(i as int, x@));
                assert forall|a: int, b: int| 0 <= a < b < nv.len() implies lex_lt(#[trigger] nv[a], #[trigger] nv[b]) by {
                    if a < i && b < i {
                        assert(nv[a] == old_v[a] && nv[b] == old_v[b]);
                    } else if a < i && b == i {
                        assert(nv[a] == old_v[a] && v@[a]@ == old_v[a]);
                    } else if a < i {
                        assert(nv[a] == old_v[a] && nv[b] == old_v[b - 1]);
                    } else if a == i {
                        assert(nv[b] == old_v[b - 1]);
                        if b - 1 > i {
                            assert(lex_lt(old_v[i as int], old_v[b - 1]));
                            lemma_lex_transitive(x@, old_v[i as int], old_v[b - 1]);
                        }
                    } else {
                        assert(nv[a] == old_v[a - 1] && nv[b] == old_v[b - 1]);
                    }
                }
                assert forall|y: Seq<char>| nv.to_set().contains(y) <==> old_v.to_set().insert(x@).contains(y) by {
                    if nv.to_set().contains(y) {
                        let a = choose|a: int| 0 <= a < nv.len() && nv[a] == y;
                        if a < i {
                            assert(old_v[a] == y);
                        } else if a > i {
                            assert(old_v[a - 1] == y);
                        }
                    }
                    if old_v.to_set().contains(y) {
                        let a = choose|a: int| 0 <= a < old_v.len() && old_v[a] == y;
                        if a < i {
                            assert(nv[a] == y);
                        } else {
                            assert(nv[a + 1] == y);
                        }
                    }
                    if y == x@ {
                        assert(nv[i as int] == y);
                    }
                }
                assert(nv.to_set() =~= old_v.to_set().insert(x@));
            }
            return;
        }
        i = i + 1;
    }
    let ghost old_v = views(v@);
    v.push(x);
    proof {
        let nv = views(v@);
        assert(nv =~= old_v.push(x@));
        assert forall|a: int, b: int| 0 <= a < b < nv.len() implies lex_lt(#[trigger] nv[a], #[trigger] nv[b]) by {
            if b < old_v.len() {
                assert(nv[a] == old_v[a] && nv[b] == old_v[b]);
            } else {
                assert(nv[a] == old_v[a] && v@[a]@ == old_v[a]);
            }
        }
        assert forall|y: Seq<char>| nv.to_set().contains(y) <==> old_v.to_set().insert(x@).contains(y) by {
            if nv.to_set().contains(y) {
                let a = choose|a: int| 0 <= a < nv.len() && nv[a] == y;
                if a < old_v.len() {
                    assert(old_v[a] == y);
                }
            }
            if old_v.to_set().contains(y) {
                let a = choose|a: int| 0 <= a < old_v.len() && old_v[a] == y;
                assert(nv[a] == y);
            }
            if y == x@ {
                assert(nv[old_v.len() as int] == y);
            }
        }
        assert(nv.to_set() =~= old_v.to_set().insert(x@));
    }
}

/// The lower-cased names of the headers, ascending, each once.
fn signed_header_names(headers: &Vec<(String, String)>) -> (names: Vec<String>)
    ensures
        views(names@) == sorted_seq_of(lower_map(headers@).dom()),
        views(names@).to_set() == lower_map(headers@).dom(),
{
    let mut names: Vec<String> = Vec::new();
    let mut i: usize = 0;
    assert(headers@.subrange(0, 0) =~= Seq::<(String, String)>::empty());
    assert(views(names@).to_set() =~= lower_map(Seq::<(String, String)>::empty()).dom());
    while i < headers.len()
        invariant
            i <= headers@.len(),
            strictly_sorted(views(names@)),
            views(names@).to_set() == lower_map(headers@.subrange(0, i as int)).dom(),
        decreases headers.len() - i,
    {
        assert(headers@.subrange(0, i + 1).drop_last() =~= headers@.subrange(0, i as int));
        let lowered = to_ascii_lower_str(headers[i].0.as_str());
        insert_sorted_unique(&mut names, lowered);
        proof {
            assert(lower_map(headers@.subrange(0, i + 1)).dom()
                =~= lower_map(headers@.subrange(0, i as int)).dom().insert(ascii_lower_seq(headers@[i as int].0@)));
        }
        i = i + 1;
    }
    assert(headers@.subrange(0, headers@.len() as int) =~= headers@);
    proof { lemma_sorted_seq_of(views(names@), lower_map(headers@).dom()); }
    names
}

/// The canonical header lines for the named headers: `name:value` with the value
/// trimmed, each ended by a line feed.
pub open spec fn header_lines(names: Seq<Seq<char>>, m: Map<Seq<char>, Seq<char>>) -> Seq<char>
    decreases names.len(),
{
    if names.len() == 0 {
        Seq::empty()
    } else {
        header_lines(names.drop_last(), m) + names.last() + ":"@ + trim_ws(m[names.last()]) + "\n"@
    }
}

/// The first of `names` that `m` lacks.
pub open spec fn first_absent(names: Seq<Seq<char>>, m: Map<Seq<char>, Seq<char>>) -> Option<Seq<char>>
    decreases names.len(),
{
    if names.len() == 0 {
        None
    } else {
        match first_absent(names.drop_last(), m) {
            Some(n) => Some(n),
            None => if m.dom().contains(names.last()) { None } else { Some(names.last()) },
        }
    }
}

/// The canonical header lines of the named headers, or the first name the request lacks.
fn canonical_headers(headers: &Vec<(String, String)>, names: &Vec<String>) -> (r: Result<String, String>)
    ensures
        match first_absent(views(names@), lower_map(headers@)) {
            Some(n) => r matches Err(e) && e@ == n,
            None => r matches Ok(s) && s@ == header_lines(views(names@), lower_map(headers@)),
        },
{
    let ghost m = lower_map(headers@);
    let mut out = String::new();
    let mut i: usize = 0;
    assert(views(names@).subrange(0, 0) =~= Seq::<Seq<char>>::empty());
    while i < names.len()
        invariant
            m == lower_map(headers@),
            i <= names@.len(),
            first_absent(views(names@).subrange(0, i as int), m) is None,
            out@ == header_lines(views(names@).subrange(0, i as int), m),
        decreases names.len() - i,
    {
        let ghost pre = views(names@).subrange(0, i as int);
        let ghost post = views(names@).subrange(0, i + 1);
        assert(post.drop_last() =~= pre);
        assert(post.last() == names@[i as int]@);
        match header_value(headers, &names[i]) {
            Some(v) => {
                out.append(names[i].as_str());
                out.append(":");
                let t = trim_ws_str(v.as_str());
                out.append(t.as_str());
                out.append("\n");
                assert(out@ =~= header_lines(post, m));
            },
            None => {
                proof { lemma_first_absent_extends(views(names@), m, i + 1); }
                return Err(names[i].clone());
            },
        }
        i = i + 1;
    }
    assert(views(names@).subrange(0, names@.len() as int) =~= views(names@));
    Ok(out)
}

/// Once a prefix of the names has an absent one, so does the whole list.
proof fn lemma_first_absent_extends(names: Seq<Seq<char>>, m: Map<Seq<char>, Seq<char>>, k: int)
    requires
        0 <= k <= names.len(),
        first_absent(names.subrange(0, k), m) is Some,
    ensures
        first_absent(names, m) == first_absent(names.subrange(0, k), m),
    decreases names.len() - k,
{
    if k < names.len() {
        assert(names.subrange(0, k + 1).drop_last() =~= names.subrange(0, k));
        lemma_first_absent_extends(names, m, k + 1);
    } else {
        assert(names.subrange(0, k) =~= names);
    }
}

/// The name and value of a query parameter: split at the first `=`, the value empty
/// when there is none.
pub open spec fn query_pair(piece: Seq<char>) -> (Seq<char>, Seq<char>) {
    match find_from(piece, seq!['='], 0) {
        Some(i) => (piece.subrange(0, i), piece.subrange(i + 1, piece.len() as int)),
        None => (piece, Seq::empty()),
    }
}

/// The parameters of the non-empty pieces of a query, in order.
pub open spec fn pairs_of(pieces: Seq<Seq<char>>) -> Seq<(Seq<char>, Seq<char>)>
    decreases pieces.len(),
{
    if pieces.len() == 0 {
        Seq::empty()
    } else if pieces.last().len() == 0 {
        pairs_of(pieces.drop_last())
    } else {
        pairs_of(pieces.drop_last()).push(query_pair(pieces.last()))
    }
}

/// A parameter written back as `name=value`.
pub open spec fn render_pair(p: (Seq<char>, Seq<char>)) -> Seq<char> {
    p.0 + seq!['='] + p.1
}

/// The canonical query string: the parameters sorted by name and then value,
/// each as `name=value`, joined by `&`.
pub open spec fn canonical_query(query: Seq<char>) -> Seq<char> {
    join_with(
        pairs_of(split_char(query, '&')).sort_by(query_order()).map_values(|p: (Seq<char>, Seq<char>)| render_pair(p)),
        seq!['&'],
    )
}

/// A query parameter split at its first `=`.
fn split_pair(piece: &String) -> (r: (String, String))
    ensures
        (r.0@, r.1@) == query_pair(piece@),
{
    let pc = chars_of(piece.as_str());
    let eq: Vec<char> = vec!['='];
    assert(eq@ =~= seq!['=']);
    match find(pc.as_slice(), eq.as_slice(), 0) {
        Some(i) => {
            proof { lemma_find_from_bounds(pc@, eq@, 0); }
            let name = string_from_chars(slice_range(pc.as_slice(), 0, i));
            let value = string_from_chars(slice_range(pc.as_slice(), i + 1, pc.len()));
            (name, value)
        },
        None => {
            assert(pc@ == piece@);
            (piece.clone(), String::new())
        },
    }
}

/// The parameters of a query string, in order.
fn query_pairs(query: &str) -> (v: Vec<(String, String)>)
    ensures
        pair_views(v@) == pairs_of(split_char(query@, '&')),
{
    let qc = chars_of(query);
    let pieces = split_on_char(qc.as_slice(), '&');
    let mut v: Vec<(String, String)> = Vec::new();
    let mut i: usize = 0;
    assert(views(pieces@).subrange(0, 0) =~= Seq::<Seq<char>>::empty());
    while i < pieces.len()
        invariant
            i <= pieces@.len(),
            pair_views(v@) == pairs_of(views(pieces@).subrange(0, i as int)),
        decreases pieces.len() - i,
    {
        let ghost pre = views(pieces@).subrange(0, i as int);
        let ghost post = views(pieces@).subrange(0, i + 1);
        assert(post.drop_last() =~= pre);
        assert(post.last() == pieces@[i as int]@);
        if pieces[i].unicode_len() > 0 {
            let p = split_pair(&pieces[i]);
            let ghost before = pair_views(v@);
            v.push(p);
            assert(pair_views(v@) =~= before.push(query_pair(pieces@[i as int]@)));
        }
        i = i + 1;
    }
    assert(views(pieces@).subrange(0, pieces@.len() as int) =~= views(pieces@));
    v
}

/// Whether parameter `a` comes before or equals `b`.
fn pair_le(a: &(String, String), b: &(String, String)) -> (r: bool)
    ensures
        r == pair_leq((a.0@, a.1@), (b.0@, b.1@)),
{
    let ak = chars_of(a.0.as_str());
    let bk = chars_of(b.0.as_str());
    if lex_less(ak.as_slice(), bk.as_slice()) {
        return true;
    }
    if a.0 != b.0 {
        return false;
    }
    let av = chars_of(a.1.as_str());
    let bv = chars_of(b.1.as_str());
    a.1 == b.1 || lex_less(av.as_slice(), bv.as_slice())
}

/// The parameters sorted by name and then value (a stable insertion sort).
fn sort_pairs(v: &Vec<(String, String)>) -> (r: Vec<(String, String)>)
    ensures
        pair_views(r@) == pair_views(v@).sort_by(query_order()),
{
    proof { lemma_query_order_total(); }
    let ghost ord = query_order();
    let mut out: Vec<(String, String)> = Vec::new();
    let mut i: usize = 0;
    assert(pair_views(v@).subrange(0, 0) =~= Seq::<(Seq<char>, Seq<char>)>::empty());
    assert(pair_views(out@) =~= Seq::<(Seq<char>, Seq<char>)>::empty());
    while i < v.len()
        invariant
            ord == query_order(),
            total_ordering(ord),
            i <= v@.len(),
            sorted_by(pair_views(out@), ord),
            pair_views(out@).to_multiset() == pair_views(v@).subrange(0, i as int).to_multiset(),
        decreases v.len() - i,
    {
        let x = (v[i].0.clone(), v[i].1.clone());
        let ghost xv = (x.0@, x.1@);
        assert(xv == pair_views(v@)[i as int]);
        let mut p: usize = 0;
        while p < out.len() && pair_le(&out[p], &x)
            invariant
                ord == query_order(),
                p <= out@.len(),
                xv == (x.0@, x.1@),
                forall|j: int| 0 <= j < p ==> #[trigger] ord(pair_views(out@)[j], xv),
            decreases out.len() - p,
        {
            p = p + 1;
        }
        let ghost before = pair_views(out@);
        proof {
            if p < out.len() {
                assert(!ord(before[p as int], xv));
                assert(ord(before[p as int], xv) || ord(xv, before[p as int]));
            }
        }
        out.insert(p, x);
        proof {
            let nv = pair_views(out@);
            assert(nv =~= before.insert(p as int, xv));
            assert forall|a: int, b: int| 0 <= a < b < nv.len() implies #[trigger] ord(nv[a], nv[b]) by {
                if a < p && b < p {
                    assert(nv[a] == before[a] && nv[b] == before[b]);
                } else if a < p && b == p {
                    assert(nv[a] == before[a]);
                } else if a < p {
                    assert(nv[a] == before[a] && nv[b] == before[b - 1]);
                } else if a == p {
                    assert(nv[b] == before[b - 1]);
                    if b - 1 > p {
                        assert(ord(before[p as int], before[b - 1]));
                    }
                } else {
                    assert(nv[a] == before[a - 1] && nv[b] == before[b - 1]);
                }
            }
            vstd::seq_lib::to_multiset_insert(before, p as int, xv);
            let s0 = pair_views(v@).subrange(0, i as int);
            assert(pair_views(v@).subrange(0, i + 1) =~= s0.push(xv));
            vstd::seq_lib::to_multiset_build(s0, xv);
        }
        i = i + 1;
    }
    proof {
        assert(pair_views(v@).subrange(0, v@.len() as int) =~= pair_views(v@));
        pair_views(v@).lemma_sort_by_ensures(ord);
        vstd::seq_lib::lemma_sorted_unique(pair_views(out@), pair_views(v@).sort_by(ord), ord);
    }
    out
}

/// The canonical query string of `query`.
fn canonical_query_string(query: &str) -> (s: String)
    ensures
        s@ == canonical_query(query@),
{
    let pairs = query_pairs(query);
    let sorted = sort_pairs(&pairs);
    let mut rendered: Vec<String> = Vec::new();
    let mut i: usize = 0;
    while i < sorted.len()
        invariant
            i <= sorted@.len(),
            views(rendered@) == pair_views(sorted@).subrange(0, i as int).map_values(|p: (Seq<char>, Seq<char>)| render_pair(p)),
        decreases sorted.len() - i,
    {
        proof { reveal_strlit("="); }
        let mut item = sorted[i].0.clone();
        item.append("=");
        item.append(sorted[i].1.as_str());
        let ghost before = views(rendered@);
        rendered.push(item);
        proof {
            assert(views(rendered@) =~= before.push(item@));
            assert(item@ =~= render_pair(pair_views(sorted@)[i as int]));
            assert(pair_views(sorted@).subrange(0, i + 1).map_values(|p: (Seq<char>, Seq<char>)| render_pair(p))
                =~= pair_views(sorted@).subrange(0, i as int).map_values(|p: (Seq<char>, Seq<char>)| render_pair(p)).push(item@));
        }
        i = i + 1;
    }
    assert(pair_views(sorted@).subrange(0, sorted@.len() as int) =~= pair_views(sorted@));
    let out = join_strings(&rendered, "&");
    proof {
        reveal_strlit("&");
        assert("&"@ =~= seq!['&']);
    }
    out
}

/// The canonical URI: the path, or `/` when it is empty.
pub open spec fn canonical_uri(path: Seq<char>) -> Seq<char> {
    if path.len() == 0 { "/"@ } else { path }
}

/// The canonical request: method, URI, query, header lines, signed header names and
/// payload hash, on lines of their own.
pub open spec fn canonical_request(
    method: Seq<char>,
    path: Seq<char>,
    query: Seq<char>,
    names: Seq<Seq<char>>,
    m: Map<Seq<char>, Seq<char>>,
    payload_hash: Seq<char>,
) -> Seq<char> {
    method + "\n"@ + canonical_uri(path) + "\n"@ + canonical_query(query) + "\n"@
        + header_lines(names, m) + "\n"@ + join_with(names, ";"@) + "\n"@ + payload_hash
}

/// The credential scope of a signature made on `date` for `region`.
pub open spec fn credential_scope(date: Seq<char>, region: Seq<char>) -> Seq<char> {
    date + "/"@ + region + "/s3/aws4_request"@
}

/// The string to sign: algorithm, request time, scope and the hex SHA-256 of the
/// canonical request, on lines of their own.
pub open spec fn string_to_sign(amz: Seq<char>, scope: Seq<char>, creq: Seq<char>) -> Seq<char> {
    "AWS4-HMAC-SHA256\n"@ + amz + "\n"@ + scope + "\n"@ + hex_encode(sha256_digest(encode_utf8(creq)))
}

/// The signing key: HMAC-SHA256 chained over the date, region, service `s3` and
/// `aws4_request`, starting from `AWS4` followed by the secret key.
pub open spec fn signing_key(secret: Seq<char>, date: Seq<char>, region: Seq<char>) -> Seq<u8> {
    let k_date = hmac_sha256(encode_utf8("AWS4"@ + secret), encode_utf8(date));
    let k_region = hmac_sha256(k_date, encode_utf8(region));
    let k_service = hmac_sha256(k_region, encode_utf8("s3"@));
    hmac_sha256(k_service, encode_utf8("aws4_request"@))
}

/// The signature of a string to sign: hex HMAC-SHA256 under the signing key.
pub open spec fn signature_for(secret: Seq<char>, date: Seq<char>, region: Seq<char>, sts: Seq<char>) -> Seq<char> {
    hex_encode(hmac_sha256(signing_key(secret, date, region), encode_utf8(sts)))
}

/// The signature of a request signed at the time rendered `amz`, over all its headers.
pub open spec fn calculated_signature(
    secret: Seq<char>,
    method: Seq<char>,
    path: Seq<char>,
    query: Seq<char>,
    headers: Seq<(String, String)>,
    payload_hash: Seq<char>,
    amz: Seq<char>,
    region: Seq<char>,
) -> Seq<char> {
    let m = lower_map(headers);
    let names = sorted_seq_of(m.dom());
    let date = amz.subrange(0, 8);
    signature_for(secret, date, region, string_to_sign(amz, credential_scope(date, region),
        canonical_request(method, path, query, names, m, payload_hash)))
}

/// HMAC-SHA256 of `data` under `key`, with a rejected key reported as an authentication error.
fn hmac_step(key: &[u8], data: &[u8]) -> (r: AuthResult<Vec<u8>>)
    ensures
        r matches Ok(t) && t@ == hmac_sha256(key@, data@),
{
    match hmac_sha256_tag(key, data) {
        Ok(t) => Ok(t),
        Err(e) => Err(AuthError::from(e)),
    }
}

/// The signature of `sts` with the key derived from `secret`, `date` and `region`.
fn sign(secret: &str, date: &str, region: &str, sts: &str) -> (r: AuthResult<String>)
    ensures
        r matches Ok(s) && s@ == signature_for(secret@, date@, region@, sts@),
{
    let mut k = String::from_str("AWS4");
    k.append(secret);
    let k_date = hmac_step(k.as_str().as_bytes(), date.as_bytes())?;
    let k_region = hmac_step(k_date.as_slice(), region.as_bytes())?;
    let k_service = hmac_step(k_region.as_slice(), "s3".as_bytes())?;
    let k_signing = hmac_step(k_service.as_slice(), "aws4_request".as_bytes())?;
    let tag = hmac_step(k_signing.as_slice(), sts.as_bytes())?;
    Ok(crate::digest::hex_of(tag.as_slice()))
}

/// The canonical request text.
fn build_canonical_request(
    method: &str,
    path: &str,
    query: &str,
    names: &Vec<String>,
    lines: &str,
    payload_hash: &str,
) -> (s: String)
    ensures
        s@ == method@ + "\n"@ + canonical_uri(path@) + "\n"@ + canonical_query(query@) + "\n"@
            + lines@ + "\n"@ + join_with(views(names@), ";"@) + "\n"@ + payload_hash@,
{
    let mut s = String::from_str(method);
    s.append("\n");
    if path.unicode_len() == 0 {
        s.append("/");
    } else {
        s.append(path);
    }
    s.append("\n");
    let q = canonical_query_string(query);
    s.append(q.as_str());
    s.append("\n");
    s.append(lines);
    s.append("\n");
    let joined = join_strings(names, ";");
    s.append(joined.as_str());
    s.append("\n");
    s.append(payload_hash);
    s
}

/// The string to sign for a canonical request.
fn build_string_to_sign(amz: &str, date: &str, region: &str, creq: &str) -> (s: String)
    ensures
        s@ == string_to_sign(amz@, credential_scope(date@, region@), creq@),
{
    let mut s = String::from_str("AWS4-HMAC-SHA256\n");
    s.append(amz);
    s.append("\n");
    s.append(date);
    s.append("/");
    s.append(region);
    s.append("/s3/aws4_request");
    s.append("\n");
    let h = sha256_hex(creq.as_bytes());
    s.append(h.as_str());
    s
}

/// Signing and verification of requests.
pub struct SignatureV4;

impl SignatureV4 {
    /// Signs a request over all its headers (names lower-cased, ascending) at `timestamp`
    /// for `region`, with the secret key. Fails when the time has no rendering of at
    /// least eight characters.
    pub fn calculate_signature(
        access_key: &str,
        secret_key: &str,
        method: &str,
        uri: &str,
        query_string: &str,
        headers: &Vec<(String, String)>,
        payload_hash: &str,
        timestamp: Timestamp,
        region: &str,
    ) -> (r: AuthResult<String>)
        ensures
            match amz_date_text(timestamp.secs, timestamp.nanos) {
                Some(amz) => if amz.len() >= 8 {
                    r matches Ok(s) && s@ == calculated_signature(secret_key@, method@, uri@, query_string@,
                        headers@, payload_hash@, amz, region@)
                } else {
                    r matches Err(e) && e@ == AuthErrorView::InvalidDateFormat(amz)
                },
                None => r matches Err(e) && e@ == AuthErrorView::InvalidDateFormat("timestamp out of range"@),
            },
    {
        let amz = match amz_date(timestamp) {
            Some(a) => a,
            None => return Err(AuthError::InvalidDateFormat(String::from_str("timestamp out of range"))),
        };
        let ac = chars_of(amz.as_str());
        if ac.len() < 8 {
            return Err(AuthError::InvalidDateFormat(amz));
        }
        let date = string_from_chars(slice_range(ac.as_slice(), 0, 8));
        let names = signed_header_names(headers);
        proof {
            assert forall|i: int| 0 <= i < views(names@).len() implies lower_map(headers@).dom().contains(#[trigger] views(names@)[i]) by {
                assert(views(names@).to_set().contains(views(names@)[i]));
            }
        }
        let lines = match canonical_headers(headers, &names) {
            Ok(l) => l,
            Err(n) => {
                proof { lemma_first_absent_none(views(names@), lower_map(headers@)); }
                return Err(AuthError::MissingRequiredHeader(n));
            },
        };
        proof { lemma_first_absent_none(views(names@), lower_map(headers@)); }
        let creq = build_canonical_request(method, uri, query_string, &names, lines.as_str(), payload_hash);
        let sts = build_string_to_sign(amz.as_str(), date.as_str(), region, creq.as_str());
        let r = sign(secret_key, date.as_str(), region, sts.as_str());
        proof {
            assert(creq@ =~= canonical_request(method@, uri@, query_string@, views(names@), lower_map(headers@), payload_hash@));
        }
        r
    }

    /// Verifies a request's `Authorization` header: parses it, requires the `x-amz-date`
    /// header and every signed header, and compares the signature it carries with the one
    /// computed from the request, the credential's date, `region` and the secret key.
    pub fn verify_signature(
        authorization_header: &str,
        method: &str,
        uri: &str,
        query_string: &str,
        headers: &Vec<(String, String)>,
        payload_hash: &str,
        secret_key: &str,
        region: &str,
    ) -> (r: AuthResult<bool>)
        ensures
            result_view(r) == verify_outcome(authorization_header@, method@, uri@, query_string@, headers@,
                payload_hash@, secret_key@, region@),
    {
        let parsed = match parse_authorization(authorization_header) {
            Ok(p) => p,
            Err(e) => return Err(e),
        };
        let amz_name = String::from_str("x-amz-date");
        let amz = match header_value(headers, &amz_name) {
            Some(v) => v,
            None => return Err(AuthError::MissingRequiredHeader(amz_name)),
        };
        let lines = match canonical_headers(headers, &parsed.signed_headers) {
            Ok(l) => l,
            Err(n) => return Err(AuthError::MissingRequiredHeader(n)),
        };
        let creq = build_canonical_request(method, uri, query_string, &parsed.signed_headers, lines.as_str(), payload_hash);
        let sts = build_string_to_sign(amz.as_str(), parsed.date.as_str(), region, creq.as_str());
        let expected = sign(secret_key, parsed.date.as_str(), region, sts.as_str())?;
        Ok(expected == parsed.signature)
    }

    /// The hex SHA-256 of a payload.
    pub fn hash_payload(payload: &[u8]) -> (h: String)
        ensures
            h@ == crate::digest::payload_hash_of(payload@),
    {
        sha256_hex(payload)
    }
}

/// When no name is absent, every name is present.
proof fn lemma_first_absent_none(names: Seq<Seq<char>>, m: Map<Seq<char>, Seq<char>>)
    ensures
        first_absent(names, m) is None <==> forall|i: int| 0 <= i < names.len() ==> m.dom().contains(#[trigger] names[i]),
        first_absent(names, m) matches Some(n) ==> !m.dom().contains(n),
    decreases names.len(),
{
    if names.len() > 0 {
        let init = names.drop_last();
        lemma_first_absent_none(init, m);
        assert forall|i: int| 0 <= i < init.len() implies #[trigger] init[i] == names[i] by {}
        if first_absent(names, m) is None {
            assert forall|i: int| 0 <= i < names.len() implies m.dom().contains(#[trigger] names[i]) by {
                if i < init.len() {
                    assert(init[i] == names[i]);
                }
            }
        }
        if forall|i: int| 0 <= i < names.len() ==> m.dom().contains(#[trigger] names[i]) {
            assert forall|i: int| 0 <= i < init.len() implies m.dom().contains(#[trigger] init[i]) by {
                assert(init[i] == names[i]);
            }
            assert(m.dom().contains(names[names.len() - 1]));
        }
    }
}

/// A result with its error as a view.
pub open spec fn result_view<T>(r: AuthResult<T>) -> Result<T, AuthErrorView> {
    match r {
        Ok(v) => Ok(v),
        Err(e) => Err(e@),
    }
}

/// The parts of an `Authorization` header.
pub struct ParsedAuthorization {
    pub access_key: String,
    pub date: String,
    pub region: String,
    pub service: String,
    pub signed_headers: Vec<String>,
    pub signature: String,
}

/// The parts of an `Authorization` header as character sequences.
pub struct AuthorizationView {
    pub access_key: Seq<char>,
    pub date: Seq<char>,
    pub region: Seq<char>,
    pub service: Seq<char>,
    pub signed: Seq<Seq<char>>,
    pub signature: Seq<char>,
}

impl View for ParsedAuthorization {
    type V = AuthorizationView;

    open spec fn view(&self) -> AuthorizationView {
        AuthorizationView {
            access_key: self.access_key@,
            date: self.date@,
            region: self.region@,
            service: self.service@,
            signed: views(self.signed_headers@),
            signature: self.signature@,
        }
    }
}

/// The scheme an `Authorization` header must start with, and the space after it.
pub open spec fn auth_scheme() -> Seq<char> {
    "AWS4-HMAC-SHA256 "@
}

/// The rest of the first component that starts with `name`.
pub open spec fn field_of(comps: Seq<Seq<char>>, name: Seq<char>) -> Option<Seq<char>>
    decreases comps.len(),
{
    if comps.len() == 0 {
        None
    } else if is_prefix(name, comps[0]) {
        Some(comps[0].subrange(name.len() as int, comps[0].len() as int))
    } else {
        field_of(comps.drop_first(), name)
    }
}

/// The comma-separated components of an `Authorization` header after the scheme, trimmed.
pub open spec fn auth_components(h: Seq<char>) -> Seq<Seq<char>> {
    split_char(h.subrange(auth_scheme().len() as int, h.len() as int), ',').map_values(|c: Seq<char>| trim_ws(c))
}

/// How an `Authorization` header is read: `AWS4-HMAC-SHA256 ` and then comma-separated
/// `Credential=KEY/DATE/REGION/SERVICE/aws4_request`, `SignedHeaders=h1;h2;...` and
/// `Signature=HEX`, in any order.
pub open spec fn parse_authorization_spec(h: Seq<char>) -> Result<AuthorizationView, AuthErrorView> {
    if !is_prefix(auth_scheme(), h) {
        Err(AuthErrorView::InvalidAuthorizationHeader("expected AWS4-HMAC-SHA256"@))
    } else {
        let comps = auth_components(h);
        match field_of(comps, "Credential="@) {
            None => Err(AuthErrorView::MissingCredential),
            Some(cred) => {
                let cp = split_char(cred, '/');
                if cp.len() != 5 || cp[4] != "aws4_request"@ {
                    Err(AuthErrorView::InvalidCredentialFormat(cred))
                } else {
                    match field_of(comps, "SignedHeaders="@) {
                        None => Err(AuthErrorView::InvalidAuthorizationHeader("missing SignedHeaders"@)),
                        Some(sh) => match field_of(comps, "Signature="@) {
                            None => Err(AuthErrorView::InvalidAuthorizationHeader("missing Signature"@)),
                            Some(sig) => Ok(AuthorizationView {
                                access_key: cp[0],
                                date: cp[1],
                                region: cp[2],
                                service: cp[3],
                                signed: split_char(sh, ';'),
                                signature: sig,
                            }),
                        },
                    }
                }
            },
        }
    }
}

/// The outcome of verifying a request.
pub open spec fn verify_outcome(
    h: Seq<char>,
    method: Seq<char>,
    path: Seq<char>,
    query: Seq<char>,
    headers: Seq<(String, String)>,
    payload_hash: Seq<char>,
    secret: Seq<char>,
    region: Seq<char>,
) -> Result<bool, AuthErrorView> {
    match parse_authorization_spec(h) {
        Err(e) => Err(e),
        Ok(p) => {
            let m = lower_map(headers);
            if !m.dom().contains("x-amz-date"@) {
                Err(AuthErrorView::MissingRequiredHeader("x-amz-date"@))
            } else {
                match first_absent(p.signed, m) {
                    Some(n) => Err(AuthErrorView::MissingRequiredHeader(n)),
                    None => Ok(signature_for(secret, p.date, region, string_to_sign(m["x-amz-date"@],
                        credential_scope(p.date, region),
                        canonical_request(method, path, query, p.signed, m, payload_hash))) == p.signature),
                }
            }
        },
    }
}

/// The rest of the first component that starts with `name`.
fn find_field(comps: &Vec<String>, name: &str) -> (r: Option<String>)
    ensures
        opt_seq(r) == field_of(views(comps@), name@),
{
    let nc = chars_of(name);
    let mut i: usize = 0;
    assert(views(comps@).subrange(0, comps@.len() as int) =~= views(comps@));
    while i < comps.len()
        invariant
            i <= comps@.len(),
            nc@ == name@,
            field_of(views(comps@), name@) == field_of(views(comps@).subrange(i as int, comps@.len() as int), name@),
        decreases comps.len() - i,
    {
        let ghost rest = views(comps@).subrange(i as int, comps@.len() as int);
        assert(rest[0] == comps@[i as int]@);
        assert(rest.drop_first() =~= views(comps@).subrange(i + 1, comps@.len() as int));
        let cc = chars_of(comps[i].as_str());
        if starts_with(cc.as_slice(), nc.as_slice()) {
            return Some(string_from_chars(slice_range(cc.as_slice(), nc.len(), cc.len())));
        }
        i = i + 1;
    }
    None
}

/// The view of an optional string.
pub open spec fn opt_seq(r: Option<String>) -> Option<Seq<char>> {
    match r {
        Some(s) => Some(s@),
        None => None,
    }
}

/// Reads an `Authorization` header.
pub fn parse_authorization(h: &str) -> (r: AuthResult<ParsedAuthorization>)
    ensures
        match parse_authorization_spec(h@) {
            Ok(p) => r matches Ok(q) && q@ == p,
            Err(e) => r matches Err(f) && f@ == e,
        },
{
    let hc = chars_of(h);
    let scheme = chars_of("AWS4-HMAC-SHA256 ");
    if !starts_with(hc.as_slice(), scheme.as_slice()) {
        return Err(AuthError::InvalidAuthorizationHeader(String::from_str("expected AWS4-HMAC-SHA256")));
    }
    let raw = split_on_char(slice_range(hc.as_slice(), scheme.len(), hc.len()), ',');
    let mut comps: Vec<String> = Vec::new();
    let mut i: usize = 0;
    while i < raw.len()
        invariant
            i <= raw@.len(),
            views(comps@) == views(raw@).subrange(0, i as int).map_values(|c: Seq<char>| trim_ws(c)),
        decreases raw.len() - i,
    {
        let t = trim_ws_str(raw[i].as_str());
        let ghost before = views(comps@);
        comps.push(t);
        assert(views(comps@) =~= before.push(t@));
        assert(views(raw@).subrange(0, i + 1).map_values(|c: Seq<char>| trim_ws(c))
            =~= views(raw@).subrange(0, i as int).map_values(|c: Seq<char>| trim_ws(c)).push(trim_ws(raw@[i as int]@)));
        i = i + 1;
    }
    assert(views(raw@).subrange(0, raw@.len() as int) =~= views(raw@));
    assert(views(comps@) == auth_components(h@));
    let cred = match find_field(&comps, "Credential=") {
        Some(c) => c,
        None => return Err(AuthError::MissingCredential),
    };
    let cred_chars = chars_of(cred.as_str());
    let cp = split_on_char(cred_chars.as_slice(), '/');
    let terminator = String::from_str("aws4_request");
    if cp.len() != 5 || cp[4] != terminator {
        return Err(AuthError::InvalidCredentialFormat(cred));
    }
    let sh = match find_field(&comps, "SignedHeaders=") {
        Some(s) => s,
        None => return Err(AuthError::InvalidAuthorizationHeader(String::from_str("missing SignedHeaders"))),
    };
    let sig = match find_field(&comps, "Signature=") {
        Some(s) => s,
        None => return Err(AuthError::InvalidAuthorizationHeader(String::from_str("missing Signature"))),
    };
    let sh_chars = chars_of(sh.as_str());
    let signed = split_on_char(sh_chars.as_slice(), ';');
    Ok(ParsedAuthorization {
        access_key: cp[0].clone(),
        date: cp[1].clone(),
        region: cp[2].clone(),
        service: cp[3].clone(),
        signed_headers: signed,
        signature: sig,
    })
}

/// A character allowed in the access key, date and region of a credential: no comma or slash.
pub open spec fn credential_char(c: char) -> bool {
    c != ',' && c != '/'
}

/// A character of an HTTP header name (a token): no comma, semicolon, space or tab.
pub open spec fn header_name_char(c: char) -> bool {
    c != ',' && c != ';' && !crate::text::is_ws(c)
}

/// The `Authorization` header value that carries `signature`, made with `access_key` on
/// `date` for `region` over the headers `names`.
pub open spec fn authorization_value(
    access_key: Seq<char>,
    date: Seq<char>,
    region: Seq<char>,
    names: Seq<Seq<char>>,
    signature: Seq<char>,
) -> Seq<char> {
    authorization_text(access_key, date, region, join_with(names, ";"@), signature)
}

/// The `Authorization` header value with the signed header names already joined.
pub open spec fn authorization_text(
    access_key: Seq<char>,
    date: Seq<char>,
    region: Seq<char>,
    signed: Seq<char>,
    signature: Seq<char>,
) -> Seq<char> {
    auth_scheme() + "Credential="@ + access_key + "/"@ + date + "/"@ + region + "/s3/aws4_request"@
        + ","@ + " SignedHeaders="@ + signed + ","@ + " Signature="@ + signature
}

/// Headers by lower-cased name form a finite map.
pub proof fn lemma_lower_map_finite(headers: Seq<(String, String)>)
    ensures
        lower_map(headers).dom().finite(),
    decreases headers.len(),
{
    if headers.len() > 0 {
        lemma_lower_map_finite(headers.drop_last());
    }
}

/// The credential component of an `Authorization` header value.
spec fn credential_component(access_key: Seq<char>, date: Seq<char>, region: Seq<char>) -> Seq<char> {
    "Credential="@ + access_key + "/"@ + date + "/"@ + region + "/s3/aws4_request"@
}

/// The credential component holds no comma and ends its text as written.
proof fn lemma_credential_component(access_key: Seq<char>, date: Seq<char>, region: Seq<char>)
    requires
        forall|i: int| 0 <= i < access_key.len() ==> credential_char(#[trigger] access_key[i]),
        forall|i: int| 0 <= i < date.len() ==> credential_char(#[trigger] date[i]),
        forall|i: int| 0 <= i < region.len() ==> credential_char(#[trigger] region[i]),
    ensures
        forall|i: int| 0 <= i < credential_component(access_key, date, region).len()
            ==> #[trigger] credential_component(access_key, date, region)[i] != ',',
        credential_component(access_key, date, region).len() > 0,
        credential_component(access_key, date, region)[0] == 'C',
        credential_component(access_key, date, region).last() == 't',
        split_char(credential_component(access_key, date, region).subrange(11, credential_component(access_key, date, region).len() as int), '/')
            == seq![access_key, date, region, "s3"@, "aws4_request"@],
        is_prefix("Credential="@, credential_component(access_key, date, region)),
{
    reveal_strlit("Credential=");
    reveal_strlit("/");
    reveal_strlit("/s3/aws4_request");
    reveal_strlit("s3");
    reveal_strlit("aws4_request");
    let a = credential_component(access_key, date, region);
    let p1 = "Credential="@ + access_key;
    let p2 = p1 + "/"@ + date;
    let p3 = p2 + "/"@ + region;
    assert(a == p3 + "/s3/aws4_request"@);
    assert forall|i: int| 0 <= i < a.len() implies #[trigger] a[i] != ',' by {
        if i < 11 {
        } else if i < p1.len() {
            assert(a[i] == access_key[i - 11]);
            assert(credential_char(access_key[i - 11]));
        } else if i == p1.len() {
        } else if i < p2.len() {
            assert(a[i] == date[i - p1.len() - 1]);
            assert(credential_char(date[i - p1.len() - 1]));
        } else if i == p2.len() {
        } else if i < p3.len() {
            assert(a[i] == region[i - p2.len() - 1]);
            assert(credential_char(region[i - p2.len() - 1]));
        } else {
            assert(a[i] == ("/s3/aws4_request"@)[i - p3.len()]);
        }
    }
    assert(a.subrange(0, 11) =~= "Credential="@);
    let cred = a.subrange(11, a.len() as int);
    let parts5 = seq![access_key, date, region, "s3"@, "aws4_request"@];
    assert(parts5.drop_last().drop_last().drop_last().drop_last() =~= seq![access_key]);
    assert(parts5.drop_last().drop_last().drop_last() =~= seq![access_key, date]);
    assert(parts5.drop_last().drop_last() =~= seq![access_key, date, region]);
    assert(parts5.drop_last() =~= seq![access_key, date, region, "s3"@]);
    let sep = seq!['/'];
    let j1 = join_with(seq![access_key], sep);
    assert(j1 == access_key);
    let j2 = join_with(seq![access_key, date], sep);
    assert(seq![access_key, date].drop_last() =~= seq![access_key]);
    assert(j2 == j1 + sep + date);
    let j3 = join_with(seq![access_key, date, region], sep);
    assert(seq![access_key, date, region].drop_last() =~= seq![access_key, date]);
    assert(j3 == j2 + sep + region);
    let j4 = join_with(seq![access_key, date, region, "s3"@], sep);
    assert(seq![access_key, date, region, "s3"@].drop_last() =~= seq![access_key, date, region]);
    assert(j4 == j3 + sep + "s3"@);
    assert(join_with(parts5, sep) == j4 + sep + "aws4_request"@);
    assert(join_with(parts5, sep) =~= cred);
    assert forall|i: int, j: int| 0 <= i < parts5.len() && 0 <= j < parts5[i].len() implies #[trigger] parts5[i][j] != '/' by {
        if i == 0 {
            assert(credential_char(access_key[j]));
        } else if i == 1 {
            assert(credential_char(date[j]));
        } else if i == 2 {
            assert(credential_char(region[j]));
        }
    }
    crate::text::lemma_split_join(parts5, '/');
}

/// How the value built by `authorization_text` is read back.
proof fn lemma_parse_authorization_text(
    access_key: Seq<char>,
    date: Seq<char>,
    region: Seq<char>,
    signed: Seq<char>,
    signature: Seq<char>,
)
    requires
        forall|i: int| 0 <= i < access_key.len() ==> credential_char(#[trigger] access_key[i]),
        forall|i: int| 0 <= i < date.len() ==> credential_char(#[trigger] date[i]),
        forall|i: int| 0 <= i < region.len() ==> credential_char(#[trigger] region[i]),
        forall|i: int| 0 <= i < signed.len() ==> #[trigger] signed[i] != ',' && !crate::text::is_ws(signed[i]),
        forall|i: int| 0 <= i < signature.len() ==> crate::digest::is_hex_char(#[trigger] signature[i]),
    ensures
        parse_authorization_spec(authorization_text(access_key, date, region, signed, signature))
            == Ok::<AuthorizationView, AuthErrorView>(AuthorizationView {
                access_key,
                date,
                region,
                service: "s3"@,
                signed: split_char(signed, ';'),
                signature,
            }),
{
    reveal_strlit("AWS4-HMAC-SHA256 ");
    reveal_strlit(",");
    reveal_strlit(" SignedHeaders=");
    reveal_strlit("SignedHeaders=");
    reveal_strlit(" Signature=");
    reveal_strlit("Signature=");
    reveal_strlit("Credential=");
    lemma_credential_component(access_key, date, region);
    let h = authorization_text(access_key, date, region, signed, signature);
    let a = credential_component(access_key, date, region);
    let sh = "SignedHeaders="@ + signed;
    let sg = "Signature="@ + signature;
    let b = seq![' '] + sh;
    let g = seq![' '] + sg;
    assert(is_prefix(auth_scheme(), h)) by {
        assert(h.subrange(0, auth_scheme().len() as int) =~= auth_scheme());
    }
    assert(h.subrange(auth_scheme().len() as int, h.len() as int) =~= a + seq![','] + (b + seq![','] + g));
    assert forall|i: int| 0 <= i < b.len() implies b[i] != ',' by {
        if i >= 15 {
            assert(b[i] == signed[i - 15]);
        }
    }
    assert forall|i: int| 0 <= i < g.len() implies g[i] != ',' by {
        if i >= 11 {
            assert(g[i] == signature[i - 11]);
            assert(crate::digest::is_hex_char(signature[i - 11]));
        }
    }
    crate::text::lemma_split_concat(a, b + seq![','] + g, ',');
    crate::text::lemma_split_concat(b, g, ',');
    crate::text::lemma_split_plain(a, ',');
    crate::text::lemma_split_plain(b, ',');
    crate::text::lemma_split_plain(g, ',');
    assert(split_char(h.subrange(auth_scheme().len() as int, h.len() as int), ',') =~= seq![a, b, g]);
    crate::text::lemma_trim_plain(a);
    assert(sh[0] == 'S');
    if signed.len() > 0 {
        assert(sh.last() == signed[signed.len() - 1]);
    }
    crate::text::lemma_trim_space(sh);
    assert(sg[0] == 'S');
    if signature.len() > 0 {
        assert(sg.last() == signature[signature.len() - 1]);
        assert(crate::digest::is_hex_char(signature[signature.len() - 1]));
    }
    crate::text::lemma_trim_space(sg);
    let comps = auth_components(h);
    assert(comps =~= seq![a, sh, sg]);
    assert(field_of(comps, "Credential="@) == Some(a.subrange(11, a.len() as int)));
    assert(!is_prefix("SignedHeaders="@, a)) by {
        if ("SignedHeaders="@).len() <= a.len() {
            assert(a.subrange(0, 14)[0] == 'C');
        }
    }
    assert(comps.drop_first() =~= seq![sh, sg]);
    assert(sh.subrange(0, 14) =~= "SignedHeaders="@);
    assert(sh.subrange(14, sh.len() as int) =~= signed);
    assert(is_prefix("SignedHeaders="@, sh));
    assert(comps.drop_first()[0] == sh);
    assert(field_of(comps.drop_first(), "SignedHeaders="@) == Some(signed));
    assert(field_of(comps, "SignedHeaders="@) == Some(signed));
    assert(!is_prefix("Signature="@, a)) by {
        if ("Signature="@).len() <= a.len() {
            assert(a.subrange(0, 10)[0] == 'C');
        }
    }
    assert(!is_prefix("Signature="@, sh)) by {
        assert(sh.subrange(0, 10)[4] == 'e');
    }
    assert(comps.drop_first().drop_first() =~= seq![sg]);
    assert(sg.subrange(0, 10) =~= "Signature="@);
    assert(sg.subrange(10, sg.len() as int) =~= signature);
    assert(is_prefix("Signature="@, sg));
    assert(comps.drop_first().drop_first()[0] == sg);
    assert(field_of(comps.drop_first().drop_first(), "Signature="@) == Some(signature));
    assert(comps.drop_first()[0] == sh);
    assert(field_of(comps.drop_first(), "Signature="@) == Some(signature));
    assert(comps[0] == a);
    assert(field_of(comps, "Signature="@) == Some(signature));
}

/// A request signed by `calculate_signature` over the headers `headers`, sent with its
/// `x-amz-date` header, the `Authorization` header that carries the signature and possibly
/// more headers (`sent`, which gives each signed header the value it was signed with), passes
/// `verify_signature` with the same secret key and region.
pub proof fn lemma_verify_accepts_signed_sent(
    access_key: Seq<char>,
    secret: Seq<char>,
    method: Seq<char>,
    path: Seq<char>,
    query: Seq<char>,
    headers: Seq<(String, String)>,
    sent: Seq<(String, String)>,
    payload_hash: Seq<char>,
    amz: Seq<char>,
    region: Seq<char>,
)
    requires
        forall|n: Seq<char>| #[trigger] lower_map(headers).dom().contains(n)
            ==> lower_map(sent).dom().contains(n) && lower_map(sent)[n] == lower_map(headers)[n],
        amz.len() >= 8,
        lower_map(headers).dom().contains("x-amz-date"@),
        lower_map(headers)["x-amz-date"@] == amz,
        forall|i: int| 0 <= i < access_key.len() ==> credential_char(#[trigger] access_key[i]),
        forall|i: int| 0 <= i < 8 ==> credential_char(#[trigger] amz[i]),
        forall|i: int| 0 <= i < region.len() ==> credential_char(#[trigger] region[i]),
        forall|n: Seq<char>, i: int| lower_map(headers).dom().contains(n) && 0 <= i < n.len() ==> header_name_char(#[trigger] n[i]),
    ensures
        verify_outcome(
            authorization_value(access_key, amz.subrange(0, 8), region, sorted_seq_of(lower_map(headers).dom()),
                calculated_signature(secret, method, path, query, headers, payload_hash, amz, region)),
            method, path, query, sent, payload_hash, secret, region,
        ) == Ok::<bool, AuthErrorView>(true),
{
    reveal_strlit(";");
    let m = lower_map(headers);
    lemma_lower_map_finite(headers);
    crate::keyed::lemma_sorted_seq_of_finite(m.dom());
    let names = sorted_seq_of(m.dom());
    let date = amz.subrange(0, 8);
    let sig = calculated_signature(secret, method, path, query, headers, payload_hash, amz, region);
    let joined = join_with(names, ";"@);
    assert forall|i: int| 0 <= i < names.len() implies m.dom().contains(#[trigger] names[i]) by {
        assert(names.to_set().contains(names[i]));
    }
    let ms = lower_map(sent);
    lemma_first_absent_none(names, ms);
    lemma_header_lines_agree(names, m, ms);
    assert(names.to_set().contains("x-amz-date"@));
    assert forall|i: int, j: int| 0 <= i < names.len() && 0 <= j < names[i].len() implies header_name_char(#[trigger] names[i][j]) by {
        assert(m.dom().contains(names[i]));
    }
    let ok = |c: char| c != ',' && !crate::text::is_ws(c);
    assert forall|i: int, j: int| 0 <= i < names.len() && 0 <= j < names[i].len() implies ok(#[trigger] names[i][j]) by {
        assert(header_name_char(names[i][j]));
    }
    assert forall|j: int| 0 <= j < (";"@).len() implies ok(#[trigger] (";"@)[j]) by {}
    crate::text::lemma_join_chars(names, ";"@, ok);
    assert forall|i: int| 0 <= i < joined.len() implies #[trigger] joined[i] != ',' && !crate::text::is_ws(joined[i]) by {
        assert(ok(joined[i]));
    }
    assert forall|i: int| 0 <= i < date.len() implies credential_char(#[trigger] date[i]) by {
        assert(date[i] == amz[i]);
    }
    crate::digest::lemma_hex_chars(hmac_sha256(signing_key(secret, date, region), encode_utf8(string_to_sign(amz,
        credential_scope(date, region), canonical_request(method, path, query, names, m, payload_hash)))));
    lemma_parse_authorization_text(access_key, date, region, joined, sig);
    assert forall|i: int, j: int| 0 <= i < names.len() && 0 <= j < names[i].len() implies #[trigger] names[i][j] != ';' by {
        assert(header_name_char(names[i][j]));
    }
    crate::text::lemma_split_join(names, ';');
    assert(";"@ =~= seq![';']);
}


/// A request signed by `calculate_signature` over all its headers, sent with its `x-amz-date`
/// header and the `Authorization` header that carries the signature, passes `verify_signature`
/// with the same secret key and region.
pub proof fn lemma_verify_accepts_signed(
    access_key: Seq<char>,
    secret: Seq<char>,
    method: Seq<char>,
    path: Seq<char>,
    query: Seq<char>,
    headers: Seq<(String, String)>,
    payload_hash: Seq<char>,
    amz: Seq<char>,
    region: Seq<char>,
)
    requires
        amz.len() >= 8,
        lower_map(headers).dom().contains("x-amz-date"@),
        lower_map(headers)["x-amz-date"@] == amz,
        forall|i: int| 0 <= i < access_key.len() ==> credential_char(#[trigger] access_key[i]),
        forall|i: int| 0 <= i < 8 ==> credential_char(#[trigger] amz[i]),
        forall|i: int| 0 <= i < region.len() ==> credential_char(#[trigger] region[i]),
        forall|n: Seq<char>, i: int| lower_map(headers).dom().contains(n) && 0 <= i < n.len() ==> header_name_char(#[trigger] n[i]),
    ensures
        verify_outcome(
            authorization_value(access_key, amz.subrange(0, 8), region, sorted_seq_of(lower_map(headers).dom()),
                calculated_signature(secret, method, path, query, headers, payload_hash, amz, region)),
            method, path, query, headers, payload_hash, secret, region,
        ) == Ok::<bool, AuthErrorView>(true),
{
    lemma_verify_accepts_signed_sent(access_key, secret, method, path, query, headers, headers, payload_hash, amz, region);
}

/// The header lines of names that two maps both hold with equal values are the same.
proof fn lemma_header_lines_agree(names: Seq<Seq<char>>, m1: Map<Seq<char>, Seq<char>>, m2: Map<Seq<char>, Seq<char>>)
    requires
        forall|i: int| 0 <= i < names.len() ==> m1.dom().contains(#[trigger] names[i]) && m2.dom().contains(names[i])
            && m1[names[i]] == m2[names[i]],
    ensures
        header_lines(names, m1) == header_lines(names, m2),
    decreases names.len(),
{
    if names.len() > 0 {
        let init = names.drop_last();
        assert forall|i: int| 0 <= i < init.len() implies m1.dom().contains(#[trigger] init[i]) && m2.dom().contains(init[i])
            && m1[init[i]] == m2[init[i]] by {
            assert(init[i] == names[i]);
        }
        lemma_header_lines_agree(init, m1, m2);
        assert(m1[names.last()] == m2[names.last()]);
    }
}


/// A parameter `name=value` whose name holds no `=` splits back into that name and value.
proof fn lemma_query_pair_of(n: Seq<char>, v: Seq<char>)
    requires
        forall|i: int| 0 <= i < n.len() ==> n[i] != '=',
    ensures
        query_pair(n + seq!['='] + v) == (n, v),
{
    let p = n + seq!['='] + v;
    let eq = seq!['='];
    assert(p.subrange(n.len() as int, n.len() + 1 as int) =~= eq);
    assert forall|t: int| 0 <= t < n.len() implies !#[trigger] crate::text::occurs_at(p, eq, t) by {
        if crate::text::occurs_at(p, eq, t) {
            assert(p.subrange(t, t + 1)[0] == p[t]);
            assert(p[t] == n[t]);
        }
    }
    crate::text::lemma_find_from_at(p, eq, 0, n.len() as int);
    assert(p.subrange(0, n.len() as int) =~= n);
    assert(p.subrange(n.len() + 1 as int, p.len() as int) =~= v);
}

/// A parameter is a name without `=` or `&`, `=`, and a value without `&`.
pub open spec fn plain_param(n: Seq<char>, v: Seq<char>) -> bool {
    &&& forall|i: int| 0 <= i < n.len() ==> n[i] != '=' && n[i] != '&'
    &&& forall|i: int| 0 <= i < v.len() ==> v[i] != '&'
}

/// The text of a parameter: `name=value`.
pub open spec fn param_text(n: Seq<char>, v: Seq<char>) -> Seq<char> {
    n + seq!['='] + v
}

proof fn lemma_param_plain(n: Seq<char>, v: Seq<char>)
    requires
        plain_param(n, v),
    ensures
        forall|i: int| 0 <= i < param_text(n, v).len() ==> param_text(n, v)[i] != '&',
        param_text(n, v).len() > 0,
        query_pair(param_text(n, v)) == (n, v),
{
    let p = param_text(n, v);
    assert forall|i: int| 0 <= i < p.len() implies p[i] != '&' by {
        if i < n.len() {
            assert(p[i] == n[i]);
        } else if i > n.len() {
            assert(p[i] == v[i - n.len() - 1]);
        }
    }
    lemma_query_pair_of(n, v);
}

/// A query of one parameter `name=value` is its own canonical form.
pub proof fn lemma_canonical_query_one(n: Seq<char>, v: Seq<char>)
    requires
        plain_param(n, v),
    ensures
        canonical_query(n + seq!['='] + v) == n + seq!['='] + v,
{
    broadcast use vstd::seq_lib::group_to_multiset_ensures;
    let p = param_text(n, v);
    lemma_param_plain(n, v);
    crate::text::lemma_split_plain(p, '&');
    let pieces = split_char(p, '&');
    assert(pieces.drop_last() =~= Seq::<Seq<char>>::empty());
    assert(pieces.last() == p);
    assert(pairs_of(Seq::<Seq<char>>::empty()) == Seq::<(Seq<char>, Seq<char>)>::empty());
    let pairs = pairs_of(pieces);
    assert(pairs == pairs_of(pieces.drop_last()).push(query_pair(p)));
    assert(pairs =~= seq![(n, v)]);
    lemma_query_order_total();
    pairs.lemma_sort_by_ensures(query_order());
    assert(sorted_by(pairs, query_order()));
    vstd::seq_lib::lemma_sorted_unique(pairs, pairs.sort_by(query_order()), query_order());
    let rendered = pairs.sort_by(query_order()).map_values(|q: (Seq<char>, Seq<char>)| render_pair(q));
    assert(rendered =~= seq![p]);
}

/// The canonical query of two parameters is the one whose name comes first, `&`, then the
/// other, each written `name=value`, whichever order the request gave them in.
pub proof fn lemma_canonical_query_two(n1: Seq<char>, v1: Seq<char>, n2: Seq<char>, v2: Seq<char>)
    requires
        plain_param(n1, v1),
        plain_param(n2, v2),
        crate::text::lex_lt(n1, n2),
    ensures
        canonical_query(n1 + seq!['='] + v1 + seq!['&'] + n2 + seq!['='] + v2)
            == n1 + seq!['='] + v1 + seq!['&'] + n2 + seq!['='] + v2,
        canonical_query(n2 + seq!['='] + v2 + seq!['&'] + n1 + seq!['='] + v1)
            == n1 + seq!['='] + v1 + seq!['&'] + n2 + seq!['='] + v2,
{
    broadcast use vstd::seq_lib::group_to_multiset_ensures;
    broadcast use vstd::multiset::group_multiset_axioms;
    let p1 = param_text(n1, v1);
    let p2 = param_text(n2, v2);
    lemma_param_plain(n1, v1);
    lemma_param_plain(n2, v2);
    crate::text::lemma_split_plain(p1, '&');
    crate::text::lemma_split_plain(p2, '&');
    lemma_query_order_total();
    let ord = query_order();
    let sorted = seq![(n1, v1), (n2, v2)];
    assert(sorted_by(sorted, ord)) by {
        assert(pair_leq((n1, v1), (n2, v2)));
    }
    let expect = p1 + seq!['&'] + p2;
    let rendered = sorted.map_values(|q: (Seq<char>, Seq<char>)| render_pair(q));
    assert(rendered =~= seq![p1, p2]);
    assert(seq![p1, p2].drop_last() =~= seq![p1]);
    assert(join_with(seq![p1], seq!['&']) == p1);
    assert(join_with(seq![p1, p2], seq!['&']) == join_with(seq![p1], seq!['&']) + seq!['&'] + p2);
    assert(join_with(seq![p1, p2], seq!['&']) == expect);
    // In order.
    crate::text::lemma_split_concat(p1, p2, '&');
    let q1 = p1 + seq!['&'] + p2;
    assert(split_char(q1, '&') =~= seq![p1, p2]);
    assert(pairs_of(Seq::<Seq<char>>::empty()) == Seq::<(Seq<char>, Seq<char>)>::empty());
    assert(seq![p1].drop_last() =~= Seq::<Seq<char>>::empty());
    assert(pairs_of(seq![p1]) == pairs_of(seq![p1].drop_last()).push(query_pair(p1)));
    assert(pairs_of(seq![p2]) == pairs_of(seq![p2].drop_last()).push(query_pair(p2)));
    assert(seq![p2].drop_last() =~= Seq::<Seq<char>>::empty());
    let pa = pairs_of(seq![p1, p2]);
    assert(pa == pairs_of(seq![p1]).push(query_pair(p2)));
    assert(pa =~= seq![(n1, v1), (n2, v2)]);
    pa.lemma_sort_by_ensures(ord);
    vstd::seq_lib::lemma_sorted_unique(sorted, pa.sort_by(ord), ord);
    assert(q1 =~= n1 + seq!['='] + v1 + seq!['&'] + n2 + seq!['='] + v2);
    // Reversed.
    crate::text::lemma_split_concat(p2, p1, '&');
    let q2 = p2 + seq!['&'] + p1;
    assert(split_char(q2, '&') =~= seq![p2, p1]);
    assert(seq![p2, p1].drop_last() =~= seq![p2]);
    let pb = pairs_of(seq![p2, p1]);
    assert(pb == pairs_of(seq![p2]).push(query_pair(p1)));
    assert(pb =~= seq![(n2, v2), (n1, v1)]);
    pb.lemma_sort_by_ensures(ord);
    assert(pb =~= seq![(n2, v2)].push((n1, v1)));
    assert(sorted =~= seq![(n1, v1)].push((n2, v2)));
    assert(seq![(n2, v2)] =~= Seq::<(Seq<char>, Seq<char>)>::empty().push((n2, v2)));
    assert(seq![(n1, v1)] =~= Seq::<(Seq<char>, Seq<char>)>::empty().push((n1, v1)));
    assert(pb.to_multiset() =~= sorted.to_multiset());
    vstd::seq_lib::lemma_sorted_unique(sorted, pb.sort_by(ord), ord);
    assert(q2 =~= n2 + seq!['='] + v2 + seq!['&'] + n1 + seq!['='] + v1);
}
} // verus!
