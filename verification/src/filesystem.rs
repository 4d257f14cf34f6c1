//! The decisions of the filesystem backend: listings built from walked files, the registry
//! of multipart uploads, and storage statistics.

use vstd::prelude::*;
use crate::paging::{first_after, lemma_first_after_bounds, next_token, page_len, page_truncated, take_page};
use crate::backend::{ListObjectsParams, ListObjectsResult, PartInfo, StorageStats};
use crate::error::{StorageError, StorageErrorView, StorageResult};
use crate::keyed::{
    has_key, keyed_map, keys_unique, lemma_keyed_absent, lemma_keyed_lookup, lemma_keyed_push, lemma_keyed_remove,
    lemma_keyed_update, lemma_sorted_seq_of, sorted_seq_of, strictly_sorted,
};
use crate::memory::{
    classify_key, contains_string, listed, max_keys_of, opt_chars, prefix_selects, rolled_prefix, string_in, MetaView,
};
use crate::model::{ObjectInfo, ObjectMetadata};
use crate::text::{chars_of, lex_less, lex_lt, lemma_lex_irreflexive, lemma_lex_total, lemma_lex_transitive, slice_range, string_from_chars};
use crate::time::opt_view;

verus! {

/// No two walked files share a key.
pub open spec fn walk_keys_distinct(entries: Seq<(String, Option<ObjectMetadata>)>) -> bool {
    forall|i: int, j: int| 0 <= i < j < entries.len() ==> entries[i].0@ != entries[j].0@
}

/// Some walked file has key `k` and readable metadata.
pub open spec fn readable_at(entries: Seq<(String, Option<ObjectMetadata>)>, k: Seq<char>) -> bool {
    exists|i: int| 0 <= i < entries.len() && (#[trigger] entries[i]).0@ == k && entries[i].1 is Some
}

/// The metadata of each walked file whose metadata could be read, by key.
pub open spec fn readable(entries: Seq<(String, Option<ObjectMetadata>)>) -> Map<Seq<char>, MetaView> {
    Map::new(
        |k: Seq<char>| readable_at(entries, k),
        |k: Seq<char>| entries[choose|i: int| 0 <= i < entries.len() && (#[trigger] entries[i]).0@ == k && entries[i].1 is Some].1->0@,
    )
}

/// The prefixes that the walked keys kept by the prefix are rolled up into.
pub open spec fn walked_prefixes(
    entries: Seq<(String, Option<ObjectMetadata>)>,
    prefix: Option<Seq<char>>,
    delimiter: Option<Seq<char>>,
) -> Set<Seq<char>> {
    Set::new(|cp: Seq<char>| exists|i: int| 0 <= i < entries.len() && prefix_selects(prefix, (#[trigger] entries[i]).0@)
        && rolled_prefix(entries[i].0@, prefix, delimiter) == Some(cp))
}

/// A listing entry reports an object with the given metadata.
pub open spec fn info_of_meta(info: ObjectInfo, key: Seq<char>, m: MetaView) -> bool {
    &&& info.key@ == key
    &&& info.last_modified == m.last_modified
    &&& info.etag@ == m.etag
    &&& info.size == m.content_length
    &&& info.storage_class@ == "STANDARD"@
}

/// The keys a filesystem listing reports, ascending, before the limit: the walked keys with
/// readable metadata that the prefix keeps and the delimiter does not roll up.
pub open spec fn walked_listing_keys(
    entries: Seq<(String, Option<ObjectMetadata>)>,
    prefix: Option<Seq<char>>,
    delimiter: Option<Seq<char>>,
) -> Seq<Seq<char>> {
    sorted_seq_of(readable(entries).dom().filter(|k: Seq<char>| listed(k, prefix, delimiter)))
}

/// A listing result reports the walked files under `params`.
pub open spec fn walked_listing_matches(
    l: ListObjectsResult,
    entries: Seq<(String, Option<ObjectMetadata>)>,
    params: ListObjectsParams,
) -> bool {
    let prefix = opt_view(params.prefix);
    let delimiter = opt_view(params.delimiter);
    let keys = walked_listing_keys(entries, prefix, delimiter);
    let m = readable(entries);
    let max = max_keys_of(params.max_keys);
    let t = opt_view(params.continuation_token);
    let start = first_after(keys, t);
    &&& l.objects@.len() == page_len(keys, t, max)
    &&& forall|i: int| 0 <= i < l.objects@.len()
        ==> info_of_meta(#[trigger] l.objects@[i], keys[start + i], m[keys[start + i]])
    &&& l.is_truncated == page_truncated(keys, t, max)
    &&& forall|i: int, j: int| 0 <= i < j < l.common_prefixes@.len() ==> (#[trigger] l.common_prefixes@[i])@ != (#[trigger] l.common_prefixes@[j])@
    &&& forall|cp: Seq<char>| walked_prefixes(entries, prefix, delimiter).contains(cp)
        <==> exists|i: int| 0 <= i < l.common_prefixes@.len() && (#[trigger] l.common_prefixes@[i])@ == cp
    &&& opt_view(l.next_continuation_token) == next_token(keys, t, max)
}

/// The keys of listing entries, in order.
pub open spec fn info_keys(v: Seq<ObjectInfo>) -> Seq<Seq<char>> {
    v.map_values(|o: ObjectInfo| o.key@)
}

/// A listing entry that reports a readable walked file that is listed.
pub open spec fn good_info(
    info: ObjectInfo,
    m: Map<Seq<char>, MetaView>,
    prefix: Option<Seq<char>>,
    delimiter: Option<Seq<char>>,
) -> bool {
    &&& m.dom().contains(info.key@)
    &&& info_of_meta(info, info.key@, m[info.key@])
    &&& listed(info.key@, prefix, delimiter)
}

/// The metadata read for the walked file at index `i`.
proof fn lemma_readable_lookup(entries: Seq<(String, Option<ObjectMetadata>)>, i: int)
    requires
        walk_keys_distinct(entries),
        0 <= i < entries.len(),
        entries[i].1 is Some,
    ensures
        readable(entries).dom().contains(entries[i].0@),
        readable(entries)[entries[i].0@] == entries[i].1->0@,
{
    let k = entries[i].0@;
    assert(readable_at(entries, k));
    let j = choose|j: int| 0 <= j < entries.len() && (#[trigger] entries[j]).0@ == k && entries[j].1 is Some;
    if j != i {
        if j < i {
            assert(entries[j].0@ != entries[i].0@);
        } else {
            assert(entries[i].0@ != entries[j].0@);
        }
    }
}

/// The listed entries with readable metadata, in walk order.
fn walked_objects(
    entries: &Vec<(String, Option<ObjectMetadata>)>,
    prefix_chars: &Option<Vec<char>>,
    delim_chars: &Option<Vec<char>>,
    Ghost(prefix): Ghost<Option<Seq<char>>>,
    Ghost(delimiter): Ghost<Option<Seq<char>>>,
) -> (out: Vec<ObjectInfo>)
    requires
        walk_keys_distinct(entries@),
        match prefix_chars { Some(p) => prefix == Some(p@), None => prefix is None },
        match delim_chars { Some(d) => delimiter == Some(d@), None => delimiter is None },
    ensures
        forall|j: int| 0 <= j < out@.len() ==> good_info(#[trigger] out@[j], readable(entries@), prefix, delimiter),
        forall|a: int, b: int| 0 <= a < b < out@.len() ==> (#[trigger] out@[a]).key@ != (#[trigger] out@[b]).key@,
        info_keys(out@).to_set() == readable(entries@).dom().filter(|k: Seq<char>| listed(k, prefix, delimiter)),
{
    let ghost m = readable(entries@);
    let mut out: Vec<ObjectInfo> = Vec::new();
    let mut i: usize = 0;
    while i < entries.len()
        invariant
            walk_keys_distinct(entries@),
            m == readable(entries@),
            match prefix_chars { Some(p) => prefix == Some(p@), None => prefix is None },
            match delim_chars { Some(d) => delimiter == Some(d@), None => delimiter is None },
            i <= entries@.len(),
            forall|j: int| 0 <= j < out@.len() ==> good_info(#[trigger] out@[j], m, prefix, delimiter),
            forall|j: int| 0 <= j < out@.len() ==> exists|q: int| 0 <= q < i && (#[trigger] out@[j]).key@ == entries@[q].0@,
            forall|a: int, b: int| 0 <= a < b < out@.len() ==> (#[trigger] out@[a]).key@ != (#[trigger] out@[b]).key@,
            forall|q: int| 0 <= q < i && entries@[q].1 is Some && listed((#[trigger] entries@[q]).0@, prefix, delimiter)
                ==> info_keys(out@).contains(entries@[q].0@),
        decreases entries.len() - i,
    {
        let ghost q = i as int;
        let kc = chars_of(entries[i].0.as_str());
        let class = classify_key(&kc, prefix_chars, delim_chars, Ghost(prefix), Ghost(delimiter));
        let ghost prev = out@;
        match (class, &entries[i].1) {
            (Some(None), Some(meta)) => {
                proof { lemma_readable_lookup(entries@, q); }
                out.push(ObjectInfo {
                    key: entries[i].0.clone(),
                    last_modified: meta.last_modified,
                    etag: meta.etag.clone(),
                    size: meta.content_length,
                    storage_class: String::from_str("STANDARD"),
                });
                proof {
                    assert forall|j: int| 0 <= j < out@.len() implies exists|q2: int| 0 <= q2 < i + 1 && (#[trigger] out@[j]).key@ == entries@[q2].0@ by {
                        if j < prev.len() {
                            assert(out@[j] == prev[j]);
                            let q2 = choose|q2: int| 0 <= q2 < i && prev[j].key@ == entries@[q2].0@;
                            assert(0 <= q2 < i + 1);
                        } else {
                            assert(out@[j].key@ == entries@[q].0@);
                        }
                    }
                    assert forall|a: int, b: int| 0 <= a < b < out@.len() implies (#[trigger] out@[a]).key@ != (#[trigger] out@[b]).key@ by {
                        if b == prev.len() {
                            assert(out@[a] == prev[a]);
                            let q2 = choose|q2: int| 0 <= q2 < i && prev[a].key@ == entries@[q2].0@;
                            assert(entries@[q2].0@ != entries@[q].0@);
                        } else {
                            assert(out@[a] == prev[a] && out@[b] == prev[b]);
                        }
                    }
                    assert forall|q2: int| 0 <= q2 < i + 1 && entries@[q2].1 is Some && listed((#[trigger] entries@[q2]).0@, prefix, delimiter)
                        implies info_keys(out@).contains(entries@[q2].0@) by {
                        if q2 == q {
                            assert(info_keys(out@)[prev.len() as int] == entries@[q].0@);
                        } else {
                            assert(info_keys(prev).contains(entries@[q2].0@));
                            let j = choose|j: int| 0 <= j < info_keys(prev).len() && info_keys(prev)[j] == entries@[q2].0@;
                            assert(info_keys(out@)[j] == entries@[q2].0@);
                        }
                    }
                }
            },
            _ => {
                proof {
                    assert forall|j: int| 0 <= j < out@.len() implies exists|q2: int| 0 <= q2 < i + 1 && (#[trigger] out@[j]).key@ == entries@[q2].0@ by {
                        let q2 = choose|q2: int| 0 <= q2 < i && out@[j].key@ == entries@[q2].0@;
                        assert(0 <= q2 < i + 1);
                    }
                    assert forall|q2: int| 0 <= q2 < i + 1 && entries@[q2].1 is Some && listed((#[trigger] entries@[q2]).0@, prefix, delimiter)
                        implies info_keys(out@).contains(entries@[q2].0@) by {
                        if q2 == q {
                            assert(!listed(entries@[q].0@, prefix, delimiter) || entries@[q].1 is None);
                        }
                    }
                }
            },
        }
        i = i + 1;
    }
    proof {
        let fs = m.dom().filter(|k: Seq<char>| listed(k, prefix, delimiter));
        assert forall|k: Seq<char>| info_keys(out@).to_set().contains(k) <==> fs.contains(k) by {
            if info_keys(out@).to_set().contains(k) {
                let j = choose|j: int| 0 <= j < info_keys(out@).len() && info_keys(out@)[j] == k;
                assert(good_info(out@[j], m, prefix, delimiter));
            }
            if fs.contains(k) {
                let q = choose|q: int| 0 <= q < entries@.len() && (#[trigger] entries@[q]).0@ == k && entries@[q].1 is Some;
                assert(info_keys(out@).contains(entries@[q].0@));
            }
        }
        assert(info_keys(out@).to_set() =~= fs);
    }
    out
}

/// The listing entries ordered by key.
fn sort_infos(
    v: Vec<ObjectInfo>,
    Ghost(m): Ghost<Map<Seq<char>, MetaView>>,
    Ghost(prefix): Ghost<Option<Seq<char>>>,
    Ghost(delimiter): Ghost<Option<Seq<char>>>,
) -> (r: Vec<ObjectInfo>)
    requires
        forall|j: int| 0 <= j < v@.len() ==> good_info(#[trigger] v@[j], m, prefix, delimiter),
        forall|a: int, b: int| 0 <= a < b < v@.len() ==> (#[trigger] v@[a]).key@ != (#[trigger] v@[b]).key@,
    ensures
        strictly_sorted(info_keys(r@)),
        info_keys(r@).to_set() == info_keys(v@).to_set(),
        forall|j: int| 0 <= j < r@.len() ==> good_info(#[trigger] r@[j], m, prefix, delimiter),
{
    let mut sorted: Vec<ObjectInfo> = Vec::new();
    let ghost orig = v@;
    let mut taken: usize = 0;
    assert(info_keys(sorted@).to_set() =~= info_keys(orig.subrange(0, 0)).to_set());
    while taken < v.len()
        invariant
            orig == v@,
            taken <= orig.len(),
            forall|j: int| 0 <= j < orig.len() ==> good_info(#[trigger] orig[j], m, prefix, delimiter),
            forall|a: int, b: int| 0 <= a < b < orig.len() ==> (#[trigger] orig[a]).key@ != (#[trigger] orig[b]).key@,
            strictly_sorted(info_keys(sorted@)),
            info_keys(sorted@).to_set() == info_keys(orig.subrange(0, taken as int)).to_set(),
            forall|j: int| 0 <= j < sorted@.len() ==> good_info(#[trigger] sorted@[j], m, prefix, delimiter),
        decreases v.len() - taken,
    {
        let o = &v[taken];
        let x = ObjectInfo {
            key: o.key.clone(),
            last_modified: o.last_modified,
            etag: o.etag.clone(),
            size: o.size,
            storage_class: o.storage_class.clone(),
        };
        assert(good_info(orig[taken as int], m, prefix, delimiter));
        assert(good_info(x, m, prefix, delimiter));
        let xc = chars_of(x.key.as_str());
        proof {
            assert forall|y: Seq<char>| info_keys(sorted@).to_set().contains(y) implies y != x.key@ by {
                assert(info_keys(orig.subrange(0, taken as int)).to_set().contains(y));
                let a = choose|a: int| 0 <= a < info_keys(orig.subrange(0, taken as int)).len() && info_keys(orig.subrange(0, taken as int))[a] == y;
                assert(orig.subrange(0, taken as int)[a] == orig[a]);
                assert(orig[a].key@ != orig[taken as int].key@);
            }
        }
        let mut p: usize = 0;
        while p < sorted.len()
            invariant
                p <= sorted@.len(),
                xc@ == x.key@,
                strictly_sorted(info_keys(sorted@)),
                forall|j: int| 0 <= j < p ==> lex_lt((#[trigger] sorted@[j]).key@, x.key@),
            ensures
                p <= sorted@.len(),
                forall|j: int| 0 <= j < p ==> lex_lt((#[trigger] sorted@[j]).key@, x.key@),
                p < sorted@.len() ==> !lex_lt(sorted@[p as int].key@, x.key@),
            decreases sorted.len() - p,
        {
            let sc = chars_of(sorted[p].key.as_str());
            if !lex_less(sc.as_slice(), xc.as_slice()) {
                break;
            }
            p = p + 1;
        }
        let ghost before = sorted@;
        proof {
            if p < before.len() {
                assert(info_keys(before).to_set().contains(before[p as int].key@)) by {
                    assert(info_keys(before)[p as int] == before[p as int].key@);
                }
                lemma_lex_total(before[p as int].key@, x.key@);
                assert(lex_lt(x.key@, before[p as int].key@));
            }
        }
        sorted.insert(p, x);
        proof {
            let nk = info_keys(sorted@);
            let ok = info_keys(before);
            assert(nk =~= ok.insert(p as int, x.key@));
            assert forall|a: int, b: int| 0 <= a < b < nk.len() implies lex_lt(#[trigger] nk[a], #[trigger] nk[b]) by {
                if a < p && b < p {
                    assert(nk[a] == ok[a] && nk[b] == ok[b]);
                } else if a < p && b == p {
                    assert(nk[a] == before[a].key@);
                } else if a < p {
                    assert(nk[a] == ok[a] && nk[b] == ok[b - 1]);
                } else if a == p {
                    assert(nk[b] == ok[b - 1]);
                    if b - 1 > p {
                        assert(lex_lt(ok[p as int], ok[b - 1]));
                        lemma_lex_transitive(x.key@, ok[p as int], ok[b - 1]);
                    }
                } else {
                    assert(nk[a] == ok[a - 1] && nk[b] == ok[b - 1]);
                }
            }
            let pre = info_keys(orig.subrange(0, taken as int));
            let post = info_keys(orig.subrange(0, taken + 1));
            assert(post =~= pre.push(x.key@));
            assert(ok.to_set() == pre.to_set());
            assert forall|y: Seq<char>| nk.to_set().contains(y) <==> post.to_set().contains(y) by {
                if nk.to_set().contains(y) {
                    let a = choose|a: int| 0 <= a < nk.len() && nk[a] == y;
                    if a != p {
                        let a2 = if a < p { a } else { a - 1 };
                        assert(ok[a2] == y);
                        assert(ok.to_set().contains(y));
                        assert(pre.to_set().contains(y));
                        let c = choose|c: int| 0 <= c < pre.len() && pre[c] == y;
                        assert(post[c] == y);
                    } else {
                        assert(post[pre.len() as int] == y);
                    }
                }
                if post.to_set().contains(y) {
                    let a = choose|a: int| 0 <= a < post.len() && post[a] == y;
                    if a < pre.len() {
                        assert(pre[a] == y);
                        assert(pre.to_set().contains(y));
                        assert(ok.to_set().contains(y));
                        let c = choose|c: int| 0 <= c < ok.len() && ok[c] == y;
                        if c < p {
                            assert(nk[c] == y);
                        } else {
                            assert(nk[c + 1] == y);
                        }
                    } else {
                        assert(nk[p as int] == y);
                    }
                }
            }
            assert(nk.to_set() =~= post.to_set());
            assert forall|j: int| 0 <= j < sorted@.len() implies good_info(#[trigger] sorted@[j], m, prefix, delimiter) by {
                if j < p {
                    assert(sorted@[j] == before[j]);
                } else if j > p {
                    assert(sorted@[j] == before[j - 1]);
                }
            }
        }
        taken = taken + 1;
    }
    assert(orig.subrange(0, orig.len() as int) =~= orig);
    sorted
}

/// The distinct prefixes the walked keys kept by the prefix are rolled up into.
fn walked_rolled_prefixes(
    entries: &Vec<(String, Option<ObjectMetadata>)>,
    prefix_chars: &Option<Vec<char>>,
    delim_chars: &Option<Vec<char>>,
    Ghost(prefix): Ghost<Option<Seq<char>>>,
    Ghost(delimiter): Ghost<Option<Seq<char>>>,
) -> (cps: Vec<String>)
    requires
        match prefix_chars { Some(p) => prefix == Some(p@), None => prefix is None },
        match delim_chars { Some(d) => delimiter == Some(d@), None => delimiter is None },
    ensures
        forall|a: int, b: int| 0 <= a < b < cps@.len() ==> (#[trigger] cps@[a])@ != (#[trigger] cps@[b])@,
        forall|cp: Seq<char>| walked_prefixes(entries@, prefix, delimiter).contains(cp)
            <==> exists|i: int| 0 <= i < cps@.len() && (#[trigger] cps@[i])@ == cp,
{
    let mut cps: Vec<String> = Vec::new();
    let mut i: usize = 0;
    while i < entries.len()
        invariant
            match prefix_chars { Some(p) => prefix == Some(p@), None => prefix is None },
            match delim_chars { Some(d) => delimiter == Some(d@), None => delimiter is None },
            i <= entries@.len(),
            forall|a: int, b: int| 0 <= a < b < cps@.len() ==> (#[trigger] cps@[a])@ != (#[trigger] cps@[b])@,
            forall|a: int| 0 <= a < cps@.len() ==> exists|q: int| 0 <= q < i && prefix_selects(prefix, (#[trigger] entries@[q]).0@)
                && rolled_prefix(entries@[q].0@, prefix, delimiter) == Some((#[trigger] cps@[a])@),
            forall|q: int| 0 <= q < i && prefix_selects(prefix, (#[trigger] entries@[q]).0@)
                && rolled_prefix(entries@[q].0@, prefix, delimiter) is Some
                ==> string_in(cps@, rolled_prefix(entries@[q].0@, prefix, delimiter)->0),
        decreases entries.len() - i,
    {
        let ghost q = i as int;
        let kc = chars_of(entries[i].0.as_str());
        let class = classify_key(&kc, prefix_chars, delim_chars, Ghost(prefix), Ghost(delimiter));
        let ghost prev = cps@;
        if let Some(Some(end)) = class {
            let cp = string_from_chars(slice_range(kc.as_slice(), 0, end));
            assert(rolled_prefix(entries@[q].0@, prefix, delimiter) == Some(cp@));
            if !contains_string(&cps, &cp) {
                cps.push(cp);
            }
            proof {
                assert forall|a: int| 0 <= a < cps@.len() implies exists|q2: int| 0 <= q2 < i + 1 && prefix_selects(prefix, (#[trigger] entries@[q2]).0@)
                    && rolled_prefix(entries@[q2].0@, prefix, delimiter) == Some((#[trigger] cps@[a])@) by {
                    if a < prev.len() {
                        assert(cps@[a] == prev[a]);
                        let w = choose|w: int| 0 <= w < i && prefix_selects(prefix, (#[trigger] entries@[w]).0@)
                            && rolled_prefix(entries@[w].0@, prefix, delimiter) == Some((#[trigger] prev[a])@);
                        assert(0 <= w < i + 1);
                    } else {
                        assert(cps@[a]@ == cp@);
                        assert(prefix_selects(prefix, entries@[q].0@));
                    }
                }
                assert forall|q2: int| 0 <= q2 < i + 1 && prefix_selects(prefix, (#[trigger] entries@[q2]).0@)
                    && rolled_prefix(entries@[q2].0@, prefix, delimiter) is Some
                    implies string_in(cps@, rolled_prefix(entries@[q2].0@, prefix, delimiter)->0) by {
                    if q2 == q {
                        if cps@.len() > prev.len() {
                            assert(cps@[prev.len() as int]@ == cp@);
                        }
                    } else {
                        let a = choose|a: int| 0 <= a < prev.len() && (#[trigger] prev[a])@ == rolled_prefix(entries@[q2].0@, prefix, delimiter)->0;
                        assert(cps@[a] == prev[a]);
                    }
                }
                assert forall|a: int, b: int| 0 <= a < b < cps@.len() implies (#[trigger] cps@[a])@ != (#[trigger] cps@[b])@ by {
                    if b == prev.len() {
                        assert(cps@[a] == prev[a]);
                    } else {
                        assert(cps@[a] == prev[a] && cps@[b] == prev[b]);
                    }
                }
            }
        } else {
            proof {
                assert forall|a: int| 0 <= a < cps@.len() implies exists|q2: int| 0 <= q2 < i + 1 && prefix_selects(prefix, (#[trigger] entries@[q2]).0@)
                    && rolled_prefix(entries@[q2].0@, prefix, delimiter) == Some((#[trigger] cps@[a])@) by {
                    let w = choose|w: int| 0 <= w < i && prefix_selects(prefix, (#[trigger] entries@[w]).0@)
                        && rolled_prefix(entries@[w].0@, prefix, delimiter) == Some((#[trigger] cps@[a])@);
                    assert(0 <= w < i + 1);
                }
            }
        }
        i = i + 1;
    }
    proof {
        assert forall|cp: Seq<char>| walked_prefixes(entries@, prefix, delimiter).contains(cp)
            <==> exists|a: int| 0 <= a < cps@.len() && (#[trigger] cps@[a])@ == cp by {
            if walked_prefixes(entries@, prefix, delimiter).contains(cp) {
                let q = choose|q: int| 0 <= q < entries@.len() && prefix_selects(prefix, (#[trigger] entries@[q]).0@)
                    && rolled_prefix(entries@[q].0@, prefix, delimiter) == Some(cp);
                assert(string_in(cps@, cp));
            }
            if exists|a: int| 0 <= a < cps@.len() && (#[trigger] cps@[a])@ == cp {
                let a = choose|a: int| 0 <= a < cps@.len() && (#[trigger] cps@[a])@ == cp;
                let q = choose|q: int| 0 <= q < entries@.len() && prefix_selects(prefix, (#[trigger] entries@[q]).0@)
                    && rolled_prefix(entries@[q].0@, prefix, delimiter) == Some((#[trigger] cps@[a])@);
                assert(walked_prefixes(entries@, prefix, delimiter).contains(cp));
            }
        }
    }
    cps
}

/// Lists the walked object files of a bucket (each key once, with its metadata where it
/// could be read): the readable keys selected by the prefix that the delimiter does not roll
/// up, ascending, at most `max_keys` (1000 by default) of them, and the distinct rolled-up
/// prefixes of all walked keys.
pub fn list_walked_objects(entries: &Vec<(String, Option<ObjectMetadata>)>, params: ListObjectsParams) -> (l: ListObjectsResult)
    requires
        walk_keys_distinct(entries@),
    ensures
        walked_listing_matches(l, entries@, params),
{
    let ghost prefix = opt_view(params.prefix);
    let ghost delimiter = opt_view(params.delimiter);
    let ghost m = readable(entries@);
    let prefix_chars = opt_chars(&params.prefix);
    let delim_chars = opt_chars(&params.delimiter);
    let found = walked_objects(entries, &prefix_chars, &delim_chars, Ghost(prefix), Ghost(delimiter));
    let mut objects = sort_infos(found, Ghost(m), Ghost(prefix), Ghost(delimiter));
    let cps = walked_rolled_prefixes(entries, &prefix_chars, &delim_chars, Ghost(prefix), Ghost(delimiter));
    proof {
        lemma_sorted_seq_of(info_keys(objects@), m.dom().filter(|k: Seq<char>| listed(k, prefix, delimiter)));
        let keys = walked_listing_keys(entries@, prefix, delimiter);
        assert forall|j: int| 0 <= j < objects@.len() implies info_of_meta(#[trigger] objects@[j], keys[j], m[keys[j]]) by {
            assert(info_keys(objects@)[j] == objects@[j].key@);
            assert(good_info(objects@[j], m, prefix, delimiter));
        }
    }
    let max: usize = match params.max_keys {
        Some(n) => n,
        None => 1000,
    };
    let ghost keys = walked_listing_keys(entries@, prefix, delimiter);
    let ghost full = objects@;
    proof {
        assert(keys.len() == full.len());
        assert forall|j: int| 0 <= j < keys.len() implies (#[trigger] full[j]).key@ == keys[j] by {
            assert(info_of_meta(full[j], keys[j], m[keys[j]]));
        }
    }
    let (page, is_truncated, next) = take_page(objects, Ghost(keys), &params.continuation_token, max);
    proof {
        let t = opt_view(params.continuation_token);
        let start = first_after(keys, t);
        lemma_first_after_bounds(keys, t);
        assert forall|j: int| 0 <= j < page@.len() implies info_of_meta(#[trigger] page@[j], keys[start + j], m[keys[start + j]]) by {
            assert(page@[j] == full[start + j]);
        }
    }
    let l = ListObjectsResult {
        objects: page,
        common_prefixes: cps,
        is_truncated,
        next_continuation_token: next,
    };
    proof {
        assert forall|cp: Seq<char>| walked_prefixes(entries@, prefix, delimiter).contains(cp)
            <==> exists|i: int| 0 <= i < l.common_prefixes@.len() && (#[trigger] l.common_prefixes@[i])@ == cp by {
            if walked_prefixes(entries@, prefix, delimiter).contains(cp) {
                let i = choose|i: int| 0 <= i < cps@.len() && (#[trigger] cps@[i])@ == cp;
                assert(l.common_prefixes@[i]@ == cp);
            }
        }
    }
    l
}

/// What the registry records of an uploaded part.
pub struct PartView {
    pub etag: Seq<char>,
    pub size: u64,
}

/// A multipart upload as the registry records it.
pub struct RegisteredUploadView {
    pub bucket: Seq<char>,
    pub key: Seq<char>,
    pub meta: MetaView,
    pub parts: Map<u32, PartView>,
}

/// A multipart upload in progress: where it goes, its metadata, and its parts in ascending
/// part number.
pub struct RegisteredUpload {
    pub bucket: String,
    pub key: String,
    pub upload_id: String,
    pub metadata: ObjectMetadata,
    pub parts: Vec<PartInfo>,
}

/// A part's number.
pub open spec fn info_key() -> spec_fn(PartInfo) -> u32 {
    |p: PartInfo| p.part_number
}

/// What is recorded of a part.
pub open spec fn info_val() -> spec_fn(PartInfo) -> PartView {
    |p: PartInfo| PartView { etag: p.etag@, size: p.size }
}

/// Parts in strictly ascending part number.
pub open spec fn parts_ascending(parts: Seq<PartInfo>) -> bool {
    forall|i: int, j: int| 0 <= i < j < parts.len() ==> (#[trigger] parts[i]).part_number < (#[trigger] parts[j]).part_number
}

impl RegisteredUpload {
    /// The parts by number.
    pub closed spec fn part_map(&self) -> Map<u32, PartView> {
        keyed_map(self.parts@, info_key(), info_val())
    }
}

spec fn reg_key() -> spec_fn(RegisteredUpload) -> Seq<char> {
    |u: RegisteredUpload| u.upload_id@
}

spec fn reg_val() -> spec_fn(RegisteredUpload) -> RegisteredUploadView {
    |u: RegisteredUpload| RegisteredUploadView {
        bucket: u.bucket@,
        key: u.key@,
        meta: u.metadata@,
        parts: keyed_map(u.parts@, info_key(), info_val()),
    }
}

/// Ascending part numbers are distinct.
proof fn lemma_ascending_unique(parts: Seq<PartInfo>)
    requires
        parts_ascending(parts),
    ensures
        keys_unique(parts, info_key()),
{
    assert forall|i: int, j: int| 0 <= i < parts.len() && 0 <= j < parts.len() && i != j
        implies info_key()(parts[i]) != info_key()(parts[j]) by {
        if i < j {
            assert(parts[i].part_number < parts[j].part_number);
        } else {
            assert(parts[j].part_number < parts[i].part_number);
        }
    }
}

/// The multipart uploads in progress, by upload id.
pub struct UploadRegistry {
    uploads: Vec<RegisteredUpload>,
}

impl View for UploadRegistry {
    type V = Map<Seq<char>, RegisteredUploadView>;

    closed spec fn view(&self) -> Map<Seq<char>, RegisteredUploadView> {
        keyed_map(self.uploads@, reg_key(), reg_val())
    }
}

impl UploadRegistry {
    #[verifier::type_invariant]
    spec fn consistent(self) -> bool {
        &&& keys_unique(self.uploads@, reg_key())
        &&& forall|i: int| 0 <= i < self.uploads@.len() ==> parts_ascending(#[trigger] self.uploads@[i].parts@)
    }

    /// An empty registry.
    pub fn new() -> (r: UploadRegistry)
        ensures
            r@ == Map::<Seq<char>, RegisteredUploadView>::empty(),
    {
        let r = UploadRegistry { uploads: Vec::new() };
        assert(r@ =~= Map::<Seq<char>, RegisteredUploadView>::empty());
        r
    }

    fn find(&self, upload_id: &str) -> (r: Option<usize>)
        ensures
            match r {
                Some(i) => i < self.uploads@.len() && self.uploads@[i as int].upload_id@ == upload_id@,
                None => !has_key(self.uploads@, reg_key(), upload_id@),
            },
    {
        let target = String::from_str(upload_id);
        let mut i: usize = 0;
        while i < self.uploads.len()
            invariant
                i <= self.uploads@.len(),
                target@ == upload_id@,
                forall|j: int| 0 <= j < i ==> (#[trigger] self.uploads@[j]).upload_id@ != upload_id@,
            decreases self.uploads.len() - i,
        {
            if self.uploads[i].upload_id == target {
                return Some(i);
            }
            i = i + 1;
        }
        None
    }

    /// Whether upload `upload_id` is in progress.
    pub fn contains(&self, upload_id: &str) -> (b: bool)
        ensures
            b == self@.dom().contains(upload_id@),
    {
        proof { use_type_invariant(self); }
        match self.find(upload_id) {
            Some(i) => {
                proof { lemma_keyed_lookup(self.uploads@, reg_key(), reg_val(), i as int); }
                true
            },
            None => {
                proof { lemma_keyed_absent(self.uploads@, reg_key(), reg_val(), upload_id@); }
                false
            },
        }
    }

    /// Records a new upload under `upload_id`, replacing any upload of that id.
    pub fn create(&mut self, bucket: String, key: String, upload_id: String, metadata: ObjectMetadata)
        ensures
            final(self)@ == old(self)@.insert(upload_id@, RegisteredUploadView {
                bucket: bucket@,
                key: key@,
                meta: metadata@,
                parts: Map::empty(),
            }),
    {
        proof { use_type_invariant(&*self); }
        let upload = RegisteredUpload { bucket, key, upload_id: upload_id.clone(), metadata, parts: Vec::new() };
        assert(keyed_map(upload.parts@, info_key(), info_val()) =~= Map::<u32, PartView>::empty());
        let ghost old_uploads = self.uploads@;
        let pos = self.find(upload_id.as_str());
        let mut list: Vec<RegisteredUpload> = Vec::new();
        std::mem::swap(&mut list, &mut self.uploads);
        match pos {
            Some(j) => {
                proof { lemma_keyed_update(old_uploads, reg_key(), reg_val(), j as int, upload); }
                list.set(j, upload);
            },
            None => {
                proof { lemma_keyed_push(old_uploads, reg_key(), reg_val(), upload); }
                list.push(upload);
            },
        }
        self.uploads = list;
    }

    /// Records part `info` of upload `upload_id`, replacing a part of that number.
    pub fn record_part(&mut self, upload_id: &str, info: PartInfo)
        requires
            old(self)@.dom().contains(upload_id@),
        ensures
            final(self)@ == old(self)@.insert(upload_id@, RegisteredUploadView {
                parts: old(self)@[upload_id@].parts.insert(info.part_number, PartView { etag: info.etag@, size: info.size }),
                ..old(self)@[upload_id@]
            }),
    {
        proof { use_type_invariant(&*self); }
        let ui = match self.find(upload_id) {
            Some(i) => i,
            None => {
                proof { lemma_keyed_absent(self.uploads@, reg_key(), reg_val(), upload_id@); }
                return;
            },
        };
        proof {
            lemma_keyed_lookup(self.uploads@, reg_key(), reg_val(), ui as int);
            lemma_ascending_unique(self.uploads@[ui as int].parts@);
        }
        let ghost old_uploads = self.uploads@;
        let ghost old_parts = self.uploads@[ui as int].parts@;
        let mut list: Vec<RegisteredUpload> = Vec::new();
        std::mem::swap(&mut list, &mut self.uploads);
        let mut upload = list.remove(ui);
        let n = info.part_number;
        let mut p: usize = 0;
        while p < upload.parts.len() && upload.parts[p].part_number < n
            invariant
                upload.parts@ == old_parts,
                parts_ascending(old_parts),
                p <= old_parts.len(),
                forall|j: int| 0 <= j < p ==> (#[trigger] old_parts[j]).part_number < n,
            decreases upload.parts.len() - p,
        {
            p = p + 1;
        }
        let ghost info_v = info;
        if p < upload.parts.len() && upload.parts[p].part_number == n {
            proof { lemma_keyed_update(old_parts, info_key(), info_val(), p as int, info_v); }
            upload.parts.set(p, info);
        } else {
            proof {
                assert forall|j: int| p <= j < old_parts.len() implies n < (#[trigger] old_parts[j]).part_number by {
                    if j > p {
                        assert(old_parts[p as int].part_number < old_parts[j].part_number);
                    }
                }
                assert forall|j: int| 0 <= j < old_parts.len() implies info_key()(#[trigger] old_parts[j]) != n by {}
                lemma_keyed_absent(old_parts, info_key(), info_val(), n);
                lemma_keyed_insert_at(old_parts, p as int, info_v);
            }
            upload.parts.insert(p, info);
        }
        let ghost new_upload = upload;
        list.insert(ui, upload);
        proof {
            assert(list@ =~= old_uploads.update(ui as int, new_upload));
            lemma_keyed_update(old_uploads, reg_key(), reg_val(), ui as int, new_upload);
            assert forall|i: int| 0 <= i < list@.len() implies parts_ascending(#[trigger] list@[i].parts@) by {
                if i != ui {
                    assert(list@[i] == old_uploads[i]);
                }
            }
        }
        self.uploads = list;
    }

    /// Withdraws upload `upload_id`, handing it back, or `None` when there is none.
    pub fn take(&mut self, upload_id: &str) -> (r: Option<RegisteredUpload>)
        ensures
            r is Some <==> old(self)@.dom().contains(upload_id@),
            final(self)@ == old(self)@.remove(upload_id@),
            r matches Some(u) ==> {
                &&& u.bucket@ == old(self)@[upload_id@].bucket
                &&& u.key@ == old(self)@[upload_id@].key
                &&& u.metadata@ == old(self)@[upload_id@].meta
                &&& u.part_map() == old(self)@[upload_id@].parts
                &&& parts_ascending(u.parts@)
            },
    {
        proof { use_type_invariant(&*self); }
        match self.find(upload_id) {
            Some(ui) => {
                let ghost old_uploads = self.uploads@;
                proof {
                    lemma_keyed_lookup(old_uploads, reg_key(), reg_val(), ui as int);
                    lemma_keyed_remove(old_uploads, reg_key(), reg_val(), ui as int);
                }
                let mut list: Vec<RegisteredUpload> = Vec::new();
                std::mem::swap(&mut list, &mut self.uploads);
                let u = list.remove(ui);
                proof {
                    assert forall|i: int| 0 <= i < list@.len() implies parts_ascending(#[trigger] list@[i].parts@) by {
                        if i < ui {
                            assert(list@[i] == old_uploads[i]);
                        } else {
                            assert(list@[i] == old_uploads[i + 1]);
                        }
                    }
                }
                self.uploads = list;
                Some(u)
            },
            None => {
                proof {
                    lemma_keyed_absent(self.uploads@, reg_key(), reg_val(), upload_id@);
                    assert(self@ =~= old(self)@.remove(upload_id@));
                }
                None
            },
        }
    }

    /// The recorded parts of upload `upload_id`, in ascending part number.
    pub fn list_parts(&self, upload_id: &str) -> (r: StorageResult<Vec<PartInfo>>)
        ensures
            r is Ok <==> self@.dom().contains(upload_id@),
            r is Err ==> crate::error::err_of(r) == Some(crate::memory::upload_not_found()),
            r matches Ok(v) ==> parts_ascending(v@) && keyed_map(v@, info_key(), info_val()) == self@[upload_id@].parts,
    {
        proof { use_type_invariant(self); }
        match self.find(upload_id) {
            Some(ui) => {
                proof { lemma_keyed_lookup(self.uploads@, reg_key(), reg_val(), ui as int); }
                let src = &self.uploads[ui].parts;
                let mut v: Vec<PartInfo> = Vec::new();
                let mut i: usize = 0;
                while i < src.len()
                    invariant
                        i <= src@.len(),
                        v@.len() == i,
                        forall|j: int| 0 <= j < i ==> (#[trigger] v@[j]).part_number == src@[j].part_number
                            && v@[j].etag@ == src@[j].etag@ && v@[j].size == src@[j].size,
                    decreases src.len() - i,
                {
                    v.push(PartInfo { part_number: src[i].part_number, etag: src[i].etag.clone(), size: src[i].size });
                    i = i + 1;
                }
                proof {
                    assert(parts_ascending(src@));
                    assert forall|a: int, b: int| 0 <= a < b < v@.len() implies (#[trigger] v@[a]).part_number < (#[trigger] v@[b]).part_number by {
                        assert(src@[a].part_number < src@[b].part_number);
                    }
                    lemma_ascending_unique(v@);
                    lemma_ascending_unique(src@);
                    lemma_same_part_map(v@, src@);
                }
                Ok(v)
            },
            None => {
                proof { lemma_keyed_absent(self.uploads@, reg_key(), reg_val(), upload_id@); }
                Err(StorageError::InternalError(String::from_str("Upload not found")))
            },
        }
    }
}

impl RegisteredUpload {
    /// The first part named in `parts` that this upload lacks.
    pub fn first_missing_part(&self, parts: &Vec<crate::backend::CompletedPart>) -> (r: Option<u32>)
        requires
            parts_ascending(self.parts@),
        ensures
            r == first_missing_number(parts@, self.part_map()),
    {
        proof { lemma_ascending_unique(self.parts@); }
        let mut i: usize = 0;
        assert(parts@.subrange(0, 0) =~= Seq::<crate::backend::CompletedPart>::empty());
        while i < parts.len()
            invariant
                parts_ascending(self.parts@),
                keys_unique(self.parts@, info_key()),
                i <= parts@.len(),
                first_missing_number(parts@.subrange(0, i as int), self.part_map()) is None,
            decreases parts.len() - i,
        {
            let n = parts[i].part_number;
            assert(parts@.subrange(0, i + 1).drop_last() =~= parts@.subrange(0, i as int));
            let mut found = false;
            let mut j: usize = 0;
            while j < self.parts.len()
                invariant
                    j <= self.parts@.len(),
                    keys_unique(self.parts@, info_key()),
                    found ==> has_key(self.parts@, info_key(), n),
                    !found ==> forall|k: int| 0 <= k < j ==> (#[trigger] self.parts@[k]).part_number != n,
                decreases self.parts.len() - j,
            {
                if self.parts[j].part_number == n {
                    found = true;
                }
                j = j + 1;
            }
            if !found {
                proof {
                    lemma_keyed_absent(self.parts@, info_key(), info_val(), n);
                    lemma_first_missing_number_extends(parts@, self.part_map(), i + 1);
                }
                return Some(n);
            }
            proof {
                let k = choose|k: int| 0 <= k < self.parts@.len() && info_key()(#[trigger] self.parts@[k]) == n;
                lemma_keyed_lookup(self.parts@, info_key(), info_val(), k);
            }
            i = i + 1;
        }
        assert(parts@.subrange(0, parts@.len() as int) =~= parts@);
        None
    }
}

/// The first part named in `parts` that `have` lacks.
pub open spec fn first_missing_number(parts: Seq<crate::backend::CompletedPart>, have: Map<u32, PartView>) -> Option<u32>
    decreases parts.len(),
{
    if parts.len() == 0 {
        None
    } else {
        match first_missing_number(parts.drop_last(), have) {
            Some(n) => Some(n),
            None => if have.dom().contains(parts.last().part_number) { None } else { Some(parts.last().part_number) },
        }
    }
}

/// Once a prefix of the named parts has a missing one, so does the whole list.
proof fn lemma_first_missing_number_extends(parts: Seq<crate::backend::CompletedPart>, have: Map<u32, PartView>, k: int)
    requires
        0 <= k <= parts.len(),
        first_missing_number(parts.subrange(0, k), have) is Some,
    ensures
        first_missing_number(parts, have) == first_missing_number(parts.subrange(0, k), have),
    decreases parts.len() - k,
{
    if k < parts.len() {
        assert(parts.subrange(0, k + 1).drop_last() =~= parts.subrange(0, k));
        lemma_first_missing_number_extends(parts, have, k + 1);
    } else {
        assert(parts.subrange(0, k) =~= parts);
    }
}

/// Inserting a part between smaller and larger numbers keeps the numbers ascending.
proof fn lemma_keyed_insert_at(parts: Seq<PartInfo>, p: int, info: PartInfo)
    requires
        parts_ascending(parts),
        0 <= p <= parts.len(),
        forall|j: int| 0 <= j < p ==> (#[trigger] parts[j]).part_number < info.part_number,
        forall|j: int| p <= j < parts.len() ==> info.part_number < (#[trigger] parts[j]).part_number,
    ensures
        parts_ascending(parts.insert(p, info)),
        keyed_map(parts.insert(p, info), info_key(), info_val()) == keyed_map(parts, info_key(), info_val()).insert(info.part_number, info_val()(info)),
{
    let t = parts.insert(p, info);
    assert forall|a: int| 0 <= a < t.len() implies #[trigger] t[a] == (if a < p { parts[a] } else if a == p { info } else { parts[a - 1] }) by {}
    assert forall|a: int, b: int| 0 <= a < b < t.len() implies (#[trigger] t[a]).part_number < (#[trigger] t[b]).part_number by {
        if a < p && b < p {
        } else if a < p && b == p {
        } else if a < p {
            assert(t[b] == parts[b - 1]);
        } else if a == p {
            assert(t[b] == parts[b - 1]);
        } else {
            assert(t[a] == parts[a - 1] && t[b] == parts[b - 1]);
        }
    }
    lemma_ascending_unique(parts);
    assert forall|j: int| 0 <= j < parts.len() implies info_key()(#[trigger] parts[j]) != info.part_number by {
        if j < p {
        } else {
        }
    }
    crate::keyed::lemma_keyed_insert(parts, info_key(), info_val(), p, info);
}

/// Two part lists with the same numbers, tags and sizes at each position describe the same parts.
proof fn lemma_same_part_map(a: Seq<PartInfo>, b: Seq<PartInfo>)
    requires
        a.len() == b.len(),
        forall|j: int| 0 <= j < a.len() ==> (#[trigger] a[j]).part_number == b[j].part_number
            && a[j].etag@ == b[j].etag@ && a[j].size == b[j].size,
        keys_unique(a, info_key()),
        keys_unique(b, info_key()),
    ensures
        keyed_map(a, info_key(), info_val()) == keyed_map(b, info_key(), info_val()),
{
    let ma = keyed_map(a, info_key(), info_val());
    let mb = keyed_map(b, info_key(), info_val());
    assert forall|n: u32| ma.dom().contains(n) <==> mb.dom().contains(n) by {
        if ma.dom().contains(n) {
            let j = choose|j: int| 0 <= j < a.len() && info_key()(#[trigger] a[j]) == n;
            assert(info_key()(b[j]) == n);
        }
        if mb.dom().contains(n) {
            let j = choose|j: int| 0 <= j < b.len() && info_key()(#[trigger] b[j]) == n;
            assert(info_key()(a[j]) == n);
        }
    }
    assert forall|n: u32| ma.dom().contains(n) implies ma[n] == mb[n] by {
        let j = choose|j: int| 0 <= j < a.len() && info_key()(#[trigger] a[j]) == n;
        lemma_keyed_lookup(a, info_key(), info_val(), j);
        lemma_keyed_lookup(b, info_key(), info_val(), j);
    }
    assert(ma =~= mb);
}

/// The statistics of a set of bucket listings: the number of buckets, and the number and total
/// size of the listed objects; `None` when a total does not fit in 64 bits.
pub open spec fn listed_objects_total(listings: Seq<ListObjectsResult>) -> nat
    decreases listings.len(),
{
    if listings.len() == 0 {
        0
    } else {
        listed_objects_total(listings.drop_last()) + listings.last().objects@.len()
    }
}

/// The total size of listed objects.
pub open spec fn info_sizes(objs: Seq<ObjectInfo>) -> nat
    decreases objs.len(),
{
    if objs.len() == 0 {
        0
    } else {
        info_sizes(objs.drop_last()) + objs.last().size as nat
    }
}

/// The total size of the objects of all listings.
pub open spec fn listed_size_total(listings: Seq<ListObjectsResult>) -> nat
    decreases listings.len(),
{
    if listings.len() == 0 {
        0
    } else {
        listed_size_total(listings.drop_last()) + info_sizes(listings.last().objects@)
    }
}

/// Totals the listings of `buckets` buckets into storage statistics, or `None` when a total
/// exceeds 64 bits.
pub fn tally_stats(buckets: usize, listings: &Vec<ListObjectsResult>) -> (r: Option<StorageStats>)
    ensures
        (listed_objects_total(listings@) <= u64::MAX && listed_size_total(listings@) <= u64::MAX) <==> r is Some,
        r matches Some(s) ==> s.total_buckets == buckets as u64
            && s.total_objects == listed_objects_total(listings@)
            && s.total_size_bytes == listed_size_total(listings@),
{
    let mut objects: u64 = 0;
    let mut size: u64 = 0;
    let mut i: usize = 0;
    assert(listings@.subrange(0, 0) =~= Seq::<ListObjectsResult>::empty());
    while i < listings.len()
        invariant
            i <= listings@.len(),
            objects == listed_objects_total(listings@.subrange(0, i as int)),
            size == listed_size_total(listings@.subrange(0, i as int)),
        decreases listings.len() - i,
    {
        let ghost pre = listings@.subrange(0, i as int);
        let ghost post = listings@.subrange(0, i + 1);
        assert(post.drop_last() =~= pre);
        let objs = &listings[i].objects;
        let n = objs.len() as u64;
        if objects > u64::MAX - n {
            proof { lemma_totals_grow(listings@, i + 1); }
            return None;
        }
        objects = objects + n;
        let mut j: usize = 0;
        let ghost base = size;
        assert(objs@.subrange(0, 0) =~= Seq::<ObjectInfo>::empty());
        while j < objs.len()
            invariant
                j <= objs@.len(),
                size == base + info_sizes(objs@.subrange(0, j as int)),
                i < listings@.len(),
                objs@ == listings@[i as int].objects@,
                pre == listings@.subrange(0, i as int),
                post == listings@.subrange(0, i + 1),
                post.drop_last() == pre,
                base == listed_size_total(pre),
            decreases objs.len() - j,
        {
            assert(objs@.subrange(0, j + 1).drop_last() =~= objs@.subrange(0, j as int));
            if size > u64::MAX - objs[j].size {
                proof {
                    lemma_sizes_grow(objs@, j + 1);
                    assert(objs@.subrange(0, objs@.len() as int) =~= objs@);
                    assert(listed_size_total(post) == base + info_sizes(objs@));
                    lemma_totals_grow(listings@, i + 1);
                }
                return None;
            }
            size = size + objs[j].size;
            j = j + 1;
        }
        assert(objs@.subrange(0, objs@.len() as int) =~= objs@);
        i = i + 1;
    }
    assert(listings@.subrange(0, listings@.len() as int) =~= listings@);
    Some(StorageStats { total_buckets: buckets as u64, total_objects: objects, total_size_bytes: size })
}

/// Totals over a prefix of the listings are at most the totals over all of them.
proof fn lemma_totals_grow(listings: Seq<ListObjectsResult>, k: int)
    requires
        0 <= k <= listings.len(),
    ensures
        listed_objects_total(listings.subrange(0, k)) <= listed_objects_total(listings),
        listed_size_total(listings.subrange(0, k)) <= listed_size_total(listings),
    decreases listings.len() - k,
{
    if k < listings.len() {
        assert(listings.subrange(0, k + 1).drop_last() =~= listings.subrange(0, k));
        lemma_totals_grow(listings, k + 1);
    } else {
        assert(listings.subrange(0, k) =~= listings);
    }
}

/// Sizes over a prefix of the objects are at most the sizes over all of them.
proof fn lemma_sizes_grow(objs: Seq<ObjectInfo>, k: int)
    requires
        0 <= k <= objs.len(),
    ensures
        info_sizes(objs.subrange(0, k)) <= info_sizes(objs),
    decreases objs.len() - k,
{
    if k < objs.len() {
        assert(objs.subrange(0, k + 1).drop_last() =~= objs.subrange(0, k));
        lemma_sizes_grow(objs, k + 1);
    } else {
        assert(objs.subrange(0, k) =~= objs);
    }
}


/// The two backends list alike: where the walked files are exactly the objects of a stored
/// bucket (each readable, with the stored metadata), a filesystem listing of them is a
/// memory listing of that bucket under the same parameters.
pub proof fn lemma_walked_listing_agrees(
    entries: Seq<(String, Option<ObjectMetadata>)>,
    objs: Map<Seq<char>, crate::memory::StoredView>,
    params: ListObjectsParams,
    l: ListObjectsResult,
)
    requires
        objs.dom().finite(),
        forall|i: int| 0 <= i < entries.len() ==> (#[trigger] entries[i]).1 is Some
            && objs.dom().contains(entries[i].0@)
            && objs[entries[i].0@].meta == entries[i].1->0@,
        forall|k: Seq<char>| #[trigger] objs.dom().contains(k) ==> exists|i: int| 0 <= i < entries.len() && (#[trigger] entries[i]).0@ == k,
        walked_listing_matches(l, entries, params),
    ensures
        crate::memory::listing_matches(l, objs, params),
{
    let prefix = opt_view(params.prefix);
    let delimiter = opt_view(params.delimiter);
    let m = readable(entries);
    assert forall|k: Seq<char>| m.dom().contains(k) <==> objs.dom().contains(k) by {
        if objs.dom().contains(k) {
            let i = choose|i: int| 0 <= i < entries.len() && (#[trigger] entries[i]).0@ == k;
            assert(readable_at(entries, k));
        }
    }
    assert(m.dom() =~= objs.dom());
    assert forall|k: Seq<char>| #[trigger] m.dom().contains(k) implies m[k] == objs[k].meta by {
        let i = choose|i: int| 0 <= i < entries.len() && (#[trigger] entries[i]).0@ == k && entries[i].1 is Some;
    }
    let fset = objs.dom().filter(|k: Seq<char>| listed(k, prefix, delimiter));
    assert(m.dom().filter(|k: Seq<char>| listed(k, prefix, delimiter)) =~= fset);
    let keys = walked_listing_keys(entries, prefix, delimiter);
    assert(keys == crate::memory::listing_keys(objs, prefix, delimiter));
    objs.dom().lemma_len_filter(|k: Seq<char>| listed(k, prefix, delimiter));
    crate::keyed::lemma_sorted_seq_of_finite(fset);
    let t = opt_view(params.continuation_token);
    let start = first_after(keys, t);
    lemma_first_after_bounds(keys, t);
    assert forall|i: int| 0 <= i < l.objects@.len() implies crate::memory::info_of(#[trigger] l.objects@[i], keys[start + i],
        objs[keys[start + i]]) by {
        assert(info_of_meta(l.objects@[i], keys[start + i], m[keys[start + i]]));
        assert(keys.to_set().contains(keys[start + i]));
    }
    assert forall|cp: Seq<char>| walked_prefixes(entries, prefix, delimiter).contains(cp)
        <==> crate::memory::common_prefix_set(objs, prefix, delimiter).contains(cp) by {
        if walked_prefixes(entries, prefix, delimiter).contains(cp) {
            let i = choose|i: int| 0 <= i < entries.len() && prefix_selects(prefix, (#[trigger] entries[i]).0@)
                && rolled_prefix(entries[i].0@, prefix, delimiter) == Some(cp);
            assert(objs.dom().contains(entries[i].0@));
        }
        if crate::memory::common_prefix_set(objs, prefix, delimiter).contains(cp) {
            let k = choose|k: Seq<char>| #[trigger] objs.dom().contains(k) && prefix_selects(prefix, k)
                && rolled_prefix(k, prefix, delimiter) == Some(cp);
            let i = choose|i: int| 0 <= i < entries.len() && (#[trigger] entries[i]).0@ == k;
            assert(prefix_selects(prefix, entries[i].0@) && rolled_prefix(entries[i].0@, prefix, delimiter) == Some(cp));
        }
    }
}
} // verus!
