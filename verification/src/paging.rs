//! Pages of object listings: a listing reports the keys after its continuation token, at
//! most `max_keys` of them, and when it is cut short it hands back the last key it reported
//! as the token that continues it.

use vstd::prelude::*;
use crate::keyed::strictly_sorted;
use crate::model::ObjectInfo;
use crate::text::{chars_of, lemma_lex_irreflexive, lemma_lex_transitive, lex_less, lex_lt};
use crate::time::opt_view;

verus! {

/// A key comes after the continuation token; without a token every key does.
pub open spec fn after_token(t: Option<Seq<char>>, k: Seq<char>) -> bool {
    match t {
        Some(t) => lex_lt(t, k),
        None => true,
    }
}

/// The index of the first of `keys` that comes after the token (the length if none does).
pub open spec fn first_after(keys: Seq<Seq<char>>, t: Option<Seq<char>>) -> int
    decreases keys.len(),
{
    if keys.len() == 0 {
        0
    } else if after_token(t, keys[0]) {
        0
    } else {
        1 + first_after(keys.drop_first(), t)
    }
}

/// How many keys a page reports: those from the first after the token, at most `max`.
pub open spec fn page_len(keys: Seq<Seq<char>>, t: Option<Seq<char>>, max: int) -> int {
    let rest = keys.len() - first_after(keys, t);
    if rest <= max { rest } else { max }
}

/// A page is cut short when more than `max` keys come after the token.
pub open spec fn page_truncated(keys: Seq<Seq<char>>, t: Option<Seq<char>>, max: int) -> bool {
    keys.len() - first_after(keys, t) > max
}

/// The token a page hands back: none when the page is complete; else the last key it
/// reported, or, when it reported none (`max` is 0), the token it was given.
pub open spec fn next_token(keys: Seq<Seq<char>>, t: Option<Seq<char>>, max: int) -> Option<Seq<char>> {
    if !page_truncated(keys, t, max) {
        None
    } else if page_len(keys, t, max) > 0 {
        Some(keys[first_after(keys, t) + page_len(keys, t, max) - 1])
    } else {
        t
    }
}

/// `first_after` lies within the keys, and no key before it comes after the token.
pub proof fn lemma_first_after_bounds(keys: Seq<Seq<char>>, t: Option<Seq<char>>)
    ensures
        0 <= first_after(keys, t) <= keys.len(),
        forall|i: int| 0 <= i < first_after(keys, t) ==> !after_token(t, #[trigger] keys[i]),
        first_after(keys, t) < keys.len() ==> after_token(t, keys[first_after(keys, t)]),
    decreases keys.len(),
{
    if keys.len() > 0 && !after_token(t, keys[0]) {
        let rest = keys.drop_first();
        lemma_first_after_bounds(rest, t);
        assert forall|i: int| 0 <= i < first_after(keys, t) implies !after_token(t, #[trigger] keys[i]) by {
            if i > 0 {
                assert(keys[i] == rest[i - 1]);
            }
        }
    }
}

/// The first index at which a key comes after the token, where all keys before it do not.
proof fn lemma_first_after_at(keys: Seq<Seq<char>>, t: Option<Seq<char>>, n: int)
    requires
        0 <= n <= keys.len(),
        forall|i: int| 0 <= i < n ==> !after_token(t, #[trigger] keys[i]),
        n < keys.len() ==> after_token(t, keys[n]),
    ensures
        first_after(keys, t) == n,
    decreases n,
{
    if n > 0 {
        let rest = keys.drop_first();
        assert(!after_token(t, keys[0]));
        assert forall|i: int| 0 <= i < n - 1 implies !after_token(t, #[trigger] rest[i]) by {
            assert(rest[i] == keys[i + 1]);
        }
        if n < keys.len() {
            assert(rest[n - 1] == keys[n]);
        }
        lemma_first_after_at(rest, t, n - 1);
    }
}

/// Of ascending keys, those before `first_after` are not after the token and all the others
/// are: a page reports exactly the keys after its token.
pub proof fn lemma_page_after_token(keys: Seq<Seq<char>>, t: Option<Seq<char>>)
    requires
        strictly_sorted(keys),
    ensures
        forall|i: int| 0 <= i < keys.len() ==> (after_token(t, #[trigger] keys[i]) <==> i >= first_after(keys, t)),
{
    lemma_first_after_bounds(keys, t);
    let s = first_after(keys, t);
    assert forall|i: int| 0 <= i < keys.len() implies (after_token(t, #[trigger] keys[i]) <==> i >= s) by {
        if i > s {
            if let Some(tk) = t {
                lemma_lex_transitive(tk, keys[s], keys[i]);
            }
        }
    }
}

/// A page that was cut short after reporting some keys hands back a token with which the
/// next page starts right after the last key reported.
pub proof fn lemma_next_page_continues(keys: Seq<Seq<char>>, t: Option<Seq<char>>, max: int)
    requires
        strictly_sorted(keys),
        page_truncated(keys, t, max),
        page_len(keys, t, max) > 0,
    ensures
        first_after(keys, next_token(keys, t, max)) == first_after(keys, t) + page_len(keys, t, max),
{
    lemma_first_after_bounds(keys, t);
    let last = first_after(keys, t) + page_len(keys, t, max) - 1;
    let t2 = next_token(keys, t, max);
    assert(t2 == Some(keys[last]));
    assert forall|i: int| 0 <= i < last + 1 implies !after_token(t2, #[trigger] keys[i]) by {
        if i < last {
            assert(lex_lt(keys[i], keys[last]));
            if lex_lt(keys[last], keys[i]) {
                lemma_lex_transitive(keys[i], keys[last], keys[i]);
                lemma_lex_irreflexive(keys[i]);
            }
        } else {
            lemma_lex_irreflexive(keys[last]);
        }
    }
    assert(lex_lt(keys[last], keys[last + 1]));
    lemma_first_after_at(keys, t2, last + 1);
}

/// Whether object key `k` comes after the token `t`.
fn key_after_token(t: &Option<Vec<char>>, k: &str) -> (b: bool)
    ensures
        b == after_token(match t { Some(v) => Some(v@), None => None }, k@),
{
    match t {
        Some(tv) => {
            let kc = chars_of(k);
            lex_less(tv.as_slice(), kc.as_slice())
        },
        None => true,
    }
}

/// Cuts one page out of a complete ascending listing `all`, whose keys are `keys`: the
/// objects after the token, at most `max` of them; whether more follow; and the token that
/// continues the listing.
pub(crate) fn take_page(
    all: Vec<ObjectInfo>,
    Ghost(keys): Ghost<Seq<Seq<char>>>,
    token: &Option<String>,
    max: usize,
) -> (r: (Vec<ObjectInfo>, bool, Option<String>))
    requires
        all@.len() == keys.len(),
        forall|j: int| 0 <= j < keys.len() ==> (#[trigger] all@[j]).key@ == keys[j],
    ensures
        ({
            let t = opt_view(*token);
            let start = first_after(keys, t);
            &&& r.0@ == all@.subrange(start, start + page_len(keys, t, max as int))
            &&& r.1 == page_truncated(keys, t, max as int)
            &&& opt_view(r.2) == next_token(keys, t, max as int)
        }),
{
    let ghost t = opt_view(*token);
    let tchars: Option<Vec<char>> = match token {
        Some(s) => Some(chars_of(s.as_str())),
        None => None,
    };
    assert(match tchars { Some(v) => Some(v@), None => None::<Seq<char>> } == t);
    let mut all = all;
    let n = all.len();
    let mut i: usize = 0;
    while i < n && !key_after_token(&tchars, all[i].key.as_str())
        invariant
            n == all@.len() == keys.len(),
            i <= n,
            forall|j: int| 0 <= j < keys.len() ==> (#[trigger] all@[j]).key@ == keys[j],
            forall|j: int| 0 <= j < i ==> !after_token(t, #[trigger] keys[j]),
            match tchars { Some(v) => Some(v@), None => None::<Seq<char>> } == t,
        decreases n - i,
    {
        assert(all@[i as int].key@ == keys[i as int]);
        i = i + 1;
    }
    proof {
        if i < n {
            assert(all@[i as int].key@ == keys[i as int]);
        }
        lemma_first_after_at(keys, t, i as int);
    }
    let ghost whole = all@;
    let mut page = all.split_off(i);
    let rest = n - i;
    let truncated = rest > max;
    let count = if truncated { max } else { rest };
    page.truncate(count);
    assert(page@ =~= whole.subrange(i as int, i + count));
    let next: Option<String> = if !truncated {
        None
    } else if count > 0 {
        assert(page@[count - 1] == whole[i + count - 1]);
        Some(page[count - 1].key.clone())
    } else {
        match token {
            Some(s) => Some(s.clone()),
            None => None,
        }
    };
    (page, truncated, next)
}

} // verus!
