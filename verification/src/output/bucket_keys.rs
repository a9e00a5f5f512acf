//! The cross-layer bucket keys: per non-edge bucket, every distinct key (deduplicated, engine order
//! kept, never truncated) and beside each the first call site that backs it.
use vstd::prelude::*;

use crate::graph::join::model::{BucketItem, JoinAnalysis};
use crate::output::rule_prose::template::strs;
use crate::text::{dec, owned, push_char, push_dec, push_str, str_eq};

verus! {

broadcast use vstd::seq_lib::group_seq_properties;

/// An item's key: its `key`, or for an unresolved consume its `raw` expression; `None` when it has
/// neither (never guessed).
pub open spec fn item_key(it: BucketItem) -> Option<Seq<char>> {
    match it.key {
        Some(k) => Some(k@),
        None => match it.raw {
            Some(r) => Some(r@),
            None => None,
        },
    }
}

/// An item's call site, `file:line`, or `None` when it lacks either.
pub open spec fn item_site(it: BucketItem) -> Option<Seq<char>> {
    match (it.file, it.line) {
        (Some(f), Some(l)) => Some(f@ + ":"@ + dec(l as nat)),
        _ => None,
    }
}

/// The keys of a key list.
pub open spec fn keys_of(r: Seq<(Seq<char>, Option<Seq<char>>)>) -> Seq<Seq<char>> {
    r.map_values(|p: (Seq<char>, Option<Seq<char>>)| p.0)
}

/// The distinct keys of `items` in order of first appearance, each with the site of the item that
/// first carried it.
pub open spec fn key_sites(items: Seq<BucketItem>) -> Seq<(Seq<char>, Option<Seq<char>>)>
    decreases items.len(),
{
    if items.len() == 0 {
        Seq::empty()
    } else {
        let r = key_sites(items.drop_last());
        match item_key(items.last()) {
            None => r,
            Some(k) => if keys_of(r).contains(k) {
                r
            } else {
                r.push((k, item_site(items.last())))
            },
        }
    }
}

/// Whether some item of `items` carries key `k`.
pub open spec fn carried(items: Seq<BucketItem>, k: Seq<char>) -> bool {
    exists|i: int| 0 <= i < items.len() && item_key(#[trigger] items[i]) == Some(k)
}

/// Position `i` is the first item of `items` carrying key `k`.
pub open spec fn first_carrier(items: Seq<BucketItem>, k: Seq<char>, i: int) -> bool {
    &&& 0 <= i < items.len()
    &&& item_key(items[i]) == Some(k)
    &&& forall|j: int| 0 <= j < i ==> item_key(#[trigger] items[j]) != Some(k)
}

proof fn lemma_first_carrier_extends(items: Seq<BucketItem>, k: Seq<char>, i: int)
    requires
        items.len() > 0,
        first_carrier(items.drop_last(), k, i),
    ensures
        first_carrier(items, k, i),
{
    let pre = items.drop_last();
    assert(items[i] == pre[i]);
    assert forall|j: int| 0 <= j < i implies item_key(#[trigger] items[j]) != Some(k) by {
        assert(items[j] == pre[j]);
        assert(item_key(pre[j]) != Some(k));
    }
}

/// Key `p.0`'s site `p.1` is that of the first item carrying the key.
pub open spec fn sited(items: Seq<BucketItem>, p: (Seq<char>, Option<Seq<char>>)) -> bool {
    exists|i: int| first_carrier(items, p.0, i) && p.1 == item_site(items[i])
}

/// A bucket's key list is deduplicated and never truncated: no key is listed twice, a key is
/// listed exactly when some item carries it, and each key's site is that of the first item
/// carrying it.
pub proof fn law_bucket_keys_are_distinct_and_complete(items: Seq<BucketItem>)
    ensures
        keys_of(key_sites(items)).no_duplicates(),
        forall|k: Seq<char>| keys_of(key_sites(items)).contains(k) <==> carried(items, k),
        forall|q: int| 0 <= q < key_sites(items).len() ==> sited(items, #[trigger] key_sites(items)[q]),
    decreases items.len(),
{
    if items.len() > 0 {
        let pre = items.drop_last();
        law_bucket_keys_are_distinct_and_complete(pre);
        let r = key_sites(pre);
        let last = items.last();
        assert forall|j: int| 0 <= j < pre.len() implies #[trigger] pre[j] == items[j] by {}
        assert forall|k: Seq<char>| carried(items, k) <==> (carried(pre, k) || item_key(last) == Some(k)) by {
            if carried(items, k) {
                let i = choose|i: int| 0 <= i < items.len() && item_key(#[trigger] items[i]) == Some(k);
                if i < pre.len() {
                    assert(item_key(pre[i]) == Some(k));
                }
            }
            if carried(pre, k) {
                let i = choose|i: int| 0 <= i < pre.len() && item_key(#[trigger] pre[i]) == Some(k);
                assert(item_key(items[i]) == Some(k));
            }
            if item_key(last) == Some(k) {
                assert(item_key(items[items.len() - 1]) == Some(k));
            }
        }
        assert forall|q: int| 0 <= q < r.len() implies sited(items, #[trigger] r[q]) by {
            assert(sited(pre, r[q]));
            let i = choose|i: int| first_carrier(pre, r[q].0, i) && r[q].1 == item_site(pre[i]);
            lemma_first_carrier_extends(items, r[q].0, i);
            assert(pre[i] == items[i]);
        }
        match item_key(last) {
            None => {
                assert(key_sites(items) == r);
            },
            Some(k) => {
                if !keys_of(r).contains(k) {
                    let r2 = r.push((k, item_site(last)));
                    assert(keys_of(r2) =~= keys_of(r).push(k));
                    assert(!carried(pre, k));
                    let n = items.len() - 1;
                    assert(first_carrier(items, k, n)) by {
                        assert forall|j: int| 0 <= j < n implies item_key(#[trigger] items[j]) != Some(k) by {
                            if item_key(items[j]) == Some(k) {
                                assert(item_key(pre[j]) == Some(k));
                            }
                        }
                    }
                    assert forall|q: int| 0 <= q < r2.len() implies sited(items, #[trigger] r2[q]) by {
                        if q == r.len() {
                            assert(r2[q].0 == k);
                            assert(items[n] == last);
                            assert(first_carrier(items, r2[q].0, n) && r2[q].1 == item_site(items[n]));
                        } else {
                            assert(r2[q] == r[q]);
                            assert(sited(items, r[q]));
                            let i = choose|i: int| first_carrier(items, r[q].0, i) && r[q].1 == item_site(items[i]);
                            assert(first_carrier(items, r2[q].0, i) && r2[q].1 == item_site(items[i]));
                        }
                    }
                    assert(key_sites(items) == r2);
                } else {
                    assert(key_sites(items) == r);
                }
            },
        }
    }
}

/// One bucket's distinct keys and, position for position, their first sites.
pub struct BucketKeyList {
    pub keys: Vec<String>,
    pub sites: Vec<Option<String>>,
}

/// The views of optional texts.
pub open spec fn opt_strs(v: Seq<Option<String>>) -> Seq<Option<Seq<char>>> {
    v.map_values(|o: Option<String>| match o {
        Some(s) => Some(s@),
        None => None,
    })
}

/// `l` lists exactly `key_sites(items)`.
pub open spec fn lists(l: BucketKeyList, items: Seq<BucketItem>) -> bool {
    &&& l.keys@.len() == l.sites@.len()
    &&& l.keys@.len() == key_sites(items).len()
    &&& forall|i: int| 0 <= i < l.keys@.len() ==> (#[trigger] strs(l.keys@)[i]) == key_sites(items)[i].0
        && opt_strs(l.sites@)[i] == key_sites(items)[i].1
}

/// Whether `k` is among the texts of `v`.
fn has_text(v: &Vec<String>, k: &str) -> (r: bool)
    ensures
        r == strs(v@).contains(k@),
{
    let mut i: usize = 0;
    while i < v.len()
        invariant
            i <= v@.len(),
            forall|j: int| 0 <= j < i ==> (#[trigger] v@[j])@ != k@,
        decreases v@.len() - i,
    {
        if str_eq(v[i].as_str(), k) {
            proof {
                assert(strs(v@)[i as int] == k@);
            }
            return true;
        }
        i = i + 1;
    }
    proof {
        if strs(v@).contains(k@) {
            let j = choose|j: int| 0 <= j < strs(v@).len() && strs(v@)[j] == k@;
            assert(v@[j]@ == k@);
        }
    }
    false
}

/// The `file:line` site of an item, when it has both.
fn site_of(it: &BucketItem) -> (r: Option<String>)
    ensures
        match r {
            Some(s) => item_site(*it) == Some(s@),
            None => item_site(*it) is None,
        },
{
    match (&it.file, it.line) {
        (Some(f), Some(l)) => {
            let mut s = owned(f.as_str());
            push_char(&mut s, ':');
            push_dec(&mut s, l);
            proof {
                reveal_strlit(":");
                assert(s@ =~= f@ + ":"@ + dec(l as nat));
            }
            Some(s)
        },
        _ => None,
    }
}

/// One bucket's distinct keys and their first sites, uncapped.
pub fn bucket_key_list(items: &Vec<BucketItem>) -> (r: BucketKeyList)
    ensures
        lists(r, items@),
{
    let mut keys: Vec<String> = Vec::new();
    let mut sites: Vec<Option<String>> = Vec::new();
    let mut i: usize = 0;
    while i < items.len()
        invariant
            i <= items@.len(),
            lists(BucketKeyList { keys, sites }, items@.subrange(0, i as int)),
        decreases items@.len() - i,
    {
        let ghost pre = items@.subrange(0, i as int);
        let ghost next = items@.subrange(0, i + 1);
        proof {
            assert(next.drop_last() =~= pre);
            assert(next.last() == items@[i as int]);
        }
        let it = &items[i];
        let key: Option<&String> = match &it.key {
            Some(k) => Some(k),
            None => match &it.raw {
                Some(r) => Some(r),
                None => None,
            },
        };
        match key {
            None => {},
            Some(k) => {
                proof {
                    assert(keys_of(key_sites(pre)) =~= strs(keys@));
                }
                if !has_text(&keys, k.as_str()) {
                    let site = site_of(it);
                    let ghost ks = keys@;
                    let ghost ss = sites@;
                    keys.push(owned(k.as_str()));
                    sites.push(site);
                    proof {
                        assert(strs(keys@) =~= strs(ks).push(k@));
                        assert(opt_strs(sites@) =~= opt_strs(ss).push(item_site(items@[i as int])));
                        assert(key_sites(next) =~= key_sites(pre).push((k@, item_site(items@[i as int]))));
                    }
                }
            },
        }
        i = i + 1;
    }
    proof {
        assert(items@.subrange(0, items@.len() as int) =~= items@);
    }
    BucketKeyList { keys, sites }
}

/// The five non-edge buckets' key lists, in engine order, each under its bucket name.
pub fn bucket_keys(a: &JoinAnalysis) -> (r: Vec<(String, BucketKeyList)>)
    ensures
        r@.len() == 5,
        r@[0].0@ == "unconsumedProvides"@ && lists(r@[0].1, a.unconsumed_provides@),
        r@[1].0@ == "unprovidedConsumes"@ && lists(r@[1].1, a.unprovided_consumes@),
        r@[2].0@ == "unresolvedConsumes"@ && lists(r@[2].1, a.unresolved_consumes@),
        r@[3].0@ == "externalConsumes"@ && lists(r@[3].1, a.external_consumes@),
        r@[4].0@ == "ambiguousConsumes"@ && lists(r@[4].1, a.ambiguous_consumes@),
{
    let mut r: Vec<(String, BucketKeyList)> = Vec::new();
    r.push((owned("unconsumedProvides"), bucket_key_list(&a.unconsumed_provides)));
    r.push((owned("unprovidedConsumes"), bucket_key_list(&a.unprovided_consumes)));
    r.push((owned("unresolvedConsumes"), bucket_key_list(&a.unresolved_consumes)));
    r.push((owned("externalConsumes"), bucket_key_list(&a.external_consumes)));
    r.push((owned("ambiguousConsumes"), bucket_key_list(&a.ambiguous_consumes)));
    r
}

} // verus!
