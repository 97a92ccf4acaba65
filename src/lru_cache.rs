use vstd::prelude::*;

use crate::entry::FileInfo;

verus! {

/// `lru::LruCache`, held opaque: its contents are given by [`lru_entries`]
/// and its capacity by [`lru_cap`].
#[verifier::external_type_specification]
#[verifier::external_body]
#[verifier::reject_recursive_types(K)]
#[verifier::reject_recursive_types(V)]
#[verifier::reject_recursive_types(S)]
pub struct ExLruCache<K, V, S>(lru::LruCache<K, V, S>);

/// The hasher that `lru::LruCache` uses by default, held opaque.
#[verifier::external_type_specification]
#[verifier::external_body]
pub struct ExDefaultHasher(lru::DefaultHasher);

/// The largest capacity a cache is made with.
pub const MAX_CAPACITY: usize = usize::MAX / 64;

/// The cache used for directory listings.
pub type ListingLru = lru::LruCache<String, Vec<FileInfo>>;

/// What an `lru::LruCache` holds: its `(key, value)` pairs, from the least
/// recently used one (index 0) to the most recently used one (the last).
pub uninterp spec fn lru_entries(c: ListingLru) -> Seq<(Seq<char>, Seq<FileInfo>)>;

/// The capacity an `lru::LruCache` was made with.
pub uninterp spec fn lru_cap(c: ListingLru) -> nat;

/// Relies on `lru::LruCache::new`: an empty cache that holds at most `cap`
/// items. It allocates a hash table for `cap` items at once, and panics when
/// that table's size overflows `usize`; the bound leaves those capacities out
/// with room to spare.
#[verifier::external_body]
pub(crate) fn lru_new(cap: usize) -> (r: ListingLru)
    requires
        cap <= MAX_CAPACITY,
    ensures
        lru_entries(r) == Seq::<(Seq<char>, Seq<FileInfo>)>::empty(),
        lru_cap(r) == cap,
{
    lru::LruCache::new(cap)
}

/// Relies on `lru::LruCache::contains`: whether `k` is a key of the cache,
/// without touching the recency order.
#[verifier::external_body]
pub(crate) fn lru_contains(c: &ListingLru, k: &String) -> (r: bool)
    ensures
        r == has_key(lru_entries(*c), k@),
{
    c.contains(k)
}

/// Relies on `lru::LruCache::get`: the value stored under `k`, which becomes
/// the most recently used key; `None`, and no change, when `k` is absent.
#[verifier::external_body]
pub(crate) fn lru_get<'a>(c: &'a mut ListingLru, k: &String) -> (r: Option<&'a Vec<FileInfo>>)
    requires
        distinct_keys(lru_entries(*old(c))),
    ensures
        lru_cap(*final(c)) == lru_cap(*old(c)),
        has_key(lru_entries(*old(c)), k@) ==> {
            &&& lru_entries(*final(c)) == touched(lru_entries(*old(c)), k@)
            &&& r matches Some(v) && v@ == lru_entries(*old(c))[index_of(lru_entries(*old(c)), k@)].1
        },
        !has_key(lru_entries(*old(c)), k@) ==> {
            &&& lru_entries(*final(c)) == lru_entries(*old(c))
            &&& r is None
        },
{
    c.get(k)
}

/// Relies on `lru::LruCache::put`: stores `v` under `k` as the most recently
/// used entry. A present key has its value replaced, and the old value is
/// returned; an absent key on a full cache evicts the least recently used
/// entry; a cache of capacity zero stores nothing.
#[verifier::external_body]
pub(crate) fn lru_put(c: &mut ListingLru, k: String, v: Vec<FileInfo>) -> (r: Option<Vec<FileInfo>>)
    requires
        distinct_keys(lru_entries(*old(c))),
        lru_entries(*old(c)).len() <= lru_cap(*old(c)),
    ensures
        lru_cap(*final(c)) == lru_cap(*old(c)),
        lru_entries(*final(c)) == stored(lru_entries(*old(c)), lru_cap(*old(c)), k@, v@),
        has_key(lru_entries(*old(c)), k@) ==> (r matches Some(o) && o@
            == lru_entries(*old(c))[index_of(lru_entries(*old(c)), k@)].1),
        !has_key(lru_entries(*old(c)), k@) ==> r is None,
{
    c.put(k, v)
}

/// Relies on `lru::LruCache::len`: the number of entries held.
#[verifier::external_body]
pub(crate) fn lru_len(c: &ListingLru) -> (r: usize)
    ensures
        r == lru_entries(*c).len(),
{
    c.len()
}

/// The keys of `s`, in the same order.
pub open spec fn keys_of(s: Seq<(Seq<char>, Seq<FileInfo>)>) -> Seq<Seq<char>> {
    s.map_values(|e: (Seq<char>, Seq<FileInfo>)| e.0)
}

/// No key occurs twice in `s`.
pub open spec fn distinct_keys(s: Seq<(Seq<char>, Seq<FileInfo>)>) -> bool {
    forall|i: int, j: int| 0 <= i < s.len() && 0 <= j < s.len() && i != j ==> s[i].0 != s[j].0
}

/// `k` is a key of `s`.
pub open spec fn has_key(s: Seq<(Seq<char>, Seq<FileInfo>)>, k: Seq<char>) -> bool {
    exists|i: int| 0 <= i < s.len() && s[i].0 == k
}

/// The position of key `k` in `s`, when it is there.
pub open spec fn index_of(s: Seq<(Seq<char>, Seq<FileInfo>)>, k: Seq<char>) -> int {
    choose|i: int| 0 <= i < s.len() && s[i].0 == k
}

/// `s` after a hit on the present key `k`: its entry moves to the most
/// recently used end.
pub open spec fn touched(s: Seq<(Seq<char>, Seq<FileInfo>)>, k: Seq<char>) -> Seq<(Seq<char>, Seq<FileInfo>)> {
    let i = index_of(s, k);
    s.remove(i).push(s[i])
}

/// `s` after storing `v` under `k` with capacity `cap`.
pub open spec fn stored(
    s: Seq<(Seq<char>, Seq<FileInfo>)>,
    cap: nat,
    k: Seq<char>,
    v: Seq<FileInfo>,
) -> Seq<(Seq<char>, Seq<FileInfo>)> {
    if has_key(s, k) {
        s.remove(index_of(s, k)).push((k, v))
    } else if cap == 0 {
        s
    } else if s.len() >= cap {
        s.subrange(1, s.len() as int).push((k, v))
    } else {
        s.push((k, v))
    }
}

/// Moving a present key to the most recently used end keeps keys distinct.
pub proof fn lemma_touched_wf(s: Seq<(Seq<char>, Seq<FileInfo>)>, k: Seq<char>)
    requires
        distinct_keys(s),
        has_key(s, k),
    ensures
        distinct_keys(touched(s, k)),
        touched(s, k).len() == s.len(),
        touched(s, k).last() == s[index_of(s, k)],
{
    let i = index_of(s, k);
    let t = touched(s, k);
    assert forall|a: int, b: int| 0 <= a < t.len() && 0 <= b < t.len() && a != b implies t[a].0
        != t[b].0 by {
        let ia = if a == t.len() - 1 { i } else if a < i { a } else { a + 1 };
        let ib = if b == t.len() - 1 { i } else if b < i { b } else { b + 1 };
        assert(t[a] == s[ia]);
        assert(t[b] == s[ib]);
    }
}

/// Storing an absent key keeps keys distinct and within the capacity.
pub proof fn lemma_stored_wf(s: Seq<(Seq<char>, Seq<FileInfo>)>, cap: nat, k: Seq<char>, v: Seq<FileInfo>)
    requires
        distinct_keys(s),
        s.len() <= cap,
        cap > 0,
        !has_key(s, k),
    ensures
        distinct_keys(stored(s, cap, k, v)),
        stored(s, cap, k, v).len() <= cap,
        stored(s, cap, k, v).last() == (k, v),
{
    let t = stored(s, cap, k, v);
    if s.len() >= cap {
        assert forall|a: int, b: int| 0 <= a < t.len() && 0 <= b < t.len() && a != b implies t[a].0
            != t[b].0 by {
            if a < t.len() - 1 {
                assert(t[a] == s[a + 1]);
            }
            if b < t.len() - 1 {
                assert(t[b] == s[b + 1]);
            }
        }
    } else {
        assert forall|a: int, b: int| 0 <= a < t.len() && 0 <= b < t.len() && a != b implies t[a].0
            != t[b].0 by {
            if a < t.len() - 1 {
                assert(t[a] == s[a]);
            }
            if b < t.len() - 1 {
                assert(t[b] == s[b]);
            }
        }
    }
}

} // verus!
