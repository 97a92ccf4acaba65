//! Properties of the cache's behaviour over several reads, stated on the
//! model that [`FileSystem::read_directory`](crate::file_system::FileSystem::read_directory)
//! is specified with.
use vstd::prelude::*;

use crate::entry::FileInfo;
use crate::lru_cache::{
    distinct_keys, has_key, index_of, lemma_stored_wf, lemma_touched_wf, stored, touched,
};

verus! {

/// The cache contents `s` after a successful read of `k` with capacity `cap`:
/// a hit when `k` is cached, otherwise `v` (the fresh listing) is stored.
pub open spec fn accessed(
    s: Seq<(Seq<char>, Seq<FileInfo>)>,
    cap: nat,
    k: Seq<char>,
    v: Seq<FileInfo>,
) -> Seq<(Seq<char>, Seq<FileInfo>)> {
    if has_key(s, k) {
        touched(s, k)
    } else {
        stored(s, cap, k, v)
    }
}

/// The cache contents `s` after successful reads of the paths of `reads`, in
/// order, each with the listing that a miss on it would store.
pub open spec fn after_reads(
    s: Seq<(Seq<char>, Seq<FileInfo>)>,
    cap: nat,
    reads: Seq<(Seq<char>, Seq<FileInfo>)>,
) -> Seq<(Seq<char>, Seq<FileInfo>)>
    decreases reads.len(),
{
    if reads.len() == 0 {
        s
    } else {
        after_reads(accessed(s, cap, reads[0].0, reads[0].1), cap, reads.drop_first())
    }
}

/// `s` is what a well-formed cache of capacity `cap` can hold.
pub open spec fn valid_contents(s: Seq<(Seq<char>, Seq<FileInfo>)>, cap: nat) -> bool {
    distinct_keys(s) && s.len() <= cap && cap > 0
}

/// In contents with distinct keys, the key at position `p` is found at `p`.
pub proof fn lemma_index_unique(s: Seq<(Seq<char>, Seq<FileInfo>)>, p: int)
    requires
        distinct_keys(s),
        0 <= p < s.len(),
    ensures
        has_key(s, s[p].0),
        index_of(s, s[p].0) == p,
{
    assert(has_key(s, s[p].0));
}

/// A successful read keeps the contents valid and leaves the path read as
/// the most recently used.
pub proof fn lemma_accessed_valid(
    s: Seq<(Seq<char>, Seq<FileInfo>)>,
    cap: nat,
    k: Seq<char>,
    v: Seq<FileInfo>,
)
    requires
        valid_contents(s, cap),
    ensures
        valid_contents(accessed(s, cap, k, v), cap),
        accessed(s, cap, k, v).len() > 0,
        accessed(s, cap, k, v).last().0 == k,
{
    if has_key(s, k) {
        lemma_touched_wf(s, k);
    } else {
        lemma_stored_wf(s, cap, k, v);
    }
}

/// Reading the same path twice in a row: the second read is a hit, which
/// returns the listing that the first one returned and leaves the cache as
/// the first one left it.
pub proof fn lemma_reread_hits(
    s: Seq<(Seq<char>, Seq<FileInfo>)>,
    cap: nat,
    k: Seq<char>,
    v: Seq<FileInfo>,
)
    requires
        valid_contents(s, cap),
    ensures
        ({
            let t = accessed(s, cap, k, v);
            let first = if has_key(s, k) {
                s[index_of(s, k)].1
            } else {
                v
            };
            &&& has_key(t, k)
            &&& t[index_of(t, k)].1 == first
            &&& touched(t, k) == t
        }),
{
    let t = accessed(s, cap, k, v);
    lemma_accessed_valid(s, cap, k, v);
    let n = t.len() - 1;
    lemma_index_unique(t, n);
    if has_key(s, k) {
        lemma_touched_wf(s, k);
    } else {
        lemma_stored_wf(s, cap, k, v);
    }
    assert(t.remove(n).push(t[n]) =~= t);
}

/// In `t`, the entries after key `a`, if `a` is there, are exactly as many
/// as `done` holds, and each has a key of `done`.
pub open spec fn read_since(t: Seq<(Seq<char>, Seq<FileInfo>)>, a: Seq<char>, done: Seq<Seq<char>>) -> bool {
    has_key(t, a) ==> {
        &&& t.len() - 1 - index_of(t, a) == done.len()
        &&& forall|p: int| index_of(t, a) < p < t.len() ==> done.contains(#[trigger] t[p].0)
    }
}

/// A successful read of a path `x` other than `a`, and not among `done`,
/// adds `x` to the paths read since `a`.
pub proof fn lemma_read_since_step(
    t: Seq<(Seq<char>, Seq<FileInfo>)>,
    cap: nat,
    a: Seq<char>,
    done: Seq<Seq<char>>,
    x: Seq<char>,
    v: Seq<FileInfo>,
)
    requires
        valid_contents(t, cap),
        read_since(t, a, done),
        x != a,
        !done.contains(x),
    ensures
        read_since(accessed(t, cap, x, v), a, done.push(x)),
{
    let u = accessed(t, cap, x, v);
    lemma_accessed_valid(t, cap, x, v);
    let n = t.len() as int;
    if has_key(t, x) {
        let i = index_of(t, x);
        assert(t[i].0 == x);
        assert forall|p: int| 0 <= p < u.len() implies #[trigger] u[p] == (if p == n - 1 {
            t[i]
        } else if p < i {
            t[p]
        } else {
            t[p + 1]
        }) by {}
        if has_key(t, a) {
            let j = index_of(t, a);
            assert(t[j].0 == a);
            if i > j {
                assert(done.contains(t[i].0));
            }
            assert(u[j - 1] == t[j]);
            lemma_index_unique(u, j - 1);
            assert forall|p: int| index_of(u, a) < p < u.len() implies done.push(x).contains(
                #[trigger] u[p].0,
            ) by {
                if p < n - 1 {
                    assert(done.contains(t[p + 1].0));
                    assert(done.push(x)[done.push(x).len() - 1] == x);
                    let w = choose|w: int| 0 <= w < done.len() && done[w] == t[p + 1].0;
                    assert(done.push(x)[w] == u[p].0);
                } else {
                    assert(done.push(x)[done.len() as int] == x);
                }
            }
        } else {
            assert forall|p: int| 0 <= p < u.len() implies u[p].0 != a by {
                if p == n - 1 {
                    assert(t[i].0 != a);
                } else if p < i {
                    assert(t[p].0 != a);
                } else {
                    assert(t[p + 1].0 != a);
                }
            }
        }
    } else if t.len() < cap {
        assert(u == t.push((x, v)));
        if has_key(t, a) {
            let j = index_of(t, a);
            assert(t[j].0 == a);
            assert(u[j] == t[j]);
            lemma_index_unique(u, j);
            assert forall|p: int| index_of(u, a) < p < u.len() implies done.push(x).contains(
                #[trigger] u[p].0,
            ) by {
                if p < n {
                    assert(done.contains(t[p].0));
                    let w = choose|w: int| 0 <= w < done.len() && done[w] == t[p].0;
                    assert(done.push(x)[w] == u[p].0);
                } else {
                    assert(done.push(x)[done.len() as int] == x);
                }
            }
        } else {
            assert forall|p: int| 0 <= p < u.len() implies u[p].0 != a by {
                if p < n {
                    assert(u[p] == t[p]);
                }
            }
        }
    } else {
        assert(u == t.subrange(1, n).push((x, v)));
        assert forall|p: int| 0 <= p < u.len() implies #[trigger] u[p] == (if p == n - 1 {
            (x, v)
        } else {
            t[p + 1]
        }) by {}
        if has_key(t, a) && index_of(t, a) > 0 {
            let j = index_of(t, a);
            assert(t[j].0 == a);
            assert(u[j - 1] == t[j]);
            lemma_index_unique(u, j - 1);
            assert forall|p: int| index_of(u, a) < p < u.len() implies done.push(x).contains(
                #[trigger] u[p].0,
            ) by {
                if p < n - 1 {
                    assert(done.contains(t[p + 1].0));
                    let w = choose|w: int| 0 <= w < done.len() && done[w] == t[p + 1].0;
                    assert(done.push(x)[w] == u[p].0);
                } else {
                    assert(done.push(x)[done.len() as int] == x);
                }
            }
        } else {
            if has_key(t, a) {
                assert(t[0].0 == a);
            }
            assert forall|p: int| 0 <= p < u.len() implies u[p].0 != a by {
                if p < n - 1 {
                    assert(u[p] == t[p + 1]);
                    if has_key(t, a) {
                        assert(t[0].0 != t[p + 1].0);
                    }
                }
            }
        }
    }
}

/// However many paths are read, a cache of capacity `cap` never holds more
/// than `cap` of them.
pub proof fn lemma_reads_bounded(
    s: Seq<(Seq<char>, Seq<FileInfo>)>,
    cap: nat,
    reads: Seq<(Seq<char>, Seq<FileInfo>)>,
)
    requires
        valid_contents(s, cap),
    ensures
        valid_contents(after_reads(s, cap, reads), cap),
        after_reads(s, cap, reads).len() <= cap,
    decreases reads.len(),
{
    if reads.len() > 0 {
        lemma_accessed_valid(s, cap, reads[0].0, reads[0].1);
        lemma_reads_bounded(accessed(s, cap, reads[0].0, reads[0].1), cap, reads.drop_first());
    }
}

/// The paths of `reads`, in order.
pub open spec fn paths_of(reads: Seq<(Seq<char>, Seq<FileInfo>)>) -> Seq<Seq<char>> {
    reads.map_values(|e: (Seq<char>, Seq<FileInfo>)| e.0)
}

/// Successful reads of distinct paths, none of them `a` nor among `done`,
/// keep the contents valid and add each path read to those read since `a`.
pub proof fn lemma_read_since_reads(
    t: Seq<(Seq<char>, Seq<FileInfo>)>,
    cap: nat,
    a: Seq<char>,
    done: Seq<Seq<char>>,
    reads: Seq<(Seq<char>, Seq<FileInfo>)>,
)
    requires
        valid_contents(t, cap),
        read_since(t, a, done),
        forall|i: int| 0 <= i < reads.len() ==> #[trigger] reads[i].0 != a,
        forall|i: int| 0 <= i < reads.len() ==> !done.contains(#[trigger] reads[i].0),
        distinct_keys(reads),
    ensures
        valid_contents(after_reads(t, cap, reads), cap),
        read_since(after_reads(t, cap, reads), a, done + paths_of(reads)),
    decreases reads.len(),
{
    if reads.len() == 0 {
        assert(done + paths_of(reads) =~= done);
    } else {
        let x = reads[0].0;
        let t1 = accessed(t, cap, x, reads[0].1);
        lemma_accessed_valid(t, cap, x, reads[0].1);
        lemma_read_since_step(t, cap, a, done, x, reads[0].1);
        let rest = reads.drop_first();
        let done1 = done.push(x);
        assert forall|i: int| 0 <= i < rest.len() implies !done1.contains(#[trigger] rest[i].0) by {
            assert(rest[i] == reads[i + 1]);
            assert(reads[0].0 != reads[i + 1].0);
            if done1.contains(rest[i].0) {
                let w = choose|w: int| 0 <= w < done1.len() && done1[w] == rest[i].0;
                if w < done.len() {
                    assert(done.contains(reads[i + 1].0));
                }
            }
        }
        assert forall|i: int| 0 <= i < rest.len() implies #[trigger] rest[i].0 != a by {
            assert(rest[i] == reads[i + 1]);
        }
        assert forall|i: int, j: int|
            0 <= i < rest.len() && 0 <= j < rest.len() && i != j implies rest[i].0 != rest[j].0 by {
            assert(rest[i] == reads[i + 1]);
            assert(rest[j] == reads[j + 1]);
        }
        lemma_read_since_reads(t1, cap, a, done1, rest);
        assert(done1 + paths_of(rest) =~= done + paths_of(reads));
    }
}

/// Eviction is strictly least recently used: after a read of `a`, successful
/// reads of `cap` distinct other paths leave `a` out of a cache of capacity
/// `cap`, so that the next read of `a` is a miss.
pub proof fn lemma_lru_eviction(
    s: Seq<(Seq<char>, Seq<FileInfo>)>,
    cap: nat,
    a: Seq<char>,
    va: Seq<FileInfo>,
    others: Seq<(Seq<char>, Seq<FileInfo>)>,
)
    requires
        valid_contents(s, cap),
        others.len() == cap,
        forall|i: int| 0 <= i < others.len() ==> #[trigger] others[i].0 != a,
        distinct_keys(others),
    ensures
        !has_key(after_reads(accessed(s, cap, a, va), cap, others), a),
{
    let t = accessed(s, cap, a, va);
    lemma_accessed_valid(s, cap, a, va);
    let done = Seq::<Seq<char>>::empty();
    lemma_index_unique(t, t.len() - 1);
    assert(read_since(t, a, done));
    lemma_read_since_reads(t, cap, a, done, others);
    let u = after_reads(t, cap, others);
    if has_key(u, a) {
        assert(u[index_of(u, a)].0 == a);
        assert((done + paths_of(others)).len() == cap);
    }
}

} // verus!
