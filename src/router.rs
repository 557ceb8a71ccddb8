use vstd::prelude::*;

use crate::path::{chars_of, escaping, is_sep_at, root_seq, Path, ESC, SEP};
use crate::protocol::{Referral, ToPath};

verus! {

/// The referral cache: for each referral path, when its entry expires and
/// the referral itself.
pub type Cache = Map<Seq<char>, (u64, Referral)>;

/// When an entry cached at `now` (in milliseconds) for `ttl` seconds
/// expires. An expiry past the clock's range is held at its end.
pub open spec fn expiry_of(now: u64, ttl: u64) -> u64 {
    if now as int + ttl as int * 1000 > u64::MAX as int {
        u64::MAX
    } else {
        (now as int + ttl as int * 1000) as u64
    }
}

/// Whether the referral path `p` owns the path `q`: `p` is `q`, or a
/// prefix of `q` that an unescaped separator of `q` follows. The root `/`
/// owns every absolute path.
pub open spec fn covers(p: Seq<char>, q: Seq<char>) -> bool {
    &&& p.len() <= q.len()
    &&& q.take(p.len() as int) == p
    &&& (p.len() == q.len() || p == root_seq() || is_sep_at(q, p.len() as int))
}

/// Whether `k` is the longest key of `m` that owns `q`.
pub open spec fn is_longest_cover(m: Cache, q: Seq<char>, k: Seq<char>) -> bool {
    &&& m.contains_key(k)
    &&& covers(k, q)
    &&& forall|k2: Seq<char>| #[trigger] m.contains_key(k2) && covers(k2, q) ==> k2.len() <= k.len()
}

/// Whether some key of `m` owns `q`.
pub open spec fn has_cover(m: Cache, q: Seq<char>) -> bool {
    exists|k: Seq<char>| is_longest_cover(m, q, k)
}

/// The longest key of `m` that owns `q`.
pub open spec fn longest_cover(m: Cache, q: Seq<char>) -> Seq<char> {
    choose|k: Seq<char>| is_longest_cover(m, q, k)
}

/// Where an operation on `q` goes at `now`: to the referral with the
/// longest key that owns `q` while that entry has not expired, else (and
/// for an operation without a path) to the default backend, `None`.
pub open spec fn target_of(m: Cache, q: Option<Seq<char>>, now: u64) -> Option<Seq<char>> {
    match q {
        None => None,
        Some(q) => if has_cover(m, q) && now < m[longest_cover(m, q)].0 {
            Some(longest_cover(m, q))
        } else {
            None
        },
    }
}

/// The expired entry that routing an operation on `q` at `now` meets.
pub open spec fn stale_of(m: Cache, q: Option<Seq<char>>, now: u64) -> Option<Seq<char>> {
    match q {
        None => None,
        Some(q) => if has_cover(m, q) && now >= m[longest_cover(m, q)].0 {
            Some(longest_cover(m, q))
        } else {
            None
        },
    }
}

/// The expired entries that routing operations on `qs` at `now` meets.
pub open spec fn stale_keys(m: Cache, qs: Seq<Option<Seq<char>>>, now: u64) -> Set<Seq<char>> {
    Set::new(|k: Seq<char>| exists|i: int| 0 <= i < qs.len() && stale_of(m, qs[i], now) == Some(k))
}

/// The paths of a batch of operations.
pub open spec fn paths_of<T: ToPath>(batch: Seq<T>) -> Seq<Option<Seq<char>>> {
    batch.map_values(|t: T| t.path_spec())
}

/// The view of a routing key.
pub open spec fn key_view(k: Option<Path>) -> Option<Seq<char>> {
    match k {
        Some(p) => Some(p@),
        None => None,
    }
}

/// The key of a cache entry.
pub open spec fn entry_key(e: (u64, Referral)) -> Seq<char> {
    e.1.path@
}

/// The cache that a sequence of entries holds.
pub open spec fn cache_of(s: Seq<(u64, Referral)>) -> Cache {
    Map::new(
        |k: Seq<char>| exists|i: int| 0 <= i < s.len() && entry_key(s[i]) == k,
        |k: Seq<char>| s[choose|i: int| 0 <= i < s.len() && entry_key(s[i]) == k],
    )
}

/// No two entries share a key.
pub open spec fn unique_keys(s: Seq<(u64, Referral)>) -> bool {
    forall|i: int, j: int|
        0 <= i < s.len() && 0 <= j < s.len() && i != j ==> entry_key(s[i]) != entry_key(s[j])
}

proof fn lemma_cache_index(s: Seq<(u64, Referral)>, i: int)
    requires
        unique_keys(s),
        0 <= i < s.len(),
    ensures
        cache_of(s).contains_key(entry_key(s[i])),
        cache_of(s)[entry_key(s[i])] == s[i],
{
    let k = entry_key(s[i]);
    assert(exists|j: int| 0 <= j < s.len() && entry_key(s[j]) == k);
    let j = choose|j: int| 0 <= j < s.len() && entry_key(s[j]) == k;
    assert(i == j);
}

proof fn lemma_cache_update(s: Seq<(u64, Referral)>, i: int, e: (u64, Referral))
    requires
        unique_keys(s),
        0 <= i < s.len(),
        entry_key(s[i]) == entry_key(e),
    ensures
        unique_keys(s.update(i, e)),
        cache_of(s.update(i, e)) =~= cache_of(s).insert(entry_key(e), e),
{
    let t = s.update(i, e);
    assert(unique_keys(t)) by {
        assert forall|a: int, b: int|
            0 <= a < t.len() && 0 <= b < t.len() && a != b implies entry_key(t[a]) != entry_key(
            t[b],
        ) by {
            assert(entry_key(t[a]) == entry_key(s[a]));
            assert(entry_key(t[b]) == entry_key(s[b]));
        }
    }
    let m = cache_of(s).insert(entry_key(e), e);
    assert forall|k: Seq<char>| #[trigger] cache_of(t).contains_key(k) <==> m.contains_key(k) by {
        if cache_of(t).contains_key(k) {
            let j = choose|j: int| 0 <= j < t.len() && entry_key(t[j]) == k;
            if j != i {
                assert(entry_key(s[j]) == k);
            }
        }
        if cache_of(s).contains_key(k) {
            let j = choose|j: int| 0 <= j < s.len() && entry_key(s[j]) == k;
            assert(entry_key(t[j]) == k);
        }
        if k == entry_key(e) {
            assert(entry_key(t[i]) == k);
        }
    }
    assert forall|k: Seq<char>| #[trigger] cache_of(t).contains_key(k) implies cache_of(t)[k]
        == m[k] by {
        let j = choose|j: int| 0 <= j < t.len() && entry_key(t[j]) == k;
        lemma_cache_index(t, j);
        if j != i {
            lemma_cache_index(s, j);
        }
    }
}

proof fn lemma_cache_push(s: Seq<(u64, Referral)>, e: (u64, Referral))
    requires
        unique_keys(s),
        !cache_of(s).contains_key(entry_key(e)),
    ensures
        unique_keys(s.push(e)),
        cache_of(s.push(e)) =~= cache_of(s).insert(entry_key(e), e),
{
    let t = s.push(e);
    assert(unique_keys(t)) by {
        assert forall|a: int, b: int|
            0 <= a < t.len() && 0 <= b < t.len() && a != b implies entry_key(t[a]) != entry_key(
            t[b],
        ) by {
            if a < s.len() && b < s.len() {
                assert(t[a] == s[a] && t[b] == s[b]);
            } else if a < s.len() {
                assert(t[a] == s[a]);
            } else {
                assert(t[b] == s[b]);
            }
        }
    }
    let m = cache_of(s).insert(entry_key(e), e);
    assert forall|k: Seq<char>| #[trigger] cache_of(t).contains_key(k) <==> m.contains_key(k) by {
        if cache_of(t).contains_key(k) {
            let j = choose|j: int| 0 <= j < t.len() && entry_key(t[j]) == k;
            if j < s.len() {
                assert(entry_key(s[j]) == k);
            }
        }
        if cache_of(s).contains_key(k) {
            let j = choose|j: int| 0 <= j < s.len() && entry_key(s[j]) == k;
            assert(entry_key(t[j]) == k);
        }
        if k == entry_key(e) {
            assert(entry_key(t[s.len() as int]) == k);
        }
    }
    assert forall|k: Seq<char>| #[trigger] cache_of(t).contains_key(k) implies cache_of(t)[k]
        == m[k] by {
        let j = choose|j: int| 0 <= j < t.len() && entry_key(t[j]) == k;
        lemma_cache_index(t, j);
        if j < s.len() {
            lemma_cache_index(s, j);
        }
    }
}

proof fn lemma_cache_remove(s: Seq<(u64, Referral)>, i: int)
    requires
        unique_keys(s),
        0 <= i < s.len(),
    ensures
        unique_keys(s.remove(i)),
        cache_of(s.remove(i)) =~= cache_of(s).remove(entry_key(s[i])),
{
    let t = s.remove(i);
    let old_index = |j: int| if j < i { j } else { j + 1 };
    assert forall|j: int| 0 <= j < t.len() implies #[trigger] t[j] == s[old_index(j)] by {}
    assert(unique_keys(t)) by {
        assert forall|a: int, b: int|
            0 <= a < t.len() && 0 <= b < t.len() && a != b implies entry_key(t[a]) != entry_key(
            t[b],
        ) by {
            assert(t[a] == s[old_index(a)]);
            assert(t[b] == s[old_index(b)]);
        }
    }
    let m = cache_of(s).remove(entry_key(s[i]));
    assert forall|k: Seq<char>| #[trigger] cache_of(t).contains_key(k) <==> m.contains_key(k) by {
        if cache_of(t).contains_key(k) {
            let j = choose|j: int| 0 <= j < t.len() && entry_key(t[j]) == k;
            assert(t[j] == s[old_index(j)]);
        }
        if m.contains_key(k) {
            let j = choose|j: int| 0 <= j < s.len() && entry_key(s[j]) == k;
            assert(j != i);
            let j2 = if j < i { j } else { j - 1 };
            assert(t[j2] == s[j]);
        }
    }
    assert forall|k: Seq<char>| #[trigger] cache_of(t).contains_key(k) implies cache_of(t)[k]
        == m[k] by {
        let j = choose|j: int| 0 <= j < t.len() && entry_key(t[j]) == k;
        lemma_cache_index(t, j);
        assert(t[j] == s[old_index(j)]);
        lemma_cache_index(s, old_index(j));
    }
}

/// Two longest owners of one path are the same key.
proof fn lemma_longest_unique(m: Cache, q: Seq<char>, k: Seq<char>)
    requires
        is_longest_cover(m, q, k),
    ensures
        has_cover(m, q),
        longest_cover(m, q) == k,
{
    let c = longest_cover(m, q);
    assert(is_longest_cover(m, q, c));
    assert(c.len() == k.len());
    assert(c =~= q.take(k.len() as int));
}

/// Whether some sub-batch of `r` holds the operation at index `i`.
pub open spec fn is_routed<T>(r: Seq<(Option<Path>, Vec<(usize, T)>)>, i: int) -> bool {
    exists|b: int, j: int| 0 <= b < r.len() && 0 <= j < r[b].1.len() && (#[trigger] r[b].1[j]).0 == i
}

/// `r` is a routing of `batch` against the cache `m` at `now`: each
/// sub-batch is non-empty and has a target of its own; each operation
/// stands, with its index, in the sub-batch of its target, exactly once,
/// and in the order of `batch`.
pub open spec fn is_routing<T: ToPath + Clone>(
    m: Cache,
    batch: Seq<T>,
    now: u64,
    r: Seq<(Option<Path>, Vec<(usize, T)>)>,
) -> bool {
    &&& forall|b: int| 0 <= b < r.len() ==> (#[trigger] r[b]).1.len() > 0
    &&& forall|b1: int, b2: int|
        0 <= b1 < b2 < r.len() ==> key_view((#[trigger] r[b1]).0) != key_view((#[trigger] r[b2]).0)
    &&& forall|b: int, j: int|
        0 <= b < r.len() && 0 <= j < r[b].1.len() ==> {
            let (id, op) = #[trigger] r[b].1[j];
            &&& id < batch.len()
            &&& key_view(r[b].0) == target_of(m, paths_of(batch)[id as int], now)
            &&& cloned(batch[id as int], op)
        }
    &&& forall|b: int, j1: int, j2: int|
        0 <= b < r.len() && 0 <= j1 < j2 < r[b].1.len() ==> (#[trigger] r[b].1[j1]).0 < (
        #[trigger] r[b].1[j2]).0
    &&& forall|i: int| 0 <= i < batch.len() ==> #[trigger] is_routed(r, i)
}

/// A target of some operation is an entry that routing keeps.
pub proof fn lemma_target_kept(m: Cache, qs: Seq<Option<Seq<char>>>, now: u64, q: Option<Seq<char>>)
    requires
        target_of(m, q, now) is Some,
    ensures
        m.remove_keys(stale_keys(m, qs, now)).contains_key(target_of(m, q, now)->0),
{
    let k = target_of(m, q, now)->0;
    if stale_keys(m, qs, now).contains(k) {
        let i = choose|i: int| 0 <= i < qs.len() && stale_of(m, qs[i], now) == Some(k);
        assert(now >= m[k].0);
    }
}

/// Where every operation of a batch has one target, routing it gives one
/// sub-batch, which holds each operation with its index, in the order of
/// the batch: `[(0, o0), (1, o1), ...]`.
pub proof fn lemma_one_target_keeps_order<T: ToPath + Clone>(
    m: Cache,
    batch: Seq<T>,
    now: u64,
    r: Seq<(Option<Path>, Vec<(usize, T)>)>,
    t: Option<Seq<char>>,
)
    requires
        is_routing(m, batch, now, r),
        batch.len() > 0,
        forall|i: int| 0 <= i < batch.len() ==> target_of(m, #[trigger] paths_of(batch)[i], now) == t,
    ensures
        r.len() == 1,
        key_view(r[0].0) == t,
        r[0].1.len() == batch.len(),
        forall|i: int|
            0 <= i < batch.len() ==> (#[trigger] r[0].1[i]).0 == i && cloned(batch[i], r[0].1[i].1),
{
    assert(is_routed(r, 0));
    let (b0, j0) = choose|b: int, j: int| 0 <= b < r.len() && 0 <= j < r[b].1.len() && (#[trigger] r[b].1[j]).0 == 0;
    // every sub-batch goes to `t`, so there is only one
    assert forall|b: int| 0 <= b < r.len() implies key_view(#[trigger] r[b].0) == t by {
        assert(r[b].1.len() > 0);
        let (id, op) = r[b].1[0];
        assert(key_view(r[b].0) == target_of(m, paths_of(batch)[id as int], now));
    }
    if r.len() > 1 {
        let o: int = if b0 == 0 { 1 } else { 0 };
        assert(key_view(r[o].0) == key_view(r[b0].0));
        if o < b0 {
            assert(key_view(r[o].0) != key_view(r[b0].0));
        } else {
            assert(key_view(r[b0].0) != key_view(r[o].0));
        }
    }
    assert(r.len() == 1);
    let s = r[0].1@;
    let n = batch.len();
    assert forall|i: int| 0 <= i < n implies #[trigger] holds_id(s, i) by {
        assert(is_routed(r, i));
        let (b, k) = choose|b: int, k: int| 0 <= b < r.len() && 0 <= k < r[b].1.len() && (#[trigger] r[b].1[k]).0 == i;
        assert(s[k].0 == i);
    }
    // each index is where it stands
    assert forall|j: int| 0 <= j < s.len() implies (#[trigger] s[j]).0 == j by {
        lemma_ids_in_place(s, n as int, j);
    }
    if s.len() < n {
        assert(is_routed(r, n - 1));
        let (b, k) = choose|b: int, k: int| 0 <= b < r.len() && 0 <= k < r[b].1.len() && (#[trigger] r[b].1[k]).0 == n - 1;
        assert(s[k].0 == k);
    }
    if s.len() > n {
        assert(s[n as int].0 == n);
    }
}

/// Whether some element of `s` has the index `i`.
pub open spec fn holds_id<T>(s: Seq<(usize, T)>, i: int) -> bool {
    exists|k: int| 0 <= k < s.len() && (#[trigger] s[k]).0 == i
}

/// In a sub-batch whose indices rise, stay below `n` and cover `0 .. n`,
/// the index at position `j` is `j`.
proof fn lemma_ids_in_place<T>(s: Seq<(usize, T)>, n: int, j: int)
    requires
        0 <= j < s.len(),
        forall|k: int| 0 <= k < s.len() ==> (#[trigger] s[k]).0 < n,
        forall|k1: int, k2: int| 0 <= k1 < k2 < s.len() ==> (#[trigger] s[k1]).0 < (#[trigger] s[k2]).0,
        forall|i: int| 0 <= i < n ==> #[trigger] holds_id(s, i),
    ensures
        s[j].0 == j,
    decreases j,
{
    if j > 0 {
        lemma_ids_in_place(s, n, j - 1);
    }
    // s[j] is at least j
    if j > 0 {
        assert(s[j - 1].0 < s[j].0);
    }
    assert(s[j].0 >= j);
    // the index j stands at some position, which cannot be before j
    assert(holds_id(s, j));
    let k = choose|k: int| 0 <= k < s.len() && (#[trigger] s[k]).0 == j;
    if k < j {
        lemma_ids_in_place(s, n, k);
    }
    if k > j {
        assert(s[j].0 < s[k].0);
    }
}

/// The views of the first `n` paths of `gc`, as a set.
pub open spec fn path_set(gc: Seq<Path>, n: int) -> Set<Seq<char>> {
    Set::new(|k: Seq<char>| exists|j: int| 0 <= j < n && gc[j]@ == k)
}

/// The expired entries that routing the first `n` operations meets.
pub open spec fn stale_upto(m: Cache, qs: Seq<Option<Seq<char>>>, now: u64, n: int) -> Set<
    Seq<char>,
> {
    Set::new(|k: Seq<char>| exists|i: int| 0 <= i < n && stale_of(m, qs[i], now) == Some(k))
}

/// Where a key with the view of `k` stands in `keys`.
fn position_of(keys: &Vec<Option<Path>>, k: &Option<Path>) -> (r: Option<usize>)
    ensures
        r matches Some(b) ==> b < keys.len() && key_view(keys@[b as int]) == key_view(*k),
        r is None ==> forall|b: int| 0 <= b < keys.len() ==> key_view(#[trigger] keys@[b]) != key_view(*k),
{
    let mut b: usize = 0;
    while b < keys.len()
        invariant
            b <= keys.len(),
            forall|c: int| 0 <= c < b ==> key_view(#[trigger] keys@[c]) != key_view(*k),
        decreases keys.len() - b,
    {
        if same_key(&keys[b], k) {
            return Some(b);
        }
        b += 1;
    }
    None
}

/// The distinct keys of `dests`, in order of first appearance.
fn distinct_keys(dests: &Vec<Option<Path>>) -> (keys: Vec<Option<Path>>)
    ensures
        forall|b1: int, b2: int|
            0 <= b1 < b2 < keys.len() ==> key_view(#[trigger] keys@[b1]) != key_view(
                #[trigger] keys@[b2],
            ),
        forall|i: int| #![trigger dests@[i]]
            0 <= i < dests.len() ==> exists|b: int|
                0 <= b < keys.len() && key_view(keys@[b]) == key_view(dests@[i]),
        forall|b: int| #![trigger keys@[b]]
            0 <= b < keys.len() ==> exists|i: int|
                0 <= i < dests.len() && key_view(keys@[b]) == key_view(dests@[i]),
{
    let n = dests.len();
    let mut keys: Vec<Option<Path>> = Vec::new();
    // where the key of each operation stands, and an operation for each key
    let ghost mut pos: Seq<int> = Seq::empty();
    let ghost mut wit: Seq<int> = Seq::empty();
    let mut id: usize = 0;
    while id < n
        invariant
            n == dests.len(),
            id <= n,
            forall|b1: int, b2: int|
                0 <= b1 < b2 < keys.len() ==> key_view(#[trigger] keys@[b1]) != key_view(
                    #[trigger] keys@[b2],
                ),
            pos.len() == id,
            forall|i: int|
                0 <= i < id ==> 0 <= #[trigger] pos[i] < keys.len() && key_view(keys@[pos[i]])
                    == key_view(dests@[i]),
            wit.len() == keys.len(),
            forall|b: int|
                0 <= b < keys.len() ==> 0 <= #[trigger] wit[b] < id && key_view(keys@[b])
                    == key_view(dests@[wit[b]]),
        decreases n - id,
    {
        let ghost before = keys@;
        match position_of(&keys, &dests[id]) {
            Some(b) => {
                proof {
                    pos = pos.push(b as int);
                }
            },
            None => {
                keys.push(copy_key(&dests[id]));
                proof {
                    pos = pos.push(before.len() as int);
                    wit = wit.push(id as int);
                    assert forall|b1: int, b2: int|
                        0 <= b1 < b2 < keys.len() implies key_view(#[trigger] keys@[b1])
                        != key_view(#[trigger] keys@[b2]) by {
                        if b2 < before.len() {
                            assert(keys@[b1] == before[b1] && keys@[b2] == before[b2]);
                        } else {
                            assert(keys@[b1] == before[b1]);
                        }
                    }
                }
            },
        }
        proof {
            assert forall|i: int|
                0 <= i < id + 1 implies 0 <= #[trigger] pos[i] < keys.len() && key_view(
                keys@[pos[i]],
            ) == key_view(dests@[i]) by {
                if i < id {
                    assert(keys@[pos[i]] == before[pos[i]]);
                }
            }
            assert forall|b: int|
                0 <= b < keys.len() implies 0 <= #[trigger] wit[b] < id + 1 && key_view(keys@[b])
                == key_view(dests@[wit[b]]) by {
                if b < before.len() {
                    assert(keys@[b] == before[b]);
                }
            }
        }
        id += 1;
    }
    proof {
        assert forall|i: int| #![trigger dests@[i]]
            0 <= i < dests.len() implies exists|b: int|
                0 <= b < keys.len() && key_view(keys@[b]) == key_view(dests@[i]) by {
            assert(0 <= pos[i] < keys.len());
        }
        assert forall|b: int| #![trigger keys@[b]]
            0 <= b < keys.len() implies exists|i: int|
                0 <= i < dests.len() && key_view(keys@[b]) == key_view(dests@[i]) by {
            assert(0 <= wit[b] < n);
        }
    }
    keys
}

/// The operations of `batch` whose destination is `key`, each with its
/// index, in the order of `batch`.
fn sub_batch<T: Clone>(batch: &Vec<T>, dests: &Vec<Option<Path>>, key: &Option<Path>) -> (sub: Vec<
    (usize, T),
>)
    requires
        batch.len() == dests.len(),
    ensures
        forall|j: int|
            0 <= j < sub.len() ==> {
                let (i, op) = #[trigger] sub@[j];
                &&& i < batch.len()
                &&& key_view(dests@[i as int]) == key_view(*key)
                &&& cloned(batch@[i as int], op)
            },
        forall|j1: int, j2: int|
            0 <= j1 < j2 < sub.len() ==> (#[trigger] sub@[j1]).0 < (#[trigger] sub@[j2]).0,
        forall|i: int| #![trigger dests@[i]]
            0 <= i < batch.len() && key_view(dests@[i]) == key_view(*key) ==> exists|j: int|
                0 <= j < sub.len() && (#[trigger] sub@[j]).0 == i,
{
    let n = batch.len();
    let mut sub: Vec<(usize, T)> = Vec::new();
    let mut id: usize = 0;
    while id < n
        invariant
            n == batch.len(),
            n == dests.len(),
            id <= n,
            forall|j: int|
                0 <= j < sub.len() ==> {
                    let (i, op) = #[trigger] sub@[j];
                    &&& i < id
                    &&& key_view(dests@[i as int]) == key_view(*key)
                    &&& cloned(batch@[i as int], op)
                },
            forall|j1: int, j2: int|
                0 <= j1 < j2 < sub.len() ==> (#[trigger] sub@[j1]).0 < (#[trigger] sub@[j2]).0,
            forall|i: int| #![trigger dests@[i]]
                0 <= i < id && key_view(dests@[i]) == key_view(*key) ==> exists|j: int|
                    0 <= j < sub.len() && (#[trigger] sub@[j]).0 == i,
        decreases n - id,
    {
        let ghost before = sub@;
        if same_key(&dests[id], key) {
            let op = batch[id].clone();
            sub.push((id, op));
        }
        proof {
            assert forall|i: int| #![trigger dests@[i]]
                0 <= i < id + 1 && key_view(dests@[i]) == key_view(*key) implies exists|j: int|
                    0 <= j < sub.len() && (#[trigger] sub@[j]).0 == i by {
                if i == id {
                    assert(sub@[sub.len() - 1].0 == i);
                } else {
                    let j = choose|j: int| 0 <= j < before.len() && (#[trigger] before[j]).0 == i;
                    assert(sub@[j] == before[j]);
                }
            }
        }
        id += 1;
    }
    sub
}

/// A copy of a routing key.
fn copy_key(k: &Option<Path>) -> (r: Option<Path>)
    ensures
        r == *k,
{
    match k {
        Some(p) => Some(p.clone()),
        None => None,
    }
}

/// Whether two routing keys name the same backend.
fn same_key(a: &Option<Path>, b: &Option<Path>) -> (r: bool)
    ensures
        r == (key_view(*a) == key_view(*b)),
{
    match (a, b) {
        (Some(x), Some(y)) => *x == *y,
        (None, None) => true,
        _ => false,
    }
}

/// Whether the referral path `p` owns the path `q`.
fn covers_exec(p: &Vec<char>, q: &Vec<char>) -> (r: bool)
    ensures
        r == covers(p@, q@),
{
    let n = p.len();
    if n > q.len() {
        return false;
    }
    let mut esc = false;
    let mut i: usize = 0;
    assert(q@.take(0) =~= Seq::<char>::empty());
    while i < n
        invariant
            n == p.len(),
            n <= q.len(),
            i <= n,
            esc == escaping(q@.take(i as int)),
            forall|j: int| 0 <= j < i ==> p@[j] == q@[j],
        decreases n - i,
    {
        if p[i] != q[i] {
            assert(q@.take(n as int)[i as int] != p@[i as int]);
            return false;
        }
        assert(q@.take(i + 1).drop_last() =~= q@.take(i as int));
        esc = q[i] == ESC && !esc;
        i += 1;
    }
    assert(q@.take(n as int) =~= p@);
    if n == q.len() {
        true
    } else if n == 1 && p[0] == SEP {
        assert(p@ =~= root_seq());
        true
    } else {
        q[n] == SEP && !esc
    }
}

/// The referral cache, keyed by referral path.
pub struct Router {
    cached: Vec<(u64, Referral)>,
}

impl View for Router {
    type V = Cache;

    closed spec fn view(&self) -> Cache {
        cache_of(self.cached@)
    }
}

impl Router {
    /// No two entries share a key.
    pub closed spec fn wf(&self) -> bool {
        unique_keys(self.cached@)
    }

    /// An empty cache.
    pub fn new() -> (r: Router)
        ensures
            r@ == Cache::empty(),
            r.wf(),
    {
        let r = Router { cached: Vec::new() };
        assert(r@ =~= Cache::empty());
        r
    }

    /// Where the entry for `p` stands.
    fn index_of(&self, p: &Path) -> (r: Option<usize>)
        ensures
            r matches Some(i) ==> i < self.cached.len() && entry_key(self.cached@[i as int]) == p@,
            r is None ==> !self@.contains_key(p@),
    {
        let mut i: usize = 0;
        while i < self.cached.len()
            invariant
                i <= self.cached.len(),
                forall|j: int| 0 <= j < i ==> entry_key(#[trigger] self.cached@[j]) != p@,
            decreases self.cached.len() - i,
        {
            if self.cached[i].1.path == *p {
                return Some(i);
            }
            i += 1;
        }
        None
    }

    /// The referral cached for exactly `p`.
    pub fn get_referral(&self, p: &Path) -> (r: Option<&Referral>)
        requires
            self.wf(),
        ensures
            r matches Some(x) ==> self@.contains_key(p@) && *x == self@[p@].1,
            r is None ==> !self@.contains_key(p@),
    {
        match self.index_of(p) {
            Some(i) => {
                proof {
                    lemma_cache_index(self.cached@, i as int);
                }
                Some(&self.cached[i].1)
            },
            None => None,
        }
    }

    /// Cache `r` under its path from `now` (in milliseconds) for its ttl,
    /// in place of any earlier entry for that path.
    pub fn add_referral(&mut self, r: Referral, now: u64)
        requires
            old(self).wf(),
        ensures
            final(self).wf(),
            final(self)@ == old(self)@.insert(r.path@, (expiry_of(now, r.ttl), r)),
    {
        let exp = match r.ttl.checked_mul(1000) {
            Some(d) => match now.checked_add(d) {
                Some(e) => e,
                None => u64::MAX,
            },
            None => u64::MAX,
        };
        assert(exp == expiry_of(now, r.ttl));
        let ghost e = (exp, r);
        match self.index_of(&r.path) {
            Some(i) => {
                proof {
                    lemma_cache_update(self.cached@, i as int, e);
                }
                self.cached.set(i, (exp, r));
            },
            None => {
                proof {
                    lemma_cache_push(self.cached@, e);
                }
                self.cached.push((exp, r));
            },
        }
    }

    /// Where each operation of `batch` goes at `now`, and the expired
    /// entries met on the way.
    fn destinations<T: ToPath>(&self, batch: &Vec<T>, now: u64) -> (r: (
        Vec<Option<Path>>,
        Vec<Path>,
    ))
        requires
            self.wf(),
        ensures
            r.0.len() == batch.len(),
            forall|i: int|
                0 <= i < batch.len() ==> key_view(#[trigger] r.0@[i]) == target_of(
                    self@,
                    paths_of(batch@)[i],
                    now,
                ),
            path_set(r.1@, r.1.len() as int) == stale_keys(self@, paths_of(batch@), now),
    {
        let ghost m = self@;
        let ghost qs = paths_of(batch@);
        let n = batch.len();
        let mut dests: Vec<Option<Path>> = Vec::new();
        let mut gc: Vec<Path> = Vec::new();
        let mut id: usize = 0;
        assert(path_set(gc@, 0) =~= stale_upto(m, qs, now, 0));
        while id < n
            invariant
                self@ == m,
                self.wf(),
                n == batch.len(),
                qs == paths_of(batch@),
                id <= n,
                dests.len() == id,
                forall|i: int| 0 <= i < id ==> key_view(#[trigger] dests@[i]) == target_of(m, qs[i], now),
                path_set(gc@, gc.len() as int) == stale_upto(m, qs, now, id as int),
            decreases n - id,
        {
            let ghost q = qs[id as int];
            let ghost gc0 = gc@;
            assert(q == batch@[id as int].path_spec());
            let dest: Option<Path> = match batch[id].path() {
                None => None,
                Some(p) => match self.longest(p) {
                    None => None,
                    Some(i) => {
                        proof {
                            lemma_longest_unique(m, p@, entry_key(self.cached@[i as int]));
                            lemma_cache_index(self.cached@, i as int);
                        }
                        if now < self.cached[i].0 {
                            Some(self.cached[i].1.path.clone())
                        } else {
                            gc.push(self.cached[i].1.path.clone());
                            None
                        }
                    },
                },
            };
            dests.push(dest);
            proof {
                if gc.len() > gc0.len() {
                    assert(stale_of(m, q, now) == Some(gc@[gc.len() - 1]@));
                    assert forall|k: Seq<char>| #[trigger]
                        path_set(gc@, gc.len() as int).contains(k) == stale_upto(
                            m,
                            qs,
                            now,
                            id + 1,
                        ).contains(k) by {
                        if path_set(gc0, gc0.len() as int).contains(k) {
                            let j = choose|j: int| 0 <= j < gc0.len() && gc0[j]@ == k;
                            assert(gc@[j]@ == k);
                        }
                        if stale_upto(m, qs, now, id as int).contains(k) {
                            let i = choose|i: int|
                                0 <= i < id && stale_of(m, qs[i], now) == Some(k);
                            assert(0 <= i < id + 1);
                        }
                        if path_set(gc@, gc.len() as int).contains(k) {
                            let j = choose|j: int| 0 <= j < gc.len() && gc@[j]@ == k;
                            if j < gc0.len() {
                                assert(gc0[j]@ == k);
                            }
                        }
                    }
                } else {
                    assert(gc@ == gc0);
                    assert(stale_of(m, q, now) is None);
                }
                assert(path_set(gc@, gc.len() as int) =~= stale_upto(m, qs, now, id + 1));
            }
            id += 1;
        }
        assert(stale_upto(m, qs, now, n as int) =~= stale_keys(m, qs, now));
        (dests, gc)
    }

    /// Evict the entries for the paths of `gc`.
    fn evict(&mut self, gc: &Vec<Path>)
        requires
            old(self).wf(),
        ensures
            final(self).wf(),
            final(self)@ == old(self)@.remove_keys(path_set(gc@, gc.len() as int)),
    {
        let ghost m = self@;
        let mut g: usize = 0;
        assert(self@.remove_keys(path_set(gc@, 0)) =~= m);
        while g < gc.len()
            invariant
                self.wf(),
                g <= gc.len(),
                self@ == m.remove_keys(path_set(gc@, g as int)),
            decreases gc.len() - g,
        {
            match self.index_of(&gc[g]) {
                Some(i) => {
                    proof {
                        lemma_cache_remove(self.cached@, i as int);
                    }
                    self.cached.remove(i);
                },
                None => {},
            }
            assert(m.remove_keys(path_set(gc@, g + 1)) =~= m.remove_keys(
                path_set(gc@, g as int),
            ).remove(gc@[g as int]@));
            g += 1;
        }
    }

    /// Split `batch` by destination at `now` (in milliseconds). Each
    /// operation goes, with its index in `batch`, to the sub-batch of its
    /// target: the referral with the longest path that owns its path, if
    /// that entry has not expired; else the default backend, `None`. The
    /// sub-batches keep the order of `batch`, and no two go to one target.
    /// Expired entries that were met are evicted.
    pub fn route_batch<T: ToPath + Clone>(&mut self, batch: &Vec<T>, now: u64) -> (r: Vec<
        (Option<Path>, Vec<(usize, T)>),
    >)
        requires
            old(self).wf(),
        ensures
            final(self).wf(),
            final(self)@ == old(self)@.remove_keys(stale_keys(old(self)@, paths_of(batch@), now)),
            is_routing(old(self)@, batch@, now, r@),
    {
        let ghost m = self@;
        let ghost qs = paths_of(batch@);
        let n = batch.len();
        let (dests, gc) = self.destinations(batch, now);
        let keys = distinct_keys(&dests);
        let mut r: Vec<(Option<Path>, Vec<(usize, T)>)> = Vec::new();
        let mut b: usize = 0;
        while b < keys.len()
            invariant
                n == batch.len(),
                n == dests.len(),
                b <= keys.len(),
                r.len() == b,
                forall|b1: int, b2: int|
                    0 <= b1 < b2 < keys.len() ==> key_view(#[trigger] keys@[b1]) != key_view(
                        #[trigger] keys@[b2],
                    ),
                forall|b2: int| #![trigger keys@[b2]]
                    0 <= b2 < keys.len() ==> exists|i: int|
                        0 <= i < n && key_view(keys@[b2]) == key_view(dests@[i]),
                forall|c: int| 0 <= c < b ==> key_view((#[trigger] r[c]).0) == key_view(keys@[c]),
                forall|c: int| 0 <= c < b ==> (#[trigger] r[c]).1.len() > 0,
                forall|c: int, j: int|
                    0 <= c < b && 0 <= j < r[c].1.len() ==> {
                        let (id, op) = #[trigger] r[c].1[j];
                        &&& id < n
                        &&& key_view(r[c].0) == key_view(dests@[id as int])
                        &&& cloned(batch@[id as int], op)
                    },
                forall|c: int, j1: int, j2: int|
                    0 <= c < b && 0 <= j1 < j2 < r[c].1.len() ==> (#[trigger] r[c].1[j1]).0 < (
                    #[trigger] r[c].1[j2]).0,
                forall|c: int, i: int| #![trigger keys@[c], dests@[i]]
                    0 <= c < b && 0 <= i < n && key_view(dests@[i]) == key_view(keys@[c])
                        ==> exists|j: int| 0 <= j < r[c].1.len() && (#[trigger] r[c].1[j]).0 == i,
            decreases keys.len() - b,
        {
            let sub = sub_batch(batch, &dests, &keys[b]);
            proof {
                let i = choose|i: int| 0 <= i < n && key_view(keys@[b as int]) == key_view(dests@[i]);
                let j = choose|j: int| 0 <= j < sub.len() && (#[trigger] sub@[j]).0 == i;
                assert(sub@[j].0 == i);
            }
            let ghost before = r@;
            r.push((copy_key(&keys[b]), sub));
            proof {
                assert forall|c: int, i: int| #![trigger keys@[c], dests@[i]]
                    0 <= c < b + 1 && 0 <= i < n && key_view(dests@[i]) == key_view(keys@[c])
                        implies exists|j: int|
                        0 <= j < r[c].1.len() && (#[trigger] r[c].1[j]).0 == i by {
                    if c < b {
                        assert(r[c] == before[c]);
                    } else {
                        let j = choose|j: int| 0 <= j < sub.len() && (#[trigger] sub@[j]).0 == i;
                        assert(r[c].1[j].0 == i);
                    }
                }
            }
            b += 1;
        }
        self.evict(&gc);
        assert forall|i: int| 0 <= i < n implies #[trigger] is_routed(r@, i) by {
            let c = choose|c: int| 0 <= c < keys.len() && key_view(keys@[c]) == key_view(dests@[i]);
            let j = choose|j: int| 0 <= j < r[c].1.len() && (#[trigger] r[c].1[j]).0 == i;
            assert(r@[c].1[j].0 == i);
        }
        r
    }

    /// The entry with the longest key that owns `q`.
    fn longest(&self, q: &Path) -> (r: Option<usize>)
        requires
            self.wf(),
        ensures
            r matches Some(i) ==> i < self.cached.len() && is_longest_cover(
                self@,
                q@,
                entry_key(self.cached@[i as int]),
            ),
            r is None ==> !has_cover(self@, q@),
    {
        let qc = chars_of(q.as_str());
        let mut best: Option<usize> = None;
        let mut best_len: usize = 0;
        let mut i: usize = 0;
        while i < self.cached.len()
            invariant
                qc@ == q@,
                unique_keys(self.cached@),
                i <= self.cached.len(),
                best matches Some(b) ==> b < i && covers(entry_key(self.cached@[b as int]), q@)
                    && best_len == entry_key(self.cached@[b as int]).len(),
                forall|j: int|
                    0 <= j < i && covers(entry_key(#[trigger] self.cached@[j]), q@) ==> (
                    best matches Some(b) && entry_key(self.cached@[j]).len() <= best_len),
            decreases self.cached.len() - i,
        {
            let pc = chars_of(self.cached[i].1.path.as_str());
            if covers_exec(&pc, &qc) {
                if best.is_none() || pc.len() > best_len {
                    best = Some(i);
                    best_len = pc.len();
                }
            }
            i += 1;
        }
        proof {
            let m = self@;
            match best {
                Some(b) => {
                    lemma_cache_index(self.cached@, b as int);
                    assert forall|k2: Seq<char>| #[trigger]
                        m.contains_key(k2) && covers(k2, q@) implies k2.len() <= best_len by {
                        let j = choose|j: int|
                            0 <= j < self.cached@.len() && entry_key(self.cached@[j]) == k2;
                        assert(covers(entry_key(self.cached@[j]), q@));
                    }
                },
                None => {
                    if has_cover(m, q@) {
                        let k = choose|k: Seq<char>| is_longest_cover(m, q@, k);
                        let j = choose|j: int|
                            0 <= j < self.cached@.len() && entry_key(self.cached@[j]) == k;
                        assert(covers(entry_key(self.cached@[j]), q@));
                    }
                },
            }
        }
        best
    }
}

} // verus!
