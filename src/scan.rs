//! Ordered scans of the user index: what a read of one user's keys visits,
//! and the facts that make paging through it with a cursor sound.
use vstd::prelude::*;
use crate::store::{is_least_from, key_le, key_lt, next_key};

verus! {

pub type Key = (u64, u64, u64);

/// The greatest key.
pub open spec fn max_key() -> Key {
    (u64::MAX, u64::MAX, u64::MAX)
}

/// The key that comes right after `k`, for `k` other than `max_key()`.
pub open spec fn key_succ(k: Key) -> Key {
    if k.2 < u64::MAX {
        (k.0, k.1, (k.2 + 1) as u64)
    } else if k.1 < u64::MAX {
        (k.0, (k.1 + 1) as u64, 0)
    } else {
        ((k.0 + 1) as u64, 0, 0)
    }
}

/// The first `n` keys of `keys` that belong to `user`, in order, starting at
/// `lower` and stopping at the first key of another user.
pub open spec fn user_scan(keys: Set<Key>, user: u64, lower: Key, n: nat) -> Seq<Key>
    decreases n,
{
    if n == 0 {
        seq![]
    } else {
        match next_key(keys, lower) {
            Some(k) => if k.0 != user {
                seq![]
            } else if k == max_key() {
                seq![k]
            } else {
                seq![k] + user_scan(keys, user, key_succ(k), (n - 1) as nat)
            },
            None => seq![],
        }
    }
}

/// The key after `k`, or `None` for the greatest key.
pub fn key_after(k: Key) -> (r: Option<Key>)
    ensures
        r is None <==> k == max_key(),
        r is Some ==> r->Some_0 == key_succ(k),
{
    if k.2 < u64::MAX {
        Some((k.0, k.1, k.2 + 1))
    } else if k.1 < u64::MAX {
        Some((k.0, k.1 + 1, 0))
    } else if k.0 < u64::MAX {
        Some((k.0 + 1, 0, 0))
    } else {
        None
    }
}

pub proof fn lemma_succ(k: Key)
    requires
        k != max_key(),
    ensures
        key_lt(k, key_succ(k)),
        forall|j: Key| key_lt(k, j) <==> key_le(key_succ(k), j),
{
}

/// A least key is the one `next_key` picks.
pub proof fn lemma_next_key_is_least(keys: Set<Key>, lower: Key, k: Key)
    requires
        is_least_from(keys, lower, k),
    ensures
        next_key(keys, lower) == Some(k),
{
    let c = choose|c: Key| is_least_from(keys, lower, c);
    assert(is_least_from(keys, lower, c));
    assert(key_le(k, c) && key_le(c, k));
}

/// What `next_key` returns is a least key.
pub proof fn lemma_next_key_some(keys: Set<Key>, lower: Key)
    requires
        next_key(keys, lower) is Some,
    ensures
        is_least_from(keys, lower, next_key(keys, lower)->Some_0),
{
}

/// A finite set with a key at or after `lower` has a least such key.
pub proof fn lemma_least_exists(keys: Set<Key>, lower: Key, j: Key)
    requires
        keys.finite(),
        keys.contains(j),
        key_le(lower, j),
    ensures
        next_key(keys, lower) is Some,
    decreases keys.len(),
{
    if forall|y: Key| keys.contains(y) && key_le(lower, y) ==> key_le(j, y) {
        lemma_next_key_is_least(keys, lower, j);
    } else {
        let y = choose|y: Key| keys.contains(y) && key_le(lower, y) && !key_le(j, y);
        let rest = keys.remove(j);
        assert(rest.contains(y));
        lemma_least_exists(rest, lower, y);
        let k = next_key(rest, lower)->Some_0;
        lemma_next_key_some(rest, lower);
        assert forall|z: Key| keys.contains(z) && key_le(lower, z) implies key_le(k, z) by {
            if z != j {
                assert(rest.contains(z));
            }
        }
        lemma_next_key_is_least(keys, lower, k);
    }
}

/// Every key of a scan is in the index, belongs to the user, and lies at or
/// after where the scan started.
pub proof fn lemma_scan_members(keys: Set<Key>, user: u64, lower: Key, n: nat)
    ensures
        user_scan(keys, user, lower, n).len() <= n,
        forall|i: int|
            0 <= i < user_scan(keys, user, lower, n).len() ==> {
                let k = #[trigger] user_scan(keys, user, lower, n)[i];
                keys.contains(k) && k.0 == user && key_le(lower, k)
            },
    decreases n,
{
    if n > 0 {
        if let Some(k) = next_key(keys, lower) {
            lemma_next_key_some(keys, lower);
            if k.0 == user && k != max_key() {
                let tail = user_scan(keys, user, key_succ(k), (n - 1) as nat);
                lemma_scan_members(keys, user, key_succ(k), (n - 1) as nat);
                lemma_succ(k);
                assert forall|i: int| 1 <= i < tail.len() + 1 implies key_le(lower, #[trigger] (seq![k] + tail)[i]) by {
                    assert((seq![k] + tail)[i] == tail[i - 1]);
                }
            }
        }
    }
}

/// The keys of a scan of one user strictly ascend, by timestamp and then by
/// log index, and all of them belong to that user.
pub proof fn lemma_scan_ascending(keys: Set<Key>, user: u64, lower: Key, n: nat)
    ensures
        forall|i: int, j: int|
            0 <= i < j < user_scan(keys, user, lower, n).len() ==> key_lt(
                #[trigger] user_scan(keys, user, lower, n)[i],
                #[trigger] user_scan(keys, user, lower, n)[j],
            ),
        forall|i: int|
            0 <= i < user_scan(keys, user, lower, n).len() ==> (#[trigger] user_scan(keys, user, lower, n)[i]).0 == user,
    decreases n,
{
    lemma_scan_members(keys, user, lower, n);
    if n > 0 {
        if let Some(k) = next_key(keys, lower) {
            if k.0 == user && k != max_key() {
                let tail = user_scan(keys, user, key_succ(k), (n - 1) as nat);
                let s = seq![k] + tail;
                lemma_scan_ascending(keys, user, key_succ(k), (n - 1) as nat);
                lemma_scan_members(keys, user, key_succ(k), (n - 1) as nat);
                lemma_succ(k);
                assert forall|i: int, j: int| 0 <= i < j < s.len() implies key_lt(s[i], s[j]) by {
                    assert(s[j] == tail[j - 1]);
                    if i > 0 {
                        assert(s[i] == tail[i - 1]);
                    }
                }
            }
        }
    }
}

/// A scan over `n` keys starts with the scan over fewer.
pub proof fn lemma_scan_prefix(keys: Set<Key>, user: u64, lower: Key, n: nat, m: nat)
    requires
        m <= n,
    ensures
        user_scan(keys, user, lower, m) == user_scan(keys, user, lower, n).take(
            user_scan(keys, user, lower, m).len() as int,
        ),
        user_scan(keys, user, lower, m).len() == m || user_scan(keys, user, lower, m) == user_scan(keys, user, lower, n),
        user_scan(keys, user, lower, m).len() <= user_scan(keys, user, lower, n).len(),
    decreases m,
{
    lemma_scan_members(keys, user, lower, m);
    if m == 0 {
        assert(user_scan(keys, user, lower, n).take(0) =~= seq![]);
    } else {
        if let Some(k) = next_key(keys, lower) {
            if k.0 == user && k != max_key() {
                lemma_scan_prefix(keys, user, key_succ(k), (n - 1) as nat, (m - 1) as nat);
                let a = user_scan(keys, user, key_succ(k), (m - 1) as nat);
                let b = user_scan(keys, user, key_succ(k), (n - 1) as nat);
                assert((seq![k] + b).take(a.len() + 1 as int) =~= seq![k] + b.take(a.len() as int));
            } else {
                assert(user_scan(keys, user, lower, n).take(user_scan(keys, user, lower, m).len() as int)
                    =~= user_scan(keys, user, lower, m));
            }
        }
    }
}

/// Paging: when a scan of `n + 1` keys finds them all, its last key is the
/// cursor; the first `n` keys followed by a scan from the cursor are the same
/// as one longer scan from the start.
pub proof fn lemma_pages_concatenate(keys: Set<Key>, user: u64, lower: Key, n: nat, m: nat)
    requires
        user_scan(keys, user, lower, n + 1).len() == n + 1,
    ensures
        user_scan(keys, user, lower, n) + user_scan(keys, user, user_scan(keys, user, lower, n + 1)[n as int], m)
            == user_scan(keys, user, lower, n + m),
    decreases n,
{
    let c = user_scan(keys, user, lower, n + 1)[n as int];
    let k = next_key(keys, lower)->Some_0;
    lemma_next_key_some(keys, lower);
    if n == 0 {
        assert(c == k);
        lemma_next_key_is_least(keys, c, k);
        assert(user_scan(keys, user, lower, 0) + user_scan(keys, user, c, m) =~= user_scan(keys, user, c, m));
        if m > 0 {
            assert(user_scan(keys, user, c, m) == user_scan(keys, user, lower, m));
        } else {
            assert(user_scan(keys, user, lower, 0) =~= user_scan(keys, user, c, 0));
        }
    } else {
        let tail_n1 = user_scan(keys, user, key_succ(k), n);
        assert(k != max_key());
        assert(user_scan(keys, user, lower, n + 1) == seq![k] + tail_n1);
        assert(c == tail_n1[(n - 1) as int]);
        lemma_pages_concatenate(keys, user, key_succ(k), (n - 1) as nat, m);
        let tail_n = user_scan(keys, user, key_succ(k), (n - 1) as nat);
        assert(user_scan(keys, user, lower, n) == seq![k] + tail_n);
        assert(user_scan(keys, user, lower, n + m) == seq![k] + user_scan(keys, user, key_succ(k), (n - 1 + m) as nat));
        assert((seq![k] + tail_n) + user_scan(keys, user, c, m) =~= seq![k] + (tail_n + user_scan(keys, user, c, m)));
    }
}

/// A scan that ends before its bound, started at a key of the user, holds
/// every key of that user from there on.
pub proof fn lemma_last_page_complete(keys: Set<Key>, user: u64, lower: Key, n: nat)
    requires
        keys.finite(),
        lower.0 == user,
        user_scan(keys, user, lower, n).len() < n,
    ensures
        forall|k: Key|
            keys.contains(k) && k.0 == user && key_le(lower, k) ==> user_scan(keys, user, lower, n).contains(k),
    decreases n,
{
    let s = user_scan(keys, user, lower, n);
    assert forall|k: Key| keys.contains(k) && k.0 == user && key_le(lower, k) implies s.contains(k) by {
        lemma_least_exists(keys, lower, k);
        let f = next_key(keys, lower)->Some_0;
        lemma_next_key_some(keys, lower);
        assert(key_le(f, k));
        if f == k {
            assert(s[0] == k);
        } else {
            assert(f.0 == user);
            assert(f != max_key());
            lemma_succ(f);
            let tail = user_scan(keys, user, key_succ(f), (n - 1) as nat);
            assert(s == seq![f] + tail);
            if key_succ(f).0 == user {
                lemma_last_page_complete(keys, user, key_succ(f), (n - 1) as nat);
                assert(tail.contains(k));
                let i = choose|i: int| 0 <= i < tail.len() && tail[i] == k;
                assert(s[i + 1] == k);
            } else {
                assert(key_le(key_succ(f), k));
            }
        }
    }
}

/// The keys of a scan from a cursor all come after the keys of the page that
/// handed the cursor out.
pub proof fn lemma_cursor_moves_forward(keys: Set<Key>, user: u64, lower: Key, n: nat, m: nat)
    requires
        user_scan(keys, user, lower, n + 1).len() == n + 1,
    ensures
        forall|i: int, j: int|
            0 <= i < n && 0 <= j < user_scan(keys, user, user_scan(keys, user, lower, n + 1)[n as int], m).len()
                ==> key_lt(
                #[trigger] user_scan(keys, user, lower, n + 1)[i],
                #[trigger] user_scan(keys, user, user_scan(keys, user, lower, n + 1)[n as int], m)[j],
            ),
{
    let first = user_scan(keys, user, lower, n + 1);
    let c = first[n as int];
    lemma_scan_ascending(keys, user, lower, n + 1);
    lemma_scan_members(keys, user, c, m);
    assert forall|i: int, j: int| 0 <= i < n && 0 <= j < user_scan(keys, user, c, m).len() implies key_lt(
        first[i],
        user_scan(keys, user, c, m)[j],
    ) by {
        assert(key_lt(first[i], first[n as int]));
    }
}

} // verus!
