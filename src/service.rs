//! The log service: who may write, how a write reaches the log and the user
//! index, and the two bounded reads.
use vstd::prelude::*;
use crate::key::{key_bytes, key_of_bytes, lemma_key_of_bytes, UserIndexKey, KEY_LENGTH};
use crate::scan::{
    key_after, lemma_cursor_moves_forward, lemma_last_page_complete, lemma_pages_concatenate,
    lemma_scan_ascending, lemma_scan_prefix, user_scan, Key,
};
use crate::store::{
    key_le, key_lt, config_value, index_keys, log_entries, total_len, ConfigCell, EntryLog, Regions, UserIndex,
    LOG_HEADER_SIZE,
};

verus! {

/// The most entries that one read returns.
pub const MAX_ENTRIES_PER_CALL: u16 = 1000;

/// Where a read of one user's entries starts.
pub enum Cursor {
    /// At the user's first entry at or after this timestamp.
    Timestamp { timestamp: u64 },
    /// At the entry whose index key these bytes encode, as a previous read
    /// handed it out.
    NextToken { next_token: Vec<u8> },
}

/// A window of the log.
pub struct Logs {
    pub entries: Vec<Vec<u8>>,
    /// Where the next window starts, if the log goes on past this one.
    pub next_idx: Option<u64>,
}

/// A page of one user's entries.
pub struct UserLogs {
    pub entries: Vec<Vec<u8>>,
    /// Where the next page starts, if the user has more entries.
    pub cursor: Option<Cursor>,
}

#[derive(Clone, Copy, Debug, PartialEq, Eq, Structural)]
pub enum LogError {
    /// The caller is not the authorized writer.
    Unauthorized,
    /// Stable memory cannot hold what the call would add.
    StorageExhausted,
    /// The user index names an entry the log does not have.
    InternalInvariantViolation,
    /// A `NextToken` cursor that is not 24 bytes long.
    MalformedCursor,
    /// Stable memory holds a structure in a layout this library cannot read.
    IncompatibleLayout,
}

/// The number of entries a read with `limit` may return.
pub open spec fn per_call(limit: Option<u16>) -> nat {
    match limit {
        Some(l) => if l < MAX_ENTRIES_PER_CALL {
            l as nat
        } else {
            MAX_ENTRIES_PER_CALL as nat
        },
        None => MAX_ENTRIES_PER_CALL as nat,
    }
}

/// The first index of a window of `num` entries over a log of `len` entries:
/// the one asked for, or else the start of the last `num` entries.
pub open spec fn window_start(index: Option<u64>, num: nat, len: nat) -> nat {
    match index {
        Some(i) => i as nat,
        None => if len >= num {
            (len - num) as nat
        } else {
            0
        },
    }
}

/// The number of entries in a window of `num` entries from `start` over a
/// log of `len` entries.
pub open spec fn window_len(start: nat, num: nat, len: nat) -> nat {
    if start >= len {
        0
    } else if len - start < num {
        (len - start) as nat
    } else {
        num
    }
}

/// Where a read of `user`'s entries starts for `cursor`. For a `NextToken`
/// it is the key that the token encodes, whatever user that key is of.
pub open spec fn scan_start(user: u64, cursor: Option<Cursor>) -> Key {
    match cursor {
        None => (user, 0, 0),
        Some(Cursor::Timestamp { timestamp }) => (user, timestamp, 0),
        Some(Cursor::NextToken { next_token }) => key_of_bytes(next_token@),
    }
}

/// The cursor is a `NextToken` whose length is not that of a key.
pub open spec fn is_malformed(cursor: Option<Cursor>) -> bool {
    match cursor {
        Some(Cursor::NextToken { next_token }) => next_token@.len() != KEY_LENGTH,
        _ => false,
    }
}

/// The keys that a read of `user`'s entries visits: one more than it may
/// return, the last of them telling whether to hand out a cursor.
pub open spec fn visited(keys: Set<Key>, user: u64, cursor: Option<Cursor>, limit: Option<u16>) -> Seq<Key> {
    user_scan(keys, user, scan_start(user, cursor), per_call(limit) + 1)
}

/// The keys whose entries a read of `user`'s entries returns.
pub open spec fn shown(keys: Set<Key>, user: u64, cursor: Option<Cursor>, limit: Option<u16>) -> Seq<Key> {
    let v = visited(keys, user, cursor, limit);
    if v.len() > per_call(limit) {
        v.take(per_call(limit) as int)
    } else {
        v
    }
}

/// `c` is the cursor that a page ending before `next` hands out, if any.
pub open spec fn cursor_for(c: Option<Cursor>, next: Option<Key>) -> bool {
    match next {
        None => c is None,
        Some(k) => c matches Some(Cursor::NextToken { next_token }) && next_token@ == key_bytes(k.0, k.1, k.2),
    }
}

/// The state of the service: the configuration cell, the log, and the user
/// index.
pub struct LogService {
    config: ConfigCell,
    log: EntryLog,
    index: UserIndex,
}

impl LogService {
    /// The authorized writer.
    pub closed spec fn writer(&self) -> Seq<u8> {
        config_value(self.config)
    }

    /// The entries of the log, in order of arrival.
    pub closed spec fn entries(&self) -> Seq<Seq<u8>> {
        log_entries(self.log)
    }

    /// The keys `(user_number, timestamp, log_index)` of the user index.
    pub closed spec fn keys(&self) -> Set<Key> {
        index_keys(self.index)
    }

    pub open spec fn wf(&self) -> bool {
        self.keys().finite()
    }

    /// The log can take one more entry of `len` bytes without its addresses
    /// passing `u64::MAX`.
    pub open spec fn fits(&self, len: nat) -> bool {
        &&& total_len(self.entries()) + len + LOG_HEADER_SIZE <= u64::MAX
        &&& 8 * self.entries().len() + 2 * LOG_HEADER_SIZE <= u64::MAX
    }

    /// Opens the service on stable memory. Where `writer` is given, it
    /// becomes the authorized writer; else the one stored stays, or
    /// `default_writer` where none is.
    pub fn init(writer: Option<Vec<u8>>, default_writer: Vec<u8>) -> (r: Result<LogService, LogError>)
        ensures
            r matches Ok(s) ==> s.wf(),
            r matches Ok(s) ==> (writer matches Some(w) ==> s.writer() == w@),
            r matches Err(e) ==> e == LogError::IncompatibleLayout || e == LogError::StorageExhausted,
    {
        let mut config = match ConfigCell::open(default_writer) {
            Ok(c) => c,
            Err(_) => return Err(LogError::IncompatibleLayout),
        };
        if let Some(w) = writer {
            match config.set(w) {
                Ok(_) => {},
                Err(_) => return Err(LogError::StorageExhausted),
            }
        }
        let regions = Regions::open();
        let log = match EntryLog::open(&regions) {
            Ok(l) => l,
            Err(_) => return Err(LogError::IncompatibleLayout),
        };
        let index = UserIndex::open(&regions);
        Ok(LogService { config, log, index })
    }

    /// The number of entries in the log.
    pub fn log_length(&self) -> (r: u64)
        ensures
            r == self.entries().len(),
    {
        self.log.len()
    }

    /// The authorized writer.
    pub fn authorized_writer(&self) -> (r: Vec<u8>)
        ensures
            r@ == self.writer(),
    {
        self.config.get()
    }

    /// Appends `entry` to the log for `user_number` at `timestamp`, and
    /// returns its index. Only the authorized writer may write. Where the log
    /// takes the entry, the user index gets its key.
    pub fn write_entry(&mut self, caller: &[u8], user_number: u64, timestamp: u64, entry: Vec<u8>) -> (r: Result<u64, LogError>)
        requires
            old(self).wf(),
        ensures
            final(self).wf(),
            final(self).writer() == old(self).writer(),
            caller@ != old(self).writer() <==> r == Err::<u64, LogError>(LogError::Unauthorized),
            caller@ == old(self).writer() && !old(self).fits(entry@.len()) ==> r == Err::<u64, LogError>(
                LogError::StorageExhausted,
            ),
            r is Err ==> r == Err::<u64, LogError>(LogError::Unauthorized) || r == Err::<u64, LogError>(
                LogError::StorageExhausted,
            ),
            r is Err ==> final(self).entries() == old(self).entries() && final(self).keys() == old(self).keys(),
            r matches Ok(seq) ==> wrote(*old(self), *final(self), user_number, timestamp, entry@, seq),
    {
        let writer = self.config.get();
        if !bytes_equal(caller, writer.as_slice()) {
            return Err(LogError::Unauthorized);
        }
        let size = self.log.size_bytes();
        let len = self.log.len();
        if size > u64::MAX - LOG_HEADER_SIZE || entry.len() as u64 > u64::MAX - LOG_HEADER_SIZE - size
            || len > (u64::MAX - 2 * LOG_HEADER_SIZE) / 8 {
            return Err(LogError::StorageExhausted);
        }
        let seq = match self.log.append(&entry) {
            Ok(i) => i,
            Err(_) => return Err(LogError::StorageExhausted),
        };
        self.index.insert((user_number, timestamp, seq));
        Ok(seq)
    }

    /// A window of at most `limit` entries (never more than
    /// `MAX_ENTRIES_PER_CALL`) from `index` on, or the last ones where no
    /// index is given; with the index of the next window while the log goes
    /// on past this one.
    pub fn get_logs(&self, index: Option<u64>, limit: Option<u16>) -> (r: Logs)
        ensures
            ({
                let num = per_call(limit);
                let len = self.entries().len();
                let start = window_start(index, num, len);
                &&& r.entries@.len() == window_len(start, num, len)
                &&& forall|i: int| 0 <= i < r.entries@.len() ==> #[trigger] r.entries@[i]@ == self.entries()[start + i]
                &&& r.next_idx == if start + num < len {
                    Some((start + num) as u64)
                } else {
                    None
                }
            }),
            r.entries@.len() <= per_call(limit),
    {
        let num: u64 = entries_per_call(limit) as u64;
        let len = self.log.len();
        let start: u64 = match index {
            Some(i) => i,
            None => if len >= num {
                len - num
            } else {
                0
            },
        };
        let count: u64 = if start >= len {
            0
        } else if len - start < num {
            len - start
        } else {
            num
        };
        let next_idx = if start < len && len - start > num {
            Some(start + num)
        } else {
            None
        };
        let mut entries: Vec<Vec<u8>> = Vec::new();
        let mut i: u64 = 0;
        while i < count
            invariant
                count == window_len(start as nat, num as nat, len as nat),
                len == self.entries().len(),
                entries@.len() == i,
                i <= count,
                forall|j: int| 0 <= j < i ==> #[trigger] entries@[j]@ == self.entries()[start + j],
            decreases count - i,
        {
            if let Some(e) = self.log.get(start + i) {
                entries.push(e);
            }
            i = i + 1;
        }
        Logs { entries, next_idx }
    }

    /// A page of at most `limit` (never more than `MAX_ENTRIES_PER_CALL`) of
    /// `user_number`'s entries, in order of timestamp and then of arrival,
    /// from where `cursor` says; with a cursor for the next page while the
    /// user has more entries.
    pub fn get_user_logs(&self, user_number: u64, cursor: Option<Cursor>, limit: Option<u16>) -> (r: Result<UserLogs, LogError>)
        ensures
            is_malformed(cursor) ==> r == Err::<UserLogs, LogError>(LogError::MalformedCursor),
            !is_malformed(cursor) ==> ({
                let v = visited(self.keys(), user_number, cursor, limit);
                let s = shown(self.keys(), user_number, cursor, limit);
                let missing = exists|i: int| 0 <= i < s.len() && (#[trigger] s[i]).2 >= self.entries().len();
                &&& missing <==> r == Err::<UserLogs, LogError>(LogError::InternalInvariantViolation)
                &&& !missing <==> r is Ok
                &&& r matches Ok(out) ==> {
                    &&& out.entries@.len() == s.len()
                    &&& forall|i: int| 0 <= i < s.len() ==> #[trigger] out.entries@[i]@ == self.entries()[s[i].2 as int]
                    &&& cursor_for(out.cursor, if v.len() > per_call(limit) { Some(v[per_call(limit) as int]) } else { None })
                }
            }),
            r matches Ok(out) ==> out.entries@.len() <= per_call(limit),
    {
        let num: usize = entries_per_call(limit) as usize;
        let lower: Key = match &cursor {
            None => (user_number, 0, 0),
            Some(Cursor::Timestamp { timestamp }) => (user_number, *timestamp, 0),
            Some(Cursor::NextToken { next_token }) => match UserIndexKey::from_bytes(next_token.as_slice()) {
                Some(k) => (k.user_number, k.timestamp, k.log_index),
                None => return Err(LogError::MalformedCursor),
            },
        };
        let ghost keys = self.keys();
        let ghost full = user_scan(keys, user_number, lower, (num + 1) as nat);
        let mut found: Vec<Key> = Vec::new();
        let mut from: Key = lower;
        let mut done = false;
        while !done && found.len() < num + 1
            invariant
                keys == self.keys(),
                full == user_scan(keys, user_number, lower, (num + 1) as nat),
                found@.len() <= num + 1,
                num <= MAX_ENTRIES_PER_CALL,
                !done ==> found@ + user_scan(keys, user_number, from, (num + 1 - found@.len()) as nat) == full,
                done ==> found@ == full,
            decreases num + 1 - found@.len(), if done { 0int } else { 1int },
        {
            let ghost left = (num + 1 - found@.len()) as nat;
            match self.index.first_from(from) {
                None => {
                    done = true;
                    assert(found@ + seq![] =~= found@);
                },
                Some(k) => {
                    if k.0 != user_number {
                        done = true;
                        assert(found@ + seq![] =~= found@);
                    } else {
                        let ghost before = found@;
                        found.push(k);
                        match key_after(k) {
                            None => {
                                done = true;
                                assert(before + seq![k] =~= found@);
                            },
                            Some(n) => {
                                assert(before + (seq![k] + user_scan(keys, user_number, n, (left - 1) as nat))
                                    =~= found@ + user_scan(keys, user_number, n, (left - 1) as nat));
                                from = n;
                            },
                        }
                    }
                },
            }
        }
        if !done {
            assert(user_scan(keys, user_number, from, 0) =~= seq![]);
            assert(found@ + seq![] =~= found@);
        }
        assert(found@ == full);
        assert(lower == scan_start(user_number, cursor));
        assert(!is_malformed(cursor));
        let count: usize = if found.len() > num {
            num
        } else {
            found.len()
        };
        let ghost s = shown(keys, user_number, cursor, limit);
        assert(s.len() == count);
        assert(forall|j: int| 0 <= j < count ==> s[j] == found@[j]);
        let mut entries: Vec<Vec<u8>> = Vec::new();
        let mut i: usize = 0;
        while i < count
            invariant
                i <= count,
                count <= found@.len(),
                s.len() == count,
                forall|j: int| 0 <= j < count ==> s[j] == found@[j],
                s == shown(self.keys(), user_number, cursor, limit),
                !is_malformed(cursor),
                entries@.len() == i,
                forall|j: int| 0 <= j < i ==> (#[trigger] s[j]).2 < self.entries().len(),
                forall|j: int| 0 <= j < i ==> #[trigger] entries@[j]@ == self.entries()[s[j].2 as int],
            decreases count - i,
        {
            let k = found[i];
            match self.log.get(k.2) {
                Some(e) => entries.push(e),
                None => {
                    assert(s[i as int].2 >= self.entries().len());
                    return Err(LogError::InternalInvariantViolation);
                },
            }
            i = i + 1;
        }
        let next = if found.len() > num {
            let k = found[num];
            let key = UserIndexKey { user_number: k.0, timestamp: k.1, log_index: k.2 };
            Some(Cursor::NextToken { next_token: key.to_bytes() })
        } else {
            None
        };
        Ok(UserLogs { entries, cursor: next })
    }
}

/// The change a successful `write_entry` of `entry` for `user` at
/// `timestamp` makes: the entry is appended at index `seq`, the user index
/// gains `(user, timestamp, seq)`, and the writer stays.
pub open spec fn wrote(before: LogService, after: LogService, user: u64, timestamp: u64, entry: Seq<u8>, seq: u64) -> bool {
    &&& seq == before.entries().len()
    &&& after.entries() == before.entries().push(entry)
    &&& after.keys() == before.keys().insert((user, timestamp, seq))
    &&& after.writer() == before.writer()
}

/// The number of entries a read with `limit` may return.
pub fn entries_per_call(limit: Option<u16>) -> (r: u16)
    ensures
        r == per_call(limit),
{
    match limit {
        Some(l) => if l < MAX_ENTRIES_PER_CALL {
            l
        } else {
            MAX_ENTRIES_PER_CALL
        },
        None => MAX_ENTRIES_PER_CALL,
    }
}

/// Whether two byte strings are equal.
pub fn bytes_equal(a: &[u8], b: &[u8]) -> (r: bool)
    ensures
        r == (a@ == b@),
{
    if a.len() != b.len() {
        return false;
    }
    let mut i: usize = 0;
    while i < a.len()
        invariant
            a@.len() == b@.len(),
            i <= a@.len(),
            forall|j: int| 0 <= j < i ==> a@[j] == b@[j],
        decreases a@.len() - i,
    {
        if a[i] != b[i] {
            return false;
        }
        i = i + 1;
    }
    assert(a@ =~= b@);
    true
}

/// Every key of the user index names an entry of the log, and no two keys
/// name the same entry.
pub open spec fn coherent(s: LogService) -> bool {
    &&& forall|k: Key| #[trigger] s.keys().contains(k) ==> k.2 < s.entries().len()
    &&& forall|a: Key, b: Key| #[trigger] s.keys().contains(a) && #[trigger] s.keys().contains(b) && a.2 == b.2 ==> a == b
}

/// Writes number the entries densely: after successful writes of
/// `payloads`, starting from an empty log, the log holds exactly `payloads`,
/// in order, and the `i`-th write returned `i`.
pub proof fn lemma_writes_dense(
    history: Seq<LogService>,
    users: Seq<u64>,
    stamps: Seq<u64>,
    payloads: Seq<Seq<u8>>,
    seqs: Seq<u64>,
)
    requires
        history.len() == payloads.len() + 1,
        users.len() == payloads.len(),
        stamps.len() == payloads.len(),
        seqs.len() == payloads.len(),
        history[0].entries().len() == 0,
        forall|i: int| 0 <= i < payloads.len() ==> wrote(#[trigger] history[i], history[i + 1], users[i], stamps[i], payloads[i], seqs[i]),
    ensures
        history.last().entries() == payloads,
        forall|i: int| 0 <= i < seqs.len() ==> #[trigger] seqs[i] == i,
{
    lemma_writes_prefix(history, users, stamps, payloads, seqs, payloads.len());
    assert(payloads.take(payloads.len() as int) =~= payloads);
}

proof fn lemma_writes_prefix(
    history: Seq<LogService>,
    users: Seq<u64>,
    stamps: Seq<u64>,
    payloads: Seq<Seq<u8>>,
    seqs: Seq<u64>,
    k: nat,
)
    requires
        k <= payloads.len(),
        history.len() == payloads.len() + 1,
        users.len() == payloads.len(),
        stamps.len() == payloads.len(),
        seqs.len() == payloads.len(),
        history[0].entries().len() == 0,
        forall|i: int| 0 <= i < payloads.len() ==> wrote(#[trigger] history[i], history[i + 1], users[i], stamps[i], payloads[i], seqs[i]),
    ensures
        history[k as int].entries() == payloads.take(k as int),
        forall|i: int| 0 <= i < k ==> #[trigger] seqs[i] == i,
    decreases k,
{
    if k == 0 {
        assert(history[0].entries() =~= payloads.take(0));
    } else {
        let j = (k - 1) as int;
        lemma_writes_prefix(history, users, stamps, payloads, seqs, (k - 1) as nat);
        assert(wrote(history[j], history[j + 1], users[j], stamps[j], payloads[j], seqs[j]));
        assert(payloads.take(k as int) =~= payloads.take(j).push(payloads[j]));
    }
}

/// A successful write keeps the index coherent with the log, and the entry
/// it wrote has exactly one key, which names it.
pub proof fn lemma_write_coherent(
    before: LogService,
    after: LogService,
    user: u64,
    timestamp: u64,
    entry: Seq<u8>,
    seq: u64,
)
    requires
        coherent(before),
        wrote(before, after, user, timestamp, entry, seq),
    ensures
        coherent(after),
        after.keys().contains((user, timestamp, seq)),
        seq < after.entries().len(),
        after.entries()[seq as int] == entry,
        forall|k: Key| #[trigger] after.keys().contains(k) && k.2 == seq ==> k == (user, timestamp, seq),
{
    assert forall|a: Key, b: Key| #[trigger] after.keys().contains(a) && #[trigger] after.keys().contains(b) && a.2 == b.2 implies a == b by {
        if a != (user, timestamp, seq) && b != (user, timestamp, seq) {
            assert(before.keys().contains(a) && before.keys().contains(b));
        } else if a != (user, timestamp, seq) {
            assert(before.keys().contains(a));
        } else if b != (user, timestamp, seq) {
            assert(before.keys().contains(b));
        }
    }
    assert forall|k: Key| #[trigger] after.keys().contains(k) && k.2 == seq implies k == (user, timestamp, seq) by {
        if k != (user, timestamp, seq) {
            assert(before.keys().contains(k));
        }
    }
}

/// A read of one user's entries returns them in strictly ascending order of
/// `(timestamp, log index)`, and only entries of that user.
pub proof fn lemma_user_logs_ordered(keys: Set<Key>, user: u64, cursor: Option<Cursor>, limit: Option<u16>)
    ensures
        forall|i: int, j: int|
            0 <= i < j < shown(keys, user, cursor, limit).len() ==> key_lt(
                #[trigger] shown(keys, user, cursor, limit)[i],
                #[trigger] shown(keys, user, cursor, limit)[j],
            ),
        forall|i: int|
            0 <= i < shown(keys, user, cursor, limit).len() ==> (#[trigger] shown(keys, user, cursor, limit)[i]).0 == user,
{
    let n = per_call(limit);
    let start = scan_start(user, cursor);
    lemma_scan_ascending(keys, user, start, n + 1);
}

/// Paging on: a page that hands out a cursor, and the read made with that
/// cursor, return together what one longer read returns; every key of the
/// second comes after every key of the first.
pub proof fn lemma_cursor_continues(
    keys: Set<Key>,
    user: u64,
    cursor: Option<Cursor>,
    limit: Option<u16>,
    next: Option<Cursor>,
    next_limit: Option<u16>,
)
    requires
        visited(keys, user, cursor, limit).len() > per_call(limit),
        cursor_for(next, Some(visited(keys, user, cursor, limit)[per_call(limit) as int])),
    ensures
        !is_malformed(next),
        shown(keys, user, cursor, limit) + visited(keys, user, next, next_limit) == user_scan(
            keys,
            user,
            scan_start(user, cursor),
            per_call(limit) + per_call(next_limit) + 1,
        ),
        forall|i: int, j: int|
            0 <= i < shown(keys, user, cursor, limit).len() && 0 <= j < visited(keys, user, next, next_limit).len()
                ==> key_lt(
                #[trigger] shown(keys, user, cursor, limit)[i],
                #[trigger] visited(keys, user, next, next_limit)[j],
            ),
{
    let n = per_call(limit);
    let m = per_call(next_limit) + 1;
    let start = scan_start(user, cursor);
    let v = visited(keys, user, cursor, limit);
    let c = v[n as int];
    crate::scan::lemma_scan_members(keys, user, start, n + 1);
    lemma_key_of_bytes(c.0, c.1, c.2);
    assert(scan_start(user, next) == c);
    lemma_scan_prefix(keys, user, start, n + 1, n);
    lemma_pages_concatenate(keys, user, start, n, m);
    lemma_cursor_moves_forward(keys, user, start, n, m);
    let first = shown(keys, user, cursor, limit);
    crate::scan::lemma_scan_members(keys, user, start, n);
    assert(user_scan(keys, user, start, n).len() == n);
    assert(first == user_scan(keys, user, start, n));
    assert forall|i: int, j: int|
        0 <= i < first.len() && 0 <= j < visited(keys, user, next, next_limit).len() implies key_lt(
        first[i],
        visited(keys, user, next, next_limit)[j],
    ) by {
        assert(first[i] == v[i]);
        assert(key_lt(v[i], user_scan(keys, user, c, m)[j]));
    }
}

/// The last page: a read of a user's entries that hands out no cursor,
/// started at a key of that user, has returned every key of the user from
/// its start on.
pub proof fn lemma_last_page(keys: Set<Key>, user: u64, cursor: Option<Cursor>, limit: Option<u16>)
    requires
        keys.finite(),
        scan_start(user, cursor).0 == user,
        visited(keys, user, cursor, limit).len() <= per_call(limit),
    ensures
        forall|k: Key|
            keys.contains(k) && k.0 == user && key_le(scan_start(user, cursor), k) ==> #[trigger] shown(
                keys,
                user,
                cursor,
                limit,
            ).contains(k),
{
    lemma_last_page_complete(keys, user, scan_start(user, cursor), per_call(limit) + 1);
}

} // verus!
