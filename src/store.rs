//! The stable structures the service keeps its state in, and what this
//! library relies on of them.
//!
//! Stable memory is laid out as in the service's persisted format: page 0
//! holds the configuration cell; the pages after it belong to a memory
//! manager, whose region 0 holds the log's index, region 1 the log's data and
//! region 2 the user index.
use vstd::prelude::*;
use ic_stable_structures::memory_manager::{MemoryId, MemoryManager, VirtualMemory};
use ic_stable_structures::{BTreeMap, Cell, DefaultMemoryImpl, Log, RestrictedMemory};

verus! {

/// Pages of stable memory the service may use: 4 GiB in pages of 64 KiB.
pub const MAX_PAGES: u64 = 65536;

/// Bytes that the log keeps in front of the entries in its data region, and
/// in front of the entry count in its index region.
pub const LOG_HEADER_SIZE: u64 = 32;

pub const LOG_INDEX_REGION: u8 = 0;

pub const LOG_DATA_REGION: u8 = 1;

pub const USER_INDEX_REGION: u8 = 2;

#[verifier::external_type_specification]
#[verifier::external_body]
pub struct ExLogInitError(ic_stable_structures::log::InitError);

#[verifier::external_type_specification]
#[verifier::external_body]
pub struct ExWriteError(ic_stable_structures::log::WriteError);

#[verifier::external_type_specification]
#[verifier::external_body]
pub struct ExCellInitError(ic_stable_structures::cell::InitError);

#[verifier::external_type_specification]
#[verifier::external_body]
pub struct ExValueError(ic_stable_structures::cell::ValueError);

/// The memory manager that divides stable memory, after its first page, into
/// regions.
#[verifier::external_body]
pub struct Regions {
    manager: MemoryManager<RestrictedMemory<DefaultMemoryImpl>>,
}

/// The log of entries, over two regions.
#[verifier::external_body]
pub struct EntryLog {
    log: Log<Vec<u8>, VirtualMemory<RestrictedMemory<DefaultMemoryImpl>>, VirtualMemory<RestrictedMemory<DefaultMemoryImpl>>>,
}

/// The user index: an ordered set of keys `(user_number, timestamp, log_index)`.
#[verifier::external_body]
pub struct UserIndex {
    map: BTreeMap<(u64, u64, u64), (), VirtualMemory<RestrictedMemory<DefaultMemoryImpl>>>,
}

/// The cell on the first page of stable memory that holds the authorized
/// writer, as the bytes of its principal.
#[verifier::external_body]
pub struct ConfigCell {
    cell: Cell<Vec<u8>, RestrictedMemory<DefaultMemoryImpl>>,
}

/// The entries of the log, in order of arrival.
pub uninterp spec fn log_entries(log: EntryLog) -> Seq<Seq<u8>>;

/// The keys of the user index.
pub uninterp spec fn index_keys(index: UserIndex) -> Set<(u64, u64, u64)>;

/// The value held by the configuration cell.
pub uninterp spec fn config_value(cell: ConfigCell) -> Seq<u8>;

/// Total number of bytes in the entries.
pub open spec fn total_len(entries: Seq<Seq<u8>>) -> nat
    decreases entries.len(),
{
    if entries.len() == 0 {
        0
    } else {
        total_len(entries.drop_last()) + entries.last().len()
    }
}

/// `a` comes at or before `b` in the order of tuples: by user number, then
/// timestamp, then log index.
pub open spec fn key_le(a: (u64, u64, u64), b: (u64, u64, u64)) -> bool {
    a.0 < b.0 || (a.0 == b.0 && (a.1 < b.1 || (a.1 == b.1 && a.2 <= b.2)))
}

pub open spec fn key_lt(a: (u64, u64, u64), b: (u64, u64, u64)) -> bool {
    key_le(a, b) && a != b
}

/// `k` is the least key of `keys` at or after `lower`.
pub open spec fn is_least_from(keys: Set<(u64, u64, u64)>, lower: (u64, u64, u64), k: (u64, u64, u64)) -> bool {
    &&& keys.contains(k)
    &&& key_le(lower, k)
    &&& forall|j: (u64, u64, u64)| keys.contains(j) && key_le(lower, j) ==> key_le(k, j)
}

/// The least key of `keys` at or after `lower`, if there is one.
pub open spec fn next_key(keys: Set<(u64, u64, u64)>, lower: (u64, u64, u64)) -> Option<(u64, u64, u64)> {
    if exists|k: (u64, u64, u64)| is_least_from(keys, lower, k) {
        Some(choose|k: (u64, u64, u64)| is_least_from(keys, lower, k))
    } else {
        None
    }
}

impl Regions {
    /// Relies on `MemoryManager::init`, over the pages of stable memory from
    /// the second one up to `MAX_PAGES`: it loads the regions that memory
    /// holds, or starts with none.
    #[verifier::external_body]
    pub(crate) fn open() -> (r: Regions) {
        Regions {
            manager: MemoryManager::init(RestrictedMemory::new(DefaultMemoryImpl::default(), 1..MAX_PAGES)),
        }
    }
}

impl EntryLog {
    /// Relies on `Log::init` over the regions for the log's index and data:
    /// it loads the log these regions hold, or starts an empty one.
    #[verifier::external_body]
    pub(crate) fn open(regions: &Regions) -> (r: Result<EntryLog, ic_stable_structures::log::InitError>) {
        let index = regions.manager.get(MemoryId::new(LOG_INDEX_REGION));
        let data = regions.manager.get(MemoryId::new(LOG_DATA_REGION));
        Log::init(index, data).map(|log| EntryLog { log })
    }

    /// Relies on `Log::len`: the number of entries.
    #[verifier::external_body]
    pub(crate) fn len(&self) -> (r: u64)
        ensures
            r == log_entries(*self).len(),
    {
        self.log.len()
    }

    /// Relies on `Log::log_size_bytes`: the total size of the entries.
    #[verifier::external_body]
    pub(crate) fn size_bytes(&self) -> (r: u64)
        ensures
            r == total_len(log_entries(*self)),
    {
        self.log.log_size_bytes()
    }

    /// Relies on `Log::get`: the entry at `idx`, if there is one.
    #[verifier::external_body]
    pub(crate) fn get(&self, idx: u64) -> (r: Option<Vec<u8>>)
        ensures
            idx < log_entries(*self).len() ==> r is Some && r->0@ == log_entries(*self)[idx as int],
            idx >= log_entries(*self).len() ==> r is None,
    {
        self.log.get(idx)
    }

    /// Relies on `Log::append`: the entry becomes the last one, and its index
    /// is returned; when the memory cannot grow to hold it, the entries stay
    /// as they were. The addresses that `append` computes must not pass
    /// `u64::MAX`.
    #[verifier::external_body]
    pub(crate) fn append(&mut self, entry: &Vec<u8>) -> (r: Result<u64, ic_stable_structures::log::WriteError>)
        requires
            total_len(log_entries(*old(self))) + entry@.len() + LOG_HEADER_SIZE <= u64::MAX,
            8 * log_entries(*old(self)).len() + 2 * LOG_HEADER_SIZE <= u64::MAX,
        ensures
            r is Ok ==> r->Ok_0 == log_entries(*old(self)).len(),
            r is Ok ==> log_entries(*final(self)) == log_entries(*old(self)).push(entry@),
            r is Err ==> log_entries(*final(self)) == log_entries(*old(self)),
    {
        self.log.append(entry)
    }
}

impl UserIndex {
    /// Relies on `BTreeMap::init` over the region for the user index: it
    /// loads the map that region holds, or starts an empty one.
    #[verifier::external_body]
    pub(crate) fn open(regions: &Regions) -> (r: UserIndex)
        ensures
            index_keys(r).finite(),
    {
        UserIndex { map: BTreeMap::init(regions.manager.get(MemoryId::new(USER_INDEX_REGION))) }
    }

    /// Relies on `BTreeMap::insert`: the key is in the map afterwards, and
    /// the other keys stay. Where memory cannot grow for a new node,
    /// `insert` panics (a trap that aborts the call) rather than return.
    #[verifier::external_body]
    pub(crate) fn insert(&mut self, key: (u64, u64, u64))
        ensures
            index_keys(*final(self)) == index_keys(*old(self)).insert(key),
    {
        self.map.insert(key, ());
    }

    /// Relies on `BTreeMap::range` from `lower` on: it visits keys in the
    /// order of the tuples, so the first one it yields is the least key at or
    /// after `lower`.
    #[verifier::external_body]
    pub(crate) fn first_from(&self, lower: (u64, u64, u64)) -> (r: Option<(u64, u64, u64)>)
        ensures
            r == next_key(index_keys(*self), lower),
    {
        self.map.range(lower..).next().map(|(k, _)| k)
    }
}

impl ConfigCell {
    /// Relies on `Cell::init` over the first page of stable memory: it loads
    /// the value that page holds, or writes `default` there.
    #[verifier::external_body]
    pub(crate) fn open(default: Vec<u8>) -> (r: Result<ConfigCell, ic_stable_structures::cell::InitError>) {
        Cell::init(RestrictedMemory::new(DefaultMemoryImpl::default(), 0..1), default).map(|cell| ConfigCell { cell })
    }

    /// Relies on `Cell::get`: the value held.
    #[verifier::external_body]
    pub(crate) fn get(&self) -> (r: Vec<u8>)
        ensures
            r@ == config_value(*self),
    {
        self.cell.get().clone()
    }

    /// Relies on `Cell::set`: the cell holds `value` afterwards; when the
    /// value does not fit in the cell's memory, the cell keeps its value.
    #[verifier::external_body]
    pub(crate) fn set(&mut self, value: Vec<u8>) -> (r: Result<Vec<u8>, ic_stable_structures::cell::ValueError>)
        ensures
            r is Ok ==> config_value(*final(self)) == value@,
            r is Err ==> config_value(*final(self)) == config_value(*old(self)),
    {
        self.cell.set(value)
    }
}

} // verus!
