//! An in-process ordered key/value index: a skip list backed by an
//! append-only memory arena, with pluggable key ordering and memory
//! admission control.

use vstd::prelude::*;

pub mod arena;
pub mod key;
pub mod list;
pub mod memory_control;

pub use key::{ByteWiseComparator, FixedLengthSuffixComparator, KeyComparator, KeyOrd};
pub use list::{IterRef, Node, Skiplist};
pub use memory_control::{AllocationRecorder, BudgetLimiter, MemoryLimiter, RecorderLimiter};

verus! {

/// Jemalloc statistic labels paired with byte counts.
pub type AllocStats = Vec<(&'static str, usize)>;

/// The error type of the allocator-statistics library.
#[verifier::external_type_specification]
#[verifier::external_body]
pub struct ExError(tikv_jemalloc_ctl::Error);

/// Relies on tikv_jemalloc_ctl::epoch::advance: refreshes the cached
/// allocator statistics. The returned epoch counter is machine state;
/// nothing is assumed of it.
#[verifier::external_body]
fn epoch_advance() -> (r: Result<u64, tikv_jemalloc_ctl::Error>) {
    tikv_jemalloc_ctl::epoch::advance()
}

/// Relies on tikv_jemalloc_ctl::stats::allocated::read: bytes the
/// application has allocated. Machine state; nothing is assumed.
#[verifier::external_body]
fn stats_allocated() -> (r: Result<usize, tikv_jemalloc_ctl::Error>) {
    tikv_jemalloc_ctl::stats::allocated::read()
}

/// Relies on tikv_jemalloc_ctl::stats::active::read: bytes in active
/// pages. Machine state; nothing is assumed.
#[verifier::external_body]
fn stats_active() -> (r: Result<usize, tikv_jemalloc_ctl::Error>) {
    tikv_jemalloc_ctl::stats::active::read()
}

/// Relies on tikv_jemalloc_ctl::stats::metadata::read: bytes of
/// allocator metadata. Machine state; nothing is assumed.
#[verifier::external_body]
fn stats_metadata() -> (r: Result<usize, tikv_jemalloc_ctl::Error>) {
    tikv_jemalloc_ctl::stats::metadata::read()
}

/// Relies on tikv_jemalloc_ctl::stats::resident::read: bytes of
/// physically resident memory. Machine state; nothing is assumed.
#[verifier::external_body]
fn stats_resident() -> (r: Result<usize, tikv_jemalloc_ctl::Error>) {
    tikv_jemalloc_ctl::stats::resident::read()
}

/// Relies on tikv_jemalloc_ctl::stats::mapped::read: bytes of mapped
/// memory. Machine state; nothing is assumed.
#[verifier::external_body]
fn stats_mapped() -> (r: Result<usize, tikv_jemalloc_ctl::Error>) {
    tikv_jemalloc_ctl::stats::mapped::read()
}

/// Relies on tikv_jemalloc_ctl::stats::retained::read: bytes of
/// retained virtual memory. Machine state; nothing is assumed.
#[verifier::external_body]
fn stats_retained() -> (r: Result<usize, tikv_jemalloc_ctl::Error>) {
    tikv_jemalloc_ctl::stats::retained::read()
}

/// Allocator statistics for diagnostics: seven labelled byte
/// counters, refreshed by an epoch advance first. The values are
/// machine state; the shape of a successful report is fixed.
pub fn fetch_stats() -> (r: Result<Option<AllocStats>, tikv_jemalloc_ctl::Error>)
    ensures
        r is Ok ==> r->Ok_0 is Some && r->Ok_0->Some_0@.len() == 7,
{
    // Stats are cached. Need to advance epoch to refresh.
    match epoch_advance() {
        Err(e) => {
            return Err(e);
        },
        Ok(_) => {},
    }
    let allocated = match stats_allocated() {
        Err(e) => {
            return Err(e);
        },
        Ok(v) => v,
    };
    let active = match stats_active() {
        Err(e) => {
            return Err(e);
        },
        Ok(v) => v,
    };
    let metadata = match stats_metadata() {
        Err(e) => {
            return Err(e);
        },
        Ok(v) => v,
    };
    let resident = match stats_resident() {
        Err(e) => {
            return Err(e);
        },
        Ok(v) => v,
    };
    let mapped = match stats_mapped() {
        Err(e) => {
            return Err(e);
        },
        Ok(v) => v,
    };
    let retained = match stats_retained() {
        Err(e) => {
            return Err(e);
        },
        Ok(v) => v,
    };
    let fragmentation = if active >= allocated {
        active - allocated
    } else {
        0
    };
    let mut out: AllocStats = Vec::new();
    out.push(("allocated", allocated));
    out.push(("active", active));
    out.push(("metadata", metadata));
    out.push(("resident", resident));
    out.push(("mapped", mapped));
    out.push(("retained", retained));
    out.push(("fragmentation", fragmentation));
    Ok(Some(out))
}

/// One byte.
pub const B: u64 = 1;

/// Bytes per kibibyte.
pub const KIB: u64 = 1024;

/// Bytes per mebibyte.
pub const MIB: u64 = 1024 * 1024;

/// Bytes per gibibyte.
pub const GIB: u64 = 1024 * 1024 * 1024;

/// Bytes per tebibyte.
pub const TIB: u64 = 1024 * 1024 * 1024 * 1024;

/// Bytes per pebibyte.
pub const PIB: u64 = 1024 * 1024 * 1024 * 1024 * 1024;

/// A byte count with convenience constructors and accessors for
/// binary size units.
pub struct ReadableSize(pub u64);

impl ReadableSize {
    /// `count` kibibytes, as a byte count.
    pub fn kb(count: u64) -> (r: ReadableSize)
        requires
            count * KIB <= u64::MAX,
        ensures
            r.0 == count * KIB,
    {
        ReadableSize(count * KIB)
    }

    /// `count` mebibytes, as a byte count.
    pub fn mb(count: u64) -> (r: ReadableSize)
        requires
            count * MIB <= u64::MAX,
        ensures
            r.0 == count * MIB,
    {
        ReadableSize(count * MIB)
    }

    /// `count` gibibytes, as a byte count.
    pub fn gb(count: u64) -> (r: ReadableSize)
        requires
            count * GIB <= u64::MAX,
        ensures
            r.0 == count * GIB,
    {
        ReadableSize(count * GIB)
    }

    /// This byte count in whole mebibytes, rounded down.
    pub fn as_mb(self) -> (r: u64)
        ensures
            r == self.0 / MIB,
    {
        self.0 / MIB
    }

    /// This byte count in whole kibibytes, rounded down.
    pub fn as_kb(self) -> (r: u64)
        ensures
            r == self.0 / KIB,
    {
        self.0 / KIB
    }
}

/// An endpoint of a key range.
#[derive(Clone, Copy, Debug, Hash, PartialEq, Eq)]
pub enum Bound<T> {
    /// An inclusive bound.
    Included(T),
    /// An exclusive bound.
    Excluded(T),
    /// An infinite endpoint. Indicates that there is no bound in this direction.
    Unbounded,
}

} // verus!
