//! A minimal embedded time-series record store.
//!
//! Fixed-width rows are serialized into page-sized byte blocks, held in a
//! bounded in-memory page table, and scanned linearly to answer range
//! queries by series identifier and timestamp. The whole table can be
//! rendered to (and rebuilt from) a single byte image, which callers
//! persist to a backing file after every mutation.

use vstd::prelude::*;

pub mod codec;
pub mod order;
pub mod sweep;
pub mod table;

verus! {

/// Width in bytes of the `sensor_name` text field.
pub const SENSOR_NAME_SIZE: usize = 32;

/// Width in bytes of the `timestamp` text field.
pub const TIMESTAMP_SIZE: usize = 32;

/// Width in bytes of the stored measurement (a 64-bit value).
pub const VALUE_SIZE: usize = 8;

/// Width in bytes of the optional fault flag.
pub const FLAG_SIZE: usize = 1;

/// Width in bytes of the `timeseries_id` text field.
pub const TIMESERIES_ID_SIZE: usize = 32;

/// Total serialized width of one row.
pub const ROW_SIZE: usize = 105;

/// Size in bytes of one storage page.
pub const PAGE_SIZE: usize = 4096;

/// Hard cap on the number of pages a table may hold.
pub const TABLE_MAX_PAGES: usize = 100;

/// Number of whole rows that fit in one page.
pub const ROWS_PER_PAGE: usize = 39;

/// Hard cap on the number of rows a table may hold.
pub const TABLE_MAX_ROWS: usize = 3900;

/// Outcomes an engine operation can fail with.
#[derive(Clone, Copy, Debug, PartialEq, Eq, Structural)]
pub enum StoreError {
    /// An insert was attempted while the table already held its maximum
    /// number of rows.
    CapacityExceeded,
    /// An update named a (timestamp, series) key that no stored row carries.
    NotFound,
    /// A stored row's text region is not valid text, or a file image's
    /// length does not agree with the pages it holds.
    CorruptRecord,
    /// A read or write against the backing file failed. The verified
    /// engine never raises this itself; the I/O layer around it does.
    StorageIOFailure,
}

} // verus!
