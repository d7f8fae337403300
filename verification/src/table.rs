//! The paged row store: a bounded table of lazily materialized fixed-size
//! pages holding serialized rows, with the linear-scan insert, update and
//! query operations over it, and the byte-image persistence format.
//!
//! Row `i` lives in page `i / 39` at byte offset `(i % 39) * 105`; pages
//! are 4096 bytes and materialize zero-filled the first time a row is
//! appended into them. Rows are append-only: an update overwrites bytes in
//! place and never moves a row.

use vstd::arithmetic::div_mod::lemma_div_is_ordered;
use vstd::arithmetic::div_mod::lemma_fundamental_div_mod;
use vstd::arithmetic::div_mod::lemma_mod_pos_bound;
use vstd::arithmetic::div_mod::lemma_fundamental_div_mod_converse;
use vstd::prelude::*;

use crate::codec::copy_range;
use crate::codec::normalize_key;
use crate::codec::stored_key;
use crate::codec::decode_ok;
use crate::codec::decode_spec;
use crate::codec::encode_spec;
use crate::codec::serialize_row;
use crate::codec::deserialize_row;
use crate::codec::Record;
use crate::codec::RecordS;
use crate::order::bytes_eq;
use crate::order::bytes_lex_le;
use crate::order::lex_le;
use crate::StoreError;
use crate::PAGE_SIZE;
use crate::ROWS_PER_PAGE;
use crate::ROW_SIZE;
use crate::TABLE_MAX_PAGES;
use crate::TABLE_MAX_ROWS;

verus! {

/// Number of pages a table with `n` rows has materialized: the least
/// count whose pages hold `n` rows.
pub open spec fn num_pages_spec(n: int) -> int {
    (n + 38) / 39
}

/// The page a row index falls in.
pub open spec fn row_page(i: int) -> int {
    i / 39
}

/// The byte offset of a row within its page.
pub open spec fn row_page_offset(i: int) -> int {
    105 * (i % 39)
}

/// Placement facts for a row index `i` of a table holding `n` rows.
pub proof fn lemma_row_in_pages(i: int, n: int)
    requires
        0 <= i < n <= 3900,
    ensures
        0 <= row_page(i) < 100,
        0 <= i % 39 < 39,
        i == 39 * row_page(i) + (i % 39),
        row_page(i) < num_pages_spec(n),
        num_pages_spec(n) <= 100,
        0 <= row_page_offset(i),
        row_page_offset(i) + 105 <= 4096,
{
    lemma_fundamental_div_mod(i, 39);
    lemma_fundamental_div_mod(n - 1, 39);
    let q = (n - 1) / 39;
    let r = (n - 1) % 39;
    lemma_fundamental_div_mod_converse(n + 38, 39, q + 1, r);
    lemma_div_is_ordered(i, n - 1, 39);
    lemma_fundamental_div_mod_converse(3899, 39, 99, 38);
    lemma_div_is_ordered(i, 3899, 39);
}

/// How the materialized page count changes when a row is appended.
pub proof fn lemma_append_page_facts(n: int)
    requires
        0 <= n < 3900,
    ensures
        n % 39 == 0 ==> num_pages_spec(n) == row_page(n),
        n % 39 == 0 ==> num_pages_spec(n + 1) == row_page(n) + 1,
        n % 39 != 0 ==> num_pages_spec(n + 1) == num_pages_spec(n),
        n % 39 != 0 ==> row_page(n) < num_pages_spec(n),
        num_pages_spec(n + 1) <= 100,
{
    lemma_fundamental_div_mod(n, 39);
    let q = n / 39;
    let r = n % 39;
    if r == 0 {
        lemma_fundamental_div_mod_converse(n + 38, 39, q, 38);
        lemma_fundamental_div_mod_converse(n + 39, 39, q + 1, 0);
    } else {
        lemma_fundamental_div_mod_converse(n + 38, 39, q + 1, r - 1);
        lemma_fundamental_div_mod_converse(n + 39, 39, q + 1, r);
    }
    lemma_row_in_pages(n, n + 1);
}

/// The bounded page table: up to 100 pages of 4096 bytes, holding up to
/// 3900 serialized rows, plus the count of rows stored so far.
#[derive(Debug)]
pub struct Table {
    num_rows: u32,
    pages: Vec<Option<Vec<u8>>>,
}

impl Table {
    /// The bytes of page `p`; empty if the page is not materialized.
    pub closed spec fn page_bytes(self, p: int) -> Seq<u8> {
        match self.pages@[p] {
            Option::Some(pg) => pg@,
            Option::None => Seq::empty(),
        }
    }

    /// The 105-byte block of row `i`.
    pub closed spec fn row_block(self, i: int) -> Seq<u8> {
        self.page_bytes(row_page(i)).subrange(row_page_offset(i), row_page_offset(i) + 105)
    }

    /// The table's abstract state: the stored rows' byte blocks, in
    /// insertion order.
    pub closed spec fn rows(self) -> Seq<Seq<u8>> {
        Seq::new(self.num_rows as nat, |i: int| self.row_block(i))
    }

    /// The number of stored rows.
    pub open spec fn row_count(self) -> int {
        self.rows().len() as int
    }

    /// The number of materialized pages.
    pub open spec fn page_count(self) -> int {
        num_pages_spec(self.row_count())
    }

    /// Structural invariant: exactly the leading pages needed for the
    /// stored rows are materialized, each 4096 bytes, and the row count
    /// never exceeds the capacity of 3900.
    pub closed spec fn wf(self) -> bool {
        &&& self.pages@.len() == 100
        &&& self.num_rows <= 3900
        &&& forall|p: int|
            0 <= p < 100 ==> ((self.pages@[p] is Some) <==> p < num_pages_spec(
                self.num_rows as int,
            ))
        &&& forall|p: int|
            0 <= p < 100 && (#[trigger] self.pages@[p]) is Some ==> self.page_bytes(p).len()
                == 4096
    }

    /// A freshly constructed table holds no rows and no pages.
    pub fn new() -> (t: Table)
        ensures
            t.wf(),
            t.row_count() == 0,
            t.rows() == Seq::<Seq<u8>>::empty(),
    {
        let mut pages: Vec<Option<Vec<u8>>> = Vec::new();
        let mut i: usize = 0;
        while i < TABLE_MAX_PAGES
            invariant
                0 <= i <= 100,
                pages@.len() == i,
                forall|p: int| 0 <= p < i ==> pages@[p] is None,
            decreases 100 - i,
        {
            pages.push(None);
            i = i + 1;
        }
        let t = Table { num_rows: 0, pages };
        proof {
            assert(t.rows() =~= Seq::<Seq<u8>>::empty());
        }
        t
    }

    /// Reads the 105-byte block of row `i` out of its page.
    pub fn read_row(&self, i: u32) -> (b: Vec<u8>)
        requires
            self.wf(),
            i < self.row_count(),
        ensures
            b@ == self.rows()[i as int],
            b@.len() == 105,
    {
        proof {
            lemma_row_in_pages(i as int, self.num_rows as int);
        }
        let p: usize = (i as usize) / ROWS_PER_PAGE;
        let off: usize = ((i as usize) % ROWS_PER_PAGE) * ROW_SIZE;
        let pg: &Vec<u8> = self.pages[p].as_ref().unwrap();
        copy_range(pg, off, off + ROW_SIZE)
    }

    /// Overwrites the 105 bytes of row `i` inside its (already
    /// materialized) page with `b`.
    fn store_block(&mut self, i: u32, b: &Vec<u8>)
        requires
            old(self).pages@.len() == 100,
            b@.len() == 105,
            i < 3900,
            old(self).pages@[row_page(i as int)] is Some,
            old(self).page_bytes(row_page(i as int)).len() == 4096,
        ensures
            final(self).num_rows == old(self).num_rows,
            final(self).pages@.len() == 100,
            forall|q: int|
                0 <= q < 100 && q != row_page(i as int) ==> final(self).pages@[q] == old(
                    self,
                ).pages@[q],
            final(self).pages@[row_page(i as int)] is Some,
            final(self).page_bytes(row_page(i as int)).len() == 4096,
            forall|t: int|
                0 <= t < 4096 && !(row_page_offset(i as int) <= t < row_page_offset(i as int)
                    + 105) ==> final(self).page_bytes(row_page(i as int))[t] == old(
                    self,
                ).page_bytes(row_page(i as int))[t],
            final(self).page_bytes(row_page(i as int)).subrange(
                row_page_offset(i as int),
                row_page_offset(i as int) + 105,
            ) == b@,
    {
        proof {
            lemma_row_in_pages(i as int, 3900);
        }
        let p: usize = (i as usize) / ROWS_PER_PAGE;
        let off: usize = ((i as usize) % ROWS_PER_PAGE) * ROW_SIZE;
        let pg: &Vec<u8> = self.pages[p].as_ref().unwrap();
        let mut page: Vec<u8> = copy_range(pg, 0, PAGE_SIZE);
        let ghost page0: Seq<u8> = page@;
        proof {
            assert(p == row_page(i as int));
            assert(off == row_page_offset(i as int));
            assert(page0 =~= old(self).page_bytes(row_page(i as int)));
        }
        let mut k: usize = 0;
        while k < ROW_SIZE
            invariant
                0 <= k <= 105,
                off + 105 <= 4096,
                b@.len() == 105,
                page@.len() == 4096,
                page0.len() == 4096,
                forall|t: int| 0 <= t < 4096 && !(off <= t < off + k) ==> page@[t] == page0[t],
                forall|t: int| 0 <= t < k ==> page@[off + t] == b@[t],
            decreases 105 - k,
        {
            page.set(off + k, b[k]);
            k = k + 1;
        }
        self.pages.set(p, Some(page));
        proof {
            assert(self.page_bytes(row_page(i as int)) == page@);
            assert(self.page_bytes(row_page(i as int)).subrange(
                row_page_offset(i as int),
                row_page_offset(i as int) + 105,
            ) =~= b@);
        }
    }

    /// Overwrites row `i` in place with the 105-byte block `b`; every
    /// other row keeps its bytes.
    pub fn write_row(&mut self, i: u32, b: &Vec<u8>)
        requires
            old(self).wf(),
            i < old(self).row_count(),
            b@.len() == 105,
        ensures
            final(self).wf(),
            final(self).row_count() == old(self).row_count(),
            final(self).rows() == old(self).rows().update(i as int, b@),
    {
        proof {
            lemma_row_in_pages(i as int, old(self).num_rows as int);
        }
        self.store_block(i, b);
        proof {
            self.lemma_block_write_effect(*old(self), i as int, b@);
        }
    }

    /// After a block write at row `i` that left other pages and other
    /// byte ranges alone, the table is still well formed and its rows are
    /// the old rows with row `i` replaced.
    proof fn lemma_block_write_effect(self, prev: Table, i: int, b: Seq<u8>)
        requires
            prev.wf(),
            0 <= i < prev.num_rows,
            b.len() == 105,
            self.num_rows == prev.num_rows,
            self.pages@.len() == 100,
            forall|q: int| 0 <= q < 100 && q != row_page(i) ==> self.pages@[q] == prev.pages@[q],
            self.pages@[row_page(i)] is Some,
            self.page_bytes(row_page(i)).len() == 4096,
            forall|t: int|
                0 <= t < 4096 && !(row_page_offset(i) <= t < row_page_offset(i) + 105)
                    ==> self.page_bytes(row_page(i))[t] == prev.page_bytes(row_page(i))[t],
            self.page_bytes(row_page(i)).subrange(row_page_offset(i), row_page_offset(i) + 105)
                == b,
        ensures
            self.wf(),
            self.rows() == prev.rows().update(i, b),
    {
        lemma_row_in_pages(i, prev.num_rows as int);
        assert forall|j: int| 0 <= j < self.num_rows implies self.row_block(j) == (if j == i {
            b
        } else {
            prev.row_block(j)
        }) by {
            lemma_row_in_pages(j, self.num_rows as int);
            if j == i {
            } else if row_page(j) == row_page(i) {
                assert(j % 39 != i % 39);
                assert(self.row_block(j) =~= prev.row_block(j));
            } else {
                assert(self.pages@[row_page(j)] == prev.pages@[row_page(j)]);
                assert(self.row_block(j) =~= prev.row_block(j));
            }
        }
        assert(self.rows() =~~= prev.rows().update(i, b));
    }

    /// A fresh zero-filled page.
    fn zero_page() -> (v: Vec<u8>)
        ensures
            v@.len() == 4096,
            forall|t: int| 0 <= t < 4096 ==> v@[t] == 0u8,
    {
        let mut v: Vec<u8> = Vec::new();
        let mut i: usize = 0;
        while i < PAGE_SIZE
            invariant
                i == v@.len(),
                i <= 4096,
                forall|t: int| 0 <= t < i ==> v@[t] == 0u8,
            decreases 4096 - i,
        {
            v.push(0u8);
            i = i + 1;
        }
        v
    }

    /// Appends the 105-byte block `b` as a new row, materializing a fresh
    /// zero page when the row is the first of its page.
    pub fn append_row(&mut self, b: &Vec<u8>)
        requires
            old(self).wf(),
            old(self).row_count() < 3900,
            b@.len() == 105,
        ensures
            final(self).wf(),
            final(self).row_count() == old(self).row_count() + 1,
            final(self).rows() == old(self).rows().push(b@),
    {
        let i: u32 = self.num_rows;
        proof {
            lemma_append_page_facts(i as int);
            lemma_row_in_pages(i as int, i as int + 1);
        }
        let p: usize = (i as usize) / ROWS_PER_PAGE;
        if (i as usize) % ROWS_PER_PAGE == 0 {
            let zp = Self::zero_page();
            self.pages.set(p, Some(zp));
        }
        let ghost mid: Table = *self;
        self.store_block(i, b);
        self.num_rows = i + 1;
        proof {
            assert forall|q: int| 0 <= q < 100 implies ((self.pages@[q] is Some) <==> q
                < num_pages_spec(self.num_rows as int)) by {
                if q != row_page(i as int) {
                    assert(self.pages@[q] == old(self).pages@[q]);
                }
            }
            assert forall|j: int| 0 <= j < i implies self.row_block(j) == old(self).row_block(
                j,
            ) by {
                lemma_row_in_pages(j, i as int);
                if row_page(j) == row_page(i as int) {
                    assert(j % 39 != i as int % 39);
                    assert(mid.pages@[row_page(j)] == old(self).pages@[row_page(j)]);
                    assert(self.row_block(j) =~= old(self).row_block(j));
                } else {
                    assert(self.pages@[row_page(j)] == old(self).pages@[row_page(j)]);
                    assert(self.row_block(j) =~= old(self).row_block(j));
                }
            }
            assert(self.rows() =~~= old(self).rows().push(b@));
        }
    }

    /// Inserts a record at the end of the table, serializing it into the
    /// next free slot. Fails with `CapacityExceeded` exactly when the
    /// table already holds its maximum of 3900 rows; the row count never
    /// exceeds that cap.
    pub fn insert_timeseries_data(&mut self, data: &Record) -> (res: Result<(), StoreError>)
        requires
            old(self).wf(),
        ensures
            final(self).wf(),
            match res {
                Ok(()) => old(self).row_count() < 3900 && final(self).row_count() == old(
                    self,
                ).row_count() + 1 && final(self).rows() == old(self).rows().push(
                    encode_spec(data@),
                ),
                Err(e) => e == StoreError::CapacityExceeded && old(self).row_count() == 3900
                    && *final(self) == *old(self),
            },
    {
        if self.num_rows as usize >= TABLE_MAX_ROWS {
            return Err(StoreError::CapacityExceeded);
        }
        let block = serialize_row(data);
        self.append_row(&block);
        Ok(())
    }

    /// Scans rows in storage order for the first whose decoded timestamp
    /// and series both equal `data`'s (in stored form, the field-width
    /// truncation applied), decoding every row it passes.
    pub fn find_first_match(&self, data: &Record) -> (res: Result<Option<u32>, StoreError>)
        requires
            self.wf(),
        ensures
            match res {
                Ok(hit) => match hit {
                    Some(k) => scan_hit_at(self.rows(), data@, k as int),
                    None => scan_missing(self.rows(), data@),
                },
                Err(e) => e == StoreError::CorruptRecord && (exists|k: int|
                    #[trigger] scan_corrupt_at(self.rows(), data@, k)),
            },
    {
        let key_ts = normalize_key(&data.timestamp);
        let key_id = normalize_key(&data.timeseries_id);
        let mut i: u32 = 0;
        while i < self.num_rows
            invariant
                self.wf(),
                0 <= i <= self.num_rows,
                key_ts@ == stored_key(data@.timestamp),
                key_id@ == stored_key(data@.timeseries_id),
                forall|j: int|
                    0 <= j < i ==> decode_ok(#[trigger] self.rows()[j]) && !key_matches(
                        self.rows()[j],
                        data@,
                    ),
            decreases self.num_rows - i,
        {
            let block = self.read_row(i);
            match deserialize_row(&block) {
                Ok(row) => {
                    if bytes_eq(&row.timestamp, &key_ts) && bytes_eq(&row.timeseries_id, &key_id) {
                        return Ok(Some(i));
                    }
                },
                Err(e) => {
                    proof {
                        assert(scan_corrupt_at(self.rows(), data@, i as int));
                    }
                    return Err(e);
                },
            }
            i = i + 1;
        }
        Ok(None)
    }

    /// Finds the first row whose decoded timestamp and series both equal
    /// `data`'s (in stored form) and overwrites it in place with
    /// `data`'s encoding; first match wins when duplicates exist. The
    /// replacement lands in the slot the key was stored in, so the pair
    /// keeps addressing the same row. Fails with `NotFound`, changing
    /// nothing, exactly when no row matches; fails with `CorruptRecord`,
    /// changing nothing, when the scan hits an undecodable row first.
    pub fn update_timeseries_data(&mut self, data: &Record) -> (res: Result<(), StoreError>)
        requires
            old(self).wf(),
        ensures
            final(self).wf(),
            final(self).row_count() == old(self).row_count(),
            match res {
                Ok(()) => exists|k: int|
                    #[trigger] scan_hit_at(old(self).rows(), data@, k) && final(self).rows()
                        == old(self).rows().update(k, encode_spec(data@)),
                Err(e) => *final(self) == *old(self) && ((e == StoreError::NotFound
                    && scan_missing(old(self).rows(), data@)) || (e == StoreError::CorruptRecord
                    && (exists|k: int| #[trigger] scan_corrupt_at(old(self).rows(), data@, k)))),
            },
    {
        let found = self.find_first_match(data);
        match found {
            Ok(Some(k)) => {
                let block = serialize_row(data);
                self.write_row(k, &block);
                Ok(())
            },
            Ok(None) => Err(StoreError::NotFound),
            Err(e) => Err(e),
        }
    }

    /// Scans every stored row in insertion order, decoding each, and
    /// returns exactly those whose series matches and whose timestamp
    /// lies in `[start_time, end_time]` under byte-wise lexicographic
    /// comparison. An empty table or an empty match yields an empty
    /// vector, never an error; an undecodable row yields
    /// `CorruptRecord`.
    pub fn query_timeseries_data_by_id(
        &self,
        timeseries_id: &Vec<u8>,
        start_time: &Vec<u8>,
        end_time: &Vec<u8>,
    ) -> (res: Result<Vec<Record>, StoreError>)
        requires
            self.wf(),
        ensures
            match res {
                Ok(out) => (forall|j: int|
                    0 <= j < self.row_count() ==> decode_ok(#[trigger] self.rows()[j]))
                    && recs_view(out@) == query_spec(
                    self.rows(),
                    timeseries_id@,
                    start_time@,
                    end_time@,
                ),
                Err(e) => e == StoreError::CorruptRecord && (exists|j: int|
                    0 <= j < self.row_count() && !decode_ok(#[trigger] self.rows()[j])),
            },
    {
        let ghost id_s: Seq<u8> = timeseries_id@;
        let ghost lo: Seq<u8> = start_time@;
        let ghost hi: Seq<u8> = end_time@;
        let key_id = normalize_key(timeseries_id);
        let mut out: Vec<Record> = Vec::new();
        let mut i: u32 = 0;
        proof {
            assert(self.rows().take(0) =~= Seq::<Seq<u8>>::empty());
            assert(recs_view(out@) =~= query_spec(self.rows().take(0), id_s, lo, hi));
        }
        while i < self.num_rows
            invariant
                self.wf(),
                0 <= i <= self.num_rows,
                id_s == timeseries_id@ && lo == start_time@ && hi == end_time@,
                key_id@ == stored_key(id_s),
                forall|j: int| 0 <= j < i ==> decode_ok(#[trigger] self.rows()[j]),
                recs_view(out@) == query_spec(self.rows().take(i as int), id_s, lo, hi),
            decreases self.num_rows - i,
        {
            let block = self.read_row(i);
            match deserialize_row(&block) {
                Ok(row) => {
                    proof {
                        assert(self.rows().take(i + 1).drop_last() =~= self.rows().take(i as int));
                        assert(self.rows().take(i + 1).last() == self.rows()[i as int]);
                    }
                    if bytes_eq(&row.timeseries_id, &key_id) && bytes_lex_le(
                        start_time,
                        &row.timestamp,
                    ) && bytes_lex_le(&row.timestamp, end_time) {
                        let ghost out_before: Seq<Record> = out@;
                        out.push(row);
                        proof {
                            assert(recs_view(out@) =~= recs_view(out_before).push(
                                decode_spec(self.rows()[i as int]),
                            ));
                        }
                    } else {
                        proof {
                            assert(!row_selected(self.rows()[i as int], id_s, lo, hi));
                        }
                    }
                },
                Err(e) => {
                    return Err(e);
                },
            }
            i = i + 1;
        }
        proof {
            assert(self.rows().take(self.num_rows as int) =~= self.rows());
        }
        Ok(out)
    }

    /// The byte image of the table: every materialized page's 4096
    /// bytes, in ascending page order, starting at offset 0. This is
    /// exactly what the backing file holds after a flush.
    pub closed spec fn table_image(self) -> Seq<u8> {
        Seq::new((4096 * num_pages_spec(self.num_rows as int)) as nat, |j: int| self.page_bytes(j / 4096)[j % 4096])
    }

    /// Renders the table to its byte image, to be written to the backing
    /// file as a whole.
    pub fn to_file_bytes(&self) -> (b: Vec<u8>)
        requires
            self.wf(),
        ensures
            b@ == self.table_image(),
            b@.len() == 4096 * self.page_count(),
    {
        let ghost pc: int = self.page_count();
        let mut b: Vec<u8> = Vec::new();
        let mut p: usize = 0;
        while p < TABLE_MAX_PAGES
            invariant
                self.wf(),
                0 <= p <= 100,
                pc == self.page_count(),
                b@.len() == 4096 * (if p <= pc { p as int } else { pc }),
                forall|j: int| 0 <= j < b@.len() ==> b@[j] == self.page_bytes(j / 4096)[j % 4096],
            decreases 100 - p,
        {
            match self.pages[p].as_ref() {
                Some(pg) => {
                    proof {
                        assert(p < pc);
                    }
                    let ghost b0: Seq<u8> = b@;
                    let mut k: usize = 0;
                    while k < PAGE_SIZE
                        invariant
                            0 <= k <= 4096,
                            pg@.len() == 4096,
                            pg@ == self.page_bytes(p as int),
                            b@ == b0 + pg@.take(k as int),
                            b0.len() == 4096 * p,
                        decreases 4096 - k,
                    {
                        proof {
                            assert(pg@.take(k + 1 as int) =~= pg@.take(k as int).push(pg@[k as int]));
                        }
                        b.push(pg[k]);
                        k = k + 1;
                    }
                    proof {
                        assert(pg@.take(4096) =~= pg@);
                        assert forall|j: int| 0 <= j < b@.len() implies b@[j] == self.page_bytes(
                            j / 4096,
                        )[j % 4096] by {
                            if j < 4096 * p {
                                assert(b@[j] == b0[j]);
                            } else {
                                lemma_fundamental_div_mod_converse(j, 4096, p as int, j - 4096 * p);
                                assert(b@[j] == pg@[j - 4096 * p]);
                            }
                        }
                    }
                },
                None => {
                    proof {
                        assert(p >= pc);
                    }
                },
            }
            p = p + 1;
        }
        proof {
            assert(b@ =~= self.table_image());
        }
        b
    }

    /// Rebuilds a table from a byte image read from the backing file:
    /// each whole 4096-byte page is loaded in order (a trailing partial
    /// page is not), and the row count is derived from the byte length.
    /// An image whose derived row count does not fit the loaded pages is
    /// reported as corrupt rather than guessed at.
    pub fn from_file_bytes(bytes: &Vec<u8>) -> (res: Result<Table, StoreError>)
        ensures
            match res {
                Ok(t) => image_ok(bytes@) && t.wf() && t.row_count() == bytes@.len() as int / 105
                    && t.rows() == image_rows(bytes@),
                Err(e) => e == StoreError::CorruptRecord && !image_ok(bytes@),
            },
    {
        let len: usize = bytes.len();
        let whole_pages: usize = if len / PAGE_SIZE < TABLE_MAX_PAGES {
            len / PAGE_SIZE
        } else {
            TABLE_MAX_PAGES
        };
        let derived_rows: usize = len / ROW_SIZE;
        if derived_rows > ROWS_PER_PAGE * whole_pages {
            return Err(StoreError::CorruptRecord);
        }
        proof {
            lemma_image_row_count(len as int);
        }
        let mut t = Table::new();
        let mut p: usize = 0;
        while p < whole_pages
            invariant
                0 <= p <= whole_pages,
                whole_pages == image_pages(len as int),
                whole_pages <= 100,
                4096 * whole_pages <= len,
                len == bytes@.len(),
                t.num_rows == 0,
                t.pages@.len() == 100,
                forall|q: int| 0 <= q < p ==> (t.pages@[q] is Some),
                forall|q: int| p <= q < 100 ==> (t.pages@[q] is None),
                forall|q: int|
                    0 <= q < p ==> t.page_bytes(q) == bytes@.subrange(
                        4096 * q,
                        4096 * q + 4096,
                    ),
            decreases whole_pages - p,
        {
            proof {
                assert(4096 * (p + 1) <= 4096 * whole_pages);
            }
            let page = copy_range(bytes, p * PAGE_SIZE, p * PAGE_SIZE + PAGE_SIZE);
            let ghost t_prev: Table = t;
            t.pages.set(p, Some(page));
            proof {
                assert(t.page_bytes(p as int) == page@);
                assert(page@ == bytes@.subrange(4096 * (p as int), 4096 * (p as int) + 4096));
                assert forall|q: int| 0 <= q < p + 1 implies t.page_bytes(q) == bytes@.subrange(
                    4096 * q,
                    4096 * q + 4096,
                ) by {
                    if q < p {
                        assert(t_prev.page_bytes(q) == bytes@.subrange(4096 * q, 4096 * q + 4096));
                        assert(t.pages@[q] == t_prev.pages@[q]);
                    }
                }
            }
            p = p + 1;
        }
        let ghost t_mid: Table = t;
        t.num_rows = derived_rows as u32;
        proof {
            lemma_image_row_count(len as int);
            assert(whole_pages as int == image_pages(len as int));
            assert(derived_rows as int == len as int / 105);
            assert(derived_rows as int <= 39 * (whole_pages as int));
            assert(derived_rows as int == 39 * (whole_pages as int));
            assert(num_pages_spec(t.num_rows as int) == whole_pages as int);
            assert forall|q: int| 0 <= q < whole_pages implies t.page_bytes(q) == bytes@.subrange(
                4096 * q,
                4096 * q + 4096,
            ) by {
                assert(t_mid.page_bytes(q) == bytes@.subrange(4096 * q, 4096 * q + 4096));
                assert(t.pages@[q] == t_mid.pages@[q]);
            }
            assert(t.wf());
            assert forall|i: int| 0 <= i < t.num_rows implies t.row_block(i) == image_rows(
                bytes@,
            )[i] by {
                lemma_row_in_pages(i, t.num_rows as int);
                assert(4096 * (row_page(i) + 1) <= 4096 * whole_pages);
                assert(t.page_bytes(row_page(i)) == bytes@.subrange(
                    4096 * row_page(i),
                    4096 * row_page(i) + 4096,
                ));
                assert(t.row_block(i) =~= image_rows(bytes@)[i]);
            }
            assert(t.rows() =~~= image_rows(bytes@));
        }
        Ok(t)
    }
}

/// Law: a well-formed table never holds more than the 3900-row cap;
/// every operation keeps it well formed, so the row count never exceeds
/// the cap.
pub proof fn lemma_capacity_bound(t: Table)
    requires
        t.wf(),
    ensures
        t.row_count() <= 3900,
{
}

/// Every stored row block is exactly 105 bytes.
pub proof fn lemma_rows_block_len(t: Table)
    requires
        t.wf(),
    ensures
        forall|i: int| 0 <= i < t.row_count() ==> (#[trigger] t.rows()[i]).len() == 105,
{
    assert forall|i: int| 0 <= i < t.row_count() implies (#[trigger] t.rows()[i]).len() == 105 by {
        lemma_row_in_pages(i, t.row_count());
    }
}

/// A table's row count never exceeds what its materialized pages hold,
/// and fills them exactly when it is a multiple of the page's row
/// capacity.
pub proof fn lemma_rows_fit_pages(n: int)
    requires
        0 <= n <= 3900,
    ensures
        n <= 39 * num_pages_spec(n),
        0 <= num_pages_spec(n) <= 100,
        n % 39 == 0 ==> n == 39 * num_pages_spec(n),
{
    lemma_fundamental_div_mod(n, 39);
    lemma_mod_pos_bound(n, 39);
    let q = n / 39;
    let r = n % 39;
    if r == 0 {
        lemma_fundamental_div_mod_converse(n + 38, 39, q, 38);
    } else {
        lemma_fundamental_div_mod_converse(n + 38, 39, q + 1, r - 1);
    }
}

/// Law: a table's byte image is a consistent file image, loading it back
/// preserves every stored row in order, and when the rows exactly fill
/// the materialized pages the reloaded table holds precisely the same
/// rows. (A table whose last page is only partly filled reloads with
/// that page's free slots read back as zero-filled rows: the derived row
/// count is the loaded pages' full capacity.)
pub proof fn lemma_persistence_round_trip(t: Table)
    requires
        t.wf(),
    ensures
        image_ok(t.table_image()),
        image_rows(t.table_image()).len() == 39 * t.page_count(),
        t.row_count() <= 39 * t.page_count(),
        forall|i: int|
            0 <= i < t.row_count() ==> #[trigger] image_rows(t.table_image())[i] == t.rows()[i],
        t.row_count() % 39 == 0 ==> image_rows(t.table_image()) == t.rows(),
{
    let img = t.table_image();
    let n = t.row_count();
    let pc = t.page_count();
    lemma_rows_fit_pages(n);
    assert(img.len() == 4096 * pc);
    assert((4096 * pc) / 4096 == pc) by {
        lemma_fundamental_div_mod_converse(4096 * pc, 4096, pc, 0);
    }
    assert(image_pages(img.len() as int) == pc);
    assert((4096 * pc) / 105 == 39 * pc) by {
        lemma_fundamental_div_mod_converse(4096 * pc, 105, 39 * pc, pc);
    }
    assert forall|i: int| 0 <= i < n implies #[trigger] image_rows(img)[i] == t.rows()[i] by {
        lemma_row_in_pages(i, n);
        let pg = row_page(i);
        let off = row_page_offset(i);
        let fo = file_row_offset(i);
        assert(4096 * (pg + 1) <= 4096 * pc);
        assert forall|j: int| fo <= j < fo + 105 implies #[trigger] img[j] == t.page_bytes(pg)[j
            - 4096 * pg] by {
            lemma_fundamental_div_mod_converse(j, 4096, pg, j - 4096 * pg);
        }
        assert(img.subrange(fo, fo + 105) =~= t.page_bytes(pg).subrange(off, off + 105));
    }
    if n % 39 == 0 {
        assert(image_rows(img) =~~= t.rows());
    }
}

/// Arithmetic of a byte image: its derived row count always reaches the
/// capacity of its whole pages, so a consistent image fills them exactly,
/// and a consistent image's rows all lie inside its whole pages.
pub proof fn lemma_image_row_count(len: int)
    requires
        0 <= len,
    ensures
        39 * image_pages(len) <= len / 105,
        len / 105 <= 39 * image_pages(len) ==> len / 105 == 39 * image_pages(len),
        num_pages_spec(39 * image_pages(len)) == image_pages(len),
        4096 * image_pages(len) <= len,
        image_pages(len) <= 100,
        0 <= image_pages(len),
{
    let fp = len / 4096;
    lemma_fundamental_div_mod(len, 4096);
    lemma_fundamental_div_mod(len, 105);
    let p = image_pages(len);
    assert(0 <= fp) by {
        lemma_div_is_ordered(0, len, 4096);
    }
    assert(4096 * p <= len);
    assert((4096 * p) / 105 == 39 * p) by {
        lemma_fundamental_div_mod_converse(4096 * p, 105, 39 * p, p);
    }
    lemma_div_is_ordered(4096 * p, len, 105);
    if p > 0 {
        lemma_fundamental_div_mod_converse(39 * p + 38, 39, p, 38);
    } else {
        assert(num_pages_spec(0) == 0) by {
            lemma_fundamental_div_mod_converse(38, 39, 0, 38);
        }
    }
}

/// The byte offset at which row `i` sits in a file image.
pub open spec fn file_row_offset(i: int) -> int {
    4096 * row_page(i) + row_page_offset(i)
}

/// The number of whole pages a byte image of length `len` holds, capped
/// at the table's page limit; trailing bytes short of a page are not a
/// page.
pub open spec fn image_pages(len: int) -> int {
    if len / 4096 < 100 {
        len / 4096
    } else {
        100
    }
}

/// Whether a byte image is consistent: the row count its length implies
/// (`len / 105`) must fit within the whole pages it holds. The backing
/// file of a well-formed table always satisfies this; a truncated or
/// foreign file need not.
pub open spec fn image_ok(b: Seq<u8>) -> bool {
    b.len() / 105 <= 39 * image_pages(b.len() as int)
}

/// The rows a byte image holds: one 105-byte block per row index its
/// length implies.
pub open spec fn image_rows(b: Seq<u8>) -> Seq<Seq<u8>> {
    Seq::new((b.len() / 105) as nat, |i: int| b.subrange(file_row_offset(i), file_row_offset(i) + 105))
}

/// Whether a stored block's decoded key — its timestamp and series —
/// equals record `r`'s. Keys are compared in their stored form (the
/// field-width truncation applied), so a key too long for its field
/// still addresses the row it was truncated into; on keys within the
/// data model's bounds the comparison is exact.
pub open spec fn key_matches(b: Seq<u8>, r: RecordS) -> bool {
    decode_spec(b).timestamp == stored_key(r.timestamp) && decode_spec(b).timeseries_id
        == stored_key(r.timeseries_id)
}

/// The linear scan for `r`'s key first hits a match at row `k`: every
/// earlier row decodes and does not match.
pub open spec fn scan_hit_at(rows: Seq<Seq<u8>>, r: RecordS, k: int) -> bool {
    &&& 0 <= k < rows.len()
    &&& decode_ok(rows[k])
    &&& key_matches(rows[k], r)
    &&& forall|j: int|
        0 <= j < k ==> decode_ok(#[trigger] rows[j]) && !key_matches(rows[j], r)
}

/// The linear scan for `r`'s key hits an undecodable row at `k` before
/// any match.
pub open spec fn scan_corrupt_at(rows: Seq<Seq<u8>>, r: RecordS, k: int) -> bool {
    &&& 0 <= k < rows.len()
    &&& !decode_ok(rows[k])
    &&& forall|j: int|
        0 <= j < k ==> decode_ok(#[trigger] rows[j]) && !key_matches(rows[j], r)
}

/// The linear scan for `r`'s key runs off the end: every row decodes and
/// none matches.
pub open spec fn scan_missing(rows: Seq<Seq<u8>>, r: RecordS) -> bool {
    forall|j: int|
        0 <= j < rows.len() ==> decode_ok(#[trigger] rows[j]) && !key_matches(rows[j], r)
}

/// Whether a stored block is selected by a query for series `id` over
/// the closed timestamp range `[start, end]`. The series key is
/// compared in its stored form (exact on ids within the field width);
/// the range bounds are taken as given, byte-wise lexicographic.
pub open spec fn row_selected(b: Seq<u8>, id: Seq<u8>, start: Seq<u8>, end: Seq<u8>) -> bool {
    &&& decode_spec(b).timeseries_id == stored_key(id)
    &&& lex_le(start, decode_spec(b).timestamp)
    &&& lex_le(decode_spec(b).timestamp, end)
}

/// The records a range query returns: the stored rows in insertion
/// order, decoded, keeping exactly the selected ones.
pub open spec fn query_spec(rows: Seq<Seq<u8>>, id: Seq<u8>, start: Seq<u8>, end: Seq<u8>) -> Seq<
    RecordS,
>
    decreases rows.len(),
{
    if rows.len() == 0 {
        Seq::empty()
    } else {
        let front = query_spec(rows.drop_last(), id, start, end);
        if row_selected(rows.last(), id, start, end) {
            front.push(decode_spec(rows.last()))
        } else {
            front
        }
    }
}

/// A vector of records, seen as the sequence of their mathematical
/// shapes.
pub open spec fn recs_view(s: Seq<Record>) -> Seq<RecordS> {
    s.map_values(|r: Record| r@)
}

} // verus!
