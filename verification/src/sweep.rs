//! The fault sweep: scans a configured series over a configured
//! timestamp window and, for every stored record whose value exceeds a
//! configured threshold, sets the record's fault flag and rewrites its
//! row in place, one update per flagged record, in query order.

use vstd::prelude::*;

use crate::codec::copy_bytes;
use crate::codec::decode_ok;
use crate::codec::decode_spec;
use crate::codec::encode_spec;
use crate::codec::lemma_encode_flagged;
use crate::codec::lemma_stored_key_identity;
use crate::codec::stored_key;
use crate::codec::with_flag;
use crate::codec::Record;
use crate::codec::RecordS;
use crate::order::f64_bits_gt;
use crate::order::f64_bits_gt_exec;
use crate::table::key_matches;
use crate::table::lemma_rows_block_len;
use crate::table::query_spec;
use crate::table::recs_view;
use crate::table::scan_hit_at;
use crate::table::Table;
use crate::StoreError;

verus! {

/// The sweep's configuration: the series to scan, the closed timestamp
/// window to scan it over, and the threshold, carried as a 64-bit
/// float's bit pattern.
pub struct SweepConfig {
    pub timeseries_id: Vec<u8>,
    pub window_start: Vec<u8>,
    pub window_end: Vec<u8>,
    pub threshold_bits: u64,
}

/// Whether a record's value exceeds the threshold under IEEE-754 `>`.
pub open spec fn value_exceeds(r: RecordS, threshold_bits: u64) -> bool {
    f64_bits_gt(r.value_bits, threshold_bits)
}

/// The records the sweep rewrites: the queried records whose value
/// exceeds the threshold, in query order, each with its fault flag set
/// to the sentinel byte `1`.
pub open spec fn flag_candidates(rs: Seq<RecordS>, threshold_bits: u64) -> Seq<RecordS>
    decreases rs.len(),
{
    if rs.len() == 0 {
        Seq::empty()
    } else {
        let front = flag_candidates(rs.drop_last(), threshold_bits);
        if value_exceeds(rs.last(), threshold_bits) {
            front.push(with_flag(rs.last(), Option::Some(1u8)))
        } else {
            front
        }
    }
}

/// What one update inside the sweep does to the stored rows: the first
/// row whose key matches the candidate's is replaced by the candidate's
/// encoding; with no match the rows are left as they are.
pub open spec fn update_first(rows: Seq<Seq<u8>>, r: RecordS) -> Seq<Seq<u8>> {
    if exists|k: int| scan_hit_at(rows, r, k) {
        rows.update(choose|k: int| scan_hit_at(rows, r, k), encode_spec(r))
    } else {
        rows
    }
}

/// The rows after the sweep's updates are applied candidate by
/// candidate, in order.
pub open spec fn sweep_fold(rows: Seq<Seq<u8>>, cands: Seq<RecordS>) -> Seq<Seq<u8>>
    decreases cands.len(),
{
    if cands.len() == 0 {
        rows
    } else {
        sweep_fold(update_first(rows, cands.first()), cands.drop_first())
    }
}

/// The rows after a whole sweep with the given configuration.
pub open spec fn sweep_spec(
    rows: Seq<Seq<u8>>,
    id: Seq<u8>,
    start: Seq<u8>,
    end: Seq<u8>,
    threshold_bits: u64,
) -> Seq<Seq<u8>> {
    sweep_fold(rows, flag_candidates(query_spec(rows, id, start, end), threshold_bits))
}

/// A sweep candidate is some decodable 105-byte block's record with its
/// fault flag set to the sentinel.
pub open spec fn candidate_wf(cand: RecordS) -> bool {
    exists|b: Seq<u8>|
        b.len() == 105 && #[trigger] decode_ok(b) && cand == with_flag(
            decode_spec(b),
            Option::Some(1u8),
        )
}

/// Some stored row decodes and its key matches the candidate's.
pub open spec fn candidate_matched(rows: Seq<Seq<u8>>, cand: RecordS) -> bool {
    exists|m: int|
        0 <= m < rows.len() && decode_ok(#[trigger] rows[m]) && key_matches(rows[m], cand)
}

/// Every candidate is a flagged copy of a decodable block and has a
/// matching stored row to land in.
pub open spec fn candidates_ok(rows: Seq<Seq<u8>>, cands: Seq<RecordS>) -> bool {
    forall|c: int|
        0 <= c < cands.len() ==> candidate_wf(#[trigger] cands[c]) && candidate_matched(
            rows,
            cands[c],
        )
}

/// The first match of a key is the only index a scan can hit.
pub proof fn lemma_scan_hit_unique(rows: Seq<Seq<u8>>, r: RecordS, k1: int, k2: int)
    requires
        scan_hit_at(rows, r, k1),
        scan_hit_at(rows, r, k2),
    ensures
        k1 == k2,
{
}

/// Every queried record is the decoding of some stored row.
pub proof fn lemma_query_spec_from_rows(
    rows: Seq<Seq<u8>>,
    id: Seq<u8>,
    start: Seq<u8>,
    end: Seq<u8>,
)
    ensures
        forall|c: int|
            0 <= c < query_spec(rows, id, start, end).len() ==> exists|m: int|
                0 <= m < rows.len() && #[trigger] query_spec(rows, id, start, end)[c]
                    == decode_spec(rows[m]),
    decreases rows.len(),
{
    if rows.len() > 0 {
        lemma_query_spec_from_rows(rows.drop_last(), id, start, end);
        let q = query_spec(rows, id, start, end);
        let qf = query_spec(rows.drop_last(), id, start, end);
        assert forall|c: int| 0 <= c < q.len() implies exists|m: int|
            0 <= m < rows.len() && #[trigger] q[c] == decode_spec(rows[m]) by {
            if c < qf.len() {
                let m = choose|m: int|
                    0 <= m < rows.drop_last().len() && #[trigger] qf[c] == decode_spec(
                        rows.drop_last()[m],
                    );
                assert(rows.drop_last()[m] == rows[m]);
                assert(q[c] == decode_spec(rows[m]));
            } else {
                assert(q[c] == decode_spec(rows[rows.len() - 1]));
            }
        }
    }
}

impl Table {
    /// Collects the records the sweep will rewrite: queries the
    /// configured series and window, keeps the records whose value
    /// exceeds the threshold, and sets each one's fault flag to the
    /// sentinel byte `1`.
    pub fn sweep_candidates(&self, cfg: &SweepConfig) -> (res: Result<Vec<Record>, StoreError>)
        requires
            self.wf(),
        ensures
            match res {
                Ok(v) => (forall|j: int|
                    0 <= j < self.row_count() ==> decode_ok(#[trigger] self.rows()[j]))
                    && recs_view(v@) == flag_candidates(
                    query_spec(
                        self.rows(),
                        cfg.timeseries_id@,
                        cfg.window_start@,
                        cfg.window_end@,
                    ),
                    cfg.threshold_bits,
                ) && candidates_ok(self.rows(), recs_view(v@)),
                Err(e) => e == StoreError::CorruptRecord && (exists|j: int|
                    0 <= j < self.row_count() && !decode_ok(#[trigger] self.rows()[j])),
            },
    {
        let results = match self.query_timeseries_data_by_id(
            &cfg.timeseries_id,
            &cfg.window_start,
            &cfg.window_end,
        ) {
            Ok(v) => v,
            Err(e) => {
                return Err(e);
            },
        };
        let ghost qs: Seq<RecordS> = query_spec(
            self.rows(),
            cfg.timeseries_id@,
            cfg.window_start@,
            cfg.window_end@,
        );
        proof {
            lemma_query_spec_from_rows(
                self.rows(),
                cfg.timeseries_id@,
                cfg.window_start@,
                cfg.window_end@,
            );
            lemma_rows_block_len(*self);
            assert(recs_view(results@) == qs);
        }
        let mut out: Vec<Record> = Vec::new();
        let mut idx: usize = 0;
        proof {
            assert(qs.take(0) =~= Seq::<RecordS>::empty());
            assert(recs_view(out@) =~= flag_candidates(qs.take(0), cfg.threshold_bits));
        }
        while idx < results.len()
            invariant
                self.wf(),
                0 <= idx <= results@.len(),
                recs_view(results@) == qs,
                qs == query_spec(
                    self.rows(),
                    cfg.timeseries_id@,
                    cfg.window_start@,
                    cfg.window_end@,
                ),
                forall|j: int| 0 <= j < self.row_count() ==> decode_ok(#[trigger] self.rows()[j]),
                forall|j: int|
                    0 <= j < self.row_count() ==> (#[trigger] self.rows()[j]).len() == 105,
                forall|c: int|
                    0 <= c < qs.len() ==> exists|m: int|
                        0 <= m < self.rows().len() && #[trigger] qs[c] == decode_spec(
                            self.rows()[m],
                        ),
                recs_view(out@) == flag_candidates(qs.take(idx as int), cfg.threshold_bits),
                candidates_ok(self.rows(), recs_view(out@)),
            decreases results@.len() - idx,
        {
            proof {
                assert(qs.take(idx + 1).drop_last() =~= qs.take(idx as int));
                assert(qs.take(idx + 1).last() == qs[idx as int]);
                assert(recs_view(results@)[idx as int] == results@[idx as int]@);
            }
            let r = &results[idx];
            if f64_bits_gt_exec(r.value_bits, cfg.threshold_bits) {
                let flagged = Record {
                    sensor_name: copy_bytes(&r.sensor_name),
                    timestamp: copy_bytes(&r.timestamp),
                    value_bits: r.value_bits,
                    fc1_flag: Some(1u8),
                    timeseries_id: copy_bytes(&r.timeseries_id),
                };
                proof {
                    assert(flagged@ == with_flag(qs[idx as int], Option::Some(1u8)));
                    let m = choose|m: int|
                        0 <= m < self.rows().len() && #[trigger] qs[idx as int] == decode_spec(
                            self.rows()[m],
                        );
                    assert(decode_ok(self.rows()[m]));
                    assert(self.rows()[m].len() == 105);
                    assert(candidate_wf(flagged@));
                    lemma_stored_key_identity(self.rows()[m].subrange(32, 64));
                    lemma_stored_key_identity(self.rows()[m].subrange(73, 105));
                    assert(key_matches(self.rows()[m], flagged@));
                    assert(candidate_matched(self.rows(), flagged@));
                }
                let ghost out_prev: Seq<Record> = out@;
                out.push(flagged);
                proof {
                    assert(recs_view(out@) =~= recs_view(out_prev).push(flagged@));
                    assert forall|c: int| 0 <= c < recs_view(out@).len() implies candidate_wf(
                        #[trigger] recs_view(out@)[c],
                    ) && candidate_matched(self.rows(), recs_view(out@)[c]) by {
                        if c < recs_view(out_prev).len() {
                            assert(recs_view(out@)[c] == recs_view(out_prev)[c]);
                        } else {
                            assert(recs_view(out@)[c] == flagged@);
                        }
                    }
                }
            }
            idx = idx + 1;
        }
        proof {
            assert(qs.take(qs.len() as int) =~= qs);
        }
        Ok(out)
    }

    /// Runs the fault sweep: queries the configured series and window,
    /// and for every returned record whose value exceeds the threshold,
    /// sets that record's fault flag to `1` and rewrites the first
    /// stored row whose key matches, one update per flagged record, in
    /// query order. Fails with `CorruptRecord`, changing nothing,
    /// exactly when some stored row does not decode.
    pub fn fault_sweep(&mut self, cfg: &SweepConfig) -> (res: Result<(), StoreError>)
        requires
            old(self).wf(),
        ensures
            final(self).wf(),
            final(self).row_count() == old(self).row_count(),
            match res {
                Ok(()) => (forall|j: int|
                    0 <= j < old(self).row_count() ==> decode_ok(#[trigger] old(self).rows()[j]))
                    && (forall|j: int|
                    0 <= j < final(self).row_count() ==> decode_ok(#[trigger] final(self).rows()[j]))
                    && final(self).rows() == sweep_spec(
                    old(self).rows(),
                    cfg.timeseries_id@,
                    cfg.window_start@,
                    cfg.window_end@,
                    cfg.threshold_bits,
                ),
                Err(e) => *final(self) == *old(self) && e == StoreError::CorruptRecord && (
                exists|j: int|
                    0 <= j < old(self).row_count() && !decode_ok(#[trigger] old(self).rows()[j])),
            },
    {
        let cands = match self.sweep_candidates(cfg) {
            Ok(v) => v,
            Err(e) => {
                return Err(e);
            },
        };
        let ghost rows0: Seq<Seq<u8>> = self.rows();
        let ghost cs: Seq<RecordS> = recs_view(cands@);
        proof {
            assert(cs.skip(0) =~= cs);
        }
        let mut idx: usize = 0;
        while idx < cands.len()
            invariant
                self.wf(),
                0 <= idx <= cands@.len(),
                cs == recs_view(cands@),
                self.row_count() == rows0.len(),
                forall|j: int| 0 <= j < self.row_count() ==> decode_ok(#[trigger] self.rows()[j]),
                candidates_ok(self.rows(), cs.skip(idx as int)),
                sweep_fold(rows0, cs) == sweep_fold(self.rows(), cs.skip(idx as int)),
            decreases cands@.len() - idx,
        {
            let cand = &cands[idx];
            proof {
                assert(cs.skip(idx as int)[0] == cs[idx as int]);
                assert(candidate_wf(cs.skip(idx as int)[0]) && candidate_matched(
                    self.rows(),
                    cs.skip(idx as int)[0],
                ));
                assert(cand@ == cs[idx as int]);
            }
            let ghost rows_k: Seq<Seq<u8>> = self.rows();
            let upd = self.update_timeseries_data(cand);
            match upd {
                Ok(()) => {
                    proof {
                        let k = choose|k: int|
                            #[trigger] scan_hit_at(rows_k, cand@, k) && self.rows()
                                == rows_k.update(k, encode_spec(cand@));
                        assert(scan_hit_at(rows_k, cand@, k));
                        assert(self.rows() == rows_k.update(k, encode_spec(cand@)));
                        assert(update_first(rows_k, cand@) == self.rows()) by {
                            let k0 = choose|k2: int| scan_hit_at(rows_k, cand@, k2);
                            lemma_scan_hit_unique(rows_k, cand@, k, k0);
                        }
                        assert(cs.skip(idx as int).first() == cs[idx as int]);
                        assert(cs.skip(idx as int).drop_first() =~= cs.skip(idx as int + 1));
                        assert(sweep_fold(rows_k, cs.skip(idx as int)) == sweep_fold(
                            self.rows(),
                            cs.skip(idx as int + 1),
                        ));
                        let b = choose|b: Seq<u8>|
                            b.len() == 105 && #[trigger] decode_ok(b) && cand@ == with_flag(
                                decode_spec(b),
                                Option::Some(1u8),
                            );
                        lemma_encode_flagged(b, Option::Some(1u8));
                        lemma_stored_key_identity(b.subrange(32, 64));
                        lemma_stored_key_identity(b.subrange(73, 105));
                        assert(encode_spec(cand@) == b.update(72, 1u8));
                        assert(decode_ok(encode_spec(cand@)));
                        assert(decode_spec(encode_spec(cand@)).timestamp == cand@.timestamp);
                        assert(decode_spec(encode_spec(cand@)).timeseries_id
                            == cand@.timeseries_id);
                        assert(stored_key(cand@.timestamp) == cand@.timestamp);
                        assert(stored_key(cand@.timeseries_id) == cand@.timeseries_id);
                        assert forall|j: int| 0 <= j < self.row_count() implies decode_ok(
                            #[trigger] self.rows()[j],
                        ) by {
                            if j != k {
                                assert(self.rows()[j] == rows_k[j]);
                            }
                        }
                        assert forall|c: int| 0 <= c < cs.skip(idx as int + 1).len() implies
                            candidate_wf(#[trigger] cs.skip(idx as int + 1)[c])
                            && candidate_matched(self.rows(), cs.skip(idx as int + 1)[c]) by {
                            let cand_c = cs.skip(idx as int + 1)[c];
                            assert(cand_c == cs.skip(idx as int)[c + 1]);
                            assert(candidate_wf(cand_c) && candidate_matched(rows_k, cand_c));
                            let m = choose|m: int|
                                0 <= m < rows_k.len() && decode_ok(#[trigger] rows_k[m])
                                    && key_matches(rows_k[m], cand_c);
                            if m == k {
                                assert(key_matches(rows_k[k], cand@));
                                assert(decode_spec(self.rows()[k]).timestamp == stored_key(
                                    cand_c.timestamp,
                                ));
                                assert(decode_spec(self.rows()[k]).timeseries_id == stored_key(
                                    cand_c.timeseries_id,
                                ));
                                assert(decode_ok(self.rows()[k]));
                                assert(candidate_matched(self.rows(), cand_c));
                            } else {
                                assert(self.rows()[m] == rows_k[m]);
                                assert(candidate_matched(self.rows(), cand_c));
                            }
                        }
                    }
                },
                Err(e) => {
                    proof {
                        assert(candidate_matched(rows_k, cand@));
                        let m = choose|m: int|
                            0 <= m < rows_k.len() && decode_ok(#[trigger] rows_k[m])
                                && key_matches(rows_k[m], cand@);
                        if e == StoreError::NotFound {
                            assert(!key_matches(rows_k[m], cand@));
                        } else {
                            let kc = choose|k: int|
                                #[trigger] crate::table::scan_corrupt_at(rows_k, cand@, k);
                            assert(!decode_ok(rows_k[kc]));
                        }
                        assert(false);
                    }
                    return Err(e);
                },
            }
            idx = idx + 1;
        }
        proof {
            assert(cs.skip(cs.len() as int) =~= Seq::<RecordS>::empty());
        }
        Ok(())
    }
}

} // verus!
