//! Fixed-width binary row codec.
//!
//! One record is serialized into exactly [`crate::ROW_SIZE`] bytes, laid out
//! as `[sensor_name:32][timestamp:32][value:8][fault_flag:1][series_id:32]`.
//! Text fields are copied up to their field width and zero-padded; decoding
//! strips trailing zero bytes. The measurement travels as the 64-bit value's
//! bit pattern, little-endian, so it round-trips bit-exactly. An absent
//! fault flag is encoded as the byte `0`, which makes it indistinguishable
//! from a flag present with value `0`: decoding maps that byte back to
//! "absent".

use vstd::bytes::*;
use vstd::prelude::*;

use crate::StoreError;
use crate::FLAG_SIZE;
use crate::ROW_SIZE;
use crate::SENSOR_NAME_SIZE;
use crate::TIMESERIES_ID_SIZE;
use crate::TIMESTAMP_SIZE;
use crate::VALUE_SIZE;

verus! {

/// One time-series observation. Text fields are byte strings of any
/// length; the codec truncates them to their field width on encode.
/// The measurement is carried as the bit pattern of a 64-bit float.
#[derive(Debug)]
pub struct Record {
    pub sensor_name: Vec<u8>,
    pub timestamp: Vec<u8>,
    pub value_bits: u64,
    pub fc1_flag: Option<u8>,
    pub timeseries_id: Vec<u8>,
}

/// The mathematical shape of a record: the same fields over `Seq<u8>`.
pub ghost struct RecordS {
    pub sensor_name: Seq<u8>,
    pub timestamp: Seq<u8>,
    pub value_bits: u64,
    pub fc1_flag: Option<u8>,
    pub timeseries_id: Seq<u8>,
}

impl View for Record {
    type V = RecordS;

    open spec fn view(&self) -> RecordS {
        RecordS {
            sensor_name: self.sensor_name@,
            timestamp: self.timestamp@,
            value_bits: self.value_bits,
            fc1_flag: self.fc1_flag,
            timeseries_id: self.timeseries_id@,
        }
    }
}

/// Whether a byte sequence is valid UTF-8. The meaning is given to this
/// name by [`utf8_check`] below, which asks the standard library.
pub uninterp spec fn is_utf8(bytes: Seq<u8>) -> bool;

/// Relies on `core::str::from_utf8`: it returns `Ok` exactly when the
/// bytes are a valid UTF-8 sequence, a property of the bytes alone.
#[verifier::external_body]
fn utf8_check(bytes: &Vec<u8>) -> (r: bool)
    ensures
        r == is_utf8(bytes@),
{
    core::str::from_utf8(bytes.as_slice()).is_ok()
}

/// A text field as stored: truncated to the field width `w` and padded
/// with zero bytes up to it.
pub open spec fn pad_field(f: Seq<u8>, w: int) -> Seq<u8>
    recommends
        0 <= w,
{
    Seq::new(w as nat, |i: int| if i < f.len() { f[i] } else { 0u8 })
}

/// The bytes left after dropping every trailing zero byte.
pub open spec fn strip_trailing_zeros(s: Seq<u8>) -> Seq<u8>
    decreases s.len(),
{
    if s.len() > 0 && s.last() == 0 {
        strip_trailing_zeros(s.drop_last())
    } else {
        s
    }
}

/// The byte the optional fault flag is stored as: absence becomes `0`.
pub open spec fn flag_byte(f: Option<u8>) -> u8 {
    match f {
        Some(b) => b,
        None => 0u8,
    }
}

/// The 105-byte block a record is serialized to.
pub open spec fn encode_spec(r: RecordS) -> Seq<u8> {
    pad_field(r.sensor_name, SENSOR_NAME_SIZE as int) + pad_field(r.timestamp, TIMESTAMP_SIZE as int)
        + spec_u64_to_le_bytes(r.value_bits) + seq![flag_byte(r.fc1_flag)] + pad_field(
        r.timeseries_id,
        TIMESERIES_ID_SIZE as int,
    )
}

/// Whether a 105-byte block decodes without error: each of its three text
/// regions must be valid UTF-8.
pub open spec fn decode_ok(b: Seq<u8>) -> bool {
    &&& is_utf8(b.subrange(0, 32))
    &&& is_utf8(b.subrange(32, 64))
    &&& is_utf8(b.subrange(73, 105))
}

/// The record a 105-byte block decodes to (meaningful when the block
/// passes [`decode_ok`]): text fields lose their trailing zero padding,
/// and a zero flag byte reads back as an absent flag.
pub open spec fn decode_spec(b: Seq<u8>) -> RecordS
    recommends
        b.len() == ROW_SIZE,
{
    RecordS {
        sensor_name: strip_trailing_zeros(b.subrange(0, 32)),
        timestamp: strip_trailing_zeros(b.subrange(32, 64)),
        value_bits: spec_u64_from_le_bytes(b.subrange(64, 72)),
        fc1_flag: if b[72] == 0 {
            Option::None
        } else {
            Option::Some(b[72])
        },
        timeseries_id: strip_trailing_zeros(b.subrange(73, 105)),
    }
}

/// Copies the bytes of `b` in `[start, end)` into a fresh vector.
pub fn copy_range(b: &Vec<u8>, start: usize, end: usize) -> (r: Vec<u8>)
    requires
        start <= end <= b@.len(),
    ensures
        r@ == b@.subrange(start as int, end as int),
{
    let mut r: Vec<u8> = Vec::new();
    let mut i: usize = start;
    while i < end
        invariant
            start <= i <= end <= b@.len(),
            r@ == b@.subrange(start as int, i as int),
        decreases end - i,
    {
        r.push(b[i]);
        proof {
            assert(b@.subrange(start as int, i + 1 as int) =~= b@.subrange(start as int, i as int).push(
                b@[i as int],
            ));
        }
        i = i + 1;
    }
    r
}

/// Appends `f` truncated to `w` bytes, then zero padding up to `w`.
fn push_field(out: &mut Vec<u8>, f: &Vec<u8>, w: usize)
    ensures
        final(out)@ == old(out)@ + pad_field(f@, w as int),
{
    let n: usize = if f.len() < w {
        f.len()
    } else {
        w
    };
    let mut i: usize = 0;
    while i < n
        invariant
            0 <= i <= n <= w,
            n <= f@.len(),
            n == if f@.len() < w { f@.len() as int } else { w as int },
            out@ == old(out)@ + pad_field(f@, w as int).take(i as int),
        decreases n - i,
    {
        proof {
            assert(pad_field(f@, w as int).take(i + 1 as int) =~= pad_field(f@, w as int).take(
                i as int,
            ).push(f@[i as int]));
        }
        out.push(f[i]);
        i = i + 1;
    }
    while i < w
        invariant
            n <= i <= w,
            out@ == old(out)@ + pad_field(f@, w as int).take(i as int),
            n == if f@.len() < w { f@.len() as int } else { w as int },
        decreases w - i,
    {
        proof {
            assert(pad_field(f@, w as int).take(i + 1 as int) =~= pad_field(f@, w as int).take(
                i as int,
            ).push(0u8));
        }
        out.push(0u8);
        i = i + 1;
    }
    proof {
        assert(pad_field(f@, w as int).take(w as int) =~= pad_field(f@, w as int));
    }
}

/// Serializes a record into its fixed-width 105-byte block.
pub fn serialize_row(r: &Record) -> (b: Vec<u8>)
    ensures
        b@ == encode_spec(r@),
        b@.len() == ROW_SIZE,
{
    proof {
        lemma_auto_spec_u64_to_from_le_bytes();
    }
    let mut b: Vec<u8> = Vec::new();
    push_field(&mut b, &r.sensor_name, SENSOR_NAME_SIZE);
    push_field(&mut b, &r.timestamp, TIMESTAMP_SIZE);
    let value_bytes = u64_to_le_bytes(r.value_bits);
    let mut i: usize = 0;
    let ghost b_before: Seq<u8> = b@;
    while i < VALUE_SIZE
        invariant
            0 <= i <= VALUE_SIZE,
            value_bytes@ == spec_u64_to_le_bytes(r.value_bits),
            value_bytes@.len() == VALUE_SIZE,
            b@ == b_before + value_bytes@.take(i as int),
        decreases VALUE_SIZE - i,
    {
        proof {
            assert(value_bytes@.take(i + 1 as int) =~= value_bytes@.take(i as int).push(
                value_bytes@[i as int],
            ));
        }
        b.push(value_bytes[i]);
        i = i + 1;
    }
    proof {
        assert(value_bytes@.take(VALUE_SIZE as int) =~= value_bytes@);
    }
    let flag: u8 = match r.fc1_flag {
        Some(v) => v,
        None => 0u8,
    };
    b.push(flag);
    push_field(&mut b, &r.timeseries_id, TIMESERIES_ID_SIZE);
    proof {
        assert(b@ =~= encode_spec(r@));
    }
    b
}

/// Drops every trailing zero byte of `v`.
fn strip_zeros(v: &Vec<u8>) -> (r: Vec<u8>)
    ensures
        r@ == strip_trailing_zeros(v@),
{
    let mut end: usize = v.len();
    proof {
        assert(v@.take(end as int) =~= v@);
    }
    while end > 0 && v[end - 1] == 0
        invariant
            0 <= end <= v@.len(),
            strip_trailing_zeros(v@) == strip_trailing_zeros(v@.take(end as int)),
        decreases end,
    {
        proof {
            assert(v@.take(end as int).drop_last() =~= v@.take(end - 1));
        }
        end = end - 1;
    }
    proof {
        if end > 0 {
            assert(v@.take(end as int).last() == v@[end - 1]);
        }
        assert(strip_trailing_zeros(v@.take(end as int)) == v@.take(end as int));
        assert(v@.take(end as int) =~= v@.subrange(0, end as int));
    }
    copy_range(v, 0, end)
}

/// Deserializes a 105-byte block back into a record, failing loudly when
/// a text region holds invalid UTF-8.
pub fn deserialize_row(b: &Vec<u8>) -> (res: Result<Record, StoreError>)
    requires
        b@.len() == ROW_SIZE,
    ensures
        match res {
            Ok(r) => decode_ok(b@) && r@ == decode_spec(b@),
            Err(e) => e == StoreError::CorruptRecord && !decode_ok(b@),
        },
{
    let sensor_region = copy_range(b, 0, SENSOR_NAME_SIZE);
    if !utf8_check(&sensor_region) {
        return Err(StoreError::CorruptRecord);
    }
    let ts_region = copy_range(b, SENSOR_NAME_SIZE, SENSOR_NAME_SIZE + TIMESTAMP_SIZE);
    if !utf8_check(&ts_region) {
        return Err(StoreError::CorruptRecord);
    }
    let id_region = copy_range(b, SENSOR_NAME_SIZE + TIMESTAMP_SIZE + VALUE_SIZE + FLAG_SIZE, ROW_SIZE);
    if !utf8_check(&id_region) {
        return Err(StoreError::CorruptRecord);
    }
    let value_region = copy_range(
        b,
        SENSOR_NAME_SIZE + TIMESTAMP_SIZE,
        SENSOR_NAME_SIZE + TIMESTAMP_SIZE + VALUE_SIZE,
    );
    let value_bits = u64_from_le_bytes(value_region.as_slice());
    let flag_raw: u8 = b[SENSOR_NAME_SIZE + TIMESTAMP_SIZE + VALUE_SIZE];
    let fc1_flag: Option<u8> = if flag_raw == 0 {
        None
    } else {
        Some(flag_raw)
    };
    let rec = Record {
        sensor_name: strip_zeros(&sensor_region),
        timestamp: strip_zeros(&ts_region),
        value_bits,
        fc1_flag,
        timeseries_id: strip_zeros(&id_region),
    };
    Ok(rec)
}

/// Stripping only removes trailing zeros: the result is a prefix of `s`
/// and never ends in a zero byte.
pub proof fn lemma_strip_props(s: Seq<u8>)
    ensures
        strip_trailing_zeros(s).len() <= s.len(),
        strip_trailing_zeros(s).len() == 0 || strip_trailing_zeros(s).last() != 0,
        strip_trailing_zeros(s) == s.take(strip_trailing_zeros(s).len() as int),
    decreases s.len(),
{
    if s.len() > 0 && s.last() == 0 {
        lemma_strip_props(s.drop_last());
        let k = strip_trailing_zeros(s).len() as int;
        assert(s.drop_last().take(k) =~= s.take(k));
    } else {
        assert(strip_trailing_zeros(s) == s);
        assert(s.take(s.len() as int) =~= s);
    }
}

/// Padding then stripping gives a text field back unchanged, provided it
/// fits the field width and does not itself end in a zero byte.
pub proof fn lemma_strip_pad(f: Seq<u8>, w: int)
    requires
        f.len() <= w,
        f.len() == 0 || f.last() != 0,
    ensures
        strip_trailing_zeros(pad_field(f, w)) == f,
    decreases w,
{
    if f.len() < w {
        assert(pad_field(f, w).last() == 0);
        assert(pad_field(f, w).drop_last() =~= pad_field(f, w - 1));
        lemma_strip_pad(f, w - 1);
    } else {
        assert(pad_field(f, w) =~= f);
        if f.len() > 0 {
            assert(strip_trailing_zeros(f) == f);
        }
    }
}

/// Stripping then padding back to the region's own length rebuilds the
/// region exactly: the dropped bytes were all zero.
pub proof fn lemma_pad_strip(s: Seq<u8>)
    ensures
        pad_field(strip_trailing_zeros(s), s.len() as int) == s,
    decreases s.len(),
{
    lemma_strip_props(s);
    if s.len() > 0 && s.last() == 0 {
        lemma_pad_strip(s.drop_last());
        lemma_strip_props(s.drop_last());
        assert(pad_field(strip_trailing_zeros(s), s.len() as int) =~= s) by {
            let p = pad_field(strip_trailing_zeros(s), s.len() as int);
            let q = pad_field(strip_trailing_zeros(s.drop_last()), s.len() - 1);
            assert(forall|i: int| 0 <= i < s.len() - 1 ==> p[i] == q[i]);
            assert(forall|i: int| 0 <= i < s.len() - 1 ==> q[i] == s.drop_last()[i]);
        }
    } else {
        assert(pad_field(strip_trailing_zeros(s), s.len() as int) =~= s);
    }
}

/// Where each field of the serialized block sits.
pub proof fn lemma_encode_regions(r: RecordS)
    ensures
        encode_spec(r).len() == ROW_SIZE,
        encode_spec(r).subrange(0, 32) == pad_field(r.sensor_name, 32),
        encode_spec(r).subrange(32, 64) == pad_field(r.timestamp, 32),
        encode_spec(r).subrange(64, 72) == spec_u64_to_le_bytes(r.value_bits),
        encode_spec(r)[72] == flag_byte(r.fc1_flag),
        encode_spec(r).subrange(73, 105) == pad_field(r.timeseries_id, 32),
{
    lemma_auto_spec_u64_to_from_le_bytes();
    let e = encode_spec(r);
    assert(e.subrange(0, 32) =~= pad_field(r.sensor_name, 32));
    assert(e.subrange(32, 64) =~= pad_field(r.timestamp, 32));
    assert(e.subrange(64, 72) =~= spec_u64_to_le_bytes(r.value_bits));
    assert(e.subrange(73, 105) =~= pad_field(r.timeseries_id, 32));
}

/// A record as the codec's truncation/padding rules leave it: text fields
/// truncated to their width and shorn of trailing zeros, and a flag
/// stored as byte `0` read back as absent.
pub open spec fn normalize_record(r: RecordS) -> RecordS {
    RecordS {
        sensor_name: strip_trailing_zeros(pad_field(r.sensor_name, 32)),
        timestamp: strip_trailing_zeros(pad_field(r.timestamp, 32)),
        value_bits: r.value_bits,
        fc1_flag: if flag_byte(r.fc1_flag) == 0 {
            Option::None
        } else {
            Option::Some(flag_byte(r.fc1_flag))
        },
        timeseries_id: strip_trailing_zeros(pad_field(r.timeseries_id, 32)),
    }
}

/// A record the truncation/padding rules leave untouched: text fields fit
/// their width and carry no trailing zero byte, and the flag is not
/// "present with value zero" (which the format cannot represent).
pub open spec fn canonical_record(r: RecordS) -> bool {
    &&& r.sensor_name.len() <= 32
    &&& (r.sensor_name.len() == 0 || r.sensor_name.last() != 0)
    &&& r.timestamp.len() <= 32
    &&& (r.timestamp.len() == 0 || r.timestamp.last() != 0)
    &&& r.timeseries_id.len() <= 32
    &&& (r.timeseries_id.len() == 0 || r.timeseries_id.last() != 0)
    &&& r.fc1_flag != Option::Some(0u8)
}

/// Law: decoding an encoded record yields the record itself, after the
/// truncation/padding rules are applied to its text fields; the stored
/// measurement round-trips bit-exactly.
pub proof fn lemma_codec_round_trip(r: RecordS)
    ensures
        decode_spec(encode_spec(r)) == normalize_record(r),
{
    lemma_encode_regions(r);
    lemma_auto_spec_u64_to_from_le_bytes();
}

/// Law: on records already in the codec's canonical form, the round trip
/// is the identity.
pub proof fn lemma_codec_round_trip_canonical(r: RecordS)
    requires
        canonical_record(r),
    ensures
        decode_spec(encode_spec(r)) == r,
{
    lemma_codec_round_trip(r);
    lemma_strip_pad(r.sensor_name, 32);
    lemma_strip_pad(r.timestamp, 32);
    lemma_strip_pad(r.timeseries_id, 32);
}

/// The form a text key takes once stored: truncated to the 32-byte
/// field width and shorn of trailing zero bytes. On keys that fit the
/// field and do not end in a zero byte — every key the data model
/// allows — this is the identity.
pub open spec fn stored_key(s: Seq<u8>) -> Seq<u8> {
    strip_trailing_zeros(pad_field(s, 32))
}

/// Padding to width `w` changes what stripping leaves only by first
/// truncating to `w`.
pub proof fn lemma_pad_strip_trunc(f: Seq<u8>, w: int)
    requires
        0 <= w,
    ensures
        strip_trailing_zeros(pad_field(f, w)) == strip_trailing_zeros(
            if f.len() <= w {
                f
            } else {
                f.take(w)
            },
        ),
    decreases w,
{
    if f.len() < w {
        assert(pad_field(f, w).last() == 0);
        assert(pad_field(f, w).drop_last() =~= pad_field(f, w - 1));
        lemma_pad_strip_trunc(f, w - 1);
    } else {
        assert(pad_field(f, w) =~= (
        if f.len() <= w {
            f
        } else {
            f.take(w)
        }));
    }
}

/// A field decoded from a stored region is already in stored form.
pub proof fn lemma_stored_key_identity(region: Seq<u8>)
    requires
        region.len() <= 32,
    ensures
        stored_key(strip_trailing_zeros(region)) == strip_trailing_zeros(region),
{
    lemma_strip_props(region);
    lemma_strip_pad(strip_trailing_zeros(region), 32);
}

/// Brings a text key into its stored form: truncates it to the 32-byte
/// field width and drops trailing zero bytes.
pub fn normalize_key(v: &Vec<u8>) -> (r: Vec<u8>)
    ensures
        r@ == stored_key(v@),
{
    let end: usize = if v.len() < 32 {
        v.len()
    } else {
        32
    };
    let truncated = copy_range(v, 0, end);
    proof {
        lemma_pad_strip_trunc(v@, 32);
        if v@.len() <= 32 {
            assert(truncated@ =~= v@);
        } else {
            assert(truncated@ =~= v@.take(32));
        }
    }
    strip_zeros(&truncated)
}

/// Record `r` with its fault flag replaced by `f`.
pub open spec fn with_flag(r: RecordS, f: Option<u8>) -> RecordS {
    RecordS {
        sensor_name: r.sensor_name,
        timestamp: r.timestamp,
        value_bits: r.value_bits,
        fc1_flag: f,
        timeseries_id: r.timeseries_id,
    }
}

/// Law: decoding a block, replacing the fault flag, and re-encoding
/// touches exactly the flag byte; decodability and every other decoded
/// field survive.
pub proof fn lemma_encode_flagged(b: Seq<u8>, f: Option<u8>)
    requires
        b.len() == ROW_SIZE,
    ensures
        encode_spec(with_flag(decode_spec(b), f)) == b.update(72, flag_byte(f)),
        decode_ok(b.update(72, flag_byte(f))) == decode_ok(b),
        decode_spec(b.update(72, flag_byte(f))) == with_flag(
            decode_spec(b),
            if flag_byte(f) == 0 {
                Option::<u8>::None
            } else {
                Option::Some(flag_byte(f))
            },
        ),
{
    let b2 = b.update(72, flag_byte(f));
    assert(b2.subrange(0, 32) =~= b.subrange(0, 32));
    assert(b2.subrange(32, 64) =~= b.subrange(32, 64));
    assert(b2.subrange(64, 72) =~= b.subrange(64, 72));
    assert(b2.subrange(73, 105) =~= b.subrange(73, 105));
    let d = with_flag(decode_spec(b), f);
    lemma_encode_regions(d);
    lemma_auto_spec_u64_to_from_le_bytes();
    lemma_pad_strip(b.subrange(0, 32));
    lemma_pad_strip(b.subrange(32, 64));
    lemma_pad_strip(b.subrange(73, 105));
    assert(spec_u64_to_le_bytes(spec_u64_from_le_bytes(b.subrange(64, 72))) == b.subrange(64, 72));
    assert(encode_spec(d) =~= b2) by {
        let e = encode_spec(d);
        assert(forall|i: int| 0 <= i < 32 ==> e[i] == e.subrange(0, 32)[i]);
        assert(forall|i: int| 32 <= i < 64 ==> e[i] == e.subrange(32, 64)[i - 32]);
        assert(forall|i: int| 64 <= i < 72 ==> e[i] == e.subrange(64, 72)[i - 64]);
        assert(forall|i: int| 73 <= i < 105 ==> e[i] == e.subrange(73, 105)[i - 73]);
        assert(forall|i: int| 0 <= i < 32 ==> b2[i] == b2.subrange(0, 32)[i]);
        assert(forall|i: int| 32 <= i < 64 ==> b2[i] == b2.subrange(32, 64)[i - 32]);
        assert(forall|i: int| 64 <= i < 72 ==> b2[i] == b2.subrange(64, 72)[i - 64]);
        assert(forall|i: int| 73 <= i < 105 ==> b2[i] == b2.subrange(73, 105)[i - 73]);
    }
}

/// Copies a byte vector.
pub fn copy_bytes(v: &Vec<u8>) -> (r: Vec<u8>)
    ensures
        r@ == v@,
{
    let r = copy_range(v, 0, v.len());
    proof {
        assert(v@.subrange(0, v@.len() as int) =~= v@);
    }
    r
}

/// Law: re-encoding whatever a 105-byte block decodes to rebuilds the
/// block bit for bit; the stored form is canonical.
pub proof fn lemma_reencode_identity(b: Seq<u8>)
    requires
        b.len() == ROW_SIZE,
    ensures
        encode_spec(decode_spec(b)) == b,
{
    let d = decode_spec(b);
    lemma_encode_regions(d);
    lemma_auto_spec_u64_to_from_le_bytes();
    lemma_pad_strip(b.subrange(0, 32));
    lemma_pad_strip(b.subrange(32, 64));
    lemma_pad_strip(b.subrange(73, 105));
    assert(spec_u64_to_le_bytes(spec_u64_from_le_bytes(b.subrange(64, 72))) == b.subrange(64, 72));
    assert(encode_spec(d) =~= b) by {
        let e = encode_spec(d);
        assert(forall|i: int| 0 <= i < 32 ==> e[i] == e.subrange(0, 32)[i]);
        assert(forall|i: int| 32 <= i < 64 ==> e[i] == e.subrange(32, 64)[i - 32]);
        assert(forall|i: int| 64 <= i < 72 ==> e[i] == e.subrange(64, 72)[i - 64]);
        assert(forall|i: int| 73 <= i < 105 ==> e[i] == e.subrange(73, 105)[i - 73]);
        assert(forall|i: int| 0 <= i < 32 ==> b[i] == b.subrange(0, 32)[i]);
        assert(forall|i: int| 32 <= i < 64 ==> b[i] == b.subrange(32, 64)[i - 32]);
        assert(forall|i: int| 64 <= i < 72 ==> b[i] == b.subrange(64, 72)[i - 64]);
        assert(forall|i: int| 73 <= i < 105 ==> b[i] == b.subrange(73, 105)[i - 73]);
    }
}

} // verus!
