//! The binary wire form of event search results: a count, then one
//! fixed-layout record per result. Payloads are not compressed.

use vstd::prelude::*;

use crate::episode_number::EpisodeNumber;
use crate::models::{PkaEvent, PkaEventSearchResult};
use crate::text::string_from_utf8;
use vstd::utf8::encode_utf8;

verus! {

/// `v` as `width` little-endian bytes (the low bytes of `v`).
pub open spec fn le_bytes(v: nat, width: nat) -> Seq<u8>
    decreases width,
{
    if width == 0 {
        seq![]
    } else {
        seq![(v % 256) as u8] + le_bytes(v / 256, (width - 1) as nat)
    }
}

/// One record of the wire format: the episode number's `f32` bits (4 bytes),
/// the offset (4), the byte length of the description (8), its UTF-8 bytes,
/// the duration (4) and the upload time (8), every integer little-endian and
/// signed ones in two's complement.
pub open spec fn record_bytes(
    number: EpisodeNumber,
    timestamp: i32,
    description: Seq<char>,
    length_seconds: i32,
    upload_date: i64,
) -> Seq<u8> {
    le_bytes(number.bits as nat, 4) + le_bytes((timestamp as u32) as nat, 4) + le_bytes(
        encode_utf8(description).len(),
        8,
    ) + encode_utf8(description) + le_bytes((length_seconds as u32) as nat, 4) + le_bytes(
        (upload_date as u64) as nat,
        8,
    )
}

pub open spec fn result_bytes(r: PkaEventSearchResult) -> Seq<u8> {
    record_bytes(r.episode_number, r.timestamp, r.description@, r.length_seconds, r.upload_date)
}

pub open spec fn event_bytes(e: PkaEvent) -> Seq<u8> {
    record_bytes(e.episode_number, e.timestamp, e.description@, e.length_seconds, e.upload_date)
}

/// The records of `rs`, one after the other.
pub open spec fn records_bytes(rs: Seq<PkaEventSearchResult>) -> Seq<u8>
    decreases rs.len(),
{
    if rs.len() == 0 {
        seq![]
    } else {
        records_bytes(rs.drop_last()) + result_bytes(rs.last())
    }
}

/// The wire form of a list of event search results: the number of records
/// (8 bytes, little-endian), then the records.
pub open spec fn results_bytes(rs: Seq<PkaEventSearchResult>) -> Seq<u8> {
    le_bytes(rs.len(), 8) + records_bytes(rs)
}

/// Appends the `width` low bytes of `v`, little-endian.
fn push_le(out: &mut Vec<u8>, v: u64, width: usize)
    ensures
        final(out)@ == old(out)@ + le_bytes(v as nat, width as nat),
{
    let ghost start = out@;
    let mut rest: u64 = v;
    let mut i: usize = 0;
    while i < width
        invariant
            i <= width,
            start + le_bytes(v as nat, width as nat) == out@ + le_bytes(rest as nat, (width - i) as nat),
        decreases width - i,
    {
        let ghost before = out@;
        out.push((rest % 256) as u8);
        assert(out@ + le_bytes((rest / 256) as nat, (width - i - 1) as nat) =~= before + le_bytes(
            rest as nat,
            (width - i) as nat,
        ));
        rest = rest / 256;
        i = i + 1;
    }
    assert(out@ + le_bytes(rest as nat, 0) =~= out@);
}

fn push_bytes(out: &mut Vec<u8>, b: &[u8])
    ensures
        final(out)@ == old(out)@ + b@,
{
    let ghost start = out@;
    let mut i: usize = 0;
    while i < b.len()
        invariant
            i <= b@.len(),
            out@ == start + b@.take(i as int),
        decreases b.len() - i,
    {
        out.push(b[i]);
        assert(out@ =~= start + b@.take(i + 1));
        i = i + 1;
    }
    assert(b@.take(b@.len() as int) =~= b@);
}

/// Appends the wire record of one search result.
fn push_record(out: &mut Vec<u8>, r: &PkaEventSearchResult)
    ensures
        final(out)@ == old(out)@ + result_bytes(*r),
{
    let ghost start = out@;
    push_le(out, r.episode_number.bits as u64, 4);
    push_le(out, (r.timestamp as u32) as u64, 4);
    let bytes = r.description.as_str().as_bytes();
    push_le(out, bytes.len() as u64, 8);
    push_bytes(out, bytes);
    push_le(out, (r.length_seconds as u32) as u64, 4);
    push_le(out, r.upload_date as u64, 8);
    assert(out@ =~= start + result_bytes(*r));
}

/// Encodes event search results into their wire form.
pub fn encode_event_results(results: &Vec<PkaEventSearchResult>) -> (r: Vec<u8>)
    ensures
        r@ == results_bytes(results@),
{
    let mut out: Vec<u8> = Vec::new();
    push_le(&mut out, results.len() as u64, 8);
    let ghost head = out@;
    let mut i: usize = 0;
    while i < results.len()
        invariant
            i <= results@.len(),
            head == le_bytes(results@.len() as nat, 8),
            out@ == head + records_bytes(results@.take(i as int)),
        decreases results.len() - i,
    {
        push_record(&mut out, &results[i]);
        assert(results@.take(i + 1).drop_last() =~= results@.take(i as int));
        assert(out@ =~= head + records_bytes(results@.take(i + 1)));
        i = i + 1;
    }
    assert(results@.take(results@.len() as int) =~= results@);
    out
}

pub open spec fn pow256(w: nat) -> nat
    decreases w,
{
    if w == 0 {
        1
    } else {
        256 * pow256((w - 1) as nat)
    }
}

/// The number that little-endian bytes spell.
pub open spec fn le_value(bs: Seq<u8>) -> nat
    decreases bs.len(),
{
    if bs.len() == 0 {
        0
    } else {
        bs[0] as nat + 256 * le_value(bs.drop_first())
    }
}

proof fn lemma_le_bytes_round_trip(v: nat, w: nat)
    requires
        v < pow256(w),
    ensures
        le_bytes(v, w).len() == w,
        le_value(le_bytes(v, w)) == v,
    decreases w,
{
    if w > 0 {
        let q = v / 256;
        assert(q < pow256((w - 1) as nat)) by (nonlinear_arith)
            requires
                v < 256 * pow256((w - 1) as nat),
                q == v / 256,
        ;
        lemma_le_bytes_round_trip(q, (w - 1) as nat);
        let bs = le_bytes(v, w);
        assert(bs.drop_first() =~= le_bytes(q, (w - 1) as nat));
        assert(bs[0] as nat == v % 256);
        assert(v == v % 256 + 256 * q) by (nonlinear_arith)
            requires
                q == v / 256,
        ;
    } else {
        assert(le_bytes(v, w) =~= Seq::<u8>::empty());
    }
}

proof fn lemma_le_value_bound(bs: Seq<u8>)
    ensures
        le_value(bs) < pow256(bs.len()),
    decreases bs.len(),
{
    if bs.len() > 0 {
        lemma_le_value_bound(bs.drop_first());
        let t = le_value(bs.drop_first());
        let p = pow256((bs.len() - 1) as nat);
        assert(bs[0] as nat + 256 * t < 256 * p) by (nonlinear_arith)
            requires
                t < p,
                bs[0] < 256,
        ;
    }
}

proof fn lemma_pow256_8()
    ensures
        pow256(8) == 0x1_0000_0000_0000_0000,
        pow256(4) == 0x1_0000_0000,
{
    reveal_with_fuel(pow256, 9);
}

proof fn lemma_pow256_mono(a: nat, b: nat)
    requires
        a <= b,
    ensures
        pow256(a) <= pow256(b),
    decreases b,
{
    if a < b {
        lemma_pow256_mono(a, (b - 1) as nat);
    }
}

/// The `w`-byte little-endian number at `pos`.
fn read_le(buf: &Vec<u8>, pos: usize, w: usize) -> (r: u64)
    requires
        w <= 8,
        pos + w <= buf.len(),
    ensures
        r as nat == le_value(buf@.subrange(pos as int, pos + w)),
{
    let mut v: u64 = 0;
    let mut j: usize = w;
    proof {
        lemma_pow256_8();
        lemma_pow256_mono(w as nat, 8);
    }
    assert(buf@.subrange(pos + w, pos + w) =~= Seq::<u8>::empty());
    while j > 0
        invariant
            j <= w <= 8,
            pos + w <= buf.len(),
            pow256(8) == 0x1_0000_0000_0000_0000,
            v as nat == le_value(buf@.subrange(pos + j, pos + w)),
        decreases j,
    {
        let ghost tail = buf@.subrange(pos + j, pos + w);
        let ghost whole = buf@.subrange(pos + j - 1, pos + w);
        assert(whole.drop_first() =~= tail);
        proof {
            lemma_le_value_bound(whole);
            lemma_pow256_mono(whole.len(), 8);
        }
        let b = buf[pos + j - 1];
        assert(whole[0] == b);
        v = v * 256 + b as u64;
        j = j - 1;
    }
    v
}

proof fn lemma_le_value_round_trip(bs: Seq<u8>)
    ensures
        le_bytes(le_value(bs), bs.len()) == bs,
    decreases bs.len(),
{
    if bs.len() > 0 {
        let t = le_value(bs.drop_first());
        let v = le_value(bs);
        lemma_le_value_round_trip(bs.drop_first());
        assert(v % 256 == bs[0] as nat && v / 256 == t) by (nonlinear_arith)
            requires
                v == bs[0] as nat + 256 * t,
                bs[0] < 256,
        ;
        assert(le_bytes(v, bs.len()) =~= bs);
    } else {
        assert(le_bytes(le_value(bs), 0) =~= bs);
    }
}

/// The two results hold the same values.
pub open spec fn same_result(a: PkaEventSearchResult, b: PkaEventSearchResult) -> bool {
    &&& a.episode_number == b.episode_number
    &&& a.timestamp == b.timestamp
    &&& a.description@ == b.description@
    &&& a.length_seconds == b.length_seconds
    &&& a.upload_date == b.upload_date
}

/// `bytes` starts at `pos` of `buf`.
pub open spec fn bytes_at(buf: Seq<u8>, pos: int, bytes: Seq<u8>) -> bool {
    &&& 0 <= pos
    &&& pos + bytes.len() <= buf.len()
    &&& buf.subrange(pos, pos + bytes.len()) == bytes
}

fn copy_range(buf: &Vec<u8>, from: usize, to: usize) -> (r: Vec<u8>)
    requires
        from <= to <= buf.len(),
    ensures
        r@ == buf@.subrange(from as int, to as int),
{
    let mut r: Vec<u8> = Vec::new();
    let mut i: usize = from;
    while i < to
        invariant
            from <= i <= to <= buf.len(),
            r@ == buf@.subrange(from as int, i as int),
        decreases to - i,
    {
        r.push(buf[i]);
        assert(r@ =~= buf@.subrange(from as int, i + 1));
        i = i + 1;
    }
    r
}

proof fn lemma_le_field(buf: Seq<u8>, pos: int, w: nat, v: nat)
    requires
        bytes_at(buf, pos, le_bytes(v, w)),
        v < pow256(w),
    ensures
        le_value(buf.subrange(pos, pos + w)) == v,
{
    lemma_le_bytes_round_trip(v, w);
}

/// Decodes the record at `pos`: the record and the position after it.
fn decode_record(buf: &Vec<u8>, pos: usize) -> (r: Option<(PkaEventSearchResult, usize)>)
    ensures
        r is Some ==> pos < (r->0).1 <= buf.len() && buf@.subrange(pos as int, (r->0).1 as int)
            == result_bytes((r->0).0),
        forall|r0: PkaEventSearchResult|
            bytes_at(buf@, pos as int, #[trigger] result_bytes(r0)) ==> r is Some && same_result(
                (r->0).0,
                r0,
            ) && (r->0).1 == pos + result_bytes(r0).len(),
{
    let n = buf.len();
    if n < 28 || pos > n - 28 {
        proof {
            assert forall|r0: PkaEventSearchResult| !bytes_at(buf@, pos as int, #[trigger] result_bytes(r0)) by {
                lemma_result_bytes_len(r0);
            }
        }
        return None;
    }
    let bits = read_le(buf, pos, 4);
    let ts = read_le(buf, pos + 4, 4);
    let len = read_le(buf, pos + 8, 8);
    proof {
        lemma_pow256_8();
        lemma_le_value_bound(buf@.subrange(pos as int, pos + 4));
        lemma_le_value_bound(buf@.subrange(pos + 4, pos + 8));
    }
    if len > (n - pos - 28) as u64 {
        proof {
            assert forall|r0: PkaEventSearchResult| !bytes_at(buf@, pos as int, #[trigger] result_bytes(r0)) by {
                if bytes_at(buf@, pos as int, result_bytes(r0)) {
                    lemma_record_fields(buf@, pos as int, r0);
                }
            }
        }
        return None;
    }
    let l = len as usize;
    let d0 = pos + 16;
    let d1 = d0 + l;
    let desc_bytes = copy_range(buf, d0, d1);
    let ghost db = desc_bytes@;
    let description = match string_from_utf8(desc_bytes) {
        Some(s) => s,
        None => {
            proof {
                assert forall|r0: PkaEventSearchResult| !bytes_at(buf@, pos as int, #[trigger] result_bytes(r0)) by {
                    if bytes_at(buf@, pos as int, result_bytes(r0)) {
                        lemma_record_fields(buf@, pos as int, r0);
                        vstd::utf8::encode_utf8_valid_utf8(r0.description@);
                    }
                }
            }
            return None;
        },
    };
    let dur = read_le(buf, d1, 4);
    let up = read_le(buf, d1 + 4, 8);
    proof {
        lemma_le_value_bound(buf@.subrange(d1 as int, d1 + 4));
    }
    let r = PkaEventSearchResult {
        episode_number: EpisodeNumber { bits: bits as u32 },
        timestamp: (ts as u32) as i32,
        description,
        length_seconds: (dur as u32) as i32,
        upload_date: up as i64,
    };
    let next = d1 + 12;
    proof {
        vstd::utf8::decode_utf8_encode_utf8(db);
        assert(encode_utf8(description@) == db);
        let t32 = ts as u32;
        let u32v = dur as u32;
        assert(((t32 as i32) as u32) == t32) by (bit_vector);
        assert(((u32v as i32) as u32) == u32v) by (bit_vector);
        assert(((up as i64) as u64) == up) by (bit_vector);
        lemma_le_value_round_trip(buf@.subrange(pos as int, pos + 4));
        lemma_le_value_round_trip(buf@.subrange(pos + 4, pos + 8));
        lemma_le_value_round_trip(buf@.subrange(pos + 8, pos + 16));
        lemma_le_value_round_trip(buf@.subrange(d1 as int, d1 + 4));
        lemma_le_value_round_trip(buf@.subrange(d1 + 4, d1 + 12));
        assert(buf@.subrange(pos as int, next as int) =~= buf@.subrange(pos as int, pos + 4) + buf@.subrange(
            pos + 4,
            pos + 8,
        ) + buf@.subrange(pos + 8, pos + 16) + db + buf@.subrange(d1 as int, d1 + 4) + buf@.subrange(
            d1 + 4,
            d1 + 12,
        ));
        assert(buf@.subrange(pos as int, next as int) == result_bytes(r));
        assert forall|r0: PkaEventSearchResult| bytes_at(buf@, pos as int, #[trigger] result_bytes(r0)) implies same_result(r, r0) && next == pos + result_bytes(r0).len() by {
            lemma_record_fields(buf@, pos as int, r0);
            let a = r0.timestamp;
            let b = r0.length_seconds;
            let c = r0.upload_date;
            assert(((a as u32) as i32) == a) by (bit_vector);
            assert(((b as u32) as i32) == b) by (bit_vector);
            assert(((c as u64) as i64) == c) by (bit_vector);
            vstd::utf8::encode_utf8_decode_utf8(r0.description@);
        }
    }
    Some((r, next))
}

proof fn lemma_result_bytes_len(r: PkaEventSearchResult)
    ensures
        result_bytes(r).len() == 28 + encode_utf8(r.description@).len(),
{
    lemma_pow256_8();
    lemma_le_bytes_len(r.episode_number.bits as nat, 4);
    lemma_le_bytes_len((r.timestamp as u32) as nat, 4);
    lemma_le_bytes_len(encode_utf8(r.description@).len(), 8);
    lemma_le_bytes_len((r.length_seconds as u32) as nat, 4);
    lemma_le_bytes_len((r.upload_date as u64) as nat, 8);
}

pub proof fn lemma_le_bytes_len(v: nat, width: nat)
    ensures
        le_bytes(v, width).len() == width,
    decreases width,
{
    if width > 0 {
        lemma_le_bytes_len(v / 256, (width - 1) as nat);
    }
}

/// What the fields of a record at `pos` read back as.
proof fn lemma_record_fields(buf: Seq<u8>, pos: int, r0: PkaEventSearchResult)
    requires
        buf.len() <= u64::MAX,
        bytes_at(buf, pos, result_bytes(r0)),
    ensures
        ({
            let l = encode_utf8(r0.description@).len();
            &&& pos + 28 + l <= buf.len()
            &&& le_value(buf.subrange(pos, pos + 4)) == r0.episode_number.bits
            &&& le_value(buf.subrange(pos + 4, pos + 8)) == (r0.timestamp as u32)
            &&& le_value(buf.subrange(pos + 8, pos + 16)) == l
            &&& buf.subrange(pos + 16, pos + 16 + l) == encode_utf8(r0.description@)
            &&& le_value(buf.subrange(pos + 16 + l, pos + 20 + l)) == (r0.length_seconds as u32)
            &&& le_value(buf.subrange(pos + 20 + l, pos + 28 + l)) == (r0.upload_date as u64)
        }),
{
    lemma_result_bytes_len(r0);
    lemma_pow256_8();
    let l = encode_utf8(r0.description@).len() as int;
    let rb = result_bytes(r0);
    let a = le_bytes(r0.episode_number.bits as nat, 4);
    let b = le_bytes((r0.timestamp as u32) as nat, 4);
    let c = le_bytes(l as nat, 8);
    let d = encode_utf8(r0.description@);
    let e = le_bytes((r0.length_seconds as u32) as nat, 4);
    let f = le_bytes((r0.upload_date as u64) as nat, 8);
    lemma_le_bytes_len(r0.episode_number.bits as nat, 4);
    lemma_le_bytes_len((r0.timestamp as u32) as nat, 4);
    lemma_le_bytes_len(l as nat, 8);
    lemma_le_bytes_len((r0.length_seconds as u32) as nat, 4);
    lemma_le_bytes_len((r0.upload_date as u64) as nat, 8);
    assert(rb == a + b + c + d + e + f);
    let big = buf.subrange(pos, pos + rb.len());
    assert(buf.subrange(pos, pos + 4) =~= big.subrange(0, 4));
    assert(big.subrange(0, 4) =~= a);
    assert(buf.subrange(pos + 4, pos + 8) =~= big.subrange(4, 8));
    assert(big.subrange(4, 8) =~= b);
    assert(buf.subrange(pos + 8, pos + 16) =~= big.subrange(8, 16));
    assert(big.subrange(8, 16) =~= c);
    assert(buf.subrange(pos + 16, pos + 16 + l) =~= big.subrange(16, 16 + l));
    assert(big.subrange(16, 16 + l) =~= d);
    assert(buf.subrange(pos + 16 + l, pos + 20 + l) =~= big.subrange(16 + l, 20 + l));
    assert(big.subrange(16 + l, 20 + l) =~= e);
    assert(buf.subrange(pos + 20 + l, pos + 28 + l) =~= big.subrange(20 + l, 28 + l));
    assert(big.subrange(20 + l, 28 + l) =~= f);
    lemma_le_bytes_round_trip(r0.episode_number.bits as nat, 4);
    lemma_le_bytes_round_trip((r0.timestamp as u32) as nat, 4);
    assert(l < pow256(8)) by {
        assert(l <= buf.len());
    }
    lemma_le_bytes_round_trip(l as nat, 8);
    lemma_le_bytes_round_trip((r0.length_seconds as u32) as nat, 4);
    lemma_le_bytes_round_trip((r0.upload_date as u64) as nat, 8);
}

proof fn lemma_records_concat(a: Seq<PkaEventSearchResult>, b: Seq<PkaEventSearchResult>)
    ensures
        records_bytes(a + b) == records_bytes(a) + records_bytes(b),
    decreases b.len(),
{
    if b.len() == 0 {
        assert(a + b =~= a);
        assert(records_bytes(a) + records_bytes(b) =~= records_bytes(a));
    } else {
        lemma_records_concat(a, b.drop_last());
        assert((a + b).drop_last() =~= a + b.drop_last());
        assert((a + b).last() == b.last());
    }
}

proof fn lemma_records_skip(rs: Seq<PkaEventSearchResult>, k: int)
    requires
        0 <= k < rs.len(),
    ensures
        records_bytes(rs.skip(k)) == result_bytes(rs[k]) + records_bytes(rs.skip(k + 1)),
{
    assert(rs.skip(k) =~= seq![rs[k]] + rs.skip(k + 1));
    lemma_records_concat(seq![rs[k]], rs.skip(k + 1));
    assert(seq![rs[k]].drop_last() =~= Seq::<PkaEventSearchResult>::empty());
    let one = seq![rs[k]];
    assert(one.drop_last() =~= Seq::<PkaEventSearchResult>::empty());
    assert(records_bytes(one.drop_last()) =~= Seq::<u8>::empty());
    assert(one.last() == rs[k]);
    assert(records_bytes(one) =~= result_bytes(rs[k]));
}

/// One decoding step: the record at `pos` is the next of `rs`, and what
/// follows it is the rest of `rs`.
proof fn lemma_decode_step(buf: Seq<u8>, pos: int, rs: Seq<PkaEventSearchResult>, k: int)
    requires
        0 <= pos <= buf.len(),
        0 <= k < rs.len(),
        buf.skip(pos) == records_bytes(rs.skip(k)),
    ensures
        bytes_at(buf, pos, result_bytes(rs[k])),
        buf.skip(pos + result_bytes(rs[k]).len()) == records_bytes(rs.skip(k + 1)),
{
    lemma_records_skip(rs, k);
    let rb = result_bytes(rs[k]);
    let rest = records_bytes(rs.skip(k + 1));
    assert(buf.skip(pos) == rb + rest);
    assert(buf.skip(pos).len() == buf.len() - pos);
    assert(pos + rb.len() <= buf.len());
    assert(buf.subrange(pos, pos + rb.len()) =~= (rb + rest).take(rb.len() as int));
    assert((rb + rest).take(rb.len() as int) =~= rb);
    assert(buf.skip(pos + rb.len()) =~= (rb + rest).skip(rb.len() as int));
    assert((rb + rest).skip(rb.len() as int) =~= rest);
}

proof fn lemma_records_len(rs: Seq<PkaEventSearchResult>)
    ensures
        records_bytes(rs).len() >= rs.len(),
    decreases rs.len(),
{
    if rs.len() > 0 {
        lemma_records_len(rs.drop_last());
        lemma_result_bytes_len(rs.last());
    }
}

/// Decodes the wire form of a list of event search results. Every encoding
/// decodes, to results with the same values; whatever decodes re-encodes to
/// exactly the bytes it came from.
#[verifier::rlimit(40)]
pub fn decode_event_results(buf: &Vec<u8>) -> (r: Option<Vec<PkaEventSearchResult>>)
    ensures
        r is Some ==> results_bytes(r->0@) == buf@,
        forall|rs: Seq<PkaEventSearchResult>|
            #[trigger] results_bytes(rs) == buf@ ==> r is Some && r->0.len() == rs.len() && forall|k: int|
                0 <= k < rs.len() ==> same_result(#[trigger] r->0[k], rs[k]),
{
    proof {
        lemma_pow256_8();
        assert(buf@.len() <= u64::MAX) by {
            assert(buf@.len() == buf.len());
            assert(buf.len() <= usize::MAX);
        }
        assert forall|rs: Seq<PkaEventSearchResult>| #[trigger] results_bytes(rs) == buf@ implies rs.len()
            < pow256(8) && 8 <= buf@.len() && buf@.subrange(0, 8) == le_bytes(rs.len() as nat, 8) by {
            lemma_records_len(rs);
            lemma_le_bytes_len(rs.len() as nat, 8);
            assert(results_bytes(rs).subrange(0, 8) =~= le_bytes(rs.len() as nat, 8));
        }
    }
    if buf.len() < 8 {
        return None;
    }
    let count = read_le(buf, 0, 8);
    proof {
        lemma_le_value_round_trip(buf@.subrange(0, 8));
        assert forall|rs: Seq<PkaEventSearchResult>| #[trigger] results_bytes(rs) == buf@ implies count == rs.len()
            && buf@.skip(8) == records_bytes(rs.skip(0)) by {
            lemma_le_bytes_round_trip(rs.len() as nat, 8);
            assert(rs.skip(0) =~= rs);
            assert(buf@.skip(8) =~= results_bytes(rs).skip(8));
            assert(results_bytes(rs).skip(8) =~= records_bytes(rs));
        }
    }
    let mut out: Vec<PkaEventSearchResult> = Vec::new();
    let mut pos: usize = 8;
    let mut k: u64 = 0;
    assert(buf@.subrange(0, 8) =~= le_bytes(count as nat, 8) + records_bytes(out@));
    while k < count
        invariant
            8 <= pos <= buf.len(),
            k <= count,
            out.len() == k,
            buf@.subrange(0, pos as int) == le_bytes(count as nat, 8) + records_bytes(out@),
            forall|rs: Seq<PkaEventSearchResult>|
                #[trigger] results_bytes(rs) == buf@ ==> count == rs.len() && buf@.skip(pos as int)
                    == records_bytes(rs.skip(k as int)) && forall|j: int|
                    0 <= j < k ==> same_result(#[trigger] out[j], rs[j]),
        decreases count - k,
    {
        match decode_record(buf, pos) {
            None => {
                proof {
                    assert forall|rs: Seq<PkaEventSearchResult>| #[trigger] results_bytes(rs) != buf@ by {
                        if results_bytes(rs) == buf@ {
                            lemma_decode_step(buf@, pos as int, rs, k as int);
                        }
                    }
                }
                return None;
            },
            Some((rec, next)) => {
                let ghost prev = out@;
                proof {
                    assert forall|rs: Seq<PkaEventSearchResult>| #[trigger] results_bytes(rs) == buf@ implies same_result(
                        rec,
                        rs[k as int],
                    ) && buf@.skip(next as int) == records_bytes(rs.skip(k + 1)) by {
                        lemma_decode_step(buf@, pos as int, rs, k as int);
                    }
                    assert(buf@.subrange(0, next as int) =~= buf@.subrange(0, pos as int) + buf@.subrange(
                        pos as int,
                        next as int,
                    ));
                }
                out.push(rec);
                proof {
                    assert(out@.drop_last() =~= prev);
                    assert(buf@.subrange(0, next as int) =~= le_bytes(count as nat, 8) + records_bytes(out@));
                    assert forall|rs: Seq<PkaEventSearchResult>| #[trigger] results_bytes(rs) == buf@ implies forall|j: int|
                        0 <= j < k + 1 ==> same_result(#[trigger] out[j], rs[j]) by {
                        assert forall|j: int| 0 <= j < k + 1 implies same_result(#[trigger] out[j], rs[j]) by {
                            if j < k {
                                assert(out[j] == prev[j]);
                            }
                        }
                    }
                }
                pos = next;
                k = k + 1;
            },
        }
    }
    if pos != buf.len() {
        proof {
            assert forall|rs: Seq<PkaEventSearchResult>| #[trigger] results_bytes(rs) != buf@ by {
                if results_bytes(rs) == buf@ {
                    assert(rs.skip(k as int) =~= Seq::<PkaEventSearchResult>::empty());
                    assert(buf@.skip(pos as int).len() > 0);
                }
            }
        }
        return None;
    }
    assert(buf@.subrange(0, pos as int) =~= buf@);
    Some(out)
}

/// The fields of the result at `index` of an encoded result list: episode
/// number, offset, description, duration, upload time. `None` when the bytes
/// are no encoding or hold fewer results.
pub fn read_event(buf: &Vec<u8>, index: usize) -> (r: Option<(EpisodeNumber, i32, String, i32, i64)>)
    ensures
        r is Some ==> exists|ds: Seq<PkaEventSearchResult>|
            #[trigger] results_bytes(ds) == buf@ && index < ds.len() && fields_of(ds[index as int], r->0),
        forall|rs: Seq<PkaEventSearchResult>|
            #[trigger] results_bytes(rs) == buf@ && index < rs.len() ==> r is Some && fields_of(
                rs[index as int],
                r->0,
            ),
{
    match decode_event_results(buf) {
        None => None,
        Some(results) => {
            if index >= results.len() {
                return None;
            }
            let e = &results[index];
            let t = (e.episode_number, e.timestamp, e.description.clone(), e.length_seconds, e.upload_date);
            assert(fields_of(results@[index as int], t));
            Some(t)
        },
    }
}

/// `t` holds the values of `r`.
pub open spec fn fields_of(r: PkaEventSearchResult, t: (EpisodeNumber, i32, String, i32, i64)) -> bool {
    &&& t.0 == r.episode_number
    &&& t.1 == r.timestamp
    &&& t.2@ == r.description@
    &&& t.3 == r.length_seconds
    &&& t.4 == r.upload_date
}

} // verus!
