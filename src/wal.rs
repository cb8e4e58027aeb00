//! The write-ahead log: checksummed entries framed by a magic number and a
//! length, a write buffer that asks to be flushed past a threshold, and the
//! replay that keeps every intact entry and skips damaged ones.
use crate::bytes::{le_bytes, le_value, pow256, push_le, read_le};
use crate::codec::{
    at, lemma_le_bytes_len, op_bytes, push_operation, read_operation, OperationModel, WALOperation,
};
use crate::types::VectorId;
use vstd::prelude::*;

verus! {

/// Marks the start of every frame.
pub const WAL_ENTRY_MAGIC: u32 = 0xDEADBEEF;

/// Frames announcing more bytes than this are skipped.
pub const MAX_ENTRY_LEN: u32 = 104857600;

/// The buffer is written out once it holds more than this many bytes.
pub const FLUSH_THRESHOLD: usize = 262144;

/// The CRC-32 of a byte string.
pub uninterp spec fn crc32_of(data: Seq<u8>) -> u32;

/// Relies on `crc32fast::hash`: the CRC-32 of the bytes, which depends on
/// the bytes alone.
#[verifier::external_body]
fn crc32(data: &[u8]) -> (r: u32)
    ensures
        r == crc32_of(data@),
{
    crc32fast::hash(data)
}

/// A log entry: a fresh id, the time in unix seconds, the checksum of the
/// operation's bytes, and the operation.
pub struct EntryModel {
    pub id: u128,
    pub timestamp: u64,
    pub checksum: u32,
    pub operation: OperationModel,
}

/// An entry: id (16 bytes), time (8), checksum (4), then the operation.
pub open spec fn entry_bytes(e: EntryModel) -> Seq<u8> {
    le_bytes(e.id as nat, 16) + le_bytes(e.timestamp as nat, 8) + le_bytes(e.checksum as nat, 4)
        + op_bytes(e.operation)
}

/// The entry logged for `op`: its checksum is the CRC-32 of the operation's bytes.
pub open spec fn entry_for(id: u128, timestamp: u64, op: OperationModel) -> EntryModel {
    EntryModel { id, timestamp, checksum: crc32_of(op_bytes(op)), operation: op }
}

/// A frame: magic, payload length (4 bytes each, little-endian), payload.
pub open spec fn frame_bytes(payload: Seq<u8>) -> Seq<u8> {
    le_bytes(WAL_ENTRY_MAGIC as nat, 4) + le_bytes(payload.len(), 4) + payload
}

/// `p` is the bytes of an entry whose checksum matches its operation.
pub open spec fn is_intact_entry(p: Seq<u8>) -> bool {
    exists|e: EntryModel| #[trigger] entry_bytes(e) == p && e.checksum == crc32_of(op_bytes(e.operation))
}

/// The operation of an intact entry.
pub open spec fn entry_operation(p: Seq<u8>) -> OperationModel {
    (choose|e: EntryModel| #[trigger] entry_bytes(e) == p && e.checksum == crc32_of(op_bytes(e.operation))).operation
}

/// The operations that replaying the log bytes `b` from `pos` recovers.
/// A bad magic skips its 4 bytes; an oversized length skips the 8 header
/// bytes; a frame whose payload is no intact entry is skipped whole; a
/// frame cut short ends the replay.
pub open spec fn replay_from(b: Seq<u8>, pos: int) -> Seq<OperationModel>
    decreases b.len() - pos,
{
    if pos < 0 || pos + 4 > b.len() {
        Seq::empty()
    } else if le_value(b.subrange(pos, pos + 4)) != WAL_ENTRY_MAGIC {
        replay_from(b, pos + 4)
    } else if pos + 8 > b.len() {
        Seq::empty()
    } else {
        let len = le_value(b.subrange(pos + 4, pos + 8)) as int;
        if len > MAX_ENTRY_LEN {
            replay_from(b, pos + 8)
        } else if pos + 8 + len > b.len() {
            Seq::empty()
        } else {
            let payload = b.subrange(pos + 8, pos + 8 + len);
            if is_intact_entry(payload) {
                seq![entry_operation(payload)] + replay_from(b, pos + 8 + len)
            } else {
                replay_from(b, pos + 8 + len)
            }
        }
    }
}

/// Appends the encoding of `op`'s entry.
pub fn encode_entry(id: VectorId, timestamp: u64, op: &WALOperation) -> (r: Vec<u8>)
    ensures
        r@ == entry_bytes(entry_for(id, timestamp, op@)),
{
    let mut ob: Vec<u8> = Vec::new();
    push_operation(&mut ob, op);
    assert(ob@ =~= op_bytes(op@));
    let checksum = crc32(ob.as_slice());
    let mut out: Vec<u8> = Vec::new();
    proof {
        crate::bytes::lemma_pow256_values();
    }
    push_le(&mut out, id, 16);
    push_le(&mut out, timestamp as u128, 8);
    push_le(&mut out, checksum as u128, 4);
    let ghost head = out@;
    let mut i: usize = 0;
    while i < ob.len()
        invariant
            i <= ob@.len(),
            out@ == head + ob@.take(i as int),
        decreases ob@.len() - i,
    {
        out.push(ob[i]);
        i = i + 1;
        assert(out@ =~= head + ob@.take(i as int));
    }
    assert(ob@.take(ob@.len() as int) =~= ob@);
    out
}

/// Appends the frame of `payload` to `buffer`.
pub fn push_frame(buffer: &mut Vec<u8>, payload: &Vec<u8>)
    requires
        payload@.len() < 0x1_0000_0000,
    ensures
        final(buffer)@ == old(buffer)@ + frame_bytes(payload@),
{
    proof {
        crate::bytes::lemma_pow256_values();
    }
    push_le(buffer, WAL_ENTRY_MAGIC as u128, 4);
    push_le(buffer, payload.len() as u128, 4);
    let ghost head = buffer@;
    let mut i: usize = 0;
    while i < payload.len()
        invariant
            i <= payload@.len(),
            buffer@ == head + payload@.take(i as int),
        decreases payload@.len() - i,
    {
        buffer.push(payload[i]);
        i = i + 1;
        assert(buffer@ =~= head + payload@.take(i as int));
    }
    assert(payload@.take(payload@.len() as int) =~= payload@);
    assert(buffer@ =~= old(buffer)@ + frame_bytes(payload@));
}

/// Buffers the entry of `op`, with the id and time the caller drew, and
/// says whether the buffer must now be written out. An entry too long to
/// frame is refused with `Serialization`, and the buffer is left as it was.
pub fn buffer_append(buffer: &mut Vec<u8>, id: VectorId, timestamp: u64, op: &WALOperation) -> (r:
    Result<bool, crate::types::VectorDbError>)
    ensures
        match r {
            Ok(flush) => {
                &&& entry_bytes(entry_for(id, timestamp, op@)).len() < 0x1_0000_0000
                &&& final(buffer)@ == old(buffer)@ + frame_bytes(
                    entry_bytes(entry_for(id, timestamp, op@)),
                )
                &&& flush == (final(buffer)@.len() > FLUSH_THRESHOLD)
            },
            Err(e) => {
                &&& entry_bytes(entry_for(id, timestamp, op@)).len() >= 0x1_0000_0000
                &&& final(buffer)@ == old(buffer)@
                &&& e is Serialization
            },
        },
{
    let entry = encode_entry(id, timestamp, op);
    if entry.len() as u64 >= 0x1_0000_0000u64 {
        return Err(
            crate::types::VectorDbError::Serialization {
                message: String::from_str("log entry too long"),
            },
        );
    }
    push_frame(buffer, &entry);
    Ok(buffer.len() > FLUSH_THRESHOLD)
}


/// Reads an entry that fills `p` exactly.
fn read_entry(p: &Vec<u8>) -> (r: Option<(u128, u64, u32, WALOperation)>)
    ensures
        r matches Some((id, ts, c, op)) ==> entry_bytes(
            EntryModel { id, timestamp: ts, checksum: c, operation: op@ },
        ) == p@,
        forall|e: EntryModel| #[trigger] entry_bytes(e) == p@ ==> (r matches Some((id, ts, c, op))
            && id == e.id && ts == e.timestamp && c == e.checksum && op@ == e.operation),
{
    proof {
        crate::bytes::lemma_pow256_values();
        assert forall|e: EntryModel| #[trigger] entry_bytes(e) == p@ implies {
            &&& p@.len() >= 28
            &&& le_value(p@.subrange(0, 16)) == e.id
            &&& le_value(p@.subrange(16, 24)) == e.timestamp
            &&& le_value(p@.subrange(24, 28)) == e.checksum
            &&& at(p@, 28, op_bytes(e.operation))
            &&& p@.len() == 28 + op_bytes(e.operation).len()
        } by {
            let e1 = le_bytes(e.id as nat, 16);
            let e2 = le_bytes(e.timestamp as nat, 8);
            let e3 = le_bytes(e.checksum as nat, 4);
            crate::bytes::lemma_le_round_trip(e.id as nat, 16);
            crate::bytes::lemma_le_round_trip(e.timestamp as nat, 8);
            crate::bytes::lemma_le_round_trip(e.checksum as nat, 4);
            assert(p@.subrange(0, 16) =~= e1);
            assert(p@.subrange(16, 24) =~= e2);
            assert(p@.subrange(24, 28) =~= e3);
            assert(p@.subrange(28, p@.len() as int) =~= op_bytes(e.operation));
        }
    }
    if p.len() < 28 {
        return None;
    }
    let id = read_le(p, 0, 16);
    let ts = read_le(p, 16, 8);
    let c = read_le(p, 24, 4);
    proof {
        crate::bytes::lemma_le_value_bound(p@.subrange(16, 24));
        crate::bytes::lemma_le_value_bound(p@.subrange(24, 28));
    }
    match read_operation(p, 28) {
        Some((op, end)) => {
            if end != p.len() {
                return None;
            }
            let ghost e = EntryModel { id: id as u128, timestamp: ts as u64, checksum: c as u32, operation: op@ };
            proof {
                crate::bytes::lemma_le_bytes_of_value(p@.subrange(0, 16));
                crate::bytes::lemma_le_bytes_of_value(p@.subrange(16, 24));
                crate::bytes::lemma_le_bytes_of_value(p@.subrange(24, 28));
                assert(entry_bytes(e) =~= p@.subrange(0, 16) + p@.subrange(16, 24) + p@.subrange(
                    24,
                    28,
                ) + p@.subrange(28, p@.len() as int));
                assert(entry_bytes(e) =~= p@);
            }
            Some((id as u128, ts as u64, c as u32, op))
        },
        None => None,
    }
}

/// Copies `b[start..end]`.
fn copy_range(b: &Vec<u8>, start: usize, end: usize) -> (r: Vec<u8>)
    requires
        start <= end <= b@.len(),
    ensures
        r@ == b@.subrange(start as int, end as int),
{
    let mut out: Vec<u8> = Vec::new();
    let mut i: usize = start;
    while i < end
        invariant
            start <= i <= end,
            end <= b@.len(),
            out@ == b@.subrange(start as int, i as int),
        decreases end - i,
    {
        out.push(b[i]);
        i = i + 1;
        assert(out@ =~= b@.subrange(start as int, i as int));
    }
    out
}

/// The operation of a payload that is exactly one entry whose recorded
/// checksum equals `op_crc`, the checksum of the payload's operation bytes.
pub fn check_entry_with(payload: &Vec<u8>, op_crc: u32) -> (r: Option<WALOperation>)
    ensures
        r is Some <==> exists|e: EntryModel| #[trigger] entry_bytes(e) == payload@ && e.checksum == op_crc,
        r matches Some(op) ==> exists|e: EntryModel| #[trigger] entry_bytes(e) == payload@ && e.checksum == op_crc
            && e.operation == op@,
{
    match read_entry(payload) {
        Some((id, ts, c, op)) => {
            let ghost e = EntryModel { id, timestamp: ts, checksum: c, operation: op@ };
            if c == op_crc {
                assert(entry_bytes(e) == payload@);
                Some(op)
            } else {
                proof {
                    assert forall|w: EntryModel| !(#[trigger] entry_bytes(w) == payload@ && w.checksum == op_crc) by {}
                }
                None
            }
        },
        None => {
            proof {
                assert forall|w: EntryModel| !(#[trigger] entry_bytes(w) == payload@ && w.checksum == op_crc) by {}
            }
            None
        },
    }
}

/// The payload's operation if it is an intact entry.
pub fn check_entry(payload: &Vec<u8>) -> (r: Option<WALOperation>)
    ensures
        r is Some == is_intact_entry(payload@),
        r matches Some(op) ==> op@ == entry_operation(payload@),
{
    proof {
        crate::bytes::lemma_pow256_values();
        assert forall|w: EntryModel| #[trigger] entry_bytes(w) == payload@ implies payload@.len() >= 28
            && payload@.subrange(28, payload@.len() as int) == op_bytes(w.operation) by {
            lemma_le_bytes_len(w.id as nat, 16);
            lemma_le_bytes_len(w.timestamp as nat, 8);
            lemma_le_bytes_len(w.checksum as nat, 4);
            assert(payload@.subrange(28, payload@.len() as int) =~= op_bytes(w.operation));
        }
    }
    if payload.len() < 28 {
        return None;
    }
    let ob = copy_range(payload, 28, payload.len());
    let actual = crc32(ob.as_slice());
    let r = check_entry_with(payload, actual);
    proof {
        assert forall|w: EntryModel| #[trigger] entry_bytes(w) == payload@ implies (w.checksum == actual <==> w.checksum
            == crc32_of(op_bytes(w.operation))) by {}
        if r is Some {
            let e = choose|e: EntryModel| #[trigger] entry_bytes(e) == payload@ && e.checksum == actual && e.operation == r->0@;
            assert(is_intact_entry(payload@));
            let w = choose|w: EntryModel| #[trigger] entry_bytes(w) == payload@ && w.checksum == crc32_of(op_bytes(w.operation));
            lemma_entry_injective(e, w);
        } else {
            assert forall|w: EntryModel| !(#[trigger] entry_bytes(w) == payload@ && w.checksum == crc32_of(op_bytes(w.operation))) by {}
        }
    }
    r
}

pub open spec fn ops_view(v: Seq<WALOperation>) -> Seq<OperationModel> {
    Seq::new(v.len(), |i: int| v[i]@)
}

/// Replays log bytes: the operations of every intact entry, in file order.
pub fn replay(b: &Vec<u8>) -> (r: Vec<WALOperation>)
    ensures
        ops_view(r@) == replay_from(b@, 0),
{
    let len = b.len();
    let mut out: Vec<WALOperation> = Vec::new();
    let mut pos: usize = 0;
    assert(ops_view(out@) + replay_from(b@, 0) =~= replay_from(b@, 0));
    while pos <= len && len - pos >= 4
        invariant
            len == b@.len(),
            pos <= len,
            ops_view(out@) + replay_from(b@, pos as int) == replay_from(b@, 0),
        decreases len - pos,
    {
        let magic = read_le(b, pos, 4);
        if magic != WAL_ENTRY_MAGIC as u128 {
            pos = pos + 4;
            continue;
        }
        if len - pos < 8 {
            assert(replay_from(b@, pos as int) =~= Seq::<OperationModel>::empty());
            assert(replay_from(b@, len as int) =~= Seq::<OperationModel>::empty());
            pos = len;
            continue;
        }
        let n = read_le(b, pos + 4, 4);
        if n > MAX_ENTRY_LEN as u128 {
            pos = pos + 8;
            continue;
        }
        let n = n as usize;
        if len - pos - 8 < n {
            assert(replay_from(b@, pos as int) =~= Seq::<OperationModel>::empty());
            assert(replay_from(b@, len as int) =~= Seq::<OperationModel>::empty());
            pos = len;
            continue;
        }
        let payload = copy_range(b, pos + 8, pos + 8 + n);
        let ghost rest = replay_from(b@, pos + 8 + n);
        match check_entry(&payload) {
            Some(op) => {
                let ghost before = ops_view(out@);
                out.push(op);
                proof {
                    assert(ops_view(out@) =~= before.push(op@));
                    assert(before.push(op@) + rest =~= before + (seq![op@] + rest));
                }
            },
            None => {},
        }
        pos = pos + 8 + n;
    }
    proof {
        if !(pos <= len && len - pos >= 4) {
            assert(replay_from(b@, pos as int) =~= Seq::<OperationModel>::empty());
            assert(ops_view(out@) + Seq::<OperationModel>::empty() =~= ops_view(out@));
        }
    }
    out
}

/// A frame that announces more than `MAX_ENTRY_LEN` bytes is skipped: the
/// replay goes on right after its magic and length.
pub proof fn law_oversized_frame_skipped(b: Seq<u8>, pos: int)
    requires
        0 <= pos,
        pos + 8 <= b.len(),
        le_value(b.subrange(pos, pos + 4)) == WAL_ENTRY_MAGIC,
        le_value(b.subrange(pos + 4, pos + 8)) > MAX_ENTRY_LEN,
    ensures
        replay_from(b, pos) == replay_from(b, pos + 8),
{
}

/// Replay keeps the operation of every intact frame and reads on after it.
pub proof fn law_intact_frame_kept(b: Seq<u8>, pos: int, payload: Seq<u8>)
    requires
        0 <= pos,
        pos + 8 + payload.len() <= b.len(),
        payload.len() <= MAX_ENTRY_LEN,
        b.subrange(pos, pos + 8 + payload.len()) == frame_bytes(payload),
        is_intact_entry(payload),
    ensures
        replay_from(b, pos) == seq![entry_operation(payload)] + replay_from(b, pos + 8 + payload.len()),
{
    crate::bytes::lemma_pow256_values();
    lemma_le_bytes_len(WAL_ENTRY_MAGIC as nat, 4);
    crate::bytes::lemma_le_round_trip(WAL_ENTRY_MAGIC as nat, 4);
    crate::bytes::lemma_le_round_trip(payload.len(), 4);
    let f = frame_bytes(payload);
    assert(b.subrange(pos, pos + 4) =~= f.subrange(0, 4));
    assert(f.subrange(0, 4) =~= le_bytes(WAL_ENTRY_MAGIC as nat, 4));
    assert(b.subrange(pos + 4, pos + 8) =~= f.subrange(4, 8));
    assert(f.subrange(4, 8) =~= le_bytes(payload.len(), 4));
    assert(b.subrange(pos + 8, pos + 8 + payload.len()) =~= f.subrange(8, f.len() as int));
    assert(f.subrange(8, f.len() as int) =~= payload);
}

/// A logged entry reads back as intact, with its own operation, on every
/// entry whose bytes fit in memory; and no other entry has the same bytes.
pub proof fn law_entry_round_trip(id: u128, timestamp: u64, op: OperationModel, other: EntryModel)
    requires
        entry_bytes(entry_for(id, timestamp, op)).len() <= usize::MAX,
    ensures
        is_intact_entry(entry_bytes(entry_for(id, timestamp, op))),
        entry_operation(entry_bytes(entry_for(id, timestamp, op))) == op,
        entry_bytes(other) == entry_bytes(entry_for(id, timestamp, op)) ==> other == entry_for(id, timestamp, op),
{
    let e = entry_for(id, timestamp, op);
    let b = entry_bytes(e);
    assert(is_intact_entry(b));
    let w = choose|w: EntryModel| #[trigger] entry_bytes(w) == b && w.checksum == crc32_of(op_bytes(w.operation));
    lemma_entry_injective(e, w);
    lemma_entry_injective(e, other);
}

proof fn lemma_entry_injective(e: EntryModel, w: EntryModel)
    requires
        entry_bytes(e).len() <= usize::MAX,
    ensures
        entry_bytes(w) == entry_bytes(e) ==> w == e,
{
    if entry_bytes(w) == entry_bytes(e) {
        let b = entry_bytes(e);
        crate::bytes::lemma_pow256_values();
        crate::bytes::lemma_le_round_trip(e.id as nat, 16);
        crate::bytes::lemma_le_round_trip(e.timestamp as nat, 8);
        crate::bytes::lemma_le_round_trip(e.checksum as nat, 4);
        crate::bytes::lemma_le_round_trip(w.id as nat, 16);
        crate::bytes::lemma_le_round_trip(w.timestamp as nat, 8);
        crate::bytes::lemma_le_round_trip(w.checksum as nat, 4);
        assert(b.subrange(0, 16) =~= le_bytes(e.id as nat, 16));
        assert(b.subrange(0, 16) =~= le_bytes(w.id as nat, 16));
        assert(b.subrange(16, 24) =~= le_bytes(e.timestamp as nat, 8));
        assert(b.subrange(16, 24) =~= le_bytes(w.timestamp as nat, 8));
        assert(b.subrange(24, 28) =~= le_bytes(e.checksum as nat, 4));
        assert(b.subrange(24, 28) =~= le_bytes(w.checksum as nat, 4));
        assert(b.subrange(28, b.len() as int) =~= op_bytes(e.operation));
        assert(b.subrange(28, b.len() as int) =~= op_bytes(w.operation));
        crate::codec::lemma_op_prefix_free(b, 28, e.operation, w.operation);
    }
}

/// The bytes of a log holding the frames of `es`, in order.
pub open spec fn log_bytes(es: Seq<EntryModel>) -> Seq<u8>
    decreases es.len(),
{
    if es.len() == 0 {
        Seq::empty()
    } else {
        frame_bytes(entry_bytes(es[0])) + log_bytes(es.skip(1))
    }
}

/// The operations of `es`, in order.
pub open spec fn operations_of(es: Seq<EntryModel>) -> Seq<OperationModel> {
    Seq::new(es.len(), |i: int| es[i].operation)
}

/// Replay reads a suffix the same wherever it starts.
proof fn lemma_replay_shift(p: Seq<u8>, q: Seq<u8>, i: int)
    requires
        0 <= i,
    ensures
        replay_from(p + q, p.len() + i) == replay_from(q, i),
    decreases q.len() - i,
{
    let b = p + q;
    let o = p.len() as int;
    if i + 4 <= q.len() {
        assert(b.subrange(o + i, o + i + 4) =~= q.subrange(i, i + 4));
        if i + 8 <= q.len() {
            assert(b.subrange(o + i + 4, o + i + 8) =~= q.subrange(i + 4, i + 8));
            let len = le_value(q.subrange(i + 4, i + 8)) as int;
            if i + 8 + len <= q.len() {
                assert(b.subrange(o + i + 8, o + i + 8 + len) =~= q.subrange(i + 8, i + 8 + len));
                lemma_replay_shift(p, q, i + 8 + len);
            }
            lemma_replay_shift(p, q, i + 8);
        }
        lemma_replay_shift(p, q, i + 4);
    }
}

/// Replaying a log of intact entries followed by other bytes gives the
/// entries' operations in order, then whatever the other bytes give. With
/// no other bytes, a log written entry by entry reads back as the
/// operations written; when the other bytes begin with an oversized frame,
/// the entries before it are still all read.
pub proof fn law_log_prefix(es: Seq<EntryModel>, tail: Seq<u8>)
    requires
        forall|i: int| 0 <= i < es.len() ==> (#[trigger] es[i]).checksum == crc32_of(op_bytes(es[i].operation)),
        forall|i: int| 0 <= i < es.len() ==> entry_bytes(#[trigger] es[i]).len() <= MAX_ENTRY_LEN,
    ensures
        replay_from(log_bytes(es) + tail, 0) == operations_of(es) + replay_from(tail, 0),
    decreases es.len(),
{
    if es.len() == 0 {
        assert(log_bytes(es) + tail =~= tail);
        assert(operations_of(es) + replay_from(tail, 0) =~= replay_from(tail, 0));
    } else {
        let e = es[0];
        let rest = es.skip(1);
        assert forall|i: int| 0 <= i < rest.len() implies (#[trigger] rest[i]).checksum == crc32_of(op_bytes(rest[i].operation))
            && entry_bytes(rest[i]).len() <= MAX_ENTRY_LEN by {
            assert(rest[i] == es[i + 1]);
        }
        law_log_prefix(rest, tail);
        let payload = entry_bytes(e);
        let f = frame_bytes(payload);
        let b = log_bytes(es) + tail;
        assert(b =~= f + (log_bytes(rest) + tail));
        crate::bytes::lemma_pow256_values();
        lemma_le_bytes_len(WAL_ENTRY_MAGIC as nat, 4);
        lemma_le_bytes_len(payload.len(), 4);
        assert(f.len() == 8 + payload.len());
        assert(b.subrange(0, 8 + payload.len() as int) =~= f);
        assert(e == entry_for(e.id, e.timestamp, e.operation));
        law_entry_round_trip(e.id, e.timestamp, e.operation, e);
        law_intact_frame_kept(b, 0, payload);
        lemma_replay_shift(f, log_bytes(rest) + tail, 0);
        assert(operations_of(es) =~= seq![e.operation] + operations_of(rest));
        assert(seq![e.operation] + (operations_of(rest) + replay_from(tail, 0)) =~= operations_of(es) + replay_from(tail, 0));
    }
}

/// Intact frames followed by a frame announcing more than `MAX_ENTRY_LEN`
/// bytes: replay keeps the frames' operations, skips the oversized header,
/// and reads on right after it.
pub proof fn law_oversized_after_frames(es: Seq<EntryModel>, len: u32, rest: Seq<u8>)
    requires
        forall|i: int| 0 <= i < es.len() ==> (#[trigger] es[i]).checksum == crc32_of(op_bytes(es[i].operation)),
        forall|i: int| 0 <= i < es.len() ==> entry_bytes(#[trigger] es[i]).len() <= MAX_ENTRY_LEN,
        len > MAX_ENTRY_LEN,
    ensures
        replay_from(log_bytes(es) + (le_bytes(WAL_ENTRY_MAGIC as nat, 4) + le_bytes(len as nat, 4) + rest), 0)
            == operations_of(es) + replay_from(rest, 0),
{
    let head = le_bytes(WAL_ENTRY_MAGIC as nat, 4) + le_bytes(len as nat, 4);
    let tail = head + rest;
    law_log_prefix(es, tail);
    crate::bytes::lemma_pow256_values();
    crate::bytes::lemma_le_round_trip(WAL_ENTRY_MAGIC as nat, 4);
    crate::bytes::lemma_le_round_trip(len as nat, 4);
    assert(tail.subrange(0, 4) =~= le_bytes(WAL_ENTRY_MAGIC as nat, 4));
    assert(tail.subrange(4, 8) =~= le_bytes(len as nat, 4));
    law_oversized_frame_skipped(tail, 0);
    lemma_replay_shift(head, rest, 0);
}
} // verus!
