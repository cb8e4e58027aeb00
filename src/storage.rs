//! The per-collection vectors file: length-prefixed records appended one
//! after another, read back in order.
use crate::bytes::{le_bytes, le_value, push_le, read_le};
use crate::codec::{push_vector, read_vector, vector_bytes, vectors_view, Vector, VectorModel};
use crate::types::VectorDbError;
use vstd::prelude::*;

verus! {

/// A record: its payload length (4 bytes, little-endian), then the payload.
pub open spec fn record_frame(payload: Seq<u8>) -> Seq<u8> {
    le_bytes(payload.len(), 4) + payload
}

/// The payloads of the records in `b` from `pos`, or `None` when the bytes
/// end in the middle of a record.
pub open spec fn records_from(b: Seq<u8>, pos: int) -> Option<Seq<Seq<u8>>>
    decreases b.len() - pos,
{
    if pos < 0 || pos >= b.len() {
        Some(Seq::empty())
    } else if pos + 4 > b.len() {
        None
    } else {
        let n = le_value(b.subrange(pos, pos + 4)) as int;
        if pos + 4 + n > b.len() {
            None
        } else {
            match records_from(b, pos + 4 + n) {
                Some(rest) => Some(seq![b.subrange(pos + 4, pos + 4 + n)] + rest),
                None => None,
            }
        }
    }
}

/// The records of the vectors `vs`, one after another.
pub open spec fn vector_records(vs: Seq<VectorModel>) -> Seq<u8>
    decreases vs.len(),
{
    if vs.len() == 0 {
        Seq::empty()
    } else {
        vector_records(vs.drop_last()) + record_frame(vector_bytes(vs.last()))
    }
}

/// `p` is exactly the record of some vector.
pub open spec fn is_vector_payload(p: Seq<u8>) -> bool {
    exists|m: VectorModel| #[trigger] vector_bytes(m) == p
}

pub open spec fn payload_vector(p: Seq<u8>) -> VectorModel {
    choose|m: VectorModel| #[trigger] vector_bytes(m) == p
}

/// The vectors of the payloads that hold one; the others are passed over.
pub open spec fn decodable_vectors(ps: Seq<Seq<u8>>) -> Seq<VectorModel>
    decreases ps.len(),
{
    if ps.len() == 0 {
        Seq::empty()
    } else if is_vector_payload(ps.last()) {
        decodable_vectors(ps.drop_last()).push(payload_vector(ps.last()))
    } else {
        decodable_vectors(ps.drop_last())
    }
}

/// Appends the record of `v` to `out`.
pub fn push_vector_record(out: &mut Vec<u8>, v: &Vector) -> (r: bool)
    ensures
        r == (vector_bytes(v@).len() < 0x1_0000_0000),
        r ==> final(out)@ == old(out)@ + record_frame(vector_bytes(v@)),
        !r ==> final(out)@ == old(out)@,
{
    let mut payload: Vec<u8> = Vec::new();
    push_vector(&mut payload, v);
    assert(payload@ =~= vector_bytes(v@));
    if payload.len() as u64 >= 0x1_0000_0000u64 {
        return false;
    }
    proof {
        crate::bytes::lemma_pow256_values();
    }
    push_le(out, payload.len() as u128, 4);
    let ghost head = out@;
    let mut i: usize = 0;
    while i < payload.len()
        invariant
            i <= payload@.len(),
            out@ == head + payload@.take(i as int),
        decreases payload@.len() - i,
    {
        out.push(payload[i]);
        i = i + 1;
        assert(out@ =~= head + payload@.take(i as int));
    }
    assert(payload@.take(payload@.len() as int) =~= payload@);
    assert(out@ =~= old(out)@ + record_frame(vector_bytes(v@)));
    true
}

/// The bytes appended to a collection's vectors file for `vectors`: every
/// vector is checked against the dimension first, and the first that
/// differs is refused with `InvalidDimension`; no vectors append nothing.
pub fn encode_batch(vectors: &Vec<Vector>, dimension: usize) -> (r: Result<Vec<u8>, VectorDbError>)
    ensures
        match r {
            Ok(bytes) => {
                &&& forall|i: int| 0 <= i < vectors@.len() ==> (#[trigger] vectors@[i]).data@.len() == dimension
                &&& forall|i: int| 0 <= i < vectors@.len() ==> vector_bytes((#[trigger] vectors@[i])@).len() < 0x1_0000_0000
                &&& bytes@ == vector_records(vectors_view(vectors@))
            },
            Err(VectorDbError::InvalidDimension { expected, actual }) => {
                &&& expected == dimension
                &&& exists|i: int|
                    0 <= i < vectors@.len() && (#[trigger] vectors@[i]).data@.len() == actual && actual != dimension
                    && forall|j: int| 0 <= j < i ==> (#[trigger] vectors@[j]).data@.len() == dimension
            },
            Err(VectorDbError::Serialization { .. }) => {
                &&& forall|i: int| 0 <= i < vectors@.len() ==> (#[trigger] vectors@[i]).data@.len() == dimension
                &&& exists|i: int| 0 <= i < vectors@.len() && vector_bytes((#[trigger] vectors@[i])@).len() >= 0x1_0000_0000
            },
            Err(_) => false,
        },
{
    let mut i: usize = 0;
    while i < vectors.len()
        invariant
            i <= vectors@.len(),
            forall|j: int| 0 <= j < i ==> (#[trigger] vectors@[j]).data@.len() == dimension,
        decreases vectors@.len() - i,
    {
        if vectors[i].data.len() != dimension {
            return Err(
                VectorDbError::InvalidDimension { expected: dimension, actual: vectors[i].data.len() },
            );
        }
        i = i + 1;
    }
    let mut out: Vec<u8> = Vec::new();
    let mut k: usize = 0;
    assert(vectors_view(vectors@).take(0) =~= Seq::<VectorModel>::empty());
    while k < vectors.len()
        invariant
            k <= vectors@.len(),
            forall|j: int| 0 <= j < vectors@.len() ==> (#[trigger] vectors@[j]).data@.len() == dimension,
            forall|j: int| 0 <= j < k ==> vector_bytes((#[trigger] vectors@[j])@).len() < 0x1_0000_0000,
            out@ == vector_records(vectors_view(vectors@).take(k as int)),
        decreases vectors@.len() - k,
    {
        if !push_vector_record(&mut out, &vectors[k]) {
            assert(vector_bytes(vectors@[k as int]@).len() >= 0x1_0000_0000);
            return Err(VectorDbError::Serialization { message: String::from_str("vector record too long") });
        }
        proof {
            let vv = vectors_view(vectors@);
            assert(vv.take(k + 1).drop_last() =~= vv.take(k as int));
            assert(vv.take(k + 1).last() == vectors@[k as int]@);
        }
        k = k + 1;
    }
    assert(vectors_view(vectors@).take(vectors@.len() as int) =~= vectors_view(vectors@));
    Ok(out)
}


pub open spec fn payloads_view(v: Seq<Vec<u8>>) -> Seq<Seq<u8>> {
    Seq::new(v.len(), |i: int| v[i]@)
}

/// Copies `b[start..end]`.
fn copy_range(b: &Vec<u8>, start: usize, end: usize) -> (r: Vec<u8>)
    requires
        start <= end <= b@.len(),
    ensures
        r@ == b@.subrange(start as int, end as int),
{
    let mut out: Vec<u8> = Vec::new();
    let mut i: usize = start;
    while i < end
        invariant
            start <= i <= end,
            end <= b@.len(),
            out@ == b@.subrange(start as int, i as int),
        decreases end - i,
    {
        out.push(b[i]);
        i = i + 1;
        assert(out@ =~= b@.subrange(start as int, i as int));
    }
    out
}

/// The payloads of the records of a file's bytes, in order; a file that
/// ends inside a record is refused with `StorageError`.
pub fn split_records(b: &Vec<u8>) -> (r: Result<Vec<Vec<u8>>, VectorDbError>)
    ensures
        match r {
            Ok(ps) => records_from(b@, 0) == Some(payloads_view(ps@)),
            Err(e) => records_from(b@, 0) is None && e is StorageError,
        },
{
    let len = b.len();
    let mut out: Vec<Vec<u8>> = Vec::new();
    let mut pos: usize = 0;
    let ghost empty = Seq::<Seq<u8>>::empty();
    assert(payloads_view(out@) =~= empty);
    while pos < len
        invariant
            len == b@.len(),
            pos <= len,
            records_from(b@, 0) == match records_from(b@, pos as int) {
                Some(rest) => Some(payloads_view(out@) + rest),
                None => None::<Seq<Seq<u8>>>,
            },
        decreases len - pos,
    {
        if len - pos < 4 {
            return Err(VectorDbError::StorageError { message: String::from_str("record header cut short") });
        }
        let raw = read_le(b, pos, 4);
        proof {
            crate::bytes::lemma_le_value_bound(b@.subrange(pos as int, pos + 4));
            crate::bytes::lemma_pow256_values();
        }
        let n = raw as usize;
        if len - pos - 4 < n {
            return Err(VectorDbError::StorageError { message: String::from_str("record payload cut short") });
        }
        let payload = copy_range(b, pos + 4, pos + 4 + n);
        let ghost before = payloads_view(out@);
        out.push(payload);
        proof {
            assert(payloads_view(out@) =~= before.push(b@.subrange(pos + 4, pos + 4 + n)));
            match records_from(b@, pos + 4 + n) {
                Some(rest) => {
                    assert(before + (seq![b@.subrange(pos + 4, pos + 4 + n)] + rest) =~= before.push(
                        b@.subrange(pos + 4, pos + 4 + n),
                    ) + rest);
                },
                None => {},
            }
        }
        pos = pos + 4 + n;
    }
    assert(payloads_view(out@) + Seq::<Seq<u8>>::empty() =~= payloads_view(out@));
    Ok(out)
}

/// The vector a payload holds, if it holds exactly one.
pub fn decode_vector(p: &Vec<u8>) -> (r: Option<Vector>)
    ensures
        r is Some == is_vector_payload(p@),
        r matches Some(v) ==> v@ == payload_vector(p@),
{
    proof {
        assert forall|m: VectorModel| #[trigger] vector_bytes(m) == p@ implies crate::codec::at(p@, 0, vector_bytes(m)) by {
            assert(p@.subrange(0, p@.len() as int) =~= p@);
        }
    }
    match read_vector(p, 0) {
        Some((v, end)) => {
            if end == p.len() {
                proof {
                    assert(vector_bytes(v@) =~= p@.subrange(0, end as int));
                    assert(vector_bytes(v@) == p@);
                    let w = payload_vector(p@);
                    assert(crate::codec::at(p@, 0, vector_bytes(w)));
                }
                Some(v)
            } else {
                None
            }
        },
        None => None,
    }
}

/// The vectors of the payloads that decode, in order; the others are
/// passed over.
pub fn decode_payloads(ps: &Vec<Vec<u8>>) -> (r: Vec<Vector>)
    ensures
        vectors_view(r@) == decodable_vectors(payloads_view(ps@)),
{
    let mut out: Vec<Vector> = Vec::new();
    let mut i: usize = 0;
    assert(payloads_view(ps@).take(0) =~= Seq::<Seq<u8>>::empty());
    assert(vectors_view(out@) =~= Seq::<VectorModel>::empty());
    while i < ps.len()
        invariant
            i <= ps@.len(),
            vectors_view(out@) == decodable_vectors(payloads_view(ps@).take(i as int)),
        decreases ps@.len() - i,
    {
        let ghost t = payloads_view(ps@).take(i + 1);
        proof {
            assert(t.drop_last() =~= payloads_view(ps@).take(i as int));
            assert(t.last() == ps@[i as int]@);
        }
        match decode_vector(&ps[i]) {
            Some(v) => {
                let ghost before = vectors_view(out@);
                let ghost vm = v@;
                out.push(v);
                assert(vectors_view(out@) =~= before.push(vm));
            },
            None => {},
        }
        i = i + 1;
    }
    assert(payloads_view(ps@).take(ps@.len() as int) =~= payloads_view(ps@));
    out
}

/// All vectors stored in a vectors file's bytes, in the order written.
pub fn read_vectors_file(b: &Vec<u8>) -> (r: Result<Vec<Vector>, VectorDbError>)
    ensures
        match r {
            Ok(vs) => records_from(b@, 0) matches Some(ps) && vectors_view(vs@) == decodable_vectors(ps),
            Err(e) => records_from(b@, 0) is None && e is StorageError,
        },
{
    let ps = split_records(b)?;
    Ok(decode_payloads(&ps))
}

/// The record of a vector is decoded back to that vector.
pub proof fn law_vector_payload_round_trip(m: VectorModel)
    requires
        vector_bytes(m).len() <= usize::MAX,
    ensures
        is_vector_payload(vector_bytes(m)),
        payload_vector(vector_bytes(m)) == m,
{
    let p = vector_bytes(m);
    assert(is_vector_payload(p));
    let w = payload_vector(p);
    crate::codec::law_vector_record_round_trip(m, w);
}

proof fn lemma_records_front(vs: Seq<VectorModel>)
    requires
        vs.len() > 0,
    ensures
        vector_records(vs) == record_frame(vector_bytes(vs[0])) + vector_records(vs.skip(1)),
    decreases vs.len(),
{
    if vs.len() == 1 {
        assert(vs.drop_last() =~= Seq::<VectorModel>::empty());
        assert(vs.skip(1) =~= Seq::<VectorModel>::empty());
        assert(vector_records(vs) =~= record_frame(vector_bytes(vs[0])) + vector_records(vs.skip(1)));
    } else {
        let d = vs.drop_last();
        lemma_records_front(d);
        assert(d.skip(1) =~= vs.skip(1).drop_last());
        assert(vs.skip(1).last() == vs.last());
        assert(vector_records(vs) =~= record_frame(vector_bytes(vs[0])) + vector_records(vs.skip(1)));
    }
}

proof fn lemma_records_shift(p: Seq<u8>, q: Seq<u8>, i: int)
    requires
        0 <= i,
    ensures
        records_from(p + q, p.len() + i) == records_from(q, i),
    decreases q.len() - i,
{
    let b = p + q;
    let o = p.len() as int;
    if i < q.len() && i + 4 <= q.len() {
        assert(b.subrange(o + i, o + i + 4) =~= q.subrange(i, i + 4));
        let n = le_value(q.subrange(i, i + 4)) as int;
        if i + 4 + n <= q.len() {
            assert(b.subrange(o + i + 4, o + i + 4 + n) =~= q.subrange(i + 4, i + 4 + n));
            lemma_records_shift(p, q, i + 4 + n);
        }
    }
}

proof fn lemma_decodable_push(ps: Seq<Seq<u8>>, m: VectorModel)
    requires
        vector_bytes(m).len() <= usize::MAX,
    ensures
        decodable_vectors(ps.push(vector_bytes(m))) == decodable_vectors(ps).push(m),
{
    law_vector_payload_round_trip(m);
    assert(ps.push(vector_bytes(m)).drop_last() =~= ps);
}

/// The vectors written as records, one after another, read back as exactly
/// those vectors, in order.
pub proof fn law_vectors_file_round_trip(vs: Seq<VectorModel>)
    requires
        forall|i: int| 0 <= i < vs.len() ==> vector_bytes(#[trigger] vs[i]).len() < 0x1_0000_0000,
    ensures
        records_from(vector_records(vs), 0) == Some(Seq::new(vs.len(), |i: int| vector_bytes(vs[i]))),
        decodable_vectors(Seq::new(vs.len(), |i: int| vector_bytes(vs[i]))) == vs,
    decreases vs.len(),
{
    let ps = Seq::new(vs.len(), |i: int| vector_bytes(vs[i]));
    if vs.len() == 0 {
        assert(ps =~= Seq::<Seq<u8>>::empty());
        assert(vector_records(vs) =~= Seq::<u8>::empty());
    } else {
        let rest = vs.skip(1);
        assert forall|i: int| 0 <= i < rest.len() implies vector_bytes(#[trigger] rest[i]).len() < 0x1_0000_0000 by {
            assert(rest[i] == vs[i + 1]);
        }
        law_vectors_file_round_trip(rest);
        let d = vs.drop_last();
        assert forall|i: int| 0 <= i < d.len() implies vector_bytes(#[trigger] d[i]).len() < 0x1_0000_0000 by {
            assert(d[i] == vs[i]);
        }
        law_vectors_file_round_trip(d);
        lemma_records_front(vs);
        let p0 = vector_bytes(vs[0]);
        let f = record_frame(p0);
        crate::bytes::lemma_pow256_values();
        crate::bytes::lemma_le_round_trip(p0.len(), 4);
        let b = vector_records(vs);
        assert(b.subrange(0, 4) =~= crate::bytes::le_bytes(p0.len(), 4));
        assert(b.subrange(4, 4 + p0.len() as int) =~= p0);
        lemma_records_shift(f, vector_records(rest), 0);
        let rps = Seq::new(rest.len(), |i: int| vector_bytes(rest[i]));
        assert(ps =~= seq![p0] + rps);
        let dps = Seq::new(d.len(), |i: int| vector_bytes(d[i]));
        assert(ps =~= dps.push(vector_bytes(vs.last())));
        lemma_decodable_push(dps, vs.last());
        assert(vs =~= d.push(vs.last()));
    }
}
} // verus!
