//! Binary encoding of stored records: strings, vectors, collection settings
//! and logged operations. Every encoding is self-delimiting, so records can
//! be concatenated and read back one after another.
use crate::bytes::{le_bytes, le_value, pow256, push_le, read_le};
use crate::types::{CollectionConfig, ConfigModel, DistanceMetric, IndexConfig, VectorId, VectorType};
use vstd::prelude::*;
use vstd::string::StringSliceAdditionalSpecFns;
use vstd::utf8::{decode_utf8, encode_utf8, valid_utf8};

verus! {

/// `e` occurs in `b` at `pos`.
pub open spec fn at(b: Seq<u8>, pos: int, e: Seq<u8>) -> bool {
    0 <= pos && pos + e.len() <= b.len() && b.subrange(pos, pos + e.len()) == e
}

proof fn lemma_at_split(b: Seq<u8>, pos: int, e1: Seq<u8>, e2: Seq<u8>)
    requires
        at(b, pos, e1 + e2),
    ensures
        at(b, pos, e1),
        at(b, pos + e1.len(), e2),
{
    let whole = b.subrange(pos, pos + (e1 + e2).len());
    assert(whole == e1 + e2);
    assert(b.subrange(pos, pos + e1.len()) =~= whole.subrange(0, e1.len() as int));
    assert(whole.subrange(0, e1.len() as int) =~= e1);
    assert(b.subrange(pos + e1.len(), pos + e1.len() + e2.len()) =~= whole.subrange(
        e1.len() as int,
        whole.len() as int,
    ));
    assert(whole.subrange(e1.len() as int, whole.len() as int) =~= e2);
}

proof fn lemma_at_join(b: Seq<u8>, pos: int, e1: Seq<u8>, e2: Seq<u8>)
    requires
        at(b, pos, e1),
        at(b, pos + e1.len(), e2),
    ensures
        at(b, pos, e1 + e2),
{
    assert(b.subrange(pos, pos + e1.len() + e2.len()) =~= b.subrange(pos, pos + e1.len())
        + b.subrange(pos + e1.len(), pos + e1.len() + e2.len()));
}

/// A string: its UTF-8 length in 8 bytes, then its UTF-8 bytes.
pub open spec fn str_bytes(s: Seq<char>) -> Seq<u8> {
    le_bytes(encode_utf8(s).len(), 8) + encode_utf8(s)
}

/// An optional string: 0, or 1 followed by the string.
pub open spec fn opt_str_bytes(o: Option<Seq<char>>) -> Seq<u8> {
    match o {
        None => seq![0u8],
        Some(s) => seq![1u8] + str_bytes(s),
    }
}

/// 32-bit words, 4 bytes each.
pub open spec fn words_bytes(d: Seq<u32>) -> Seq<u8>
    decreases d.len(),
{
    if d.len() == 0 {
        Seq::empty()
    } else {
        words_bytes(d.drop_last()) + le_bytes(d.last() as nat, 4)
    }
}

/// Relies on `String::from_utf8`: it succeeds exactly on valid UTF-8, and the
/// string then holds the characters those bytes encode.
#[verifier::external_body]
fn string_from_utf8(bytes: Vec<u8>) -> (r: Option<String>)
    ensures
        r.is_some() == valid_utf8(bytes@),
        r matches Some(s) ==> s@ == decode_utf8(bytes@),
{
    String::from_utf8(bytes).ok()
}

/// Reads `n` bytes at `pos` as a little-endian number.
pub fn read_uint(b: &Vec<u8>, pos: usize, n: usize) -> (r: Option<(u128, usize)>)
    requires
        n <= 16,
    ensures
        match r {
            Some((x, p)) => pos + n <= b@.len() && p == pos + n && x as nat == le_value(
                b@.subrange(pos as int, pos + n),
            ),
            None => pos + n > b@.len(),
        },
{
    if pos <= b.len() && n <= b.len() - pos {
        Some((read_le(b, pos, n), pos + n))
    } else {
        None
    }
}

proof fn lemma_read_at(b: Seq<u8>, pos: int, x: nat, n: nat)
    requires
        x < pow256(n),
        at(b, pos, le_bytes(x, n)),
    ensures
        le_value(b.subrange(pos, pos + n)) == x,
{
    crate::bytes::lemma_le_round_trip(x, n);
}

proof fn lemma_value_bytes(b: Seq<u8>, pos: int, n: nat)
    requires
        0 <= pos,
        pos + n <= b.len(),
    ensures
        at(b, pos, le_bytes(le_value(b.subrange(pos, pos + n)), n)),
{
    crate::bytes::lemma_le_bytes_of_value(b.subrange(pos, pos + n));
}

/// Appends `s` in its string encoding.
pub fn push_str(out: &mut Vec<u8>, s: &str)
    ensures
        final(out)@ == old(out)@ + str_bytes(s@),
{
    let bytes = s.as_bytes();
    proof {
        crate::bytes::lemma_pow256_values();
    }
    push_le(out, bytes.len() as u128, 8);
    let ghost mid = out@;
    let mut i: usize = 0;
    while i < bytes.len()
        invariant
            i <= bytes@.len(),
            out@ == mid + bytes@.take(i as int),
        decreases bytes@.len() - i,
    {
        out.push(bytes[i]);
        i = i + 1;
        assert(out@ =~= mid + bytes@.take(i as int));
    }
    assert(bytes@.take(bytes@.len() as int) =~= bytes@);
    assert(out@ =~= old(out)@ + str_bytes(s@));
}

/// Reads a string encoded at `pos`; `None` if the bytes there are not one.
pub fn read_str(b: &Vec<u8>, pos: usize) -> (r: Option<(String, usize)>)
    ensures
        r matches Some((s, p)) ==> at(b@, pos as int, str_bytes(s@)) && p == pos + str_bytes(
            s@,
        ).len(),
        forall|cs: Seq<char>|
            #[trigger] at(b@, pos as int, str_bytes(cs)) ==> (r matches Some((s, p)) && s@ == cs
                && p == pos + str_bytes(cs).len()),
{
    let blen = b.len();
    proof {
        crate::bytes::lemma_pow256_values();
        assert forall|cs: Seq<char>| #[trigger] at(b@, pos as int, str_bytes(cs)) implies {
            let n = encode_utf8(cs).len();
            &&& pos + 8 <= b@.len()
            &&& le_value(b@.subrange(pos as int, pos + 8)) == n
            &&& at(b@, pos + 8, encode_utf8(cs))
            &&& pos + 8 + n <= b@.len()
        } by {
            let n = encode_utf8(cs).len();
            assert(n <= b@.len());
            assert(n < pow256(8));
            crate::bytes::lemma_le_round_trip(n, 8);
            lemma_at_split(b@, pos as int, le_bytes(n, 8), encode_utf8(cs));
            lemma_read_at(b@, pos as int, n, 8);
        }
    }
    let (len, start) = match read_uint(b, pos, 8) {
        Some(x) => x,
        None => {
            return None;
        },
    };
    if len > (b.len() - start) as u128 {
        return None;
    }
    let n = len as usize;
    let mut bytes: Vec<u8> = Vec::new();
    let mut i: usize = 0;
    while i < n
        invariant
            i <= n,
            start + n <= b@.len(),
            blen == b@.len(),
            bytes@ == b@.subrange(start as int, start + i),
        decreases n - i,
    {
        bytes.push(b[start + i]);
        i = i + 1;
        assert(bytes@ =~= b@.subrange(start as int, start + i));
    }
    let ghost raw = bytes@;
    match string_from_utf8(bytes) {
        Some(s) => {
            proof {
                vstd::utf8::decode_utf8_encode_utf8(raw);
                assert(encode_utf8(s@) == raw);
                lemma_value_bytes(b@, pos as int, 8);
                crate::bytes::lemma_le_round_trip(n as nat, 8);
                lemma_at_join(b@, pos as int, le_bytes(n as nat, 8), raw);
                assert forall|cs: Seq<char>| #[trigger] at(b@, pos as int, str_bytes(cs)) implies s@
                    == cs by {
                    assert(raw =~= encode_utf8(cs));
                    vstd::utf8::encode_utf8_decode_utf8(cs);
                }
            }
            Some((s, start + n))
        },
        None => {
            proof {
                assert forall|cs: Seq<char>| !#[trigger] at(b@, pos as int, str_bytes(cs)) by {
                    if at(b@, pos as int, str_bytes(cs)) {
                        assert(raw =~= encode_utf8(cs));
                        vstd::utf8::encode_utf8_valid_utf8(cs);
                    }
                }
            }
            None
        },
    }
}


proof fn lemma_words_len(d: Seq<u32>)
    ensures
        words_bytes(d).len() == 4 * d.len(),
    decreases d.len(),
{
    if d.len() > 0 {
        lemma_words_len(d.drop_last());
        crate::bytes::lemma_pow256_values();
        crate::bytes::lemma_le_round_trip(d.last() as nat, 4);
    }
}

/// The words of a prefix are a prefix of the words.
proof fn lemma_words_take(d: Seq<u32>, i: int)
    requires
        0 <= i <= d.len(),
    ensures
        words_bytes(d).subrange(0, 4 * i) == words_bytes(d.take(i)),
    decreases d.len(),
{
    lemma_words_len(d);
    lemma_words_len(d.take(i));
    if i == d.len() {
        assert(d.take(i) =~= d);
        assert(words_bytes(d).subrange(0, 4 * i) =~= words_bytes(d));
    } else {
        let e = d.drop_last();
        lemma_words_take(e, i);
        lemma_words_len(e);
        assert(e.take(i) =~= d.take(i));
        assert(words_bytes(d).subrange(0, 4 * i) =~= words_bytes(e).subrange(0, 4 * i));
    }
}

proof fn lemma_words_push(d: Seq<u32>, x: u32)
    ensures
        words_bytes(d.push(x)) == words_bytes(d) + le_bytes(x as nat, 4),
{
    assert(d.push(x).drop_last() =~= d);
}

/// A stored vector: its id, its elements as the bit patterns of 32-bit
/// floats, and its metadata as JSON text.
#[derive(Debug, Clone)]
pub struct Vector {
    pub id: VectorId,
    pub data: Vec<u32>,
    pub metadata: Option<String>,
}

pub struct VectorModel {
    pub id: u128,
    pub data: Seq<u32>,
    pub metadata: Option<Seq<char>>,
}

pub open spec fn opt_string_view(o: Option<String>) -> Option<Seq<char>> {
    match o {
        Some(s) => Some(s@),
        None => None,
    }
}

impl View for Vector {
    type V = VectorModel;

    open spec fn view(&self) -> VectorModel {
        VectorModel { id: self.id, data: self.data@, metadata: opt_string_view(self.metadata) }
    }
}

/// A vector record: id (16 bytes), element count (8 bytes), elements
/// (4 bytes each), then the optional metadata text.
pub open spec fn vector_bytes(m: VectorModel) -> Seq<u8> {
    le_bytes(m.id as nat, 16) + le_bytes(m.data.len(), 8) + words_bytes(m.data) + opt_str_bytes(
        m.metadata,
    )
}

/// Appends the record of `v`.
pub fn push_vector(out: &mut Vec<u8>, v: &Vector)
    ensures
        final(out)@ == old(out)@ + vector_bytes(v@),
{
    proof {
        crate::bytes::lemma_pow256_values();
    }
    push_le(out, v.id, 16);
    push_le(out, v.data.len() as u128, 8);
    let ghost mid = out@;
    let mut i: usize = 0;
    assert(v.data@.take(0) =~= Seq::<u32>::empty());
    while i < v.data.len()
        invariant
            i <= v.data@.len(),
            out@ == mid + words_bytes(v.data@.take(i as int)),
        decreases v.data@.len() - i,
    {
        proof {
            crate::bytes::lemma_pow256_values();
        }
        push_le(out, v.data[i] as u128, 4);
        proof {
            lemma_words_push(v.data@.take(i as int), v.data@[i as int]);
            assert(v.data@.take(i + 1) =~= v.data@.take(i as int).push(v.data@[i as int]));
        }
        i = i + 1;
    }
    assert(v.data@.take(v.data@.len() as int) =~= v.data@);
    match &v.metadata {
        None => {
            out.push(0u8);
        },
        Some(s) => {
            out.push(1u8);
            push_str(out, s.as_str());
        },
    }
    assert(out@ =~= old(out)@ + vector_bytes(v@));
}

/// Reads the optional string at `pos`.
fn read_opt_str(b: &Vec<u8>, pos: usize) -> (r: Option<(Option<String>, usize)>)
    ensures
        r matches Some((o, p)) ==> at(b@, pos as int, opt_str_bytes(opt_string_view(o))) && p
            == pos + opt_str_bytes(opt_string_view(o)).len(),
        forall|m: Option<Seq<char>>|
            #[trigger] at(b@, pos as int, opt_str_bytes(m)) ==> (r matches Some((o, p))
                && opt_string_view(o) == m && p == pos + opt_str_bytes(m).len()),
{
    if pos >= b.len() {
        return None;
    }
    let tag = b[pos];
    proof {
        assert forall|m: Option<Seq<char>>| #[trigger] at(b@, pos as int, opt_str_bytes(m)) implies (
        m is None <==> tag == 0) && (m is Some <==> tag == 1) by {
            assert(b@.subrange(pos as int, pos + opt_str_bytes(m).len())[0] == b@[pos as int]);
        }
    }
    if tag == 0 {
        proof {
            assert(b@.subrange(pos as int, pos + 1) =~= seq![0u8]);
        }
        Some((None, pos + 1))
    } else if tag == 1 {
        let r = read_str(b, pos + 1);
        proof {
            assert forall|m: Option<Seq<char>>| #[trigger] at(b@, pos as int, opt_str_bytes(m))
                implies at(b@, pos + 1, str_bytes(m->0)) by {
                lemma_at_split(b@, pos as int, seq![1u8], str_bytes(m->0));
            }
        }
        match r {
            Some((s, p)) => {
                proof {
                    assert(b@.subrange(pos as int, pos + 1) =~= seq![1u8]);
                    lemma_at_join(b@, pos as int, seq![1u8], str_bytes(s@));
                }
                Some((Some(s), p))
            },
            None => None,
        }
    } else {
        None
    }
}

proof fn lemma_words_injective(d1: Seq<u32>, d2: Seq<u32>)
    requires
        d1.len() == d2.len(),
        words_bytes(d1) == words_bytes(d2),
    ensures
        d1 == d2,
    decreases d1.len(),
{
    if d1.len() > 0 {
        let a = d1.drop_last();
        let c = d2.drop_last();
        lemma_words_len(a);
        lemma_words_len(c);
        crate::bytes::lemma_pow256_values();
        crate::bytes::lemma_le_round_trip(d1.last() as nat, 4);
        crate::bytes::lemma_le_round_trip(d2.last() as nat, 4);
        let w = words_bytes(d1);
        assert(words_bytes(a) =~= w.subrange(0, 4 * a.len() as int));
        assert(words_bytes(c) =~= w.subrange(0, 4 * a.len() as int));
        assert(le_bytes(d1.last() as nat, 4) =~= w.subrange(4 * a.len() as int, w.len() as int));
        assert(le_bytes(d2.last() as nat, 4) =~= w.subrange(4 * a.len() as int, w.len() as int));
        lemma_words_injective(a, c);
        assert(d1 =~= a.push(d1.last()));
        assert(d2 =~= c.push(d2.last()));
    }
}

/// Where the fields of a vector record lie.
proof fn lemma_vector_parts(b: Seq<u8>, pos: int, m: VectorModel)
    requires
        at(b, pos, vector_bytes(m)),
        b.len() <= usize::MAX,
    ensures
        pos + 24 + 4 * m.data.len() <= b.len(),
        le_value(b.subrange(pos, pos + 16)) == m.id,
        le_value(b.subrange(pos + 16, pos + 24)) == m.data.len(),
        at(b, pos + 24, words_bytes(m.data)),
        at(b, pos + 24 + 4 * m.data.len(), opt_str_bytes(m.metadata)),
{
    crate::bytes::lemma_pow256_values();
    crate::bytes::lemma_le_round_trip(m.id as nat, 16);
    lemma_words_len(m.data);
    assert(m.data.len() <= b.len());
    crate::bytes::lemma_le_round_trip(m.data.len(), 8);
    let e1 = le_bytes(m.id as nat, 16);
    let e2 = le_bytes(m.data.len(), 8);
    let e3 = words_bytes(m.data);
    let e4 = opt_str_bytes(m.metadata);
    assert(vector_bytes(m) == ((e1 + e2) + e3) + e4);
    lemma_at_split(b, pos, (e1 + e2) + e3, e4);
    lemma_at_split(b, pos, e1 + e2, e3);
    lemma_at_split(b, pos, e1, e2);
    lemma_read_at(b, pos, m.id as nat, 16);
    lemma_read_at(b, pos + 16, m.data.len(), 8);
}

/// Reads the vector record at `pos`; `None` if the bytes there are not one.
pub fn read_vector(b: &Vec<u8>, pos: usize) -> (r: Option<(Vector, usize)>)
    ensures
        r matches Some((v, p)) ==> at(b@, pos as int, vector_bytes(v@)) && p == pos
            + vector_bytes(v@).len(),
        forall|m: VectorModel|
            #[trigger] at(b@, pos as int, vector_bytes(m)) ==> (r matches Some((v, p)) && v@ == m
                && p == pos + vector_bytes(m).len()),
{
    let blen = b.len();
    proof {
        crate::bytes::lemma_pow256_values();
    }
    let (id, pa) = match read_uint(b, pos, 16) {
        Some(x) => x,
        None => {
            proof {
                assert forall|m: VectorModel| !#[trigger] at(b@, pos as int, vector_bytes(m)) by {
                    if at(b@, pos as int, vector_bytes(m)) {
                        lemma_vector_parts(b@, pos as int, m);
                    }
                }
            }
            return None;
        },
    };
    let (count, pb) = match read_uint(b, pa, 8) {
        Some(x) => x,
        None => {
            proof {
                assert forall|m: VectorModel| !#[trigger] at(b@, pos as int, vector_bytes(m)) by {
                    if at(b@, pos as int, vector_bytes(m)) {
                        lemma_vector_parts(b@, pos as int, m);
                    }
                }
            }
            return None;
        },
    };
    if count > ((b.len() - pb) / 4) as u128 {
        proof {
            assert forall|m: VectorModel| !#[trigger] at(b@, pos as int, vector_bytes(m)) by {
                if at(b@, pos as int, vector_bytes(m)) {
                    lemma_vector_parts(b@, pos as int, m);
                }
            }
        }
        return None;
    }
    let n = count as usize;
    let mut data: Vec<u32> = Vec::new();
    let mut i: usize = 0;
    let mut q: usize = pb;
    assert(b@.subrange(pb as int, pb as int) =~= words_bytes(Seq::<u32>::empty()));
    while i < n
        invariant
            i <= n,
            pb + 4 * n <= b@.len(),
            blen == b@.len(),
            q == pb + 4 * i,
            data@.len() == i,
            at(b@, pb as int, words_bytes(data@)),
        decreases n - i,
    {
        let w = read_le(b, q, 4);
        proof {
            crate::bytes::lemma_pow256_values();
            lemma_words_len(data@);
            lemma_value_bytes(b@, q as int, 4);
            lemma_words_push(data@, w as u32);
            lemma_at_join(b@, pb as int, words_bytes(data@), le_bytes(w as nat, 4));
        }
        proof {
            crate::bytes::lemma_le_value_bound(b@.subrange(q as int, q + 4));
        }
        data.push(w as u32);
        i = i + 1;
        q = q + 4;
    }
    proof {
        lemma_words_len(data@);
        assert forall|m: VectorModel| #[trigger] at(b@, pos as int, vector_bytes(m)) implies m.data
            == data@ by {
            lemma_vector_parts(b@, pos as int, m);
            lemma_words_len(m.data);
            lemma_words_injective(m.data, data@);
        }
    }
    let (metadata, pc) = match read_opt_str(b, q) {
        Some(x) => x,
        None => {
            proof {
                assert forall|m: VectorModel| !#[trigger] at(b@, pos as int, vector_bytes(m)) by {
                    if at(b@, pos as int, vector_bytes(m)) {
                        lemma_vector_parts(b@, pos as int, m);
                    }
                }
            }
            return None;
        },
    };
    let v = Vector { id: id as u128, data, metadata };
    proof {
        lemma_value_bytes(b@, pos as int, 16);
        lemma_value_bytes(b@, pa as int, 8);
        crate::bytes::lemma_le_value_bound(b@.subrange(pos as int, pos + 16));
        let e1 = le_bytes(v@.id as nat, 16);
        let e2 = le_bytes(v@.data.len(), 8);
        let e3 = words_bytes(v@.data);
        let e4 = opt_str_bytes(v@.metadata);
        crate::bytes::lemma_le_round_trip(v@.id as nat, 16);
        crate::bytes::lemma_le_round_trip(v@.data.len(), 8);
        lemma_at_join(b@, pos as int, e1, e2);
        lemma_at_join(b@, pos as int, e1 + e2, e3);
        lemma_at_join(b@, pos as int, (e1 + e2) + e3, e4);
        assert(vector_bytes(v@) == ((e1 + e2) + e3) + e4);
        assert forall|m: VectorModel| #[trigger] at(b@, pos as int, vector_bytes(m)) implies v@
            == m by {
            lemma_vector_parts(b@, pos as int, m);
        }
    }
    Some((v, pc))
}


/// Every `n`-byte encoding has `n` bytes.
pub proof fn lemma_le_bytes_len(x: nat, n: nat)
    ensures
        le_bytes(x, n).len() == n,
    decreases n,
{
    if n > 0 {
        lemma_le_bytes_len(x / 256, (n - 1) as nat);
    }
}

/// Collection settings: name, dimension (8 bytes), metric code, element
/// type code (one byte each), then the four index settings (8 bytes each).
pub open spec fn config_bytes(c: ConfigModel) -> Seq<u8> {
    str_bytes(c.name) + le_bytes(c.dimension as nat, 8) + seq![
        crate::types::metric_code_spec(c.distance_metric) as u8,
        crate::types::vector_type_code_spec(c.vector_type) as u8,
    ] + le_bytes(c.index_config.max_connections as nat, 8) + le_bytes(
        c.index_config.ef_construction as nat,
        8,
    ) + le_bytes(c.index_config.ef_search as nat, 8) + le_bytes(c.index_config.max_layer as nat, 8)
}

/// Appends the encoding of collection settings.
pub fn push_config(out: &mut Vec<u8>, c: &CollectionConfig)
    ensures
        final(out)@ == old(out)@ + config_bytes(c@),
{
    proof {
        crate::bytes::lemma_pow256_values();
    }
    push_str(out, c.name.as_str());
    push_le(out, c.dimension as u128, 8);
    out.push(c.distance_metric.to_code() as u8);
    out.push(c.vector_type.to_code() as u8);
    push_le(out, c.index_config.max_connections as u128, 8);
    push_le(out, c.index_config.ef_construction as u128, 8);
    push_le(out, c.index_config.ef_search as u128, 8);
    push_le(out, c.index_config.max_layer as u128, 8);
    assert(out@ =~= old(out)@ + config_bytes(c@));
}

/// Where the fields of encoded settings lie.
proof fn lemma_config_parts(b: Seq<u8>, pos: int, c: ConfigModel)
    requires
        at(b, pos, config_bytes(c)),
    ensures
        at(b, pos, str_bytes(c.name)),
        ({
            let p = pos + str_bytes(c.name).len();
            &&& p + 42 <= b.len()
            &&& le_value(b.subrange(p, p + 8)) == c.dimension
            &&& b[p + 8] == crate::types::metric_code_spec(c.distance_metric) as u8
            &&& b[p + 9] == crate::types::vector_type_code_spec(c.vector_type) as u8
            &&& le_value(b.subrange(p + 10, p + 18)) == c.index_config.max_connections
            &&& le_value(b.subrange(p + 18, p + 26)) == c.index_config.ef_construction
            &&& le_value(b.subrange(p + 26, p + 34)) == c.index_config.ef_search
            &&& le_value(b.subrange(p + 34, p + 42)) == c.index_config.max_layer
            &&& config_bytes(c).len() == str_bytes(c.name).len() + 42
        }),
{
    crate::bytes::lemma_pow256_values();
    let e0 = str_bytes(c.name);
    let e1 = le_bytes(c.dimension as nat, 8);
    let e2 = seq![
        crate::types::metric_code_spec(c.distance_metric) as u8,
        crate::types::vector_type_code_spec(c.vector_type) as u8,
    ];
    let e3 = le_bytes(c.index_config.max_connections as nat, 8);
    let e4 = le_bytes(c.index_config.ef_construction as nat, 8);
    let e5 = le_bytes(c.index_config.ef_search as nat, 8);
    let e6 = le_bytes(c.index_config.max_layer as nat, 8);
    crate::bytes::lemma_le_round_trip(c.dimension as nat, 8);
    crate::bytes::lemma_le_round_trip(c.index_config.max_connections as nat, 8);
    crate::bytes::lemma_le_round_trip(c.index_config.ef_construction as nat, 8);
    crate::bytes::lemma_le_round_trip(c.index_config.ef_search as nat, 8);
    crate::bytes::lemma_le_round_trip(c.index_config.max_layer as nat, 8);
    assert(config_bytes(c) == e0 + e1 + e2 + e3 + e4 + e5 + e6);
    lemma_at_split(b, pos, e0 + e1 + e2 + e3 + e4 + e5, e6);
    lemma_at_split(b, pos, e0 + e1 + e2 + e3 + e4, e5);
    lemma_at_split(b, pos, e0 + e1 + e2 + e3, e4);
    lemma_at_split(b, pos, e0 + e1 + e2, e3);
    lemma_at_split(b, pos, e0 + e1, e2);
    lemma_at_split(b, pos, e0, e1);
    let p = pos + e0.len();
    lemma_read_at(b, p, c.dimension as nat, 8);
    lemma_read_at(b, p + 10, c.index_config.max_connections as nat, 8);
    lemma_read_at(b, p + 18, c.index_config.ef_construction as nat, 8);
    lemma_read_at(b, p + 26, c.index_config.ef_search as nat, 8);
    lemma_read_at(b, p + 34, c.index_config.max_layer as nat, 8);
    assert(b.subrange(p + 8, p + 10) == e2);
    assert(b[p + 8] == b.subrange(p + 8, p + 10)[0]);
    assert(b[p + 9] == b.subrange(p + 8, p + 10)[1]);
}

/// Reads an 8-byte count that must fit a `usize`.
fn read_usize(b: &Vec<u8>, pos: usize) -> (r: Option<(usize, usize)>)
    ensures
        match r {
            Some((x, p)) => pos + 8 <= b@.len() && p == pos + 8 && x as nat == le_value(
                b@.subrange(pos as int, pos + 8),
            ),
            None => pos + 8 > b@.len() || le_value(b@.subrange(pos as int, pos + 8)) > usize::MAX,
        },
{
    match read_uint(b, pos, 8) {
        Some((x, p)) => {
            if x <= usize::MAX as u128 {
                Some((x as usize, p))
            } else {
                None
            }
        },
        None => None,
    }
}

fn metric_of_code(c: u8) -> (r: Option<DistanceMetric>)
    ensures
        match r {
            Some(m) => crate::types::metric_code_spec(m) as u8 == c,
            None => forall|m: DistanceMetric| crate::types::metric_code_spec(m) as u8 != c,
        },
{
    if 1 <= c && c <= 4 {
        Some(DistanceMetric::from_code(c as i32))
    } else {
        None
    }
}

fn vector_type_of_code(c: u8) -> (r: Option<VectorType>)
    ensures
        match r {
            Some(t) => crate::types::vector_type_code_spec(t) as u8 == c,
            None => forall|t: VectorType| crate::types::vector_type_code_spec(t) as u8 != c,
        },
{
    if 1 <= c && c <= 3 {
        Some(VectorType::from_code(c as i32))
    } else {
        None
    }
}

/// Reads encoded collection settings at `pos`.
pub fn read_config(b: &Vec<u8>, pos: usize) -> (r: Option<(CollectionConfig, usize)>)
    ensures
        r matches Some((c, p)) ==> at(b@, pos as int, config_bytes(c@)) && p == pos
            + config_bytes(c@).len(),
        forall|m: ConfigModel|
            #[trigger] at(b@, pos as int, config_bytes(m)) ==> (r matches Some((c, p)) && c@ == m
                && p == pos + config_bytes(m).len()),
{
    let blen = b.len();
    let (name, p) = match read_str(b, pos) {
        Some(x) => x,
        None => {
            proof {
                assert forall|m: ConfigModel| !#[trigger] at(b@, pos as int, config_bytes(m)) by {
                    if at(b@, pos as int, config_bytes(m)) {
                        lemma_config_parts(b@, pos as int, m);
                    }
                }
            }
            return None;
        },
    };
    proof {
        assert forall|m: ConfigModel| #[trigger] at(b@, pos as int, config_bytes(m)) implies m.name
            == name@ && p + 42 <= b@.len() by {
            lemma_config_parts(b@, pos as int, m);
        }
    }
    if p > b.len() || b.len() - p < 42 {
        return None;
    }
    let (dimension, _) = match read_usize(b, p) {
        Some(x) => x,
        None => {
            proof {
                assert forall|m: ConfigModel| !#[trigger] at(b@, pos as int, config_bytes(m)) by {
                    if at(b@, pos as int, config_bytes(m)) {
                        lemma_config_parts(b@, pos as int, m);
                    }
                }
            }
            return None;
        },
    };
    let metric = match metric_of_code(b[p + 8]) {
        Some(x) => x,
        None => {
            proof {
                assert forall|m: ConfigModel| !#[trigger] at(b@, pos as int, config_bytes(m)) by {
                    if at(b@, pos as int, config_bytes(m)) {
                        lemma_config_parts(b@, pos as int, m);
                    }
                }
            }
            return None;
        },
    };
    let vtype = match vector_type_of_code(b[p + 9]) {
        Some(x) => x,
        None => {
            proof {
                assert forall|m: ConfigModel| !#[trigger] at(b@, pos as int, config_bytes(m)) by {
                    if at(b@, pos as int, config_bytes(m)) {
                        lemma_config_parts(b@, pos as int, m);
                    }
                }
            }
            return None;
        },
    };
    let mut fields: [usize; 4] = [0, 0, 0, 0];
    let mut k: usize = 0;
    while k < 4
        invariant
            k <= 4,
            p + 42 <= b@.len(),
            p == pos + str_bytes(name@).len(),
            blen == b@.len(),
            forall|j: int| 0 <= j < k ==> #[trigger] fields@[j] as nat == le_value(b@.subrange(p + 10 + 8 * j, p + 18 + 8 * j)),
            forall|m: ConfigModel| #[trigger] at(b@, pos as int, config_bytes(m)) ==> m.name == name@,
        decreases 4 - k,
    {
        match read_usize(b, p + 10 + 8 * k) {
            Some((x, _)) => {
                fields.set(k, x);
            },
            None => {
                proof {
                    assert forall|m: ConfigModel| !#[trigger] at(b@, pos as int, config_bytes(m)) by {
                        if at(b@, pos as int, config_bytes(m)) {
                            lemma_config_parts(b@, pos as int, m);
                            let pi = p as int;
                            assert(pi + 10 + 8 * k + 8 <= b@.len());
                            assert(str_bytes(m.name).len() == str_bytes(name@).len());
                            if k == 0 {
                                assert(b@.subrange(pi + 10 + 8 * k, pi + 10 + 8 * k + 8) == b@.subrange(pi + 10, pi + 18));
                                assert(le_value(b@.subrange(pi + 10, pi + 18)) <= usize::MAX);
                            } else if k == 1 {
                                assert(b@.subrange(pi + 10 + 8 * k, pi + 10 + 8 * k + 8) == b@.subrange(pi + 18, pi + 26));
                            } else if k == 2 {
                                assert(b@.subrange(pi + 10 + 8 * k, pi + 10 + 8 * k + 8) == b@.subrange(pi + 26, pi + 34));
                            } else {
                                assert(b@.subrange(pi + 10 + 8 * k, pi + 10 + 8 * k + 8) == b@.subrange(pi + 34, pi + 42));
                            }
                        }
                    }
                }
                return None;
            },
        }
        k = k + 1;
    }
    let c = CollectionConfig {
        name,
        dimension,
        distance_metric: metric,
        vector_type: vtype,
        index_config: IndexConfig {
            max_connections: fields[0],
            ef_construction: fields[1],
            ef_search: fields[2],
            max_layer: fields[3],
        },
    };
    proof {
        crate::bytes::lemma_pow256_values();
        let pi = p as int;
        assert(fields@[0] as nat == le_value(b@.subrange(pi + 10, pi + 18)));
        assert(fields@[1] as nat == le_value(b@.subrange(pi + 18, pi + 26)));
        assert(fields@[2] as nat == le_value(b@.subrange(pi + 26, pi + 34)));
        assert(fields@[3] as nat == le_value(b@.subrange(pi + 34, pi + 42)));
        lemma_value_bytes(b@, pi, 8);
        lemma_value_bytes(b@, pi + 10, 8);
        lemma_value_bytes(b@, pi + 18, 8);
        lemma_value_bytes(b@, pi + 26, 8);
        lemma_value_bytes(b@, pi + 34, 8);
        lemma_le_bytes_len(dimension as nat, 8);
        lemma_le_bytes_len(fields@[0] as nat, 8);
        lemma_le_bytes_len(fields@[1] as nat, 8);
        lemma_le_bytes_len(fields@[2] as nat, 8);
        lemma_le_bytes_len(fields@[3] as nat, 8);
        let e0 = str_bytes(c@.name);
        let e1 = le_bytes(c@.dimension as nat, 8);
        let e2 = seq![
            crate::types::metric_code_spec(c@.distance_metric) as u8,
            crate::types::vector_type_code_spec(c@.vector_type) as u8,
        ];
        let e3 = le_bytes(c@.index_config.max_connections as nat, 8);
        let e4 = le_bytes(c@.index_config.ef_construction as nat, 8);
        let e5 = le_bytes(c@.index_config.ef_search as nat, 8);
        let e6 = le_bytes(c@.index_config.max_layer as nat, 8);
        assert(b@.subrange(pi + 8, pi + 10) =~= e2);
        lemma_at_join(b@, pos as int, e0, e1);
        lemma_at_join(b@, pos as int, e0 + e1, e2);
        lemma_at_join(b@, pos as int, e0 + e1 + e2, e3);
        lemma_at_join(b@, pos as int, e0 + e1 + e2 + e3, e4);
        lemma_at_join(b@, pos as int, e0 + e1 + e2 + e3 + e4, e5);
        lemma_at_join(b@, pos as int, e0 + e1 + e2 + e3 + e4 + e5, e6);
        assert(config_bytes(c@) == e0 + e1 + e2 + e3 + e4 + e5 + e6);
        assert forall|m: ConfigModel| #[trigger] at(b@, pos as int, config_bytes(m)) implies c@
            == m by {
            lemma_config_parts(b@, pos as int, m);
            crate::types::lemma_metric_code_injective(m.distance_metric, metric);
            crate::types::lemma_vector_type_code_injective(m.vector_type, vtype);
        }
    }
    Some((c, p + 42))
}

/// Vector records one after another.
pub open spec fn vectors_bytes(vs: Seq<VectorModel>) -> Seq<u8>
    decreases vs.len(),
{
    if vs.len() == 0 {
        Seq::empty()
    } else {
        vectors_bytes(vs.drop_last()) + vector_bytes(vs.last())
    }
}

pub open spec fn vectors_view(v: Seq<Vector>) -> Seq<VectorModel> {
    Seq::new(v.len(), |i: int| v[i]@)
}

proof fn lemma_vectors_split(vs: Seq<VectorModel>, i: int)
    requires
        0 <= i <= vs.len(),
    ensures
        vectors_bytes(vs) == vectors_bytes(vs.take(i)) + vectors_bytes(vs.skip(i)),
    decreases vs.len(),
{
    if i == vs.len() {
        assert(vs.take(i) =~= vs);
        assert(vs.skip(i) =~= Seq::<VectorModel>::empty());
        assert(vectors_bytes(vs) =~= vectors_bytes(vs) + Seq::<u8>::empty());
    } else {
        let e = vs.drop_last();
        lemma_vectors_split(e, i);
        assert(e.take(i) =~= vs.take(i));
        assert(vs.skip(i).drop_last() =~= e.skip(i));
        assert(vs.skip(i).last() == vs.last());
        assert(vectors_bytes(vs) =~= vectors_bytes(vs.take(i)) + vectors_bytes(vs.skip(i)));
    }
}

proof fn lemma_vectors_front(vs: Seq<VectorModel>)
    requires
        vs.len() > 0,
    ensures
        vectors_bytes(vs) == vector_bytes(vs[0]) + vectors_bytes(vs.skip(1)),
{
    lemma_vectors_split(vs, 1);
    assert(vs.take(1).drop_last() =~= Seq::<VectorModel>::empty());
    let t = vs.take(1);
    assert(t.last() == vs[0]);
    assert(t.drop_last() =~= Seq::<VectorModel>::empty());
    assert(vectors_bytes(t.drop_last()) =~= Seq::<u8>::empty());
    assert(vectors_bytes(t) =~= vector_bytes(vs[0]));
}

/// A logged operation.
#[derive(Debug, Clone)]
pub enum WALOperation {
    CreateCollection(CollectionConfig),
    DeleteCollection(String),
    InsertVector { collection: String, vector: Vector },
    BatchInsert { collection: String, vectors: Vec<Vector> },
    DeleteVector { collection: String, id: VectorId },
}

pub enum OperationModel {
    CreateCollection(ConfigModel),
    DeleteCollection(Seq<char>),
    InsertVector(Seq<char>, VectorModel),
    BatchInsert(Seq<char>, Seq<VectorModel>),
    DeleteVector(Seq<char>, u128),
}

impl View for WALOperation {
    type V = OperationModel;

    open spec fn view(&self) -> OperationModel {
        match self {
            WALOperation::CreateCollection(c) => OperationModel::CreateCollection(c@),
            WALOperation::DeleteCollection(n) => OperationModel::DeleteCollection(n@),
            WALOperation::InsertVector { collection, vector } => OperationModel::InsertVector(
                collection@,
                vector@,
            ),
            WALOperation::BatchInsert { collection, vectors } => OperationModel::BatchInsert(
                collection@,
                vectors_view(vectors@),
            ),
            WALOperation::DeleteVector { collection, id } => OperationModel::DeleteVector(
                collection@,
                *id,
            ),
        }
    }
}

/// The fields of an operation, after its tag.
pub open spec fn op_body(op: OperationModel) -> Seq<u8> {
    match op {
        OperationModel::CreateCollection(c) => config_bytes(c),
        OperationModel::DeleteCollection(n) => str_bytes(n),
        OperationModel::InsertVector(n, v) => str_bytes(n) + vector_bytes(v),
        OperationModel::BatchInsert(n, vs) => str_bytes(n) + le_bytes(vs.len(), 8) + vectors_bytes(
            vs,
        ),
        OperationModel::DeleteVector(n, id) => str_bytes(n) + le_bytes(id as nat, 16),
    }
}

/// An operation: a tag byte (0 to 4), then its fields.
pub open spec fn op_bytes(op: OperationModel) -> Seq<u8> {
    seq![op_tag(op)] + op_body(op)
}

/// Appends the encoding of `op`.
pub fn push_operation(out: &mut Vec<u8>, op: &WALOperation)
    ensures
        final(out)@ == old(out)@ + op_bytes(op@),
{
    proof {
        crate::bytes::lemma_pow256_values();
    }
    match op {
        WALOperation::CreateCollection(c) => {
            out.push(0u8);
            push_config(out, c);
        },
        WALOperation::DeleteCollection(n) => {
            out.push(1u8);
            push_str(out, n.as_str());
        },
        WALOperation::InsertVector { collection, vector } => {
            out.push(2u8);
            push_str(out, collection.as_str());
            push_vector(out, vector);
        },
        WALOperation::BatchInsert { collection, vectors } => {
            out.push(3u8);
            push_str(out, collection.as_str());
            push_le(out, vectors.len() as u128, 8);
            let ghost mid = out@;
            let mut i: usize = 0;
            assert(vectors_view(vectors@).take(0) =~= Seq::<VectorModel>::empty());
            while i < vectors.len()
                invariant
                    i <= vectors@.len(),
                    out@ == mid + vectors_bytes(vectors_view(vectors@).take(i as int)),
                decreases vectors@.len() - i,
            {
                push_vector(out, &vectors[i]);
                proof {
                    let vv = vectors_view(vectors@);
                    assert(vv.take(i + 1).drop_last() =~= vv.take(i as int));
                    assert(vv.take(i + 1).last() == vectors@[i as int]@);
                }
                i = i + 1;
            }
            assert(vectors_view(vectors@).take(vectors@.len() as int) =~= vectors_view(vectors@));
        },
        WALOperation::DeleteVector { collection, id } => {
            out.push(4u8);
            push_str(out, collection.as_str());
            push_le(out, *id, 16);
        },
    }
    assert(out@ =~= old(out)@ + op_bytes(op@));
}

/// Reads `count` vector records starting at `pos`.
fn read_vectors(b: &Vec<u8>, pos: usize, count: usize) -> (r: Option<(Vec<Vector>, usize)>)
    ensures
        r matches Some((vs, p)) ==> vs@.len() == count && at(b@, pos as int, vectors_bytes(vectors_view(vs@)))
            && p == pos + vectors_bytes(vectors_view(vs@)).len(),
        forall|ms: Seq<VectorModel>|
            ms.len() == count && #[trigger] at(b@, pos as int, vectors_bytes(ms)) ==> (r matches Some((vs, p))
                && vectors_view(vs@) == ms && p == pos + vectors_bytes(ms).len()),
{
    if pos > b.len() {
        return None;
    }
    let mut out: Vec<Vector> = Vec::new();
    let mut q: usize = pos;
    let mut i: usize = 0;
    assert(vectors_bytes(Seq::<VectorModel>::empty()) =~= Seq::<u8>::empty());
    assert(b@.subrange(pos as int, pos as int) =~= vectors_bytes(Seq::<VectorModel>::empty()));
    proof {
        assert forall|ms: Seq<VectorModel>|
            ms.len() == count && #[trigger] at(b@, pos as int, vectors_bytes(ms)) implies ms.take(0)
                == vectors_view(out@) && at(b@, pos as int, vectors_bytes(ms.skip(0))) by {
            assert(ms.skip(0) =~= ms);
            assert(ms.take(0) =~= Seq::<VectorModel>::empty());
        }
    }
    assert(vectors_view(out@) =~= Seq::<VectorModel>::empty());
    while i < count
        invariant
            i <= count,
            out@.len() == i,
            at(b@, pos as int, vectors_bytes(vectors_view(out@))),
            q == pos + vectors_bytes(vectors_view(out@)).len(),
            forall|ms: Seq<VectorModel>|
                ms.len() == count && #[trigger] at(b@, pos as int, vectors_bytes(ms)) ==> ms.take(i as int)
                    == vectors_view(out@) && at(b@, q as int, vectors_bytes(ms.skip(i as int))),
        decreases count - i,
    {
        proof {
            assert forall|ms: Seq<VectorModel>|
                ms.len() == count && #[trigger] at(b@, pos as int, vectors_bytes(ms)) implies at(
                b@,
                q as int,
                vector_bytes(ms[i as int]),
            ) && at(b@, q + vector_bytes(ms[i as int]).len(), vectors_bytes(ms.skip(i + 1))) by {
                let rest = ms.skip(i as int);
                lemma_vectors_front(rest);
                assert(rest.skip(1) =~= ms.skip(i + 1));
                lemma_at_split(b@, q as int, vector_bytes(rest[0]), vectors_bytes(rest.skip(1)));
            }
        }
        let (v, p) = match read_vector(b, q) {
            Some(x) => x,
            None => {
                return None;
            },
        };
        proof {
            let before = vectors_view(out@);
            let after = before.push(v@);
            assert(after.drop_last() =~= before);
            lemma_at_join(b@, pos as int, vectors_bytes(before), vector_bytes(v@));
            assert forall|ms: Seq<VectorModel>|
                ms.len() == count && #[trigger] at(b@, pos as int, vectors_bytes(ms)) implies ms.take(
                i + 1,
            ) == after by {
                assert(ms.take(i + 1) =~= ms.take(i as int).push(ms[i as int]));
            }
        }
        let ghost before_out = out@;
        let ghost vm = v@;
        out.push(v);
        proof {
            assert(vectors_view(out@) =~= vectors_view(before_out).push(vm));
        }
        q = p;
        i = i + 1;
    }
    proof {
        assert forall|ms: Seq<VectorModel>|
            ms.len() == count && #[trigger] at(b@, pos as int, vectors_bytes(ms)) implies vectors_view(out@)
                == ms by {
            assert(ms.take(count as int) =~= ms);
        }
    }
    Some((out, q))
}

/// The tag byte of an operation's encoding.
pub open spec fn op_tag(op: OperationModel) -> u8 {
    match op {
        OperationModel::CreateCollection(_) => 0,
        OperationModel::DeleteCollection(_) => 1,
        OperationModel::InsertVector(_, _) => 2,
        OperationModel::BatchInsert(_, _) => 3,
        OperationModel::DeleteVector(_, _) => 4,
    }
}

/// Reads the fields of an operation with tag `tag` at `pos`.
fn read_op_body(b: &Vec<u8>, pos: usize, tag: u8) -> (r: Option<(WALOperation, usize)>)
    ensures
        r matches Some((op, p)) ==> op_tag(op@) == tag && at(b@, pos as int, op_body(op@)) && p
            == pos + op_body(op@).len(),
        forall|m: OperationModel|
            op_tag(m) == tag && #[trigger] at(b@, pos as int, op_body(m)) ==> (r matches Some((op, p))
                && op@ == m && p == pos + op_body(m).len()),
{
    if tag == 0 {
        match read_config(b, pos) {
            Some((c, p)) => Some((WALOperation::CreateCollection(c), p)),
            None => None,
        }
    } else if tag == 1 {
        match read_str(b, pos) {
            Some((n, p)) => Some((WALOperation::DeleteCollection(n), p)),
            None => None,
        }
    } else if tag == 2 {
        read_insert_body(b, pos)
    } else if tag == 3 {
        read_batch_body(b, pos)
    } else if tag == 4 {
        read_delete_vector_body(b, pos)
    } else {
        None
    }
}

proof fn lemma_named_body(b: Seq<u8>, pos: int, n: Seq<char>, rest: Seq<u8>)
    requires
        at(b, pos, str_bytes(n) + rest),
    ensures
        at(b, pos, str_bytes(n)),
        at(b, pos + str_bytes(n).len(), rest),
{
    lemma_at_split(b, pos, str_bytes(n), rest);
}

fn read_insert_body(b: &Vec<u8>, pos: usize) -> (r: Option<(WALOperation, usize)>)
    ensures
        r matches Some((op, p)) ==> op_tag(op@) == 2 && at(b@, pos as int, op_body(op@)) && p
            == pos + op_body(op@).len(),
        forall|m: OperationModel|
            op_tag(m) == 2 && #[trigger] at(b@, pos as int, op_body(m)) ==> (r matches Some((op, p))
                && op@ == m && p == pos + op_body(m).len()),
{
    proof {
        assert forall|m: OperationModel| op_tag(m) == 2 && #[trigger] at(b@, pos as int, op_body(m))
            implies at(b@, pos as int, str_bytes(m->InsertVector_0)) && at(
            b@,
            pos + str_bytes(m->InsertVector_0).len(),
            vector_bytes(m->InsertVector_1),
        ) by {
            lemma_named_body(b@, pos as int, m->InsertVector_0, vector_bytes(m->InsertVector_1));
        }
    }
    let (name, p) = match read_str(b, pos) {
        Some(x) => x,
        None => {
            return None;
        },
    };
    match read_vector(b, p) {
        Some((v, pb)) => {
            let ghost nv = name@;
            let ghost vv = v@;
            let op = WALOperation::InsertVector { collection: name, vector: v };
            proof {
                lemma_at_join(b@, pos as int, str_bytes(nv), vector_bytes(vv));
            }
            Some((op, pb))
        },
        None => None,
    }
}

fn read_batch_body(b: &Vec<u8>, pos: usize) -> (r: Option<(WALOperation, usize)>)
    ensures
        r matches Some((op, p)) ==> op_tag(op@) == 3 && at(b@, pos as int, op_body(op@)) && p
            == pos + op_body(op@).len(),
        forall|m: OperationModel|
            op_tag(m) == 3 && #[trigger] at(b@, pos as int, op_body(m)) ==> (r matches Some((op, p))
                && op@ == m && p == pos + op_body(m).len()),
{
    let blen = b.len();
    proof {
        crate::bytes::lemma_pow256_values();
    }
    proof {
        assert forall|m: OperationModel| op_tag(m) == 3 && #[trigger] at(b@, pos as int, op_body(m))
            implies at(b@, pos as int, str_bytes(m->BatchInsert_0)) && at(
            b@,
            pos + str_bytes(m->BatchInsert_0).len(),
            le_bytes((m->BatchInsert_1).len(), 8) + vectors_bytes(m->BatchInsert_1),
        ) by {
            let vs = m->BatchInsert_1;
            assert(op_body(m) =~= str_bytes(m->BatchInsert_0) + (le_bytes(vs.len(), 8)
                + vectors_bytes(vs)));
            lemma_named_body(
                b@,
                pos as int,
                m->BatchInsert_0,
                le_bytes(vs.len(), 8) + vectors_bytes(vs),
            );
        }
    }
    let (name, p) = match read_str(b, pos) {
        Some(x) => x,
        None => {
            return None;
        },
    };
    proof {
        assert forall|m: OperationModel| op_tag(m) == 3 && #[trigger] at(b@, pos as int, op_body(m))
            implies at(b@, p + 8, vectors_bytes(m->BatchInsert_1)) && le_value(
            b@.subrange(p as int, p + 8),
        ) == (m->BatchInsert_1).len() by {
            let vs = m->BatchInsert_1;
            lemma_vectors_len_bound(vs);
            assert(vs.len() <= b@.len());
            crate::bytes::lemma_le_round_trip(vs.len(), 8);
            lemma_at_split(b@, p as int, le_bytes(vs.len(), 8), vectors_bytes(vs));
            lemma_read_at(b@, p as int, vs.len(), 8);
        }
    }
    let (count, pb) = match read_usize(b, p) {
        Some(x) => x,
        None => {
            proof {
                assert forall|m: OperationModel|
                    !(op_tag(m) == 3 && #[trigger] at(b@, pos as int, op_body(m))) by {
                    if op_tag(m) == 3 && at(b@, pos as int, op_body(m)) {
                        lemma_vectors_len_bound(m->BatchInsert_1);
                    }
                }
            }
            return None;
        },
    };
    match read_vectors(b, pb, count) {
        Some((vs, pc)) => {
            let ghost nv = name@;
            let ghost vv = vectors_view(vs@);
            let op = WALOperation::BatchInsert { collection: name, vectors: vs };
            proof {
                lemma_value_bytes(b@, p as int, 8);
                lemma_le_bytes_len(count as nat, 8);
                lemma_at_join(b@, pos as int, str_bytes(nv), le_bytes(count as nat, 8));
                lemma_at_join(
                    b@,
                    pos as int,
                    str_bytes(nv) + le_bytes(count as nat, 8),
                    vectors_bytes(vv),
                );
            }
            Some((op, pc))
        },
        None => None,
    }
}

fn read_delete_vector_body(b: &Vec<u8>, pos: usize) -> (r: Option<(WALOperation, usize)>)
    ensures
        r matches Some((op, p)) ==> op_tag(op@) == 4 && at(b@, pos as int, op_body(op@)) && p
            == pos + op_body(op@).len(),
        forall|m: OperationModel|
            op_tag(m) == 4 && #[trigger] at(b@, pos as int, op_body(m)) ==> (r matches Some((op, p))
                && op@ == m && p == pos + op_body(m).len()),
{
    proof {
        crate::bytes::lemma_pow256_values();
        assert forall|m: OperationModel| op_tag(m) == 4 && #[trigger] at(b@, pos as int, op_body(m))
            implies at(b@, pos as int, str_bytes(m->DeleteVector_0)) && at(
            b@,
            pos + str_bytes(m->DeleteVector_0).len(),
            le_bytes((m->DeleteVector_1) as nat, 16),
        ) by {
            lemma_named_body(b@, pos as int, m->DeleteVector_0, le_bytes((m->DeleteVector_1) as nat, 16));
        }
    }
    let (name, p) = match read_str(b, pos) {
        Some(x) => x,
        None => {
            return None;
        },
    };
    proof {
        assert forall|m: OperationModel| op_tag(m) == 4 && #[trigger] at(b@, pos as int, op_body(m))
            implies le_value(b@.subrange(p as int, p + 16)) == (m->DeleteVector_1) as nat by {
            lemma_read_at(b@, p as int, (m->DeleteVector_1) as nat, 16);
        }
    }
    match read_uint(b, p, 16) {
        Some((id, pb)) => {
            let ghost nv = name@;
            let op = WALOperation::DeleteVector { collection: name, id };
            proof {
                lemma_value_bytes(b@, p as int, 16);
                lemma_le_bytes_len(id as nat, 16);
                lemma_at_join(b@, pos as int, str_bytes(nv), le_bytes(id as nat, 16));
            }
            Some((op, pb))
        },
        None => {
            proof {
                assert forall|m: OperationModel| !(op_tag(m) == 4 && #[trigger] at(b@, pos as int, op_body(m))) by {
                    if op_tag(m) == 4 && at(b@, pos as int, op_body(m)) {
                        lemma_le_bytes_len((m->DeleteVector_1) as nat, 16);
                    }
                }
            }
            None
        },
    }
}

/// Reads an encoded operation at `pos`; `None` if the bytes there are not one.
pub fn read_operation(b: &Vec<u8>, pos: usize) -> (r: Option<(WALOperation, usize)>)
    ensures
        r matches Some((op, p)) ==> at(b@, pos as int, op_bytes(op@)) && p == pos + op_bytes(
            op@,
        ).len(),
        forall|m: OperationModel|
            #[trigger] at(b@, pos as int, op_bytes(m)) ==> (r matches Some((op, p)) && op@ == m
                && p == pos + op_bytes(m).len()),
{
    if pos >= b.len() {
        proof {
            assert forall|m: OperationModel| !#[trigger] at(b@, pos as int, op_bytes(m)) by {}
        }
        return None;
    }
    let tag = b[pos];
    proof {
        assert(b@.subrange(pos as int, pos + 1) =~= seq![tag]);
        assert forall|m: OperationModel| #[trigger] at(b@, pos as int, op_bytes(m)) implies op_tag(m)
            == tag && at(b@, pos + 1, op_body(m)) by {
            lemma_at_split(b@, pos as int, seq![op_tag(m)], op_body(m));
            assert(b@.subrange(pos as int, pos + 1)[0] == tag);
        }
    }
    match read_op_body(b, pos + 1, tag) {
        Some((op, p)) => {
            proof {
                lemma_at_join(b@, pos as int, seq![tag], op_body(op@));
            }
            Some((op, p))
        },
        None => None,
    }
}

proof fn lemma_vectors_len_bound(vs: Seq<VectorModel>)
    ensures
        vs.len() <= vectors_bytes(vs).len(),
    decreases vs.len(),
{
    if vs.len() > 0 {
        lemma_vectors_len_bound(vs.drop_last());
        lemma_le_bytes_len(vs.last().id as nat, 16);
    }
}

/// The collection an operation names.
pub open spec fn op_collection(op: OperationModel) -> Seq<char> {
    match op {
        OperationModel::CreateCollection(c) => c.name,
        OperationModel::DeleteCollection(n) => n,
        OperationModel::InsertVector(n, _) => n,
        OperationModel::BatchInsert(n, _) => n,
        OperationModel::DeleteVector(n, _) => n,
    }
}


/// Two strings encoded at the same place are the same string.
proof fn lemma_str_prefix_free(b: Seq<u8>, pos: int, s1: Seq<char>, s2: Seq<char>)
    requires
        at(b, pos, str_bytes(s1)),
        at(b, pos, str_bytes(s2)),
        b.len() <= usize::MAX,
    ensures
        s1 == s2,
{
    crate::bytes::lemma_pow256_values();
    let n1 = encode_utf8(s1).len();
    let n2 = encode_utf8(s2).len();
    crate::bytes::lemma_le_round_trip(n1, 8);
    crate::bytes::lemma_le_round_trip(n2, 8);
    lemma_at_split(b, pos, le_bytes(n1, 8), encode_utf8(s1));
    lemma_at_split(b, pos, le_bytes(n2, 8), encode_utf8(s2));
    lemma_read_at(b, pos, n1, 8);
    lemma_read_at(b, pos, n2, 8);
    assert(encode_utf8(s1) == encode_utf8(s2));
    vstd::utf8::encode_utf8_decode_utf8(s1);
    vstd::utf8::encode_utf8_decode_utf8(s2);
}

proof fn lemma_opt_str_prefix_free(b: Seq<u8>, pos: int, o1: Option<Seq<char>>, o2: Option<Seq<char>>)
    requires
        at(b, pos, opt_str_bytes(o1)),
        at(b, pos, opt_str_bytes(o2)),
        b.len() <= usize::MAX,
    ensures
        o1 == o2,
{
    assert(b.subrange(pos, pos + opt_str_bytes(o1).len())[0] == b[pos]);
    assert(b.subrange(pos, pos + opt_str_bytes(o2).len())[0] == b[pos]);
    if o1 is Some && o2 is Some {
        lemma_at_split(b, pos, seq![1u8], str_bytes(o1->0));
        lemma_at_split(b, pos, seq![1u8], str_bytes(o2->0));
        lemma_str_prefix_free(b, pos + 1, o1->0, o2->0);
    }
}

/// Two vector records at the same place are the same vector.
proof fn lemma_vector_prefix_free(b: Seq<u8>, pos: int, m1: VectorModel, m2: VectorModel)
    requires
        at(b, pos, vector_bytes(m1)),
        at(b, pos, vector_bytes(m2)),
        b.len() <= usize::MAX,
    ensures
        m1 == m2,
{
    lemma_vector_parts(b, pos, m1);
    lemma_vector_parts(b, pos, m2);
    lemma_words_len(m1.data);
    lemma_words_len(m2.data);
    assert(words_bytes(m1.data) == words_bytes(m2.data));
    lemma_words_injective(m1.data, m2.data);
    lemma_opt_str_prefix_free(b, pos + 24 + 4 * m1.data.len(), m1.metadata, m2.metadata);
}

/// Two encodings of settings at the same place are the same settings.
proof fn lemma_config_prefix_free(b: Seq<u8>, pos: int, c1: ConfigModel, c2: ConfigModel)
    requires
        at(b, pos, config_bytes(c1)),
        at(b, pos, config_bytes(c2)),
        b.len() <= usize::MAX,
    ensures
        c1 == c2,
{
    lemma_config_parts(b, pos, c1);
    lemma_config_parts(b, pos, c2);
    lemma_str_prefix_free(b, pos, c1.name, c2.name);
    crate::types::lemma_metric_code_injective(c1.distance_metric, c2.distance_metric);
    crate::types::lemma_vector_type_code_injective(c1.vector_type, c2.vector_type);
}

proof fn lemma_vectors_prefix_free(b: Seq<u8>, pos: int, v1: Seq<VectorModel>, v2: Seq<VectorModel>)
    requires
        v1.len() == v2.len(),
        at(b, pos, vectors_bytes(v1)),
        at(b, pos, vectors_bytes(v2)),
        b.len() <= usize::MAX,
    ensures
        v1 == v2,
    decreases v1.len(),
{
    if v1.len() > 0 {
        lemma_vectors_front(v1);
        lemma_vectors_front(v2);
        lemma_at_split(b, pos, vector_bytes(v1[0]), vectors_bytes(v1.skip(1)));
        lemma_at_split(b, pos, vector_bytes(v2[0]), vectors_bytes(v2.skip(1)));
        lemma_vector_prefix_free(b, pos, v1[0], v2[0]);
        lemma_vectors_prefix_free(b, pos + vector_bytes(v1[0]).len(), v1.skip(1), v2.skip(1));
        assert(v1 =~= seq![v1[0]] + v1.skip(1));
        assert(v2 =~= seq![v2[0]] + v2.skip(1));
    } else {
        assert(v1 =~= v2);
    }
}

/// Two operations encoded at the same place are the same operation.
pub proof fn lemma_op_prefix_free(b: Seq<u8>, pos: int, o1: OperationModel, o2: OperationModel)
    requires
        at(b, pos, op_bytes(o1)),
        at(b, pos, op_bytes(o2)),
        b.len() <= usize::MAX,
    ensures
        o1 == o2,
{
    crate::bytes::lemma_pow256_values();
    lemma_at_split(b, pos, seq![op_tag(o1)], op_body(o1));
    lemma_at_split(b, pos, seq![op_tag(o2)], op_body(o2));
    assert(b.subrange(pos, pos + 1)[0] == b[pos]);
    assert(op_tag(o1) == op_tag(o2));
    let q = pos + 1;
    match o1 {
        OperationModel::CreateCollection(c1) => {
            lemma_config_prefix_free(b, q, c1, o2->CreateCollection_0);
        },
        OperationModel::DeleteCollection(n1) => {
            lemma_str_prefix_free(b, q, n1, o2->DeleteCollection_0);
        },
        OperationModel::InsertVector(n1, v1) => {
            let n2 = o2->InsertVector_0;
            let v2 = o2->InsertVector_1;
            lemma_at_split(b, q, str_bytes(n1), vector_bytes(v1));
            lemma_at_split(b, q, str_bytes(n2), vector_bytes(v2));
            lemma_str_prefix_free(b, q, n1, n2);
            lemma_vector_prefix_free(b, q + str_bytes(n1).len(), v1, v2);
        },
        OperationModel::BatchInsert(n1, v1) => {
            let n2 = o2->BatchInsert_0;
            let v2 = o2->BatchInsert_1;
            assert(op_body(o1) =~= str_bytes(n1) + (le_bytes(v1.len(), 8) + vectors_bytes(v1)));
            assert(op_body(o2) =~= str_bytes(n2) + (le_bytes(v2.len(), 8) + vectors_bytes(v2)));
            lemma_at_split(b, q, str_bytes(n1), le_bytes(v1.len(), 8) + vectors_bytes(v1));
            lemma_at_split(b, q, str_bytes(n2), le_bytes(v2.len(), 8) + vectors_bytes(v2));
            lemma_str_prefix_free(b, q, n1, n2);
            let r = q + str_bytes(n1).len();
            lemma_vectors_len_bound(v1);
            lemma_vectors_len_bound(v2);
            crate::bytes::lemma_le_round_trip(v1.len(), 8);
            crate::bytes::lemma_le_round_trip(v2.len(), 8);
            lemma_at_split(b, r, le_bytes(v1.len(), 8), vectors_bytes(v1));
            lemma_at_split(b, r, le_bytes(v2.len(), 8), vectors_bytes(v2));
            lemma_read_at(b, r, v1.len(), 8);
            lemma_read_at(b, r, v2.len(), 8);
            lemma_vectors_prefix_free(b, r + 8, v1, v2);
        },
        OperationModel::DeleteVector(n1, i1) => {
            let n2 = o2->DeleteVector_0;
            let i2 = o2->DeleteVector_1;
            lemma_at_split(b, q, str_bytes(n1), le_bytes(i1 as nat, 16));
            lemma_at_split(b, q, str_bytes(n2), le_bytes(i2 as nat, 16));
            lemma_str_prefix_free(b, q, n1, n2);
            lemma_read_at(b, q + str_bytes(n1).len(), i1 as nat, 16);
            lemma_read_at(b, q + str_bytes(n1).len(), i2 as nat, 16);
        },
    }
}

/// The record of a vector decodes to that vector and to no other: the
/// encoding is one to one on every vector whose record fits in memory.
pub proof fn law_vector_record_round_trip(m: VectorModel, other: VectorModel)
    requires
        vector_bytes(m).len() <= usize::MAX,
    ensures
        vector_bytes(other) == vector_bytes(m) ==> other == m,
{
    if vector_bytes(other) == vector_bytes(m) {
        let b = vector_bytes(m);
        assert(b.subrange(0, b.len() as int) =~= b);
        lemma_vector_prefix_free(b, 0, m, other);
    }
}

/// Collection settings decode to themselves and to nothing else.
pub proof fn law_config_round_trip(c: ConfigModel, other: ConfigModel)
    requires
        config_bytes(c).len() <= usize::MAX,
    ensures
        config_bytes(other) == config_bytes(c) ==> other == c,
{
    if config_bytes(other) == config_bytes(c) {
        let b = config_bytes(c);
        assert(b.subrange(0, b.len() as int) =~= b);
        lemma_config_prefix_free(b, 0, c, other);
    }
}
} // verus!
