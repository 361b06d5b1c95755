//! The binary batch-store format: a self-describing, length-prefixed
//! serialization with no external schema.
//!
//! Layout (all integers little-endian):
//! - `batch_index` as 8 bytes,
//! - item count as 8 bytes,
//! - per item: `index` (8 bytes); chunk byte length (8 bytes) followed by the
//!   chunk's UTF-8 bytes; coordinate count (8 bytes) followed by each
//!   coordinate as its 4 float bits bytes; `dimensions` (8 bytes).
//!
//! Decoding rejects anything that does not match this shape, including
//! invalid UTF-8 in a chunk and trailing bytes after the last field.

use vstd::prelude::*;
use vstd::bytes::*;
use vstd::utf8::*;

use crate::embedder::{EmbeddingData, RecordModel};
use crate::errors::StoreError;
use crate::text::string_from_utf8;

verus! {

/// The mathematical model of a persisted batch store.
#[verifier::ext_equal]
pub ghost struct StoreModel {
    pub batch_index: u64,
    pub items: Seq<RecordModel>,
}

/// A record whose length fields fit the 8-byte prefixes of the format.
pub open spec fn record_wf(r: RecordModel) -> bool {
    &&& encode_utf8(r.chunk).len() <= u64::MAX
    &&& r.embedding.len() <= u64::MAX
}

/// A store whose counts fit the 8-byte prefixes of the format.
pub open spec fn store_wf(m: StoreModel) -> bool {
    &&& m.items.len() <= u64::MAX
    &&& forall|i: int| 0 <= i < m.items.len() ==> record_wf(#[trigger] m.items[i])
}

/// The encoding of a vector: each coordinate's float bits as 4 bytes.
pub open spec fn spec_encode_embedding(e: Seq<u32>) -> Seq<u8>
    decreases e.len(),
{
    if e.len() == 0 {
        Seq::empty()
    } else {
        spec_u32_to_le_bytes(e[0]) + spec_encode_embedding(e.drop_first())
    }
}

/// The encoding of one record.
pub open spec fn spec_encode_record(r: RecordModel) -> Seq<u8> {
    spec_u64_to_le_bytes(r.index) + spec_u64_to_le_bytes(encode_utf8(r.chunk).len() as u64)
        + encode_utf8(r.chunk) + spec_u64_to_le_bytes(r.embedding.len() as u64)
        + spec_encode_embedding(r.embedding) + spec_u64_to_le_bytes(r.dimensions)
}

/// The concatenated encodings of a sequence of records.
pub open spec fn spec_encode_records(rs: Seq<RecordModel>) -> Seq<u8>
    decreases rs.len(),
{
    if rs.len() == 0 {
        Seq::empty()
    } else {
        spec_encode_record(rs[0]) + spec_encode_records(rs.drop_first())
    }
}

/// The encoding of a whole batch store.
pub open spec fn spec_encode_store(m: StoreModel) -> Seq<u8> {
    spec_u64_to_le_bytes(m.batch_index) + spec_u64_to_le_bytes(m.items.len() as u64)
        + spec_encode_records(m.items)
}

/// Reads one little-endian `u64` off the front of `b`.
pub open spec fn parse_u64(b: Seq<u8>) -> Option<(u64, Seq<u8>)> {
    if b.len() >= 8 {
        Some((spec_u64_from_le_bytes(b.take(8)), b.skip(8)))
    } else {
        None
    }
}

/// Reads `n` raw bytes off the front of `b`.
pub open spec fn parse_bytes(b: Seq<u8>, n: int) -> Option<(Seq<u8>, Seq<u8>)> {
    if 0 <= n <= b.len() {
        Some((b.take(n), b.skip(n)))
    } else {
        None
    }
}

/// Reads a length-prefixed UTF-8 chunk off the front of `b`.
pub open spec fn parse_chunk(b: Seq<u8>) -> Option<(Seq<char>, Seq<u8>)> {
    match parse_u64(b) {
        Some((len, rest)) => match parse_bytes(rest, len as int) {
            Some((bytes, rest2)) => if valid_utf8(bytes) {
                Some((decode_utf8(bytes), rest2))
            } else {
                None
            },
            None => None,
        },
        None => None,
    }
}

/// Reads `n` 4-byte coordinates off the front of `b`.
pub open spec fn parse_embedding(b: Seq<u8>, n: nat) -> Option<(Seq<u32>, Seq<u8>)>
    decreases n,
{
    if n == 0 {
        Some((Seq::empty(), b))
    } else if b.len() >= 4 {
        let v = spec_u32_from_le_bytes(b.take(4));
        match parse_embedding(b.skip(4), (n - 1) as nat) {
            Some((vs, rest)) => Some((seq![v] + vs, rest)),
            None => None,
        }
    } else {
        None
    }
}

/// Reads one record off the front of `b`.
pub open spec fn parse_record(b: Seq<u8>) -> Option<(RecordModel, Seq<u8>)> {
    match parse_u64(b) {
        Some((index, b1)) => match parse_chunk(b1) {
            Some((chunk, b2)) => match parse_u64(b2) {
                Some((count, b3)) => match parse_embedding(b3, count as nat) {
                    Some((embedding, b4)) => match parse_u64(b4) {
                        Some((dimensions, b5)) => Some(
                            (RecordModel { index, chunk, embedding, dimensions }, b5),
                        ),
                        None => None,
                    },
                    None => None,
                },
                None => None,
            },
            None => None,
        },
        None => None,
    }
}

/// Reads `n` records off the front of `b`.
pub open spec fn parse_records(b: Seq<u8>, n: nat) -> Option<(Seq<RecordModel>, Seq<u8>)>
    decreases n,
{
    if n == 0 {
        Some((Seq::empty(), b))
    } else {
        match parse_record(b) {
            Some((r, rest)) => match parse_records(rest, (n - 1) as nat) {
                Some((rs, fin)) => Some((seq![r] + rs, fin)),
                None => None,
            },
            None => None,
        }
    }
}

/// The decoding of a whole batch store; `None` when the bytes do not match
/// the expected shape, including when anything trails the last field.
pub open spec fn spec_decode_store(b: Seq<u8>) -> Option<StoreModel> {
    match parse_u64(b) {
        Some((batch_index, b1)) => match parse_u64(b1) {
            Some((count, b2)) => match parse_records(b2, count as nat) {
                Some((items, rest)) => if rest.len() == 0 {
                    Some(StoreModel { batch_index, items })
                } else {
                    None
                },
                None => None,
            },
            None => None,
        },
        None => None,
    }
}

/// A little-endian `u64` parses back off any byte stream it prefixes.
pub proof fn lemma_parse_u64_prefix(x: u64, rest: Seq<u8>)
    ensures
        parse_u64(spec_u64_to_le_bytes(x) + rest) == Some((x, rest)),
{
    lemma_auto_spec_u64_to_from_le_bytes();
    let total = spec_u64_to_le_bytes(x) + rest;
    assert(total.take(8) =~= spec_u64_to_le_bytes(x));
    assert(total.skip(8) =~= rest);
}

/// A known-length run of raw bytes parses back off any stream it prefixes.
pub proof fn lemma_parse_bytes_prefix(data: Seq<u8>, rest: Seq<u8>)
    ensures
        parse_bytes(data + rest, data.len() as int) == Some((data, rest)),
{
    let total = data + rest;
    assert(total.take(data.len() as int) =~= data);
    assert(total.skip(data.len() as int) =~= rest);
}

/// A length-prefixed UTF-8 chunk parses back off any stream it prefixes.
pub proof fn lemma_parse_chunk_prefix(chunk: Seq<char>, rest: Seq<u8>)
    requires
        encode_utf8(chunk).len() <= u64::MAX,
    ensures
        parse_chunk(
            spec_u64_to_le_bytes(encode_utf8(chunk).len() as u64) + encode_utf8(chunk) + rest,
        ) == Some((chunk, rest)),
{
    broadcast use vstd::utf8::encode_utf8_valid_utf8, vstd::utf8::encode_utf8_decode_utf8;

    let bytes = encode_utf8(chunk);
    let len = bytes.len() as u64;
    let total = spec_u64_to_le_bytes(len) + bytes + rest;
    assert(total =~= spec_u64_to_le_bytes(len) + (bytes + rest));
    lemma_parse_u64_prefix(len, bytes + rest);
    lemma_parse_bytes_prefix(bytes, rest);
}

/// An encoded vector parses back off any stream it prefixes.
pub proof fn lemma_parse_embedding_prefix(e: Seq<u32>, rest: Seq<u8>)
    ensures
        parse_embedding(spec_encode_embedding(e) + rest, e.len()) == Some((e, rest)),
    decreases e.len(),
{
    lemma_auto_spec_u32_to_from_le_bytes();
    if e.len() == 0 {
        assert(spec_encode_embedding(e) + rest =~= rest);
    } else {
        let head = spec_u32_to_le_bytes(e[0]);
        let tail = spec_encode_embedding(e.drop_first());
        let total = spec_encode_embedding(e) + rest;
        assert(total =~= head + (tail + rest));
        assert(total.take(4) =~= head);
        assert(total.skip(4) =~= tail + rest);
        lemma_parse_embedding_prefix(e.drop_first(), rest);
        assert(seq![e[0]] + e.drop_first() =~= e);
    }
}

/// An encoded record parses back off any stream it prefixes.
pub proof fn lemma_parse_record_prefix(r: RecordModel, rest: Seq<u8>)
    requires
        record_wf(r),
    ensures
        parse_record(spec_encode_record(r) + rest) == Some((r, rest)),
{
    let chunk_bytes = encode_utf8(r.chunk);
    let a = spec_u64_to_le_bytes(r.index);
    let b = spec_u64_to_le_bytes(chunk_bytes.len() as u64);
    let c = chunk_bytes;
    let d = spec_u64_to_le_bytes(r.embedding.len() as u64);
    let e = spec_encode_embedding(r.embedding);
    let f = spec_u64_to_le_bytes(r.dimensions);
    let total = spec_encode_record(r) + rest;

    assert(total =~= a + (b + c + (d + (e + (f + rest)))));
    lemma_parse_u64_prefix(r.index, b + c + (d + (e + (f + rest))));
    lemma_parse_chunk_prefix(r.chunk, d + (e + (f + rest)));
    lemma_parse_u64_prefix(r.embedding.len() as u64, e + (f + rest));
    lemma_parse_embedding_prefix(r.embedding, f + rest);
    lemma_parse_u64_prefix(r.dimensions, rest);
}

/// A run of encoded records parses back off any stream it prefixes.
pub proof fn lemma_parse_records_prefix(rs: Seq<RecordModel>, rest: Seq<u8>)
    requires
        forall|i: int| 0 <= i < rs.len() ==> record_wf(#[trigger] rs[i]),
    ensures
        parse_records(spec_encode_records(rs) + rest, rs.len()) == Some((rs, rest)),
    decreases rs.len(),
{
    if rs.len() == 0 {
        assert(spec_encode_records(rs) + rest =~= rest);
    } else {
        let total = spec_encode_records(rs) + rest;
        assert(total =~= spec_encode_record(rs[0]) + (spec_encode_records(rs.drop_first())
            + rest));
        lemma_parse_record_prefix(rs[0], spec_encode_records(rs.drop_first()) + rest);
        lemma_parse_records_prefix(rs.drop_first(), rest);
        assert(seq![rs[0]] + rs.drop_first() =~= rs);
    }
}

/// Appending a coordinate extends a vector's encoding by its 4 bytes.
pub proof fn lemma_encode_embedding_push(s: Seq<u32>, x: u32)
    ensures
        spec_encode_embedding(s.push(x)) == spec_encode_embedding(s) + spec_u32_to_le_bytes(x),
    decreases s.len(),
{
    reveal_with_fuel(spec_encode_embedding, 3);
    if s.len() == 0 {
        assert(s.push(x)[0] == x);
        assert(s.push(x).drop_first() =~= Seq::<u32>::empty());
        assert(spec_encode_embedding(s.push(x)) =~= spec_encode_embedding(s)
            + spec_u32_to_le_bytes(x));
    } else {
        assert(s.push(x)[0] == s[0]);
        assert(s.push(x).drop_first() =~= s.drop_first().push(x));
        lemma_encode_embedding_push(s.drop_first(), x);
        assert(spec_encode_embedding(s.push(x)) =~= spec_encode_embedding(s)
            + spec_u32_to_le_bytes(x));
    }
}

/// Appending a record extends a record run's encoding by that record's bytes.
pub proof fn lemma_encode_records_push(rs: Seq<RecordModel>, r: RecordModel)
    ensures
        spec_encode_records(rs.push(r)) == spec_encode_records(rs) + spec_encode_record(r),
    decreases rs.len(),
{
    reveal_with_fuel(spec_encode_records, 3);
    if rs.len() == 0 {
        assert(rs.push(r)[0] == r);
        assert(rs.push(r).drop_first() =~= Seq::<RecordModel>::empty());
        assert(spec_encode_records(rs.push(r)) =~= spec_encode_records(rs)
            + spec_encode_record(r));
    } else {
        assert(rs.push(r)[0] == rs[0]);
        assert(rs.push(r).drop_first() =~= rs.drop_first().push(r));
        lemma_encode_records_push(rs.drop_first(), r);
        assert(spec_encode_records(rs.push(r)) =~= spec_encode_records(rs)
            + spec_encode_record(r));
    }
}

/// Appends one little-endian `u64` to `out`.
pub(crate) fn push_u64(out: &mut Vec<u8>, x: u64)
    ensures
        final(out)@ == old(out)@ + spec_u64_to_le_bytes(x),
{
    let mut bytes = u64_to_le_bytes(x);
    out.append(&mut bytes);
}

/// Appends one coordinate's 4 float bits bytes to `out`.
pub(crate) fn push_u32(out: &mut Vec<u8>, x: u32)
    ensures
        final(out)@ == old(out)@ + spec_u32_to_le_bytes(x),
{
    let mut bytes = u32_to_le_bytes(x);
    out.append(&mut bytes);
}

/// Appends the encoding of one record to `out`.
pub(crate) fn encode_record_into(out: &mut Vec<u8>, e: &EmbeddingData)
    ensures
        final(out)@ == old(out)@ + spec_encode_record(e@),
{
    push_u64(out, e.index as u64);
    let chunk_bytes: &[u8] = e.chunk.as_str().as_bytes();
    push_u64(out, chunk_bytes.len() as u64);
    out.extend_from_slice(chunk_bytes);
    push_u64(out, e.embedding.len() as u64);
    let ghost mid: Seq<u8> = out@;
    let mut i: usize = 0;
    while i < e.embedding.len()
        invariant
            0 <= i <= e.embedding@.len(),
            out@ == mid + spec_encode_embedding(e.embedding@.take(i as int)),
        decreases e.embedding@.len() - i,
    {
        push_u32(out, e.embedding[i]);
        proof {
            lemma_encode_embedding_push(e.embedding@.take(i as int), e.embedding@[i as int]);
            assert(e.embedding@.take(i + 1) =~= e.embedding@.take(i as int).push(
                e.embedding@[i as int],
            ));
        }
        i = i + 1;
    }
    proof {
        assert(e.embedding@.take(e.embedding@.len() as int) =~= e.embedding@);
    }
    push_u64(out, e.dimensions as u64);
    proof {
        assert(out@ =~= old(out)@ + spec_encode_record(e@));
    }
}

/// Reads one little-endian `u64` at `*pos`, advancing `*pos` past it.
pub(crate) fn read_u64(bytes: &Vec<u8>, pos: &mut usize) -> (r: Result<u64, StoreError>)
    requires
        *old(pos) <= bytes@.len(),
    ensures
        match r {
            Ok(x) => {
                &&& *final(pos) == *old(pos) + 8
                &&& *final(pos) <= bytes@.len()
                &&& parse_u64(bytes@.skip(*old(pos) as int)) == Some(
                    (x, bytes@.skip(*final(pos) as int)),
                )
            },
            Err(e) => {
                &&& e == StoreError::DecodeError
                &&& parse_u64(bytes@.skip(*old(pos) as int)) is None
            },
        },
{
    if bytes.len() - *pos >= 8 {
        let mut tmp: Vec<u8> = Vec::new();
        let mut k: usize = 0;
        while k < 8
            invariant
                0 <= k <= 8,
                *pos + 8 <= bytes@.len() <= usize::MAX,
                tmp@ == bytes@.subrange(*pos as int, *pos + k),
            decreases 8 - k,
        {
            tmp.push(bytes[*pos + k]);
            proof {
                assert(tmp@ =~= bytes@.subrange(*pos as int, *pos + k + 1));
            }
            k = k + 1;
        }
        proof {
            assert(tmp@ =~= bytes@.skip(*pos as int).take(8));
            assert(bytes@.skip(*pos as int).skip(8) =~= bytes@.skip(*pos + 8));
        }
        let x = u64_from_le_bytes(tmp.as_slice());
        *pos = *pos + 8;
        Ok(x)
    } else {
        Err(StoreError::DecodeError)
    }
}

/// Reads one 4-byte coordinate at `*pos`, advancing `*pos` past it.
pub(crate) fn read_u32(bytes: &Vec<u8>, pos: &mut usize) -> (r: Result<u32, StoreError>)
    requires
        *old(pos) <= bytes@.len(),
    ensures
        match r {
            Ok(x) => {
                &&& *final(pos) == *old(pos) + 4
                &&& *final(pos) <= bytes@.len()
                &&& x == spec_u32_from_le_bytes(bytes@.subrange(*old(pos) as int, *final(pos) as int))
            },
            Err(e) => {
                &&& e == StoreError::DecodeError
                &&& bytes@.len() - *old(pos) < 4
            },
        },
{
    if bytes.len() - *pos >= 4 {
        let mut tmp: Vec<u8> = Vec::new();
        let mut k: usize = 0;
        while k < 4
            invariant
                0 <= k <= 4,
                *pos + 4 <= bytes@.len() <= usize::MAX,
                tmp@ == bytes@.subrange(*pos as int, *pos + k),
            decreases 4 - k,
        {
            tmp.push(bytes[*pos + k]);
            proof {
                assert(tmp@ =~= bytes@.subrange(*pos as int, *pos + k + 1));
            }
            k = k + 1;
        }
        let x = u32_from_le_bytes(tmp.as_slice());
        *pos = *pos + 4;
        Ok(x)
    } else {
        Err(StoreError::DecodeError)
    }
}

/// A vector parse succeeds exactly when enough bytes remain, and then reads
/// each coordinate from its own 4 bytes.
pub proof fn lemma_parse_embedding_shape(b: Seq<u8>, n: nat)
    ensures
        4 * n <= b.len() ==> match parse_embedding(b, n) {
            Some((es, rest)) => {
                &&& es.len() == n
                &&& rest == b.skip(4 * n as int)
                &&& forall|i: int|
                    0 <= i < n ==> es[i] == spec_u32_from_le_bytes(
                        #[trigger] b.subrange(4 * i, 4 * i + 4),
                    )
            },
            None => false,
        },
        4 * n > b.len() ==> parse_embedding(b, n) is None,
    decreases n,
{
    if n == 0 {
        assert(b.skip(0) =~= b);
    } else {
        lemma_parse_embedding_shape(b.skip(4), (n - 1) as nat);
        if 4 * n <= b.len() {
            let es0 = parse_embedding(b.skip(4), (n - 1) as nat)->Some_0.0;
            let es = parse_embedding(b, n)->Some_0.0;
            assert(b.skip(4).skip(4 * (n - 1)) =~= b.skip(4 * n as int));
            assert(b.take(4) =~= b.subrange(0, 4));
            assert forall|i: int| 0 <= i < n implies es[i] == spec_u32_from_le_bytes(
                #[trigger] b.subrange(4 * i, 4 * i + 4),
            ) by {
                if i > 0 {
                    assert(es[i] == es0[i - 1]);
                    assert(b.skip(4).subrange(4 * (i - 1), 4 * (i - 1) + 4) =~= b.subrange(
                        4 * i,
                        4 * i + 4,
                    ));
                }
            }
        }
    }
}

/// A record-run parse that succeeds yields exactly the requested number of
/// records.
pub proof fn lemma_parse_records_len(b: Seq<u8>, n: nat)
    ensures
        parse_records(b, n) matches Some((rs, _)) ==> rs.len() == n,
    decreases n,
{
    if n > 0 {
        match parse_record(b) {
            Some((_, rest)) => {
                lemma_parse_records_len(rest, (n - 1) as nat);
            },
            None => {},
        }
    }
}

/// Whether a parsed record can be represented on this platform: its two
/// value fields fit `usize`.
pub open spec fn record_fits_usize(r: RecordModel) -> bool {
    &&& r.index <= usize::MAX
    &&& r.dimensions <= usize::MAX
}

/// Reads a length-prefixed UTF-8 chunk at `*pos`, advancing `*pos` past it.
pub(crate) fn read_chunk(bytes: &Vec<u8>, pos: &mut usize) -> (r: Result<String, StoreError>)
    requires
        *old(pos) <= bytes@.len(),
    ensures
        match r {
            Ok(s) => {
                &&& *old(pos) <= *final(pos) <= bytes@.len()
                &&& parse_chunk(bytes@.skip(*old(pos) as int)) == Some(
                    (s@, bytes@.skip(*final(pos) as int)),
                )
            },
            Err(e) => {
                &&& e == StoreError::DecodeError
                &&& parse_chunk(bytes@.skip(*old(pos) as int)) is None
            },
        },
{
    broadcast use vstd::utf8::encode_utf8_valid_utf8, vstd::utf8::encode_utf8_decode_utf8;

    let ghost start = *pos as int;
    let len: u64 = match read_u64(bytes, pos) {
        Ok(x) => x,
        Err(e) => {
            return Err(e);
        },
    };
    let remaining: usize = bytes.len() - *pos;
    if len > remaining as u64 {
        return Err(StoreError::DecodeError);
    }
    let n: usize = len as usize;
    let ghost mid = *pos as int;
    let mut tmp: Vec<u8> = Vec::new();
    let mut k: usize = 0;
    while k < n
        invariant
            0 <= k <= n,
            mid + n <= bytes@.len() <= usize::MAX,
            *pos == mid,
            tmp@ == bytes@.subrange(mid, mid + k),
        decreases n - k,
    {
        tmp.push(bytes[*pos + k]);
        proof {
            assert(tmp@ =~= bytes@.subrange(mid, mid + k + 1));
        }
        k = k + 1;
    }
    proof {
        assert(tmp@ =~= bytes@.skip(mid).take(len as int));
        assert(bytes@.skip(mid).skip(len as int) =~= bytes@.skip(mid + n));
    }
    *pos = *pos + n;
    match string_from_utf8(tmp) {
        Some(s) => Ok(s),
        None => Err(StoreError::DecodeError),
    }
}

/// Reads one record at `*pos`, advancing `*pos` past it. Fails exactly when
/// the bytes at `*pos` do not parse as a record, or when the record's value
/// fields do not fit `usize` on this platform.
pub(crate) fn decode_record(bytes: &Vec<u8>, pos: &mut usize) -> (r: Result<
    EmbeddingData,
    StoreError,
>)
    requires
        *old(pos) <= bytes@.len(),
    ensures
        match r {
            Ok(e) => {
                &&& *old(pos) <= *final(pos) <= bytes@.len()
                &&& parse_record(bytes@.skip(*old(pos) as int)) == Some(
                    (e@, bytes@.skip(*final(pos) as int)),
                )
            },
            Err(err) => {
                &&& err == StoreError::DecodeError
                &&& match parse_record(bytes@.skip(*old(pos) as int)) {
                    Some((m, _)) => !record_fits_usize(m),
                    None => true,
                }
            },
        },
{
    let index_u64: u64 = match read_u64(bytes, pos) {
        Ok(x) => x,
        Err(e) => {
            return Err(e);
        },
    };
    let chunk: String = match read_chunk(bytes, pos) {
        Ok(s) => s,
        Err(e) => {
            return Err(e);
        },
    };
    let count: u64 = match read_u64(bytes, pos) {
        Ok(x) => x,
        Err(e) => {
            return Err(e);
        },
    };
    let remaining: usize = bytes.len() - *pos;
    proof {
        assert(remaining == 4 * (remaining / 4) + remaining % 4);
        assert(remaining % 4 < 4);
    }
    if count > (remaining / 4) as u64 {
        proof {
            lemma_parse_embedding_shape(bytes@.skip(*pos as int), count as nat);
        }
        return Err(StoreError::DecodeError);
    }
    let n: usize = count as usize;
    let ghost emb_start = *pos as int;
    proof {
        lemma_parse_embedding_shape(bytes@.skip(emb_start), count as nat);
    }
    let ghost es = parse_embedding(bytes@.skip(emb_start), count as nat)->Some_0.0;
    let mut embedding: Vec<u32> = Vec::new();
    let mut i: usize = 0;
    while i < n
        invariant
            0 <= i <= n,
            0 <= emb_start,
            emb_start + 4 * n <= bytes@.len() <= usize::MAX,
            *pos == emb_start + 4 * i,
            es.len() == n,
            forall|j: int|
                0 <= j < n ==> es[j] == spec_u32_from_le_bytes(
                    #[trigger] bytes@.skip(emb_start).subrange(4 * j, 4 * j + 4),
                ),
            embedding@ == es.take(i as int),
        decreases n - i,
    {
        let x: u32 = match read_u32(bytes, pos) {
            Ok(x) => x,
            Err(e) => {
                proof {
                    assert(false);
                }
                return Err(e);
            },
        };
        proof {
            assert(0 <= emb_start <= bytes@.len());
            assert(4 * (i as int) + 4 <= 4 * (n as int));
            assert(bytes@.skip(emb_start).subrange(4 * (i as int), 4 * (i as int) + 4)
                =~= bytes@.subrange(emb_start + 4 * (i as int), emb_start + 4 * (i as int) + 4));
            assert(es.take(i + 1) =~= es.take(i as int).push(es[i as int]));
        }
        embedding.push(x);
        i = i + 1;
    }
    proof {
        assert(es.take(n as int) =~= es);
        assert(bytes@.skip(emb_start).skip(4 * n as int) =~= bytes@.skip(emb_start + 4 * n));
    }
    let dimensions_u64: u64 = match read_u64(bytes, pos) {
        Ok(x) => x,
        Err(e) => {
            return Err(e);
        },
    };
    if index_u64 > usize::MAX as u64 || dimensions_u64 > usize::MAX as u64 {
        return Err(StoreError::DecodeError);
    }
    let e = EmbeddingData {
        index: index_u64 as usize,
        chunk,
        embedding,
        dimensions: dimensions_u64 as usize,
    };
    proof {
        assert(e@ =~= RecordModel {
            index: index_u64,
            chunk: e.chunk@,
            embedding: es,
            dimensions: dimensions_u64,
        });
    }
    Ok(e)
}

/// The round-trip law of the binary format: decoding the bytes produced by
/// encoding a store yields that store again, field for field — exact float
/// bit patterns and exact text included.
pub proof fn lemma_store_round_trip(m: StoreModel)
    requires
        store_wf(m),
    ensures
        spec_decode_store(spec_encode_store(m)) == Some(m),
{
    let a = spec_u64_to_le_bytes(m.batch_index);
    let b = spec_u64_to_le_bytes(m.items.len() as u64);
    let c = spec_encode_records(m.items);
    let total = spec_encode_store(m);
    assert(total =~= a + (b + (c + Seq::<u8>::empty())));
    lemma_parse_u64_prefix(m.batch_index, b + (c + Seq::<u8>::empty()));
    lemma_parse_u64_prefix(m.items.len() as u64, c + Seq::<u8>::empty());
    lemma_parse_records_prefix(m.items, Seq::<u8>::empty());
    assert(spec_decode_store(total) =~= Some(StoreModel { batch_index: m.batch_index, items: m.items }));
    assert(StoreModel { batch_index: m.batch_index, items: m.items } =~= m);
}

} // verus!
