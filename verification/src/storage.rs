//! Durable batch stores and the in-memory dataset assembled from them.

use vstd::prelude::*;
use vstd::bytes::spec_u64_to_le_bytes;
use vstd::utf8::encode_utf8;
use vstd::std_specs::vec::spec_vec_len;

use crate::codec::{
    StoreModel, spec_encode_store, spec_decode_store, spec_encode_records, record_fits_usize,
    push_u64, encode_record_into, lemma_encode_records_push, lemma_parse_records_len, read_u64,
    decode_record, parse_records, parse_record, store_wf, lemma_store_round_trip,
};
use crate::embedder::{EmbeddingData, RecordModel};
use crate::errors::StoreError;

verus! {

/// The models of a run of records, in order.
pub open spec fn records_view(items: Seq<EmbeddingData>) -> Seq<RecordModel> {
    Seq::new(items.len(), |i: int| items[i]@)
}

/// The unit of durable persistence: a batch index plus the ordered records of
/// that batch. Immutable once written.
#[derive(Debug, Clone)]
pub struct EmbeddingStore {
    pub batch_index: usize,
    pub items: Vec<EmbeddingData>,
}

impl View for EmbeddingStore {
    type V = StoreModel;

    open spec fn view(&self) -> StoreModel {
        StoreModel { batch_index: self.batch_index as u64, items: records_view(self.items@) }
    }
}

/// A decoded store that can be represented on this platform: every value
/// field of the model fits `usize`.
pub open spec fn store_fits_usize(m: StoreModel) -> bool {
    &&& m.batch_index <= usize::MAX
    &&& m.items.len() <= usize::MAX
    &&& forall|i: int| 0 <= i < m.items.len() ==> record_fits_usize(#[trigger] m.items[i])
}

/// Whether `decode_binary` accepts these bytes: they decode, and the decoded
/// store is representable.
pub open spec fn spec_decode_ok(b: Seq<u8>) -> bool {
    match spec_decode_store(b) {
        Some(m) => store_fits_usize(m),
        None => false,
    }
}

impl EmbeddingStore {
    /// Pure data constructor; no validation beyond the fields themselves.
    pub fn new(batch_index: usize, items: Vec<EmbeddingData>) -> (r: Self)
        ensures
            r.batch_index == batch_index,
            r.items == items,
    {
        EmbeddingStore { batch_index, items }
    }

    /// Serializes the whole store into one self-describing binary blob.
    pub fn encode_binary(&self) -> (r: Vec<u8>)
        ensures
            r@ == spec_encode_store(self@),
    {
        let mut out: Vec<u8> = Vec::new();
        push_u64(&mut out, self.batch_index as u64);
        push_u64(&mut out, self.items.len() as u64);
        let ghost hdr = out@;
        let mut i: usize = 0;
        while i < self.items.len()
            invariant
                0 <= i <= self.items@.len(),
                hdr == spec_u64_to_le_bytes(self.batch_index as u64) + spec_u64_to_le_bytes(
                    self.items@.len() as u64,
                ),
                out@ == hdr + spec_encode_records(records_view(self.items@).take(i as int)),
            decreases self.items@.len() - i,
        {
            encode_record_into(&mut out, &self.items[i]);
            proof {
                lemma_encode_records_push(
                    records_view(self.items@).take(i as int),
                    self.items@[i as int]@,
                );
                assert(records_view(self.items@).take(i + 1) =~= records_view(
                    self.items@,
                ).take(i as int).push(self.items@[i as int]@));
            }
            i = i + 1;
        }
        proof {
            assert(records_view(self.items@).take(self.items@.len() as int) =~= records_view(
                self.items@,
            ));
            assert(out@ =~= spec_encode_store(self@));
        }
        out
    }

    /// The inverse of `encode_binary`: rebuilds a store from one binary blob.
    /// Fails with `DecodeError` exactly when the bytes do not match the
    /// expected shape (or hold values too large for this platform).
    #[verifier::loop_isolation(false)]
    pub fn decode_binary(bytes: &Vec<u8>) -> (r: Result<EmbeddingStore, StoreError>)
        ensures
            match r {
                Ok(s) => spec_decode_store(bytes@) == Some(s@),
                Err(e) => e == StoreError::DecodeError && !spec_decode_ok(bytes@),
            },
    {
        proof {
            assert(bytes@.skip(0) =~= bytes@);
        }
        let mut pos: usize = 0;
        let batch_u64: u64 = match read_u64(bytes, &mut pos) {
            Ok(x) => x,
            Err(e) => {
                return Err(e);
            },
        };
        if batch_u64 > usize::MAX as u64 {
            return Err(StoreError::DecodeError);
        }
        let count: u64 = match read_u64(bytes, &mut pos) {
            Ok(x) => x,
            Err(e) => {
                return Err(e);
            },
        };
        proof {
            lemma_parse_records_len(bytes@.skip(pos as int), count as nat);
        }
        if count > usize::MAX as u64 {
            return Err(StoreError::DecodeError);
        }
        let count_usize: usize = count as usize;
        let ghost b0 = bytes@.skip(pos as int);
        let mut items: Vec<EmbeddingData> = Vec::new();
        let mut i: usize = 0;
        while i < count_usize
            invariant
                0 <= i <= count_usize,
                pos <= bytes@.len(),
                items@.len() == i,
                parse_records(b0, count_usize as nat) == (match parse_records(
                    bytes@.skip(pos as int),
                    (count_usize - i) as nat,
                ) {
                    Some((rs, fin)) => Some((records_view(items@) + rs, fin)),
                    None => None::<(Seq<RecordModel>, Seq<u8>)>,
                }),
            decreases count_usize - i,
        {
            let ghost pre_pos = pos as int;
            let ghost pre_items = items@;
            match decode_record(bytes, &mut pos) {
                Ok(e) => {
                    items.push(e);
                    proof {
                        assert(records_view(items@) =~= records_view(pre_items).push(e@));
                        let cur = bytes@.skip(pre_pos);
                        let nxt = bytes@.skip(pos as int);
                        assert(parse_record(cur) == Some((e@, nxt)));
                        if let Some((rs, fin)) = parse_records(nxt, (count_usize - i - 1) as nat) {
                            assert(records_view(pre_items) + (seq![e@] + rs) =~= records_view(
                                items@,
                            ) + rs);
                        }
                    }
                },
                Err(err) => {
                    proof {
                        let cur = bytes@.skip(pre_pos);
                        let k = (count_usize - i) as nat;
                        match parse_record(cur) {
                            Some((m, rest)) => {
                                assert(!record_fits_usize(m));
                                match parse_records(rest, (k - 1) as nat) {
                                    Some((rs, fin)) => {
                                        let total = records_view(pre_items) + (seq![m] + rs);
                                        assert(total[i as int] == m);
                                        if fin.len() == 0 {
                                            assert(spec_decode_store(bytes@) == Some(
                                                StoreModel { batch_index: batch_u64, items: total },
                                            ));
                                            assert(!store_fits_usize(
                                                StoreModel { batch_index: batch_u64, items: total },
                                            ));
                                        }
                                    },
                                    None => {},
                                }
                            },
                            None => {},
                        }
                    }
                    return Err(err);
                },
            }
            i = i + 1;
        }
        proof {
            assert(records_view(items@) + Seq::<RecordModel>::empty() =~= records_view(items@));
        }
        if pos != bytes.len() {
            proof {
                assert(bytes@.skip(pos as int).len() > 0);
            }
            return Err(StoreError::DecodeError);
        }
        let s = EmbeddingStore { batch_index: batch_u64 as usize, items };
        proof {
            assert(bytes@.skip(pos as int).len() == 0);
            assert(s@ =~= StoreModel { batch_index: batch_u64, items: records_view(s.items@) });
        }
        Ok(s)
    }
}

/// Bytes encoded from a store whose counts fit the format decode back to
/// exactly that store, and this platform can represent the result: decoding
/// what `encode_binary` produced cannot fail.
pub proof fn lemma_encoded_store_decodes(s: EmbeddingStore)
    requires
        store_wf(s@),
    ensures
        spec_decode_store(spec_encode_store(s@)) == Some(s@),
        spec_decode_ok(spec_encode_store(s@)),
{
    lemma_store_round_trip(s@);
    assert(s.items@.len() <= usize::MAX) by {
        broadcast use vstd::std_specs::vec::axiom_spec_len;

        assert(spec_vec_len(&s.items) == s.items@.len());
    }
    assert forall|i: int| 0 <= i < s@.items.len() implies record_fits_usize(
        #[trigger] s@.items[i],
    ) by {
        assert(s@.items[i] == s.items@[i]@);
    }
}

/// The texts of a dataset, as character sequences, in order.
pub open spec fn chunks_view(cs: Seq<String>) -> Seq<Seq<char>> {
    Seq::new(cs.len(), |i: int| cs[i]@)
}

/// The vectors of a dataset, as bit-pattern sequences, in order.
pub open spec fn embeddings_view(es: Seq<Vec<u32>>) -> Seq<Seq<u32>> {
    Seq::new(es.len(), |i: int| es[i]@)
}

/// The byte contents of each candidate file, in order.
pub open spec fn files_view(fs: Seq<Vec<u8>>) -> Seq<Seq<u8>> {
    Seq::new(fs.len(), |i: int| fs[i]@)
}

/// The record runs of the files that decode, in file order.
pub open spec fn kept_items(files: Seq<Seq<u8>>) -> Seq<Seq<RecordModel>> {
    files.filter(|b: Seq<u8>| spec_decode_ok(b)).map_values(
        |b: Seq<u8>| spec_decode_store(b)->Some_0.items,
    )
}

/// All records of the files that decode, flattened in file order with each
/// store's internal order kept.
pub open spec fn kept_records(files: Seq<Seq<u8>>) -> Seq<RecordModel> {
    kept_items(files).flatten()
}

/// The bytes the stored coordinates occupy: 4 for each.
pub open spec fn sum_embedding_bytes(es: Seq<Vec<u32>>) -> int
    decreases es.len(),
{
    if es.len() == 0 {
        0
    } else {
        sum_embedding_bytes(es.drop_last()) + 4 * es.last()@.len()
    }
}

/// The bytes the chunk texts occupy: each chunk's UTF-8 byte length.
pub open spec fn sum_chunk_bytes(cs: Seq<String>) -> int
    decreases cs.len(),
{
    if cs.len() == 0 {
        0
    } else {
        sum_chunk_bytes(cs.drop_last()) + encode_utf8(cs.last()@).len()
    }
}

/// The whole payload of a dataset, in bytes.
pub open spec fn spec_payload_bytes(cs: Seq<String>, es: Seq<Vec<u32>>) -> int {
    sum_embedding_bytes(es) + sum_chunk_bytes(cs)
}

proof fn lemma_sum_embedding_nonneg(es: Seq<Vec<u32>>)
    ensures
        sum_embedding_bytes(es) >= 0,
    decreases es.len(),
{
    if es.len() > 0 {
        lemma_sum_embedding_nonneg(es.drop_last());
    }
}

proof fn lemma_sum_chunk_nonneg(cs: Seq<String>)
    ensures
        sum_chunk_bytes(cs) >= 0,
    decreases cs.len(),
{
    if cs.len() > 0 {
        lemma_sum_chunk_nonneg(cs.drop_last());
    }
}

/// The contiguous read-only dataset assembled from every persisted batch:
/// parallel chunk and vector arrays, the vector dimensionality (taken from
/// the first vector, 0 if empty), and the flattened count.
#[derive(Debug, Clone)]
pub struct VectorData {
    pub chunk: Vec<String>,
    pub embedding: Vec<Vec<u32>>,
    pub dimensions: usize,
    pub total_vectors: usize,
}

impl VectorData {
    /// Structural soundness of an assembled dataset: parallel arrays of one
    /// length, which `total_vectors` reports, and `dimensions` taken from the
    /// first vector.
    pub open spec fn wf(&self) -> bool {
        &&& self.chunk@.len() == self.embedding@.len()
        &&& self.total_vectors == self.embedding@.len()
        &&& self.dimensions == if self.embedding@.len() > 0 {
            self.embedding@[0]@.len() as int
        } else {
            0
        }
    }

    /// The exact payload size in bytes: 4 bytes per stored coordinate plus
    /// the UTF-8 byte length of every chunk, saturating at `usize::MAX`.
    pub fn memory_usage_bytes(&self) -> (r: usize)
        ensures
            r == if spec_payload_bytes(self.chunk@, self.embedding@) > usize::MAX {
                usize::MAX as int
            } else {
                spec_payload_bytes(self.chunk@, self.embedding@)
            },
    {
        proof {
            lemma_sum_embedding_nonneg(self.embedding@);
            lemma_sum_chunk_nonneg(self.chunk@);
        }
        let mut acc: usize = 0;
        let mut i: usize = 0;
        while i < self.embedding.len()
            invariant
                0 <= i <= self.embedding@.len(),
                acc == if sum_embedding_bytes(self.embedding@.take(i as int)) > usize::MAX {
                    usize::MAX as int
                } else {
                    sum_embedding_bytes(self.embedding@.take(i as int))
                },
            decreases self.embedding@.len() - i,
        {
            proof {
                lemma_sum_embedding_nonneg(self.embedding@.take(i as int));
                assert(self.embedding@.take(i + 1).drop_last() =~= self.embedding@.take(i as int));
            }
            let term: usize = self.embedding[i].len().checked_mul(4).unwrap_or(usize::MAX);
            acc = acc.saturating_add(term);
            i = i + 1;
        }
        proof {
            assert(self.embedding@.take(self.embedding@.len() as int) =~= self.embedding@);
        }
        let ghost emb_total = sum_embedding_bytes(self.embedding@);
        let mut j: usize = 0;
        while j < self.chunk.len()
            invariant
                0 <= j <= self.chunk@.len(),
                emb_total == sum_embedding_bytes(self.embedding@),
                emb_total >= 0,
                acc == if emb_total + sum_chunk_bytes(self.chunk@.take(j as int)) > usize::MAX {
                    usize::MAX as int
                } else {
                    emb_total + sum_chunk_bytes(self.chunk@.take(j as int))
                },
            decreases self.chunk@.len() - j,
        {
            proof {
                lemma_sum_chunk_nonneg(self.chunk@.take(j as int));
                assert(self.chunk@.take(j + 1).drop_last() =~= self.chunk@.take(j as int));
            }
            let term: usize = self.chunk[j].as_str().as_bytes().len();
            proof {
                assert(self.chunk@.take(j + 1).last() == self.chunk@[j as int]);
            }
            acc = acc.saturating_add(term);
            j = j + 1;
        }
        proof {
            assert(self.chunk@.take(self.chunk@.len() as int) =~= self.chunk@);
        }
        acc
    }

    /// Gets one vector by index; `None` past the end.
    pub fn get_vector(&self, index: usize) -> (r: Option<&Vec<u32>>)
        ensures
            match r {
                Some(v) => index < self.embedding@.len() && v == self.embedding@[index as int],
                None => index >= self.embedding@.len(),
            },
    {
        if index < self.embedding.len() {
            Some(&self.embedding[index])
        } else {
            None
        }
    }

    /// Gets one text chunk by index; `None` past the end.
    pub fn get_chunk(&self, index: usize) -> (r: Option<&String>)
        ensures
            match r {
                Some(c) => index < self.chunk@.len() && c == self.chunk@[index as int],
                None => index >= self.chunk@.len(),
            },
    {
        if index < self.chunk.len() {
            Some(&self.chunk[index])
        } else {
            None
        }
    }
}

impl EmbeddingStore {
    /// Assembles a dataset from the byte contents of every candidate batch
    /// file. A file that fails to decode is skipped, never fatal; the
    /// surviving stores are flattened in the order given, each store's
    /// internal item order kept. Fails with `NotFound` exactly when there are
    /// no candidate files at all.
    #[verifier::loop_isolation(false)]
    pub fn read_binary(files: &Vec<Vec<u8>>) -> (r: Result<VectorData, StoreError>)
        ensures
            match r {
                Ok(vd) => {
                    let recs = kept_records(files_view(files@));
                    &&& files@.len() > 0
                    &&& vd.wf()
                    &&& chunks_view(vd.chunk@) == recs.map_values(|m: RecordModel| m.chunk)
                    &&& embeddings_view(vd.embedding@) == recs.map_values(
                        |m: RecordModel| m.embedding,
                    )
                    &&& vd.total_vectors == recs.len()
                },
                Err(e) => e == StoreError::NotFound && files@.len() == 0,
            },
    {
        broadcast use vstd::seq_lib::group_seq_properties;

        if files.len() == 0 {
            return Err(StoreError::NotFound);
        }
        let ghost fv = files_view(files@);
        let mut chunks: Vec<String> = Vec::new();
        let mut embeddings: Vec<Vec<u32>> = Vec::new();
        let mut i: usize = 0;
        while i < files.len()
            invariant
                0 <= i <= files@.len(),
                chunks@.len() == embeddings@.len(),
                chunks_view(chunks@) == kept_records(fv.take(i as int)).map_values(
                    |m: RecordModel| m.chunk,
                ),
                embeddings_view(embeddings@) == kept_records(fv.take(i as int)).map_values(
                    |m: RecordModel| m.embedding,
                ),
            decreases files@.len() - i,
        {
            let ghost pre_chunks = chunks@;
            let ghost pre_embeddings = embeddings@;
            let ghost pred = |b: Seq<u8>| spec_decode_ok(b);
            proof {
                assert(fv.take(i + 1) =~= fv.take(i as int).push(files@[i as int]@));
                Seq::lemma_filter_push(fv.take(i as int), files@[i as int]@, pred);
            }
            match Self::decode_binary(&files[i]) {
                Ok(store) => {
                    let mut j: usize = 0;
                    while j < store.items.len()
                        invariant
                            0 <= j <= store.items@.len(),
                            chunks@.len() == embeddings@.len(),
                            chunks_view(chunks@) == chunks_view(pre_chunks) + records_view(
                                store.items@,
                            ).take(j as int).map_values(|m: RecordModel| m.chunk),
                            embeddings_view(embeddings@) == embeddings_view(pre_embeddings)
                                + records_view(store.items@).take(j as int).map_values(
                                |m: RecordModel| m.embedding,
                            ),
                        decreases store.items@.len() - j,
                    {
                        let ghost c0 = chunks@;
                        let ghost e0 = embeddings@;
                        chunks.push(store.items[j].chunk.clone());
                        embeddings.push(store.items[j].embedding.clone());
                        proof {
                            let m = store.items@[j as int]@;
                            assert(embeddings@[e0.len() as int]@ =~= m.embedding);
                            assert(chunks_view(chunks@) =~= chunks_view(c0).push(m.chunk));
                            assert(embeddings_view(embeddings@) =~= embeddings_view(e0).push(
                                m.embedding,
                            ));
                            assert(records_view(store.items@).take(j + 1) =~= records_view(
                                store.items@,
                            ).take(j as int).push(m));
                            assert(records_view(store.items@).take(j + 1).map_values(
                                |m: RecordModel| m.chunk,
                            ) =~= records_view(store.items@).take(j as int).map_values(
                                |m: RecordModel| m.chunk,
                            ).push(m.chunk));
                            assert(records_view(store.items@).take(j + 1).map_values(
                                |m: RecordModel| m.embedding,
                            ) =~= records_view(store.items@).take(j as int).map_values(
                                |m: RecordModel| m.embedding,
                            ).push(m.embedding));
                        }
                        j = j + 1;
                    }
                    proof {
                        let items = records_view(store.items@);
                        assert(items.take(items.len() as int) =~= items);
                        assert(kept_items(fv.take(i + 1)) =~= kept_items(fv.take(i as int)).push(
                            items,
                        ));
                        kept_items(fv.take(i as int)).lemma_flatten_push(items);
                        assert(kept_records(fv.take(i + 1)).map_values(|m: RecordModel| m.chunk)
                            =~= kept_records(fv.take(i as int)).map_values(
                            |m: RecordModel| m.chunk,
                        ) + items.map_values(|m: RecordModel| m.chunk));
                        assert(kept_records(fv.take(i + 1)).map_values(
                            |m: RecordModel| m.embedding,
                        ) =~= kept_records(fv.take(i as int)).map_values(
                            |m: RecordModel| m.embedding,
                        ) + items.map_values(|m: RecordModel| m.embedding));
                    }
                },
                Err(_) => {
                    proof {
                        assert(kept_items(fv.take(i + 1)) =~= kept_items(fv.take(i as int)));
                    }
                },
            }
            i = i + 1;
        }
        proof {
            assert(fv.take(files@.len() as int) =~= fv);
        }
        let total_vectors = embeddings.len();
        let dimensions = if embeddings.len() > 0 {
            embeddings[0].len()
        } else {
            0
        };
        Ok(VectorData { chunk: chunks, embedding: embeddings, dimensions, total_vectors })
    }
}

} // verus!
