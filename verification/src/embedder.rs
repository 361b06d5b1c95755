use vstd::prelude::*;

verus! {

/// The mathematical model of one embedding record: the position of the chunk
/// in its request batch, the chunk's text, the vector as exact 32-bit float
/// bit patterns, and the recorded dimension count.
#[verifier::ext_equal]
pub ghost struct RecordModel {
    pub index: u64,
    pub chunk: Seq<char>,
    pub embedding: Seq<u32>,
    pub dimensions: u64,
}

/// One (chunk, vector) pair as produced by an embedding round-trip.
///
/// `embedding` holds the exact bit patterns of the 32-bit float coordinates;
/// `dimensions` is expected to equal `embedding.len()` for records built by
/// this library, though decoded files are taken as they are.
#[derive(Debug, Clone, PartialEq)]
pub struct EmbeddingData {
    pub index: usize,
    pub chunk: String,
    pub embedding: Vec<u32>,
    pub dimensions: usize,
}

impl View for EmbeddingData {
    type V = RecordModel;

    open spec fn view(&self) -> RecordModel {
        RecordModel {
            index: self.index as u64,
            chunk: self.chunk@,
            embedding: self.embedding@,
            dimensions: self.dimensions as u64,
        }
    }
}

/// An ordered embedding response: one record per input chunk that the
/// provider answered for (possibly fewer than the inputs).
#[derive(Debug, Clone)]
pub struct Embeddings {
    pub data: Vec<EmbeddingData>,
}

/// The embedding provider's coordinates: where to send a batch of chunks and
/// which model to ask for. The HTTP call itself is outside work done by the
/// caller; `resolve_embeddings` turns what comes back into records.
#[derive(Debug, Clone)]
pub struct Provider {
    pub url: String,
    pub model: String,
}

impl Provider {
    /// Remembers the endpoint and the model; an empty model name falls back
    /// to a fixed default.
    pub fn new(url: String, model: String) -> (r: Provider)
        ensures
            r.url == url,
            model@.len() == 0 ==> r.model@ == "text-embedding-nomic-embed-text-v1.5"@,
            model@.len() > 0 ==> r.model == model,
    {
        if model.as_str().is_empty() {
            let default_model = "text-embedding-nomic-embed-text-v1.5";
            Provider { url, model: default_model.to_owned() }
        } else {
            Provider { url, model }
        }
    }
}

/// What one raw response record resolves to: the chunk looked up in the
/// request by the record's `index` (empty text when the index is out of
/// range) and `dimensions` set to the vector's length.
pub open spec fn resolved_record(chunks: Seq<Seq<char>>, m: RecordModel) -> RecordModel {
    RecordModel {
        index: m.index,
        chunk: if m.index < chunks.len() {
            chunks[m.index as int]
        } else {
            Seq::empty()
        },
        embedding: m.embedding,
        dimensions: m.embedding.len() as u64,
    }
}

/// The resolution of a whole response: records with an empty vector are
/// dropped, the rest are resolved in response order.
pub open spec fn resolved_records(chunks: Seq<Seq<char>>, data: Seq<RecordModel>) -> Seq<
    RecordModel,
> {
    data.filter(|m: RecordModel| m.embedding.len() > 0).map_values(
        |m: RecordModel| resolved_record(chunks, m),
    )
}

/// Resolves a raw embedding response against the request's chunks: drops
/// records whose vector is empty (a chunk the provider silently answered
/// with nothing), pairs each survivor with the chunk at its `index` — never
/// by position — and records its vector's length as its dimensions.
pub fn resolve_embeddings(chunks: &Vec<String>, data: &Vec<EmbeddingData>) -> (r: Vec<
    EmbeddingData,
>)
    ensures
        crate::storage::records_view(r@) == resolved_records(
            crate::storage::chunks_view(chunks@),
            crate::storage::records_view(data@),
        ),
{
    broadcast use vstd::seq_lib::group_seq_properties;

    let ghost cv = crate::storage::chunks_view(chunks@);
    let ghost dv = crate::storage::records_view(data@);
    let ghost keep_fn = |m: RecordModel| m.embedding.len() > 0;
    let ghost res_fn = |m: RecordModel| resolved_record(cv, m);
    let mut out: Vec<EmbeddingData> = Vec::new();
    let mut i: usize = 0;
    proof {
        assert(dv.take(0) =~= Seq::<RecordModel>::empty());
        reveal_with_fuel(Seq::filter, 2);
        assert(crate::storage::records_view(out@) =~= dv.take(0).filter(keep_fn).map_values(
            res_fn,
        ));
    }
    while i < data.len()
        invariant
            cv == crate::storage::chunks_view(chunks@),
            dv == crate::storage::records_view(data@),
            keep_fn == (|m: RecordModel| m.embedding.len() > 0),
            res_fn == (|m: RecordModel| resolved_record(cv, m)),
            i <= data@.len(),
            crate::storage::records_view(out@) == dv.take(i as int).filter(keep_fn).map_values(
                res_fn,
            ),
        decreases data@.len() - i,
    {
        let ghost pre_out = out@;
        proof {
            assert(dv.take(i + 1) =~= dv.take(i as int).push(dv[i as int]));
            Seq::lemma_filter_push(dv.take(i as int), dv[i as int], keep_fn);
        }
        if data[i].embedding.len() > 0 {
            let index = data[i].index;
            let chunk: String = if index < chunks.len() {
                chunks[index].clone()
            } else {
                String::new()
            };
            let embedding = data[i].embedding.clone();
            proof {
                assert(embedding@ =~= data@[i as int].embedding@);
            }
            let dimensions = embedding.len();
            let e = EmbeddingData { index, chunk, embedding, dimensions };
            out.push(e);
            proof {
                assert(e@ =~= resolved_record(cv, dv[i as int]));
                assert(crate::storage::records_view(out@) =~= crate::storage::records_view(
                    pre_out,
                ).push(e@));
                assert(dv.take(i + 1).filter(keep_fn).map_values(res_fn) =~= dv.take(
                    i as int,
                ).filter(keep_fn).map_values(res_fn).push(res_fn(dv[i as int])));
            }
        } else {
            proof {
                assert(dv.take(i + 1).filter(keep_fn) =~= dv.take(i as int).filter(keep_fn));
            }
        }
        i = i + 1;
    }
    proof {
        assert(dv.take(data@.len() as int) =~= dv);
    }
    out
}

} // verus!
