//! In-process film retrieval on top of the `aprender-rag` pipeline.
//!
//! Each film is indexed as one document (its description, titled with the
//! film's title). The pipeline splits documents into chunks; the chunk keys
//! it returns are mapped back to film ids here, and films are looked up by
//! id when a query returns chunks. A query's hits are de-duplicated per film
//! (a film's best-scoring chunk wins), ordered by score, highest first, and
//! cut to the requested count.

use vstd::prelude::*;
use std::collections::HashMap;
use aprender_rag::embed::MockEmbedder;
use aprender_rag::rerank::NoOpReranker;
use aprender_rag::RagPipeline;
use crate::film::{Film, FilmHitRecord};
use crate::fusion::{first_seen, lemma_first_seen_contains, lemma_first_seen_distinct};
use crate::rank::{score_key, score_key_of, order_by_key_desc, is_descending_order, ranks_before};

verus! {

broadcast use vstd::std_specs::hash::group_hash_axioms;

/// 384 dimensions: the width of BGE-small, so a real embedder can be
/// swapped in later without re-creating the collection.
pub const PIPELINE_DIM: usize = 384;
/// Chunk size of the recursive chunker, in characters. Film descriptions
/// are short, so each film almost always lands in a single chunk.
pub const CHUNK_SIZE: usize = 512;
/// Overlap between neighbouring chunks, in characters.
pub const CHUNK_OVERLAP: usize = 50;

/// `aprender_rag::Error`, the error type of the pipeline's operations;
/// opaque here.
#[verifier::external_type_specification]
#[verifier::external_body]
pub struct ExRagError(aprender_rag::Error);

/// The `aprender-rag` pipeline (recursive chunker, mock embedder, no-op
/// reranker, hybrid dense + sparse retrieval fused by reciprocal rank): a
/// store of indexed chunks. It is held opaquely, since `RagPipeline`'s type
/// parameters are bound by aprender-rag's own embedder and reranker traits;
/// what it holds is named by [`rag_chunks`], the settings it was built with
/// by [`rag_settings`].
#[verifier::external_body]
pub struct RagIndex {
    inner: RagPipeline<MockEmbedder, NoOpReranker>,
}

/// The chunks the pipeline's dense store holds, by key (the chunk's 128-bit
/// id): each chunk's title and text. These are the chunks a query can return.
pub uninterp spec fn rag_chunks(index: RagIndex) -> Map<u128, (Seq<char>, Seq<char>)>;

/// The settings the pipeline was built with: chunk size (in bytes of UTF-8),
/// chunk overlap, and embedding dimension.
pub uninterp spec fn rag_settings(index: RagIndex) -> (nat, nat, nat);

/// Number of UTF-8 bytes that encode `c`.
pub open spec fn utf8_width(c: char) -> nat {
    if (c as u32) < 0x80 {
        1
    } else if (c as u32) < 0x800 {
        2
    } else if (c as u32) < 0x10000 {
        3
    } else {
        4
    }
}

/// Number of UTF-8 bytes that encode `s` (what `str::len` returns).
pub open spec fn utf8_len(s: Seq<char>) -> nat
    decreases s.len(),
{
    if s.len() == 0 {
        0
    } else {
        utf8_len(s.drop_last()) + utf8_width(s.last())
    }
}

/// The texts of the chunks that aprender-rag's recursive chunker cuts
/// `content` into, in order, for a chunk size of `size` bytes and an
/// overlap of `overlap` bytes.
pub uninterp spec fn recursive_chunks(content: Seq<char>, size: nat, overlap: nat) -> Seq<Seq<char>>;

/// No key after position `i` of `keys` equals the key at `i`.
pub open spec fn last_in(keys: Seq<u128>, i: int) -> bool {
    forall|x: int| i < x < keys.len() ==> (#[trigger] keys[x]) != keys[i]
}

/// Indexing a document titled `title` with text `content` took the chunk
/// store from `before` to `after`, its chunks getting the keys `keys`: one
/// key per piece the recursive chunker cuts the text into (chunk size
/// `size`, overlap `overlap`); the store gains exactly those keys, every
/// other chunk is kept as it was, every new chunk carries the title and
/// its piece of the text (the last piece, where two pieces got the same
/// key), and a text of at most `size` bytes becomes a single chunk holding
/// the whole text.
pub open spec fn stored_document(
    before: Map<u128, (Seq<char>, Seq<char>)>,
    after: Map<u128, (Seq<char>, Seq<char>)>,
    keys: Seq<u128>,
    title: Seq<char>,
    content: Seq<char>,
    size: nat,
    overlap: nat,
) -> bool {
    &&& after.dom() == before.dom().union(keys.to_set())
    &&& forall|c: u128| #[trigger] before.dom().contains(c) && !keys.contains(c) ==> after[c] == before[c]
    &&& forall|c: u128| #[trigger] keys.contains(c) ==> after[c].0 == title
    &&& keys.len() == recursive_chunks(content, size, overlap).len()
    &&& forall|i: int| 0 <= i < keys.len() && #[trigger] last_in(keys, i)
        ==> after[keys[i]].1 == recursive_chunks(content, size, overlap)[i]
    &&& utf8_len(content) <= size ==> keys.len() == 1 && after[keys[0]].1 == content
}

/// How many candidates each of the dense and the sparse retriever hands to
/// fusion (aprender-rag's default).
pub open spec fn retriever_candidates() -> nat {
    50
}

/// `rs` is an answer of the pipeline holding `store` to a query for `k`
/// chunks: at most `k` distinct stored chunks, and at least as many as
/// `k`, the retriever's candidate count and the store allow; each carries a
/// fused (reciprocal rank) score that is a positive finite `f32`.
pub open spec fn retrieval_answer(store: Map<u128, (Seq<char>, Seq<char>)>, k: nat, rs: Seq<RetrievedChunk>) -> bool {
    &&& rs.len() <= k
    &&& (rs.len() >= k || rs.len() >= retriever_candidates() || rs.len() >= store.dom().len())
    &&& forall|i: int| 0 <= i < rs.len() ==> store.dom().contains(#[trigger] rs[i].chunk_key)
    &&& forall|i: int, j: int| 0 <= i < j < rs.len() ==> (#[trigger] rs[i]).chunk_key != (#[trigger] rs[j]).chunk_key
    &&& forall|i: int| 0 <= i < rs.len() ==> ((#[trigger] rs[i]).fused_bits matches Some(b) && 0 < b < 0x7f80_0000)
}

/// Whether `rs` is an answer that the pipeline holding `store` can give to
/// the query `query` for `k` chunks (the answer depends on hash-map order
/// among equal scores, so a query has a set of possible answers).
pub uninterp spec fn rag_answers_query(
    store: Map<u128, (Seq<char>, Seq<char>)>,
    query: Seq<char>,
    k: nat,
    rs: Seq<RetrievedChunk>,
) -> bool;

/// One chunk returned by a query: the chunk's key and the bit patterns of
/// the scores the retriever attached to it.
#[derive(Debug, Clone, Copy)]
pub struct RetrievedChunk {
    /// Key of the chunk (its 128-bit id).
    pub chunk_key: u128,
    /// Fused (reciprocal rank) score, if any.
    pub fused_bits: Option<u32>,
    /// Dense (vector) score, if any.
    pub dense_bits: Option<u32>,
    /// Sparse (BM25) score, if any.
    pub sparse_bits: Option<u32>,
}

/// Builds the pipeline with `RagPipelineBuilder`: a `RecursiveChunker` of
/// `chunk_size` bytes and `overlap`, a `MockEmbedder` of `dim` dimensions, a
/// `NoOpReranker` and the default fusion strategy (reciprocal rank fusion
/// with k = 60), then `RagPipelineBuilder::build`.
///
/// Trusted: `build` succeeds (it fails only without an embedder or a
/// reranker, and both are given), with an empty vector store, and the
/// pipeline keeps the settings it was given.
#[verifier::external_body]
fn rag_index_new(chunk_size: usize, overlap: usize, dim: usize) -> (r: Result<RagIndex, aprender_rag::Error>)
    ensures
        r is Ok,
        r matches Ok(index) ==> rag_chunks(index).dom() == Set::<u128>::empty(),
        r matches Ok(index) ==> rag_settings(index).0 == chunk_size,
        r matches Ok(index) ==> rag_settings(index).1 == overlap,
        r matches Ok(index) ==> rag_settings(index).2 == dim,
{
    aprender_rag::pipeline::RagPipelineBuilder::new()
        .chunker(aprender_rag::chunk::RecursiveChunker::new(chunk_size, overlap))
        .embedder(MockEmbedder::new(dim))
        .reranker(NoOpReranker::new())
        .fusion(aprender_rag::fusion::FusionStrategy::default())
        .build()
        .map(|inner| RagIndex { inner })
}

/// Calls `RagPipeline::index_document` on a `Document` with `content` and
/// title `title`, and hands back the keys of the chunks it returns.
///
/// Trusted: it fails exactly on an empty text (the recursive chunker refuses
/// it, before anything is stored); otherwise the chunker cuts the text into
/// the pieces named by [`recursive_chunks`], one chunk per piece, and every
/// chunk is embedded and stored under its own id, titled `title` (see
/// [`stored_document`]); a text of at most the chunk size in bytes is one
/// piece, the whole text. Which keys the chunks get is not stated: they are
/// random UUIDs, so a new key may even replace a stored chunk. The chunk
/// size must exceed the overlap: with a zero chunk size the chunker never
/// returns.
#[verifier::external_body]
fn rag_index_document(index: &mut RagIndex, content: &String, title: &String) -> (r: Result<Vec<u128>, aprender_rag::Error>)
    requires
        rag_settings(*old(index)).1 < rag_settings(*old(index)).0,
    ensures
        rag_settings(*final(index)) == rag_settings(*old(index)),
        (r is Ok) <==> content@.len() > 0,
        r is Err ==> rag_chunks(*final(index)) == rag_chunks(*old(index)),
        r matches Ok(keys) ==> keys@.len()
            == recursive_chunks(content@, rag_settings(*old(index)).0, rag_settings(*old(index)).1).len(),
        r matches Ok(keys) ==> stored_document(
            rag_chunks(*old(index)), rag_chunks(*final(index)), keys@, title@, content@,
            rag_settings(*old(index)).0, rag_settings(*old(index)).1),
{
    let doc = aprender_rag::Document::new(content.clone()).with_title(title.clone());
    index.inner.index_document(&doc).map(|chunks| chunks.iter().map(|c| c.id.0.as_u128()).collect())
}

/// Calls `RagPipeline::query(query, k)` and hands back, for each
/// `RetrievalResult`, its chunk's key and its scores' bit patterns.
///
/// Trusted: it fails exactly on an empty query (the mock embedder refuses
/// it); otherwise the answer is one of the query's possible answers
/// ([`rag_answers_query`]) and a [`retrieval_answer`]: the retriever scores
/// every stored vector and keeps the best 50, adds the sparse candidates,
/// fuses both by reciprocal rank (each chunk once, with a positive score),
/// keeps the first `2 * k` that the store holds, and the no-op reranker the
/// first `k` of those. Which chunks, in which order, is not stated: it
/// depends on hash-map iteration order among equal scores. `k` is bounded
/// because the pipeline asks the retriever for `2 * k` candidates.
#[verifier::external_body]
fn rag_query(index: &RagIndex, query: &str, k: usize) -> (r: Result<Vec<RetrievedChunk>, aprender_rag::Error>)
    requires
        k <= usize::MAX / 2,
    ensures
        (r is Ok) <==> query@.len() > 0,
        r matches Ok(rs) ==> retrieval_answer(rag_chunks(*index), k as nat, rs@),
        r matches Ok(rs) ==> rag_answers_query(rag_chunks(*index), query@, k as nat, rs@),
{
    index.inner.query(query, k).map(|results| results.iter().map(|r| RetrievedChunk {
        chunk_key: r.chunk.id.0.as_u128(),
        fused_bits: r.fused_score.map(|s| s.to_bits()),
        dense_bits: r.dense_score.map(|s| s.to_bits()),
        sparse_bits: r.sparse_score.map(|s| s.to_bits()),
    }).collect())
}

/// The `Display` text of an `aprender_rag::Error`. Nothing is stated of it.
#[verifier::external_body]
fn rag_error_message(e: &aprender_rag::Error) -> String {
    format!("{e}")
}

/// Errors of the film pipeline; each carries the underlying message.
#[derive(Debug, Clone)]
pub enum PipelineError {
    /// Building the pipeline failed.
    Build { message: String },
    /// Indexing the film with this id failed.
    Index { film_id: u64, message: String },
    /// Running a query failed.
    Query { message: String },
}

/// The best available score of a returned chunk: the fused score if
/// present, else the dense score, else the sparse score, else zero.
pub open spec fn chunk_score_bits(r: RetrievedChunk) -> u32 {
    match r.fused_bits {
        Some(b) => b,
        None => match r.dense_bits {
            Some(b) => b,
            None => match r.sparse_bits {
                Some(b) => b,
                None => 0u32,
            },
        },
    }
}

/// Computes [`chunk_score_bits`].
pub fn score_bits_of(r: &RetrievedChunk) -> (b: u32)
    ensures
        b == chunk_score_bits(*r),
{
    match r.fused_bits {
        Some(b) => b,
        None => match r.dense_bits {
            Some(b) => b,
            None => match r.sparse_bits {
                Some(b) => b,
                None => 0u32,
            },
        },
    }
}

/// The films map after indexing `films` in order: each film is stored under
/// its id, a later film replacing an earlier one with the same id.
pub open spec fn films_indexed(m: Map<u64, Film>, films: Seq<Film>) -> Map<u64, Film>
    decreases films.len(),
{
    if films.len() == 0 {
        m
    } else {
        films_indexed(m, films.drop_last()).insert(films.last().id, films.last())
    }
}

/// Every key of `keys` mapped to `id`.
pub open spec fn chunks_of(keys: Seq<u128>, id: u64) -> Map<u128, u64> {
    Map::new(|c: u128| keys.contains(c), |c: u128| id)
}

/// The chunk-to-film map `m` after the films were indexed, in order, as
/// documents whose chunks got the key lists `ks`: each key leads to the film
/// whose document returned it, a later one replacing an earlier one.
pub open spec fn chunks_recorded(m: Map<u128, u64>, films: Seq<Film>, ks: Seq<Seq<u128>>) -> Map<u128, u64>
    decreases films.len(),
{
    if films.len() == 0 || ks.len() == 0 {
        m
    } else {
        chunks_recorded(m, films.drop_last(), ks.drop_last()).union_prefer_right(chunks_of(ks.last(), films.last().id))
    }
}

/// Key `c` is among the key lists `ks`.
pub open spec fn in_some(ks: Seq<Seq<u128>>, c: u128) -> bool {
    exists|j: int| 0 <= j < ks.len() && (#[trigger] ks[j]).contains(c)
}

/// The `j`-th key list is the last of `ks` to hold key `c`.
pub open spec fn last_holder(ks: Seq<Seq<u128>>, j: int, c: u128) -> bool {
    &&& 0 <= j < ks.len()
    &&& ks[j].contains(c)
    &&& forall|l: int| j < l < ks.len() ==> !(#[trigger] ks[l]).contains(c)
}

/// Position `i` of the `j`-th key list holds the key's last write: no later
/// position of that list, and no later list, holds the same key.
pub open spec fn last_writer(ks: Seq<Seq<u128>>, j: int, i: int) -> bool {
    &&& 0 <= j < ks.len()
    &&& 0 <= i < ks[j].len()
    &&& last_in(ks[j], i)
    &&& forall|l: int| j < l < ks.len() ==> !(#[trigger] ks[l]).contains(ks[j][i])
}

/// The chunk store went from `before` to `after` by indexing each film's
/// description, titled with the film's title, in order, the chunks of the
/// `j`-th film getting the keys `ks[j]`, one per piece the recursive
/// chunker cuts the description into: the store gains exactly those keys,
/// other chunks are kept, a chunk carries the title and the piece of the
/// last film that wrote it, and a description of at most `size` bytes
/// became one chunk holding the whole description.
pub open spec fn films_stored(
    before: Map<u128, (Seq<char>, Seq<char>)>,
    after: Map<u128, (Seq<char>, Seq<char>)>,
    films: Seq<Film>,
    ks: Seq<Seq<u128>>,
    size: nat,
    overlap: nat,
) -> bool {
    &&& ks.len() == films.len()
    &&& forall|c: u128| #[trigger] after.dom().contains(c) <==> (before.dom().contains(c) || in_some(ks, c))
    &&& forall|c: u128| #[trigger] before.dom().contains(c) && !in_some(ks, c) ==> after[c] == before[c]
    &&& forall|j: int, c: u128| #[trigger] last_holder(ks, j, c) ==> {
        &&& after[c].0 == films[j].title@
        &&& (utf8_len(films[j].description@) <= size ==> after[c].1 == films[j].description@)
    }
    &&& forall|j: int| 0 <= j < films.len() ==>
        (#[trigger] ks[j]).len() == recursive_chunks(films[j].description@, size, overlap).len()
    &&& forall|j: int, i: int| #[trigger] last_writer(ks, j, i) ==>
        after[ks[j][i]].1 == recursive_chunks(films[j].description@, size, overlap)[i]
    &&& forall|j: int| 0 <= j < films.len() && utf8_len((#[trigger] films[j]).description@) <= size ==> ks[j].len() == 1
}

/// The ids of a list of films.
pub open spec fn film_ids(films: Seq<Film>) -> Set<u64> {
    films.map_values(|f: Film| f.id).to_set()
}

/// The best score of film `f` among `cands` (pairs of film id and score
/// bits, in the order the chunks came back): the first of its highest
/// scores, or `None` when the film is not among them.
pub open spec fn best_bits(cands: Seq<(u64, u32)>, f: u64) -> Option<u32>
    decreases cands.len(),
{
    if cands.len() == 0 {
        None
    } else {
        let prev = best_bits(cands.drop_last(), f);
        let last = cands.last();
        if last.0 == f {
            match prev {
                None => Some(last.1),
                Some(b) => if score_key(last.1) > score_key(b) { Some(last.1) } else { prev },
            }
        } else {
            prev
        }
    }
}

/// One entry per film among `cands`, in order of first appearance, with the
/// film's best score.
pub open spec fn scored_films(cands: Seq<(u64, u32)>) -> Seq<(u64, u32)> {
    first_seen(cands).map_values(|f: u64| (f, best_bits(cands, f).unwrap()))
}

/// The order keys of the films' scores.
pub open spec fn film_score_keys(scored: Seq<(u64, u32)>) -> Seq<u32> {
    scored.map_values(|p: (u64, u32)| score_key(p.1))
}

/// `hits` are the first `top_k` of `scored` (at most all of them), ordered
/// by score, highest first, films with equal scores in order of first
/// appearance; each hit carries its film's title from `films`.
pub open spec fn hits_rank(films: Map<u64, Film>, scored: Seq<(u64, u32)>, top_k: nat, hits: Seq<FilmHitRecord>) -> bool {
    &&& hits.len() == (if top_k < scored.len() { top_k } else { scored.len() })
    &&& exists|order: Seq<usize>| {
        &&& #[trigger] is_descending_order(film_score_keys(scored), order)
        &&& forall|i: int| 0 <= i < hits.len() ==> {
            &&& (#[trigger] hits[i]).id == scored[order[i] as int].0
            &&& hits[i].score_bits == scored[order[i] as int].1
            &&& hits[i].title@ == films[hits[i].id].title@
        }
    }
}

proof fn lemma_best_bits_absent(cands: Seq<(u64, u32)>, f: u64)
    requires
        !first_seen(cands).contains(f),
    ensures
        best_bits(cands, f) is None,
    decreases cands.len(),
{
    if cands.len() > 0 {
        lemma_first_seen_contains(cands, f);
        lemma_first_seen_contains(cands.drop_last(), f);
        if first_seen(cands.drop_last()).contains(f) {
            let k = choose|k: int| 0 <= k < cands.drop_last().len() && (#[trigger] cands.drop_last()[k]).0 == f;
            assert(cands[k].0 == f);
        }
        assert(cands[cands.len() - 1].0 != f);
        lemma_best_bits_absent(cands.drop_last(), f);
    }
}

proof fn lemma_best_bits_present(cands: Seq<(u64, u32)>, f: u64)
    requires
        first_seen(cands).contains(f),
    ensures
        best_bits(cands, f) is Some,
    decreases cands.len(),
{
    if cands.len() > 0 {
        let prev = cands.drop_last();
        if cands.last().0 != f {
            lemma_first_seen_contains(cands, f);
            lemma_first_seen_contains(prev, f);
            let k = choose|k: int| 0 <= k < cands.len() && (#[trigger] cands[k]).0 == f;
            assert(k < cands.len() - 1);
            assert(prev[k].0 == f);
            lemma_best_bits_present(prev, f);
        }
    }
}

proof fn lemma_films_stored_step(
    before: Map<u128, (Seq<char>, Seq<char>)>,
    mid: Map<u128, (Seq<char>, Seq<char>)>,
    after: Map<u128, (Seq<char>, Seq<char>)>,
    films: Seq<Film>,
    ks: Seq<Seq<u128>>,
    keys: Seq<u128>,
    f: Film,
    size: nat,
    overlap: nat,
)
    requires
        films_stored(before, mid, films, ks, size, overlap),
        stored_document(mid, after, keys, f.title@, f.description@, size, overlap),
    ensures
        films_stored(before, after, films.push(f), ks.push(keys), size, overlap),
{
    let ks1 = ks.push(keys);
    let films1 = films.push(f);
    let n = ks.len() as int;
    assert forall|c: u128| #[trigger] in_some(ks1, c) <==> (in_some(ks, c) || keys.contains(c)) by {
        if in_some(ks1, c) {
            let j = choose|j: int| 0 <= j < ks1.len() && (#[trigger] ks1[j]).contains(c);
            if j < n {
                assert(ks[j] == ks1[j]);
            }
        }
        if in_some(ks, c) {
            let j = choose|j: int| 0 <= j < ks.len() && (#[trigger] ks[j]).contains(c);
            assert(ks1[j] == ks[j]);
        }
        if keys.contains(c) {
            assert(ks1[n] == keys);
        }
    }
    assert forall|c: u128| #[trigger] after.dom().contains(c) <==> (before.dom().contains(c) || in_some(ks1, c)) by {
        assert(keys.to_set().contains(c) <==> keys.contains(c));
        assert(mid.dom().contains(c) <==> (before.dom().contains(c) || in_some(ks, c)));
    }
    assert forall|c: u128| #[trigger] before.dom().contains(c) && !in_some(ks1, c) implies after[c] == before[c] by {
        assert(mid.dom().contains(c));
        assert(!keys.contains(c));
    }
    assert forall|j: int, c: u128| #[trigger] last_holder(ks1, j, c) implies {
        &&& after[c].0 == films1[j].title@
        &&& (utf8_len(films1[j].description@) <= size ==> after[c].1 == films1[j].description@)
    } by {
        if j == n {
            assert(ks1[j] == keys);
            assert(films1[j] == f);
            if utf8_len(f.description@) <= size {
                assert(keys.len() == 1);
                let x = choose|x: int| 0 <= x < keys.len() && keys[x] == c;
                assert(x == 0);
            }
        } else {
            assert(ks1[n] == keys);
            assert(!keys.contains(c));
            assert(ks1[j] == ks[j]);
            assert(films1[j] == films[j]);
            assert forall|l: int| j < l < ks.len() implies !(#[trigger] ks[l]).contains(c) by {
                assert(ks1[l] == ks[l]);
            }
            assert(last_holder(ks, j, c));
            assert(in_some(ks, c));
            assert(mid.dom().contains(c));
        }
    }
    assert forall|j: int| 0 <= j < films1.len() implies
        (#[trigger] ks1[j]).len() == recursive_chunks(films1[j].description@, size, overlap).len() by {
        if j < n {
            assert(films1[j] == films[j]);
            assert(ks1[j] == ks[j]);
        } else {
            assert(ks1[j] == keys);
        }
    }
    assert forall|j: int, i: int| #[trigger] last_writer(ks1, j, i) implies
        after[ks1[j][i]].1 == recursive_chunks(films1[j].description@, size, overlap)[i] by {
        if j == n {
            assert(ks1[j] == keys);
            assert(films1[j] == f);
            assert(last_in(keys, i));
        } else {
            let c = ks1[j][i];
            assert(ks1[n] == keys);
            assert(!keys.contains(c));
            assert(ks1[j] == ks[j]);
            assert(films1[j] == films[j]);
            assert forall|l: int| j < l < ks.len() implies !(#[trigger] ks[l]).contains(c) by {
                assert(ks1[l] == ks[l]);
            }
            assert(last_writer(ks, j, i));
            assert(ks[j].contains(c));
            assert(in_some(ks, c));
            assert(mid.dom().contains(c));
        }
    }
    assert forall|j: int| 0 <= j < films1.len() && utf8_len((#[trigger] films1[j]).description@) <= size implies ks1[j].len() == 1 by {
        if j < n {
            assert(films1[j] == films[j]);
            assert(ks1[j] == ks[j]);
        } else {
            assert(ks1[j] == keys);
        }
    }
}

/// The hits of a query are distinct indexed films, at most `top_k` of them,
/// ordered by score from highest to lowest.
pub proof fn law_hits_are_distinct_indexed_films_in_score_order(
    films: Map<u64, Film>,
    cands: Seq<(u64, u32)>,
    top_k: nat,
    hits: Seq<FilmHitRecord>,
)
    requires
        hits_rank(films, scored_films(cands), top_k, hits),
        forall|k: int| 0 <= k < cands.len() ==> films.contains_key(#[trigger] cands[k].0),
    ensures
        hits.len() <= top_k,
        forall|i: int| 0 <= i < hits.len() ==> films.contains_key(#[trigger] hits[i].id),
        forall|i: int, j: int| 0 <= i < j < hits.len() ==> (#[trigger] hits[i]).id != (#[trigger] hits[j]).id,
        forall|i: int, j: int| 0 <= i < j < hits.len() ==>
            score_key((#[trigger] hits[i]).score_bits) >= score_key((#[trigger] hits[j]).score_bits),
{
    let scored = scored_films(cands);
    let fs = first_seen(cands);
    let order = choose|order: Seq<usize>| {
        &&& #[trigger] is_descending_order(film_score_keys(scored), order)
        &&& forall|i: int| 0 <= i < hits.len() ==> {
            &&& (#[trigger] hits[i]).id == scored[order[i] as int].0
            &&& hits[i].score_bits == scored[order[i] as int].1
            &&& hits[i].title@ == films[hits[i].id].title@
        }
    };
    lemma_first_seen_distinct(cands);
    assert forall|i: int| 0 <= i < hits.len() implies films.contains_key(#[trigger] hits[i].id) by {
        let g = order[i] as int;
        assert(scored[g].0 == fs[g]);
        lemma_first_seen_contains(cands, fs[g]);
        assert(fs.contains(fs[g]));
        let k = choose|k: int| 0 <= k < cands.len() && (#[trigger] cands[k]).0 == fs[g];
    }
    assert forall|i: int, j: int| 0 <= i < j < hits.len() implies (#[trigger] hits[i]).id != (#[trigger] hits[j]).id by {
        assert(ranks_before(film_score_keys(scored), order[i] as int, order[j] as int));
        assert(order[i] != order[j]);
        assert(scored[order[i] as int].0 == fs[order[i] as int]);
        assert(scored[order[j] as int].0 == fs[order[j] as int]);
    }
    assert forall|i: int, j: int| 0 <= i < j < hits.len() implies
        score_key((#[trigger] hits[i]).score_bits) >= score_key((#[trigger] hits[j]).score_bits) by {
        assert(ranks_before(film_score_keys(scored), order[i] as int, order[j] as int));
    }
}

proof fn lemma_candidates_are_indexed(p: &FilmRagPipeline, rs: Seq<RetrievedChunk>)
    ensures
        forall|k: int| 0 <= k < p.candidates(rs).len() ==> p.films().contains_key(#[trigger] p.candidates(rs)[k].0),
    decreases rs.len(),
{
    if rs.len() > 0 {
        let prev = rs.drop_last();
        lemma_candidates_are_indexed(p, prev);
        let pc = p.candidates(prev);
        let c = p.candidates(rs);
        assert forall|k: int| 0 <= k < c.len() implies p.films().contains_key(#[trigger] c[k].0) by {
            if k < pc.len() {
                assert(c[k] == pc[k]);
            }
        }
    }
}

/// What a search answers: at most `top_k` hits, each an indexed film (with
/// that film's title), no film twice, ordered by score from highest to
/// lowest.
pub proof fn law_search_hits_are_ranked_indexed_films(
    p: &FilmRagPipeline,
    query: Seq<char>,
    rs: Seq<RetrievedChunk>,
    top_k: nat,
    hits: Seq<FilmHitRecord>,
)
    requires
        p.well_formed(),
        p.answers_with(query, rs, top_k, hits),
    ensures
        hits.len() <= top_k,
        forall|i: int| 0 <= i < hits.len() ==> p.films().contains_key(#[trigger] hits[i].id),
        forall|i: int| 0 <= i < hits.len() ==> p.films()[(#[trigger] hits[i]).id].id == hits[i].id,
        forall|i: int| 0 <= i < hits.len() ==> (#[trigger] hits[i]).title@ == p.films()[hits[i].id].title@,
        forall|i: int, j: int| 0 <= i < j < hits.len() ==> (#[trigger] hits[i]).id != (#[trigger] hits[j]).id,
        forall|i: int, j: int| 0 <= i < j < hits.len() ==>
            score_key((#[trigger] hits[i]).score_bits) >= score_key((#[trigger] hits[j]).score_bits),
{
    let cands = p.candidates(rs);
    lemma_candidates_are_indexed(p, rs);
    law_hits_are_distinct_indexed_films_in_score_order(p.films(), cands, top_k, hits);
    let scored = scored_films(cands);
    let order = choose|order: Seq<usize>| {
        &&& #[trigger] is_descending_order(film_score_keys(scored), order)
        &&& forall|i: int| 0 <= i < hits.len() ==> {
            &&& (#[trigger] hits[i]).id == scored[order[i] as int].0
            &&& hits[i].score_bits == scored[order[i] as int].1
            &&& hits[i].title@ == p.films()[hits[i].id].title@
        }
    };
    assert forall|i: int| 0 <= i < hits.len() implies (#[trigger] hits[i]).title@ == p.films()[hits[i].id].title@ by {}
}

/// Hits only carry ids of indexed films: when every indexed film has a
/// positive id (as Sakila's auto-increment keys do), so does every hit.
pub proof fn law_hit_ids_are_positive_when_film_ids_are(
    p: &FilmRagPipeline,
    query: Seq<char>,
    rs: Seq<RetrievedChunk>,
    top_k: nat,
    hits: Seq<FilmHitRecord>,
)
    requires
        p.well_formed(),
        p.answers_with(query, rs, top_k, hits),
        forall|id: u64| #[trigger] p.films().contains_key(id) ==> p.films()[id].id > 0,
    ensures
        forall|i: int| 0 <= i < hits.len() ==> (#[trigger] hits[i]).id > 0,
{
    law_search_hits_are_ranked_indexed_films(p, query, rs, top_k, hits);
    assert forall|i: int| 0 <= i < hits.len() implies (#[trigger] hits[i]).id > 0 by {
        assert(p.films().contains_key(hits[i].id));
    }
}

proof fn lemma_candidates_resolve_all(p: &FilmRagPipeline, rs: Seq<RetrievedChunk>)
    requires
        p.well_formed(),
        forall|i: int| 0 <= i < rs.len() ==> rag_chunks(p.rag()).dom().contains(#[trigger] rs[i].chunk_key),
    ensures
        p.candidates(rs).len() == rs.len(),
        forall|i: int| 0 <= i < rs.len() ==>
            #[trigger] p.candidates(rs)[i] == (p.chunk_films()[rs[i].chunk_key], chunk_score_bits(rs[i])),
    decreases rs.len(),
{
    if rs.len() > 0 {
        let prev = rs.drop_last();
        assert forall|i: int| 0 <= i < prev.len() implies rag_chunks(p.rag()).dom().contains(#[trigger] prev[i].chunk_key) by {
            assert(prev[i] == rs[i]);
        }
        lemma_candidates_resolve_all(p, prev);
        let last = rs.last();
        assert(rag_chunks(p.rag()).dom().contains(rs[rs.len() - 1].chunk_key));
        assert(p.chunk_films().contains_key(last.chunk_key));
        assert(p.resolve(last.chunk_key) == Some(p.chunk_films()[last.chunk_key]));
        assert forall|i: int| 0 <= i < rs.len() implies
            #[trigger] p.candidates(rs)[i] == (p.chunk_films()[rs[i].chunk_key], chunk_score_bits(rs[i])) by {
            if i < rs.len() - 1 {
                assert(prev[i] == rs[i]);
                assert(p.candidates(prev)[i] == p.candidates(rs)[i]);
            }
        }
    }
}

proof fn lemma_first_seen_of_distinct<X>(e: Seq<(u64, X)>)
    requires
        forall|i: int, j: int| 0 <= i < j < e.len() ==> (#[trigger] e[i]).0 != (#[trigger] e[j]).0,
    ensures
        first_seen(e).len() == e.len(),
    decreases e.len(),
{
    if e.len() > 0 {
        let prev = e.drop_last();
        assert forall|i: int, j: int| 0 <= i < j < prev.len() implies (#[trigger] prev[i]).0 != (#[trigger] prev[j]).0 by {
            assert(prev[i] == e[i]);
            assert(prev[j] == e[j]);
        }
        lemma_first_seen_of_distinct(prev);
        lemma_first_seen_contains(prev, e.last().0);
        if first_seen(prev).contains(e.last().0) {
            let k = choose|k: int| 0 <= k < prev.len() && (#[trigger] prev[k]).0 == e.last().0;
            assert(e[k] == prev[k]);
            assert(e[k].0 != e[e.len() - 1].0);
        }
    }
}

/// Top-k honoured: when every chunk the pipeline holds leads to a different
/// film (each film indexed as one chunk) and it holds at least `top_k`
/// chunks, a search for `top_k` films, at most the retriever's candidate
/// count, answers exactly `top_k` hits.
pub proof fn law_top_k_is_honoured(
    p: &FilmRagPipeline,
    query: Seq<char>,
    rs: Seq<RetrievedChunk>,
    top_k: nat,
    hits: Seq<FilmHitRecord>,
)
    requires
        p.well_formed(),
        p.answers_with(query, rs, top_k, hits),
        p.chunks_lead_to_distinct_films(),
        top_k <= retriever_candidates(),
        rag_chunks(p.rag()).dom().len() >= top_k,
    ensures
        hits.len() == top_k,
{
    lemma_candidates_resolve_all(p, rs);
    let cands = p.candidates(rs);
    assert forall|i: int, j: int| 0 <= i < j < cands.len() implies (#[trigger] cands[i]).0 != (#[trigger] cands[j]).0 by {
        assert(rs[i].chunk_key != rs[j].chunk_key);
        assert(rag_chunks(p.rag()).dom().contains(rs[i].chunk_key));
        assert(rag_chunks(p.rag()).dom().contains(rs[j].chunk_key));
        assert(p.chunk_films()[rs[i].chunk_key] != p.chunk_films()[rs[j].chunk_key]);
    }
    lemma_first_seen_of_distinct(cands);
    assert(scored_films(cands).len() == cands.len());
}

proof fn lemma_candidates_positive(p: &FilmRagPipeline, rs: Seq<RetrievedChunk>)
    requires
        forall|i: int| 0 <= i < rs.len() ==> ((#[trigger] rs[i]).fused_bits matches Some(b) && 0 < b < 0x7f80_0000),
    ensures
        forall|k: int| 0 <= k < p.candidates(rs).len() ==> 0 < (#[trigger] p.candidates(rs)[k]).1 < 0x7f80_0000,
    decreases rs.len(),
{
    if rs.len() > 0 {
        let prev = rs.drop_last();
        assert forall|i: int| 0 <= i < prev.len() implies ((#[trigger] prev[i]).fused_bits matches Some(b) && 0 < b < 0x7f80_0000) by {
            assert(prev[i] == rs[i]);
        }
        lemma_candidates_positive(p, prev);
        assert(rs[rs.len() - 1].fused_bits matches Some(b) && 0 < b < 0x7f80_0000);
        let c = p.candidates(rs);
        let pc = p.candidates(prev);
        assert forall|k: int| 0 <= k < c.len() implies 0 < (#[trigger] c[k]).1 < 0x7f80_0000 by {
            if k < pc.len() {
                assert(c[k] == pc[k]);
            }
        }
    }
}

proof fn lemma_best_bits_positive(cands: Seq<(u64, u32)>, f: u64)
    requires
        forall|k: int| 0 <= k < cands.len() ==> 0 < (#[trigger] cands[k]).1 < 0x7f80_0000,
    ensures
        best_bits(cands, f) matches Some(b) ==> 0 < b < 0x7f80_0000,
    decreases cands.len(),
{
    if cands.len() > 0 {
        let prev = cands.drop_last();
        assert forall|k: int| 0 <= k < prev.len() implies 0 < (#[trigger] prev[k]).1 < 0x7f80_0000 by {
            assert(prev[k] == cands[k]);
        }
        lemma_best_bits_positive(prev, f);
        assert(0 < cands[cands.len() - 1].1 < 0x7f80_0000);
    }
}

/// Every hit of a search carries a positive, finite score (the fused
/// reciprocal-rank score of its best chunk); in particular the top score is
/// not negative.
pub proof fn law_search_scores_are_positive(
    p: &FilmRagPipeline,
    query: Seq<char>,
    rs: Seq<RetrievedChunk>,
    top_k: nat,
    hits: Seq<FilmHitRecord>,
)
    requires
        p.well_formed(),
        p.answers_with(query, rs, top_k, hits),
    ensures
        forall|i: int| 0 <= i < hits.len() ==> 0 < (#[trigger] hits[i]).score_bits < 0x7f80_0000,
{
    let cands = p.candidates(rs);
    lemma_candidates_positive(p, rs);
    let scored = scored_films(cands);
    let fs = first_seen(cands);
    let order = choose|order: Seq<usize>| {
        &&& #[trigger] is_descending_order(film_score_keys(scored), order)
        &&& forall|i: int| 0 <= i < hits.len() ==> {
            &&& (#[trigger] hits[i]).id == scored[order[i] as int].0
            &&& hits[i].score_bits == scored[order[i] as int].1
            &&& hits[i].title@ == p.films()[hits[i].id].title@
        }
    };
    assert forall|i: int| 0 <= i < hits.len() implies 0 < (#[trigger] hits[i]).score_bits < 0x7f80_0000 by {
        let g = order[i] as int;
        assert(0 <= g < scored.len());
        assert(fs.contains(fs[g]));
        lemma_best_bits_present(cands, fs[g]);
        lemma_best_bits_positive(cands, fs[g]);
        assert(scored[g].1 == best_bits(cands, fs[g]).unwrap());
    }
}

/// The key of each key list's first chunk.
pub open spec fn single_keys(ks: Seq<Seq<u128>>) -> Seq<u128> {
    ks.map_values(|k: Seq<u128>| k[0])
}

proof fn lemma_chunks_recorded_single(m: Map<u128, u64>, films: Seq<Film>, ks: Seq<Seq<u128>>)
    requires
        ks.len() == films.len(),
        forall|j: int| 0 <= j < ks.len() ==> (#[trigger] ks[j]).len() == 1,
        single_keys(ks).no_duplicates(),
    ensures
        forall|j: int| 0 <= j < films.len() ==> {
            &&& chunks_recorded(m, films, ks).contains_key(#[trigger] ks[j][0])
            &&& chunks_recorded(m, films, ks)[ks[j][0]] == films[j].id
        },
    decreases films.len(),
{
    if films.len() > 0 {
        let n = films.len() - 1;
        let pf = films.drop_last();
        let pk = ks.drop_last();
        assert(single_keys(pk) =~= single_keys(ks).drop_last());
        assert forall|j: int| 0 <= j < pk.len() implies (#[trigger] pk[j]).len() == 1 by {
            assert(pk[j] == ks[j]);
        }
        lemma_chunks_recorded_single(m, pf, pk);
        let last = chunks_of(ks.last(), films.last().id);
        assert forall|j: int| 0 <= j < films.len() implies {
            &&& chunks_recorded(m, films, ks).contains_key(#[trigger] ks[j][0])
            &&& chunks_recorded(m, films, ks)[ks[j][0]] == films[j].id
        } by {
            assert(ks[n].contains(ks[n][0]));
            if j < n {
                assert(pk[j] == ks[j]);
                assert(pf[j] == films[j]);
                assert(single_keys(ks)[j] != single_keys(ks)[n]);
                if ks[n].contains(ks[j][0]) {
                    let x = choose|x: int| 0 <= x < ks[n].len() && ks[n][x] == ks[j][0];
                    assert(x == 0);
                }
                assert(!last.contains_key(ks[j][0]));
            }
        }
    }
}

/// Indexing films with distinct ids, whose descriptions each fit one chunk,
/// into a pipeline holding nothing, where the chunks got distinct keys,
/// leaves exactly one chunk per film, each leading to a different film.
pub proof fn law_single_chunk_films_are_held_once(
    before: FilmRagPipeline,
    after: FilmRagPipeline,
    films: Seq<Film>,
    ks: Seq<Seq<u128>>,
)
    requires
        rag_chunks(before.rag()).dom() == Set::<u128>::empty(),
        after.indexed_as(before, films, ks),
        forall|j: int| 0 <= j < films.len() ==> utf8_len((#[trigger] films[j]).description@) <= CHUNK_SIZE,
        forall|i: int, j: int| 0 <= i < j < films.len() ==> (#[trigger] films[i]).id != (#[trigger] films[j]).id,
        single_keys(ks).no_duplicates(),
    ensures
        rag_chunks(after.rag()).dom().len() == films.len(),
        after.chunks_lead_to_distinct_films(),
{
    let store = rag_chunks(after.rag());
    assert forall|j: int| 0 <= j < ks.len() implies (#[trigger] ks[j]).len() == 1 by {
        assert(utf8_len(films[j].description@) <= CHUNK_SIZE);
    }
    assert forall|c: u128| store.dom().contains(c) <==> #[trigger] single_keys(ks).to_set().contains(c) by {
        if store.dom().contains(c) {
            assert(in_some(ks, c));
            let j = choose|j: int| 0 <= j < ks.len() && (#[trigger] ks[j]).contains(c);
            let x = choose|x: int| 0 <= x < ks[j].len() && ks[j][x] == c;
            assert(x == 0);
            assert(single_keys(ks)[j] == c);
        }
        if single_keys(ks).to_set().contains(c) {
            let j = choose|j: int| 0 <= j < single_keys(ks).len() && single_keys(ks)[j] == c;
            assert(ks[j][0] == c);
            assert(ks[j].contains(c));
            assert(in_some(ks, c));
        }
    }
    assert(store.dom() =~= single_keys(ks).to_set());
    single_keys(ks).unique_seq_to_set();
    lemma_chunks_recorded_single(before.chunk_films(), films, ks);
    assert forall|c1: u128, c2: u128|
        store.dom().contains(c1) && store.dom().contains(c2) && c1 != c2
            implies #[trigger] after.chunk_films()[c1] != #[trigger] after.chunk_films()[c2] by {
        assert(single_keys(ks).to_set().contains(c1));
        assert(single_keys(ks).to_set().contains(c2));
        let j1 = choose|j: int| 0 <= j < single_keys(ks).len() && single_keys(ks)[j] == c1;
        let j2 = choose|j: int| 0 <= j < single_keys(ks).len() && single_keys(ks)[j] == c2;
        assert(ks[j1][0] == c1);
        assert(ks[j2][0] == c2);
        assert(j1 != j2);
        if j1 < j2 {
            assert(films[j1].id != films[j2].id);
        } else {
            assert(films[j2].id != films[j1].id);
        }
    }
}

/// A film's best score among candidates is one of its scores, and no score
/// of the film ranks higher; a film with no candidate has none.
pub proof fn law_best_score_is_the_films_highest(cands: Seq<(u64, u32)>, f: u64)
    ensures
        best_bits(cands, f) is None <==> forall|k: int| 0 <= k < cands.len() ==> (#[trigger] cands[k]).0 != f,
        best_bits(cands, f) matches Some(b) ==> {
            &&& exists|k: int| 0 <= k < cands.len() && #[trigger] cands[k] == (f, b)
            &&& forall|k: int| 0 <= k < cands.len() && (#[trigger] cands[k]).0 == f ==> score_key(cands[k].1) <= score_key(b)
        },
    decreases cands.len(),
{
    if cands.len() > 0 {
        let prev = cands.drop_last();
        let n = cands.len() - 1;
        law_best_score_is_the_films_highest(prev, f);
        assert forall|k: int| 0 <= k < prev.len() implies #[trigger] prev[k] == cands[k] by {}
        match best_bits(cands, f) {
            Some(b) => {
                if cands[n].0 == f && (best_bits(prev, f) is None || b == cands[n].1) {
                    assert(cands[n] == (f, b));
                } else {
                    let k = choose|k: int| 0 <= k < prev.len() && #[trigger] prev[k] == (f, b);
                    assert(cands[k] == (f, b));
                }
                assert forall|k: int| 0 <= k < cands.len() && (#[trigger] cands[k]).0 == f implies
                    score_key(cands[k].1) <= score_key(b) by {
                    if k < n {
                        assert(prev[k].0 == f);
                    }
                }
            },
            None => {
                assert forall|k: int| 0 <= k < cands.len() implies (#[trigger] cands[k]).0 != f by {
                    if k < n {
                        assert(prev[k] == cands[k]);
                    }
                }
            },
        }
        if forall|k: int| 0 <= k < cands.len() ==> (#[trigger] cands[k]).0 != f {
            assert forall|k: int| 0 <= k < prev.len() implies (#[trigger] prev[k]).0 != f by {
                assert(cands[k] == prev[k]);
            }
            assert(cands[n].0 != f);
        }
    }
}

proof fn lemma_candidates_include(p: &FilmRagPipeline, rs: Seq<RetrievedChunk>, j: int)
    requires
        0 <= j < rs.len(),
        p.resolve(rs[j].chunk_key) is Some,
    ensures
        exists|k: int| 0 <= k < p.candidates(rs).len()
            && #[trigger] p.candidates(rs)[k] == (p.resolve(rs[j].chunk_key)->0, chunk_score_bits(rs[j])),
    decreases rs.len(),
{
    let prev = rs.drop_last();
    let pc = p.candidates(prev);
    let c = p.candidates(rs);
    if j < rs.len() - 1 {
        assert(prev[j] == rs[j]);
        lemma_candidates_include(p, prev, j);
        let k = choose|k: int| 0 <= k < pc.len()
            && #[trigger] pc[k] == (p.resolve(prev[j].chunk_key)->0, chunk_score_bits(prev[j]));
        assert(c[k] == pc[k]);
    } else {
        assert(c[pc.len() as int] == (p.resolve(rs[j].chunk_key)->0, chunk_score_bits(rs[j])));
    }
}

proof fn lemma_candidate_source(p: &FilmRagPipeline, rs: Seq<RetrievedChunk>, k: int)
    requires
        0 <= k < p.candidates(rs).len(),
    ensures
        exists|j: int| 0 <= j < rs.len()
            && p.resolve(rs[j].chunk_key) == Some(p.candidates(rs)[k].0)
            && chunk_score_bits(#[trigger] rs[j]) == p.candidates(rs)[k].1,
    decreases rs.len(),
{
    let prev = rs.drop_last();
    let pc = p.candidates(prev);
    let c = p.candidates(rs);
    if k < pc.len() {
        assert(c[k] == pc[k]);
        lemma_candidate_source(p, prev, k);
        let j = choose|j: int| 0 <= j < prev.len()
            && p.resolve(prev[j].chunk_key) == Some(pc[k].0)
            && chunk_score_bits(#[trigger] prev[j]) == pc[k].1;
        assert(prev[j] == rs[j]);
    } else {
        let j = rs.len() - 1;
        assert(rs[j] == rs.last());
    }
}

/// Each film keeps its best chunk: a hit's score is the score of one of the
/// returned chunks of its film, and no returned chunk of that film scores
/// higher.
pub proof fn law_hit_keeps_its_films_best_chunk(
    p: &FilmRagPipeline,
    query: Seq<char>,
    rs: Seq<RetrievedChunk>,
    top_k: nat,
    hits: Seq<FilmHitRecord>,
)
    requires
        p.well_formed(),
        p.answers_with(query, rs, top_k, hits),
    ensures
        forall|i: int, j: int| 0 <= i < hits.len() && 0 <= j < rs.len() && p.resolve(rs[j].chunk_key) == Some((#[trigger] hits[i]).id)
            ==> score_key(chunk_score_bits(#[trigger] rs[j])) <= score_key(hits[i].score_bits),
        forall|i: int| 0 <= i < hits.len() ==> exists|j: int| 0 <= j < rs.len()
            && p.resolve(rs[j].chunk_key) == Some((#[trigger] hits[i]).id) && chunk_score_bits(rs[j]) == hits[i].score_bits,
{
    let cands = p.candidates(rs);
    let scored = scored_films(cands);
    let fs = first_seen(cands);
    let order = choose|order: Seq<usize>| {
        &&& #[trigger] is_descending_order(film_score_keys(scored), order)
        &&& forall|i: int| 0 <= i < hits.len() ==> {
            &&& (#[trigger] hits[i]).id == scored[order[i] as int].0
            &&& hits[i].score_bits == scored[order[i] as int].1
            &&& hits[i].title@ == p.films()[hits[i].id].title@
        }
    };
    assert forall|i: int, j: int| 0 <= i < hits.len() && 0 <= j < rs.len() && p.resolve(rs[j].chunk_key) == Some((#[trigger] hits[i]).id)
        implies score_key(chunk_score_bits(#[trigger] rs[j])) <= score_key(hits[i].score_bits) by {
        let g = order[i] as int;
        lemma_best_bits_present(cands, fs[g]);
        law_best_score_is_the_films_highest(cands, fs[g]);
        lemma_candidates_include(p, rs, j);
        let k = choose|k: int| 0 <= k < cands.len()
            && #[trigger] cands[k] == (p.resolve(rs[j].chunk_key)->0, chunk_score_bits(rs[j]));
        assert(cands[k].0 == fs[g]);
    }
    assert forall|i: int| 0 <= i < hits.len() implies exists|j: int| 0 <= j < rs.len()
        && p.resolve(rs[j].chunk_key) == Some((#[trigger] hits[i]).id) && chunk_score_bits(rs[j]) == hits[i].score_bits by {
        let g = order[i] as int;
        assert(fs.contains(fs[g]));
        lemma_best_bits_present(cands, fs[g]);
        law_best_score_is_the_films_highest(cands, fs[g]);
        let b = best_bits(cands, fs[g])->0;
        let k = choose|k: int| 0 <= k < cands.len() && #[trigger] cands[k] == (fs[g], b);
        lemma_candidate_source(p, rs, k);
    }
}

/// Indexing stores each film under its id: an id is indexed exactly when
/// it was before or is the id of one of the films.
pub proof fn law_indexed_ids(m: Map<u64, Film>, films: Seq<Film>, id: u64)
    ensures
        films_indexed(m, films).contains_key(id) <==>
            (m.contains_key(id) || exists|j: int| 0 <= j < films.len() && (#[trigger] films[j]).id == id),
    decreases films.len(),
{
    if films.len() > 0 {
        let prev = films.drop_last();
        law_indexed_ids(m, prev, id);
        if exists|j: int| 0 <= j < films.len() && (#[trigger] films[j]).id == id {
            let w = choose|j: int| 0 <= j < films.len() && (#[trigger] films[j]).id == id;
            if w < films.len() - 1 {
                assert(prev[w].id == id);
            }
        }
        if exists|j: int| 0 <= j < prev.len() && (#[trigger] prev[j]).id == id {
            let j = choose|j: int| 0 <= j < prev.len() && (#[trigger] prev[j]).id == id;
            assert(films[j] == prev[j]);
        }
    }
}

/// A later film replaces an earlier one with the same id: the film stored
/// under an id is the last film with that id.
pub proof fn law_last_film_wins(m: Map<u64, Film>, films: Seq<Film>, j: int)
    requires
        0 <= j < films.len(),
        forall|k: int| j < k < films.len() ==> (#[trigger] films[k]).id != films[j].id,
    ensures
        films_indexed(m, films).contains_key(films[j].id),
        films_indexed(m, films)[films[j].id] == films[j],
    decreases films.len(),
{
    let n = films.len() - 1;
    if j < n {
        let prev = films.drop_last();
        assert forall|k: int| j < k < prev.len() implies (#[trigger] prev[k]).id != prev[j].id by {
            assert(prev[k] == films[k]);
        }
        law_last_film_wins(m, prev, j);
        assert(films[n].id != films[j].id);
        assert(prev[j] == films[j]);
    }
}

/// Indexing films with distinct ids into an empty pipeline indexes exactly
/// that many films.
pub proof fn law_distinct_films_are_counted(films: Seq<Film>)
    requires
        forall|i: int, j: int| 0 <= i < j < films.len() ==> (#[trigger] films[i]).id != (#[trigger] films[j]).id,
    ensures
        films_indexed(Map::empty(), films).dom().finite(),
        films_indexed(Map::empty(), films).len() == films.len(),
    decreases films.len(),
{
    if films.len() > 0 {
        let prev = films.drop_last();
        law_distinct_films_are_counted(prev);
        let last = films.last();
        law_indexed_ids(Map::empty(), prev, last.id);
        if films_indexed(Map::empty(), prev).contains_key(last.id) {
            let j = choose|j: int| 0 <= j < prev.len() && (#[trigger] prev[j]).id == last.id;
            assert(films[j].id != films[films.len() - 1].id);
        }
    }
}

/// Sakila-film retrieval pipeline backed by `aprender-rag`, with the two
/// lookup tables that map chunks back to films.
pub struct FilmRagPipeline {
    index: RagIndex,
    chunk_to_film: HashMap<u128, u64>,
    by_id: HashMap<u64, Film>,
}

impl FilmRagPipeline {
    /// Which film each indexed chunk came from.
    pub closed spec fn chunk_films(&self) -> Map<u128, u64> {
        self.chunk_to_film@
    }

    /// The indexed films, by id.
    pub closed spec fn films(&self) -> Map<u64, Film> {
        self.by_id@
    }

    /// The underlying pipeline.
    pub closed spec fn rag(&self) -> RagIndex {
        self.index
    }

    /// Every recorded chunk leads to an indexed film, and every film is
    /// stored under its own id.
    pub open spec fn lookups_consistent(&self) -> bool {
        &&& forall|c: u128| #[trigger] self.chunk_films().contains_key(c) ==> self.films().contains_key(self.chunk_films()[c])
        &&& forall|id: u64| #[trigger] self.films().contains_key(id) ==> self.films()[id].id == id
    }

    /// The lookups are consistent, every chunk the pipeline holds was
    /// recorded (so it leads to a film), the pipeline holds finitely many
    /// chunks, and it was built with the default settings.
    pub open spec fn well_formed(&self) -> bool {
        &&& self.lookups_consistent()
        &&& rag_chunks(self.rag()).dom().subset_of(self.chunk_films().dom())
        &&& rag_chunks(self.rag()).dom().finite()
        &&& rag_settings(self.rag()) == (CHUNK_SIZE as nat, CHUNK_OVERLAP as nat, PIPELINE_DIM as nat)
    }

    /// This pipeline is `before` after indexing `films`, in order, each as
    /// one document (its description, titled with its title) whose chunks
    /// got the keys in `ks`: each film is stored under its id, each chunk key
    /// leads to its film, and the chunk store changed as [`films_stored`]
    /// says.
    pub open spec fn indexed_as(&self, before: FilmRagPipeline, films: Seq<Film>, ks: Seq<Seq<u128>>) -> bool {
        &&& self.films() == films_indexed(before.films(), films)
        &&& self.chunk_films() == chunks_recorded(before.chunk_films(), films, ks)
        &&& rag_settings(self.rag()) == rag_settings(before.rag())
        &&& films_stored(rag_chunks(before.rag()), rag_chunks(self.rag()), films, ks, CHUNK_SIZE as nat, CHUNK_OVERLAP as nat)
    }

    /// Each chunk the pipeline holds leads to a different film.
    pub open spec fn chunks_lead_to_distinct_films(&self) -> bool {
        forall|c1: u128, c2: u128| #![trigger self.chunk_films()[c1], self.chunk_films()[c2]]
            rag_chunks(self.rag()).dom().contains(c1) && rag_chunks(self.rag()).dom().contains(c2) && c1 != c2
                ==> self.chunk_films()[c1] != self.chunk_films()[c2]
    }

    /// The film a chunk key leads to, if the chunk was recorded and its film
    /// is indexed.
    pub open spec fn resolve(&self, key: u128) -> Option<u64> {
        if self.chunk_films().contains_key(key) && self.films().contains_key(self.chunk_films()[key]) {
            Some(self.chunk_films()[key])
        } else {
            None
        }
    }

    /// The returned chunks that lead to a film, as (film id, score bits),
    /// in the order they came back.
    pub open spec fn candidates(&self, rs: Seq<RetrievedChunk>) -> Seq<(u64, u32)>
        decreases rs.len(),
    {
        if rs.len() == 0 {
            Seq::empty()
        } else {
            let prev = self.candidates(rs.drop_last());
            match self.resolve(rs.last().chunk_key) {
                Some(f) => prev.push((f, chunk_score_bits(rs.last()))),
                None => prev,
            }
        }
    }

    /// `hits` answer the query `query` for `top_k` films, for which the
    /// pipeline returned the chunks `rs`, a possible answer to `query` for
    /// `4 * top_k` chunks
    /// (see [`retrieval_answer`]), ranked into hits by
    /// [`FilmRagPipeline::select_hits`].
    pub open spec fn answers_with(&self, query: Seq<char>, rs: Seq<RetrievedChunk>, top_k: nat, hits: Seq<FilmHitRecord>) -> bool {
        &&& rag_answers_query(rag_chunks(self.rag()), query, 4 * top_k, rs)
        &&& retrieval_answer(rag_chunks(self.rag()), 4 * top_k, rs)
        &&& hits_rank(self.films(), scored_films(self.candidates(rs)), top_k, hits)
    }

    /// Builds the default pipeline: recursive chunker of [`CHUNK_SIZE`] and
    /// [`CHUNK_OVERLAP`], mock embedder of [`PIPELINE_DIM`] dimensions,
    /// reciprocal rank fusion, no reranking; nothing indexed yet. Building
    /// always succeeds.
    pub fn new() -> (r: Result<Self, PipelineError>)
        ensures
            r matches Ok(p) && {
                &&& p.well_formed()
                &&& p.films() == Map::<u64, Film>::empty()
                &&& p.chunk_films() == Map::<u128, u64>::empty()
                &&& rag_chunks(p.rag()) == Map::<u128, (Seq<char>, Seq<char>)>::empty()
            },
    {
        match rag_index_new(CHUNK_SIZE, CHUNK_OVERLAP, PIPELINE_DIM) {
            Ok(index) => {
                let p = FilmRagPipeline { index, chunk_to_film: HashMap::new(), by_id: HashMap::new() };
                assert(p.films() =~= Map::<u64, Film>::empty());
                assert(p.chunk_films() =~= Map::<u128, u64>::empty());
                Ok(p)
            },
            Err(e) => Err(PipelineError::Build { message: rag_error_message(&e) }),
        }
    }

    /// Indexes every film as one document (its description, titled with its
    /// title) and records which film each of its chunks came from. Succeeds
    /// exactly when every description is non-empty; otherwise it stops at
    /// the first film with an empty description, reports that film's id, and
    /// the films before it stay indexed.
    pub fn index_films(&mut self, films: &[Film]) -> (r: Result<(), PipelineError>)
        requires
            old(self).well_formed(),
        ensures
            final(self).well_formed(),
            (r is Ok) <==> (forall|i: int| 0 <= i < films@.len() ==> (#[trigger] films@[i]).description@.len() > 0),
            match r {
                Ok(()) => exists|ks: Seq<Seq<u128>>| #[trigger] final(self).indexed_as(*old(self), films@, ks),
                Err(e) => exists|j: int| {
                    &&& 0 <= j < films@.len()
                    &&& (#[trigger] films@[j]).description@.len() == 0
                    &&& (forall|i: int| 0 <= i < j ==> (#[trigger] films@[i]).description@.len() > 0)
                    &&& (e matches PipelineError::Index { film_id, .. } && film_id == films@[j].id)
                    &&& exists|ks: Seq<Seq<u128>>| #[trigger] final(self).indexed_as(*old(self), films@.take(j), ks)
                },
            },
    {
        let ghost mut ks: Seq<Seq<u128>> = Seq::empty();
        proof {
            assert(films@.take(0) =~= Seq::<Film>::empty());
            assert(self.films() == films_indexed(old(self).films(), films@.take(0)));
            assert(self.chunk_films() == chunks_recorded(old(self).chunk_films(), films@.take(0), ks));
            assert(rag_chunks(self.rag()) =~= rag_chunks(old(self).rag()));
        }
        let mut i: usize = 0;
        while i < films.len()
            invariant
                i <= films@.len(),
                self.well_formed(),
                forall|x: int| 0 <= x < i ==> (#[trigger] films@[x]).description@.len() > 0,
                self.indexed_as(*old(self), films@.take(i as int), ks),
            decreases films@.len() - i,
        {
            let film = &films[i];
            let ghost before = *self;
            match rag_index_document(&mut self.index, &film.description, &film.title) {
                Err(e) => {
                    let message = rag_error_message(&e);
                    let r: Result<(), PipelineError> = Err(PipelineError::Index { film_id: film.id, message });
                    proof {
                        assert(self.indexed_as(*old(self), films@.take(i as int), ks));
                        assert(films@[i as int].description@.len() == 0);
                    }
                    return r;
                },
                Ok(keys) => {
                    let ghost mid = *self;
                    self.record_film(film, &keys);
                    proof {
                        lemma_films_stored_step(
                            rag_chunks(old(self).rag()), rag_chunks(before.rag()), rag_chunks(mid.rag()),
                            films@.take(i as int), ks, keys@, *film, CHUNK_SIZE as nat, CHUNK_OVERLAP as nat);
                        let t1 = films@.take(i as int + 1);
                        assert(t1 =~= films@.take(i as int).push(*film));
                        assert(t1.drop_last() =~= films@.take(i as int));
                        assert(t1.last() == films@[i as int]);
                        let ks1 = ks.push(keys@);
                        assert(ks1.drop_last() =~= ks);
                        assert(self.chunk_films() == chunks_recorded(old(self).chunk_films(), t1, ks1));
                        assert(self.films() == films_indexed(old(self).films(), t1));
                        assert(rag_chunks(self.rag()).dom() == rag_chunks(before.rag()).dom().union(keys@.to_set()));
                        assert forall|c: u128| #[trigger] rag_chunks(self.rag()).dom().contains(c)
                            implies self.chunk_films().dom().contains(c) by {
                            if keys@.to_set().contains(c) {
                                assert(keys@.contains(c));
                            } else {
                                assert(before.chunk_films().dom().contains(c));
                            }
                        }
                        ks = ks1;
                    }
                },
            }
            i = i + 1;
        }
        proof {
            assert(films@.take(i as int) =~= films@);
        }
        Ok(())
    }

    /// Turns the chunks a query returned into film hits: chunks that lead
    /// to no indexed film are skipped, each film keeps its best score (the
    /// first of its highest), films are ordered by score, highest first,
    /// ties in order of first appearance, and the first `top_k` are kept.
    pub fn select_hits(&self, results: &Vec<RetrievedChunk>, top_k: usize) -> (hits: Vec<FilmHitRecord>)
        requires
            self.well_formed(),
        ensures
            hits_rank(self.films(), scored_films(self.candidates(results@)), top_k as nat, hits@),
    {
        let mut cands: Vec<(u64, u32)> = Vec::new();
        let mut i: usize = 0;
        while i < results.len()
            invariant
                i <= results@.len(),
                self.well_formed(),
                cands@ == self.candidates(results@.take(i as int)),
                forall|k: int| 0 <= k < cands@.len() ==> self.films().contains_key(#[trigger] cands@[k].0),
            decreases results@.len() - i,
        {
            let r = &results[i];
            proof {
                assert(results@.take(i as int + 1).drop_last() =~= results@.take(i as int));
                assert(results@.take(i as int + 1).last() == results@[i as int]);
            }
            match self.chunk_to_film.get(&r.chunk_key) {
                Some(f) => {
                    let f: u64 = *f;
                    if self.by_id.contains_key(&f) {
                        cands.push((f, score_bits_of(r)));
                    }
                },
                None => {},
            }
            i = i + 1;
        }
        proof {
            assert(results@.take(i as int) =~= results@);
        }
        let ghost cs = cands@;
        let mut ids: Vec<u64> = Vec::new();
        let mut best: Vec<u32> = Vec::new();
        let mut j: usize = 0;
        while j < cands.len()
            invariant
                j <= cs.len(),
                cands@ == cs,
                ids@ == first_seen(cs.take(j as int)),
                best@.len() == ids@.len(),
                forall|g: int| 0 <= g < ids@.len() ==> best_bits(cs.take(j as int), #[trigger] ids@[g]) == Some(best@[g]),
            decreases cs.len() - j,
        {
            let (f, b): (u64, u32) = cands[j];
            let ghost e = cs.take(j as int);
            let ghost e2 = cs.take(j as int + 1);
            proof {
                assert(e2.drop_last() =~= e);
                assert(e2.last() == (f, b));
                lemma_first_seen_distinct(e);
            }
            let mut p: usize = 0;
            let mut found = false;
            while p < ids.len() && !found
                invariant
                    p <= ids@.len(),
                    found ==> p < ids@.len() && ids@[p as int] == f,
                    forall|q: int| 0 <= q < p ==> ids@[q] != f,
                decreases (ids@.len() - p) * 2 + if found { 0int } else { 1int },
            {
                if ids[p] == f {
                    found = true;
                } else {
                    p = p + 1;
                }
            }
            let ghost old_ids = ids@;
            let ghost old_best = best@;
            if found {
                proof {
                    assert(old_ids.contains(f));
                }
                if score_key_of(b) > score_key_of(best[p]) {
                    best.set(p, b);
                }
                proof {
                    assert(first_seen(e2) == first_seen(e));
                    assert forall|g: int| 0 <= g < ids@.len() implies best_bits(e2, #[trigger] ids@[g]) == Some(best@[g]) by {
                        if g != p {
                            assert(ids@[g] != f);
                        }
                    }
                }
            } else {
                proof {
                    assert(!old_ids.contains(f));
                    lemma_best_bits_absent(e, f);
                }
                ids.push(f);
                best.push(b);
                proof {
                    assert(first_seen(e2) == first_seen(e).push(f));
                    assert forall|g: int| 0 <= g < ids@.len() implies best_bits(e2, #[trigger] ids@[g]) == Some(best@[g]) by {
                        if g < old_ids.len() {
                            assert(ids@[g] == old_ids[g]);
                            assert(old_ids[g] != f);
                        }
                    }
                }
            }
            j = j + 1;
        }
        let ghost scored = scored_films(cs);
        proof {
            assert(cs.take(j as int) =~= cs);
            assert(scored.len() == ids@.len());
            assert forall|g: int| 0 <= g < ids@.len() implies #[trigger] scored[g] == (ids@[g], best@[g]) by {}
        }
        let mut keys: Vec<u32> = Vec::new();
        let mut x: usize = 0;
        while x < best.len()
            invariant
                x <= best@.len(),
                best@.len() == scored.len(),
                forall|g: int| 0 <= g < scored.len() ==> #[trigger] scored[g] == (ids@[g], best@[g]),
                keys@ =~= film_score_keys(scored).take(x as int),
            decreases best@.len() - x,
        {
            let k: u32 = score_key_of(best[x]);
            keys.push(k);
            x = x + 1;
            proof {
                assert(keys@ =~= film_score_keys(scored).take(x as int));
            }
        }
        proof {
            assert(keys@ =~= film_score_keys(scored));
        }
        let order = order_by_key_desc(&keys);
        let n: usize = if top_k < ids.len() { top_k } else { ids.len() };
        let mut hits: Vec<FilmHitRecord> = Vec::new();
        let mut y: usize = 0;
        while y < n
            invariant
                y <= n,
                n <= ids@.len(),
                scored.len() == ids@.len(),
                n == (if top_k < scored.len() { top_k as nat } else { scored.len() }),
                self.well_formed(),
                ids@ == first_seen(cs),
                forall|k: int| 0 <= k < cs.len() ==> self.films().contains_key(#[trigger] cs[k].0),
                best@.len() == ids@.len(),
                forall|g: int| 0 <= g < scored.len() ==> #[trigger] scored[g] == (ids@[g], best@[g]),
                is_descending_order(film_score_keys(scored), order@),
                hits@.len() == y,
                forall|h: int| 0 <= h < y ==> {
                    &&& (#[trigger] hits@[h]).id == scored[order@[h] as int].0
                    &&& hits@[h].score_bits == scored[order@[h] as int].1
                    &&& hits@[h].title@ == self.films()[hits@[h].id].title@
                },
            decreases n - y,
        {
            let g: usize = order[y];
            let f: u64 = ids[g];
            proof {
                lemma_first_seen_contains(cs, f);
                assert(first_seen(cs)[g as int] == f);
                assert(first_seen(cs).contains(f));
                let k = choose|k: int| 0 <= k < cs.len() && (#[trigger] cs[k]).0 == f;
                assert(self.films().contains_key(cs[k].0));
            }
            match self.by_id.get(&f) {
                Some(film) => {
                    hits.push(FilmHitRecord { id: f, title: film.title.clone(), score_bits: best[g] });
                },
                None => {
                    proof {
                        assert(false);
                    }
                },
            }
            y = y + 1;
        }
        proof {
            assert(hits_rank(self.films(), scored, top_k as nat, hits@)) by {
                assert(is_descending_order(film_score_keys(scored), order@));
            }
        }
        hits
    }

    /// Runs `query` and returns the top `top_k` film hits, ordered by score,
    /// highest first (see [`FilmRagPipeline::select_hits`]). The pipeline is
    /// asked for `4 * top_k` chunks, to leave room for several chunks of one
    /// film. Fails exactly on an empty query.
    pub fn search(&self, query: &str, top_k: usize) -> (r: Result<Vec<FilmHitRecord>, PipelineError>)
        requires
            self.well_formed(),
            top_k <= usize::MAX / 8,
        ensures
            (r is Ok) <==> query@.len() > 0,
            match r {
                Ok(hits) => exists|rs: Seq<RetrievedChunk>| #[trigger] self.answers_with(query@, rs, top_k as nat, hits@),
                Err(e) => e is Query,
            },
    {
        let raw_k: usize = top_k * 4;
        match rag_query(&self.index, query, raw_k) {
            Ok(results) => {
                let hits = self.select_hits(&results, top_k);
                let r: Result<Vec<FilmHitRecord>, PipelineError> = Ok(hits);
                proof {
                    assert(self.answers_with(query@, results@, top_k as nat, hits@));
                    assert(r matches Ok(h) && h@ == hits@);
                    assert(exists|rs: Seq<RetrievedChunk>| #[trigger] self.answers_with(query@, rs, top_k as nat, hits@));
                }
                r
            },
            Err(e) => Err(PipelineError::Query { message: rag_error_message(&e) }),
        }
    }

    /// Records that `film` was indexed as the chunks `chunk_keys`: the film
    /// is stored under its id and every chunk key maps to it.
    fn record_film(&mut self, film: &Film, chunk_keys: &Vec<u128>)
        requires
            old(self).lookups_consistent(),
        ensures
            final(self).lookups_consistent(),
            old(self).well_formed() ==> final(self).well_formed(),
            final(self).films() == old(self).films().insert(film.id, *film),
            final(self).chunk_films() == old(self).chunk_films().union_prefer_right(chunks_of(chunk_keys@, film.id)),
            final(self).rag() == old(self).rag(),
    {
        self.by_id.insert(film.id, film.duplicate());
        proof {
            assert(chunks_of(chunk_keys@.take(0), film.id) =~= Map::<u128, u64>::empty());
            assert(self.chunk_films() =~= old(self).chunk_films().union_prefer_right(chunks_of(chunk_keys@.take(0), film.id)));
            assert forall|c: u128| #[trigger] self.chunk_films().contains_key(c) implies self.films().contains_key(self.chunk_films()[c]) by {
                assert(old(self).films().contains_key(old(self).chunk_films()[c]));
            }
            assert forall|id: u64| #[trigger] self.films().contains_key(id) implies self.films()[id].id == id by {
                if id != film.id {
                    assert(old(self).films().contains_key(id));
                }
            }
        }
        let mut k: usize = 0;
        while k < chunk_keys.len()
            invariant
                k <= chunk_keys@.len(),
                self.films() == old(self).films().insert(film.id, *film),
                self.lookups_consistent(),
                self.rag() == old(self).rag(),
                self.chunk_films() == old(self).chunk_films().union_prefer_right(chunks_of(chunk_keys@.take(k as int), film.id)),
            decreases chunk_keys@.len() - k,
        {
            self.chunk_to_film.insert(chunk_keys[k], film.id);
            k = k + 1;
            proof {
                let ks = chunk_keys@.take(k as int);
                let prev = chunk_keys@.take(k as int - 1);
                assert forall|c: u128| #[trigger] ks.contains(c) <==> (prev.contains(c) || c == chunk_keys@[k as int - 1]) by {
                    if ks.contains(c) {
                        let x = choose|x: int| 0 <= x < ks.len() && ks[x] == c;
                        if x < k - 1 {
                            assert(prev[x] == c);
                        }
                    }
                    if prev.contains(c) {
                        let x = choose|x: int| 0 <= x < prev.len() && prev[x] == c;
                        assert(ks[x] == c);
                    }
                    if c == chunk_keys@[k as int - 1] {
                        assert(ks[k as int - 1] == c);
                    }
                }
                assert(self.chunk_films() =~= old(self).chunk_films().union_prefer_right(chunks_of(ks, film.id)));
            }
        }
        proof {
            assert(chunk_keys@.take(k as int) =~= chunk_keys@);
            if old(self).well_formed() {
                assert forall|c: u128| #[trigger] rag_chunks(self.rag()).dom().contains(c)
                    implies self.chunk_films().dom().contains(c) by {
                    assert(old(self).chunk_films().dom().contains(c));
                }
            }
        }
    }

    /// Number of indexed films (one document per film).
    pub fn film_count(&self) -> (n: usize)
        ensures
            n == self.films().len(),
    {
        self.by_id.len()
    }
}

} // verus!
