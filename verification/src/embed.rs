//! The deterministic hash embedder.
//!
//! Every embedding component is drawn from a hash of the input text and the
//! component's index, so the same text always yields the same components and
//! no model or download is involved. This module owns the part of embedding
//! that decides: which texts are accepted, how many components come out, and
//! which hash each component is drawn from. Turning a component hash into a
//! unit-norm real vector is done by the caller.

use vstd::prelude::*;

verus! {

/// Default vector dimension used by the demos: the width of BGE-small-en,
/// so a real sentence embedder can be swapped in without a new collection.
pub const DEFAULT_DIM: usize = 384;

/// Errors produced by embedders.
#[derive(Debug, Clone, Copy, PartialEq, Eq, Structural)]
pub enum EmbedError {
    /// The caller asked to encode an empty string.
    EmptyText,
    /// The embedder configuration requested a 0-dimensional output.
    InvalidDimension(usize),
}

/// The 64-bit hash of a text together with a component index, as computed by
/// `component_hash` below.
pub uninterp spec fn text_component_hash(text: Seq<char>, component: usize) -> u64;

/// Hashes `(text, component)` with std's `DefaultHasher`, through
/// `BuildHasher::hash_one` on a `BuildHasherDefault<DefaultHasher>`.
///
/// Trusted: the result is taken to be `text_component_hash(text@, component)`.
/// `DefaultHasher::new` (which `BuildHasherDefault` uses) starts every hasher
/// from the same fixed keys, and hashing a `(&str, usize)` pair feeds the
/// string and then the index, exactly as hashing them one after the other
/// into one hasher does; so the value depends on the text and the index only.
/// The code hashes the index in its native width and byte order, and std does
/// not promise the algorithm across releases: the value is fixed for one
/// build on one kind of machine.
#[verifier::external_body]
fn component_hash(text: &str, component: usize) -> (h: u64)
    ensures
        h == text_component_hash(text@, component),
{
    std::hash::BuildHasher::hash_one(
        &std::hash::BuildHasherDefault::<std::collections::hash_map::DefaultHasher>::default(),
        (text, component),
    )
}

/// The component hashes of a non-empty text: component `i` is drawn from
/// the hash of the text and `i`.
pub open spec fn component_hashes(text: Seq<char>, dim: nat) -> Seq<u64> {
    Seq::new(dim, |i: int| text_component_hash(text, i as usize))
}

/// What embedding `text` at dimension `dim` gives: an empty text is refused,
/// any other text gets its `dim` component hashes.
pub open spec fn embed_spec(text: Seq<char>, dim: nat) -> Result<Seq<u64>, EmbedError> {
    if text.len() == 0 {
        Err(EmbedError::EmptyText)
    } else {
        Ok(component_hashes(text, dim))
    }
}

/// What embedding a batch gives: the first refused text refuses the batch;
/// otherwise every text gets its own embedding, in order.
pub open spec fn embed_batch_spec(texts: Seq<Seq<char>>, dim: nat) -> Result<Seq<Seq<u64>>, EmbedError> {
    if exists|i: int| 0 <= i < texts.len() && (#[trigger] texts[i]).len() == 0 {
        Err(EmbedError::EmptyText)
    } else {
        Ok(texts.map_values(|t: Seq<char>| component_hashes(t, dim)))
    }
}

/// Deterministic teaching and test embedder: seeded entirely from the input
/// string, with no semantic meaning.
pub struct HashEmbedder {
    dim: usize,
}

impl HashEmbedder {
    /// Every embedder emits at least one component.
    #[verifier::type_invariant]
    spec fn well_formed(self) -> bool {
        self.dim > 0
    }

    /// The number of components per emitted vector.
    pub closed spec fn spec_dim(&self) -> usize {
        self.dim
    }

    /// A new embedder emitting `dim`-dimensional vectors; `dim` must be at
    /// least one.
    pub fn new(dim: usize) -> (e: Self)
        requires
            dim > 0,
        ensures
            e.spec_dim() == dim,
    {
        HashEmbedder { dim }
    }

    /// Number of components per emitted vector.
    pub fn dim(&self) -> (d: usize)
        ensures
            d == self.spec_dim(),
            d > 0,
    {
        proof {
            use_type_invariant(self);
        }
        self.dim
    }

    /// The component hashes of `text`, one per dimension, or
    /// [`EmbedError::EmptyText`] for the empty string.
    pub fn hash_components(&self, text: &str) -> (r: Result<Vec<u64>, EmbedError>)
        ensures
            match r {
                Ok(v) => embed_spec(text@, self.spec_dim() as nat) == Ok::<Seq<u64>, EmbedError>(v@),
                Err(e) => embed_spec(text@, self.spec_dim() as nat) == Err::<Seq<u64>, EmbedError>(e),
            },
    {
        if text.is_empty() {
            return Err(EmbedError::EmptyText);
        }
        let dim: usize = self.dim;
        let mut out: Vec<u64> = Vec::with_capacity(dim);
        let mut i: usize = 0;
        while i < dim
            invariant
                i <= dim,
                out@ =~= component_hashes(text@, i as nat),
            decreases dim - i,
        {
            let h: u64 = component_hash(text, i);
            out.push(h);
            i = i + 1;
        }
        Ok(out)
    }

    /// The component hashes of every text of a batch, in order; the first
    /// empty text refuses the whole batch.
    pub fn hash_components_batch(&self, texts: &[&str]) -> (r: Result<Vec<Vec<u64>>, EmbedError>)
        ensures
            match r {
                Ok(vs) => {
                    &&& vs@.len() == texts@.len()
                    &&& embed_batch_spec(texts@.map_values(|t: &str| t@), self.spec_dim() as nat)
                        == Ok::<Seq<Seq<u64>>, EmbedError>(vs@.map_values(|v: Vec<u64>| v@))
                },
                Err(e) => embed_batch_spec(texts@.map_values(|t: &str| t@), self.spec_dim() as nat)
                    == Err::<Seq<Seq<u64>>, EmbedError>(e),
            },
    {
        let ghost views = texts@.map_values(|t: &str| t@);
        let mut out: Vec<Vec<u64>> = Vec::new();
        let mut i: usize = 0;
        while i < texts.len()
            invariant
                i <= texts@.len(),
                views == texts@.map_values(|t: &str| t@),
                out@.len() == i,
                forall|j: int| 0 <= j < i ==> (#[trigger] views[j]).len() > 0,
                forall|j: int| 0 <= j < i ==>
                    (#[trigger] out@[j])@ == component_hashes(views[j], self.spec_dim() as nat),
            decreases texts@.len() - i,
        {
            match self.hash_components(texts[i]) {
                Ok(v) => {
                    out.push(v);
                },
                Err(e) => {
                    assert(views[i as int].len() == 0);
                    return Err(e);
                },
            }
            i = i + 1;
        }
        assert(out@.map_values(|v: Vec<u64>| v@) =~= views.map_values(
            |t: Seq<char>| component_hashes(t, self.spec_dim() as nat),
        ));
        Ok(out)
    }
}

/// Embedding is a function of the text: two texts with the same characters
/// get the same result, whatever calls produced them.
pub proof fn law_embedding_is_deterministic(e: &HashEmbedder, a: Seq<char>, b: Seq<char>)
    requires
        a == b,
    ensures
        embed_spec(a, e.spec_dim() as nat) == embed_spec(b, e.spec_dim() as nat),
{
}

/// Every successful embedding has exactly as many components as the
/// embedder's dimension, and only the empty text is refused.
pub proof fn law_embedding_has_dim_components(e: &HashEmbedder, text: Seq<char>)
    ensures
        text.len() == 0 <==> embed_spec(text, e.spec_dim() as nat) is Err,
        embed_spec(text, e.spec_dim() as nat) matches Ok(v) ==> v.len() == e.spec_dim(),
{
}

/// A batch embeds each of its texts exactly as embedding that text alone
/// does, and is refused exactly when one of its texts would be.
pub proof fn law_batch_matches_single(e: &HashEmbedder, texts: Seq<Seq<char>>)
    ensures
        embed_batch_spec(texts, e.spec_dim() as nat) is Err <==>
            exists|i: int| 0 <= i < texts.len() && embed_spec(#[trigger] texts[i], e.spec_dim() as nat) is Err,
        embed_batch_spec(texts, e.spec_dim() as nat) matches Ok(vs) ==> {
            &&& vs.len() == texts.len()
            &&& forall|i: int| 0 <= i < texts.len() ==>
                embed_spec(#[trigger] texts[i], e.spec_dim() as nat) == Ok::<Seq<u64>, EmbedError>(vs[i])
        },
{
    let dim = e.spec_dim() as nat;
    if exists|i: int| 0 <= i < texts.len() && embed_spec(#[trigger] texts[i], dim) is Err {
        let i = choose|i: int| 0 <= i < texts.len() && embed_spec(#[trigger] texts[i], dim) is Err;
        assert(texts[i].len() == 0);
    }
}

/// Component `i` of a non-empty text's embedding is the hash of the whole
/// text together with `i`: every character of the text takes part, so
/// texts that differ anywhere are hashed as themselves.
pub proof fn law_component_is_hash_of_whole_text(e: &HashEmbedder, text: Seq<char>, i: int)
    requires
        text.len() > 0,
        0 <= i < e.spec_dim(),
    ensures
        embed_spec(text, e.spec_dim() as nat) matches Ok(v) && v[i] == text_component_hash(text, i as usize),
{
}

/// Two texts get the same embedding only when their hashes with every
/// component index agree: a text's embedding is fixed by the hashes of
/// that text itself, never of a part of it.
pub proof fn law_equal_embeddings_have_equal_hashes(e: &HashEmbedder, a: Seq<char>, b: Seq<char>)
    requires
        a.len() > 0,
        b.len() > 0,
        embed_spec(a, e.spec_dim() as nat) == embed_spec(b, e.spec_dim() as nat),
    ensures
        forall|i: int| 0 <= i < e.spec_dim() ==>
            #[trigger] text_component_hash(a, i as usize) == text_component_hash(b, i as usize),
{
    assert forall|i: int| 0 <= i < e.spec_dim() implies
        #[trigger] text_component_hash(a, i as usize) == text_component_hash(b, i as usize) by {
        law_component_is_hash_of_whole_text(e, a, i);
        law_component_is_hash_of_whole_text(e, b, i);
    }
}

} // verus!
