use vstd::prelude::*;

verus! {

/// The failure conditions of the store.
#[derive(Debug, Clone, Copy, PartialEq, Eq, Structural)]
pub enum StoreError {
    /// An inserted embedding's length disagrees with the store's fixed
    /// dimensionality.
    DimensionMismatch,
    /// A persisted store was asked for at a path that does not exist.
    NotFound,
    /// A persisted representation does not parse back into a store.
    Corrupt,
}

impl StoreError {
    /// A short description of the failure, for callers that report errors.
    pub fn describe(&self) -> (r: String)
        ensures
            self is DimensionMismatch ==> r@ == "embedding length does not match the store's dimensionality"@,
            self is NotFound ==> r@ == "no persisted store at the given path"@,
            self is Corrupt ==> r@ == "the persisted store does not parse"@,
    {
        match self {
            StoreError::DimensionMismatch => String::from_str(
                "embedding length does not match the store's dimensionality",
            ),
            StoreError::NotFound => String::from_str("no persisted store at the given path"),
            StoreError::Corrupt => String::from_str("the persisted store does not parse"),
        }
    }
}

/// One stored unit: a text chunk with its embedding and metadata.
///
/// `embedding` holds the bit patterns of IEEE 754 single-precision values;
/// `metadata` is an insertion-ordered mapping of string keys to string
/// values, opaque to the store and passed through unchanged.
#[derive(Debug, Clone)]
pub struct ChunkData {
    pub id: String,
    pub content: String,
    pub embedding: Vec<u32>,
    pub metadata: Vec<(String, String)>,
}

/// The mathematical value of a [`ChunkData`].
#[verifier::ext_equal]
pub struct ChunkView {
    pub id: Seq<char>,
    pub content: Seq<char>,
    pub embedding: Seq<u32>,
    pub metadata: Seq<(Seq<char>, Seq<char>)>,
}

impl View for ChunkData {
    type V = ChunkView;

    open spec fn view(&self) -> ChunkView {
        ChunkView {
            id: self.id@,
            content: self.content@,
            embedding: self.embedding@,
            metadata: self.metadata.deep_view(),
        }
    }
}

impl DeepView for ChunkData {
    type V = ChunkView;

    open spec fn deep_view(&self) -> ChunkView {
        self.view()
    }
}

/// An insertion-ordered collection of chunks, all of whose embeddings have
/// the same length `embedding_dim`.
///
/// The dimensionality is fixed at construction; the value zero stands for
/// "not fixed yet", and is then adopted from the first successfully inserted
/// chunk's embedding length.
#[derive(Debug, Clone)]
pub struct VectorStore {
    pub chunks: Vec<ChunkData>,
    pub embedding_dim: usize,
}

/// The mathematical value of a [`VectorStore`].
#[verifier::ext_equal]
pub struct StoreView {
    pub chunks: Seq<ChunkView>,
    pub embedding_dim: nat,
}

impl View for VectorStore {
    type V = StoreView;

    open spec fn view(&self) -> StoreView {
        StoreView { chunks: self.chunks.deep_view(), embedding_dim: self.embedding_dim as nat }
    }
}

impl StoreView {
    /// The store's invariant: every chunk's embedding has the declared length.
    pub open spec fn wf(self) -> bool {
        forall|i: int|
            0 <= i < self.chunks.len() ==> (#[trigger] self.chunks[i]).embedding.len()
                == self.embedding_dim
    }

    /// Whether an embedding of length `len` may be inserted: always, while
    /// the store is empty and its dimensionality is not fixed yet; otherwise
    /// only when the length matches.
    pub open spec fn accepts_len(self, len: nat) -> bool {
        if self.embedding_dim == 0 && self.chunks.len() == 0 {
            true
        } else {
            len == self.embedding_dim
        }
    }

    /// The dimensionality after inserting an embedding of length `len`.
    pub open spec fn dim_after(self, len: nat) -> nat {
        if self.embedding_dim == 0 && self.chunks.len() == 0 {
            len
        } else {
            self.embedding_dim
        }
    }
}

/// Relies on `uuid::Uuid::new_v4` and its `Display` impl: a fresh random
/// (version 4) identifier, formatted in the hyphenated form, which is always
/// 36 characters long. Nothing is assumed about which identifier comes back.
#[verifier::external_body]
fn fresh_chunk_id() -> (r: String)
    ensures
        r@.len() == 36,
{
    uuid::Uuid::new_v4().to_string()
}

impl VectorStore {
    /// Creates an empty store. An `embedding_dim` of zero leaves the
    /// dimensionality to be adopted from the first inserted chunk.
    pub fn new(embedding_dim: usize) -> (r: VectorStore)
        ensures
            r@.chunks == Seq::<ChunkView>::empty(),
            r@.embedding_dim == embedding_dim,
            r@.wf(),
    {
        let r = VectorStore { chunks: Vec::new(), embedding_dim };
        proof {
            assert(r@.chunks =~= Seq::<ChunkView>::empty());
        }
        r
    }

    /// Appends a chunk under a fresh identifier, which is returned.
    ///
    /// Fails with [`StoreError::DimensionMismatch`] exactly when the store's
    /// dimensionality is already fixed (or it holds chunks) and the new
    /// embedding's length differs; a failed insertion leaves the store
    /// unchanged.
    pub fn add_chunk(
        &mut self,
        content: String,
        embedding: Vec<u32>,
        metadata: Vec<(String, String)>,
    ) -> (r: Result<String, StoreError>)
        ensures
            match r {
                Ok(id) => {
                    &&& old(self)@.accepts_len(embedding@.len())
                    &&& final(self)@.embedding_dim == old(self)@.dim_after(embedding@.len())
                    &&& final(self)@.chunks == old(self)@.chunks.push(
                        ChunkView {
                            id: id@,
                            content: content@,
                            embedding: embedding@,
                            metadata: metadata.deep_view(),
                        },
                    )
                    &&& id@.len() == 36
                },
                Err(e) => {
                    &&& e == StoreError::DimensionMismatch
                    &&& !old(self)@.accepts_len(embedding@.len())
                    &&& *final(self) == *old(self)
                },
            },
            old(self)@.wf() ==> final(self)@.wf(),
    {
        let unfixed = self.embedding_dim == 0 && self.chunks.len() == 0;
        if !unfixed && embedding.len() != self.embedding_dim {
            return Err(StoreError::DimensionMismatch);
        }
        if unfixed {
            self.embedding_dim = embedding.len();
        }
        let id = fresh_chunk_id();
        let chunk = ChunkData { id: id.clone(), content, embedding, metadata };
        let ghost prior = self@.chunks;
        self.chunks.push(chunk);
        proof {
            assert(self@.chunks =~~= prior.push(chunk@));
        }
        Ok(id)
    }
}

} // verus!
