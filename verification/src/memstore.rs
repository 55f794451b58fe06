//! A cache of fixed-size chunks in front of a backing store.
//!
//! The cache loads a chunk the first time it is asked for, hands out the
//! cached entry for editing, and writes back on request the chunks that were
//! marked as changed.
use crate::error::Error;
use std::collections::hash_map::Entry;
use std::collections::HashMap;
use vstd::prelude::*;
use vstd::std_specs::iter::IteratorSpec;

verus! {

broadcast use vstd::std_specs::hash::group_hash_axioms;

/// What the cache holds for one chunk index.
#[derive(Debug, PartialEq, Eq)]
pub enum Chunk {
    /// Bytes in memory. `need_store` says that they differ from what the
    /// backing store holds.
    Loaded { data: Vec<u8>, need_store: bool },
    /// The backing store had nothing for this index.
    Empty,
}

/// The backing store: what the cache loads chunks from and writes them to.
/// The cache takes whatever `load` answers, and claims nothing of what the
/// store does with the bytes handed to `store`.
pub trait LoadStore {
    /// The bytes stored for a chunk index, if there are any.
    fn load(&self, index: u64) -> Option<Vec<u8>>;

    /// Stores `data` for a chunk index.
    fn store(&self, index: u64, data: &[u8]);
}

/// One call that a cache made to its backing store.
pub enum Request {
    /// A load for a chunk index, with the bytes that the store answered.
    Load { index: u64, found: Option<Seq<u8>> },
    /// A store of `data` for a chunk index.
    Store { index: u64, data: Seq<u8> },
}

impl Request {
    /// The chunk index that the call was made for.
    pub open spec fn index(&self) -> u64 {
        match self {
            Request::Load { index, .. } => *index,
            Request::Store { index, .. } => *index,
        }
    }
}

impl Chunk {
    /// The chunk is loaded and marked as changed.
    pub open spec fn is_dirty(&self) -> bool {
        self matches Chunk::Loaded { need_store, .. } && *need_store
    }

    /// The bytes of a loaded chunk; none for an empty one.
    pub open spec fn bytes(&self) -> Seq<u8> {
        match self {
            Chunk::Loaded { data, .. } => data@,
            Chunk::Empty => Seq::empty(),
        }
    }

    /// What the backing store must have answered for a chunk that was just
    /// loaded: the bytes of the chunk, or nothing where the entry is empty.
    pub open spec fn found(&self) -> Option<Seq<u8>> {
        match self {
            Chunk::Loaded { data, .. } => Some(data@),
            Chunk::Empty => None,
        }
    }

    /// The chunk as a flush leaves it: with the same bytes, and not marked.
    pub open spec fn flushed(self) -> Chunk {
        match self {
            Chunk::Loaded { data, .. } => Chunk::Loaded { data, need_store: false },
            Chunk::Empty => Chunk::Empty,
        }
    }

    /// Marks a loaded chunk as changed, so that the next flush writes it. An
    /// empty entry has nothing to write and stays as it is.
    pub fn mark_dirty(&mut self)
        ensures
            *final(self) == (match *old(self) {
                Chunk::Loaded { data, .. } => Chunk::Loaded { data, need_store: true },
                Chunk::Empty => Chunk::Empty,
            }),
    {
        match self {
            Chunk::Loaded { need_store, .. } => {
                *need_store = true;
            },
            Chunk::Empty => {},
        }
    }

    /// Puts `data` in the place of whatever the entry held, and marks it as
    /// changed. This is how an empty entry comes to hold bytes.
    pub fn overwrite(&mut self, data: Vec<u8>)
        ensures
            *final(self) == (Chunk::Loaded { data, need_store: true }),
    {
        *self = Chunk::Loaded { data, need_store: true };
    }

    /// The entry for what the backing store answered to a load: its bytes,
    /// not marked as changed, or `Empty` where it had none.
    pub fn from_loaded(loaded: Option<Vec<u8>>) -> (chunk: Chunk)
        ensures
            chunk == (match loaded {
                Some(data) => Chunk::Loaded { data, need_store: false },
                None => Chunk::Empty,
            }),
    {
        match loaded {
            Some(data) => Chunk::Loaded { data, need_store: false },
            None => Chunk::Empty,
        }
    }
}

/// The store requests of a flush that visits the indices in `order`: one for
/// each index whose chunk is marked as changed, with the bytes of that chunk.
pub open spec fn flush_requests(chunks: Map<u64, Chunk>, order: Seq<u64>) -> Seq<Request>
    decreases order.len(),
{
    if order.len() == 0 {
        Seq::empty()
    } else {
        let earlier = flush_requests(chunks, order.drop_last());
        let index = order.last();
        if chunks.contains_key(index) && chunks[index].is_dirty() {
            earlier.push(Request::Store { index, data: chunks[index].bytes() })
        } else {
            earlier
        }
    }
}

/// The offsets from `index * chunk_size` up to the next multiple of
/// `chunk_size` all fall into the chunk `index`.
pub proof fn lemma_offsets_of_a_chunk(chunk_size: u64, index: u64, offset: u64)
    requires
        chunk_size > 0,
        index * chunk_size <= offset < (index + 1) * chunk_size,
    ensures
        offset / chunk_size == index,
{
    let size = chunk_size as int;
    let at = offset as int;
    let quotient = at / size;
    assert(at == size * quotient + at % size && 0 <= at % size < size) by (nonlinear_arith)
        requires
            size > 0,
            quotient == at / size,
    ;
    assert(quotient == index) by (nonlinear_arith)
        requires
            size > 0,
            index * size <= at < (index + 1) * size,
            size * quotient <= at < size * quotient + size,
    ;
}

/// A second access to a chunk finds the entry that the first one left: where
/// `first` and `second` are offsets in one chunk, and an access at `first`
/// took the cache from `before` to `between` and left `left` in the entry,
/// the chunk of `second` is cached in `between`, and holds `left`.
pub proof fn lemma_access_again<L: LoadStore>(
    before: Memstore<L>,
    between: Memstore<L>,
    first: u64,
    second: u64,
    left: Chunk,
)
    requires
        before.chunk_index(first) == before.chunk_index(second),
        between.spec_chunk_size() == before.spec_chunk_size(),
        between@ == before@.insert(before.chunk_index(first), left),
    ensures
        between@.contains_key(between.chunk_index(second)),
        between@[between.chunk_index(second)] == left,
{
}

/// A flush asks the backing store to store each chunk that is marked as
/// changed exactly once, with the bytes of that chunk, and asks for nothing
/// else: where `order` holds each cached index once, every request of the
/// flush is a store for a marked chunk, no two of them are for one index,
/// and every marked chunk has its request.
pub proof fn lemma_flush_stores_each_dirty_chunk_once(chunks: Map<u64, Chunk>, order: Seq<u64>)
    requires
        order.no_duplicates(),
        order.to_set() == chunks.dom(),
    ensures
        forall|i: int|
            0 <= i < flush_requests(chunks, order).len() ==> {
                let request = #[trigger] flush_requests(chunks, order)[i];
                &&& chunks.contains_key(request.index())
                &&& chunks[request.index()].is_dirty()
                &&& request == Request::Store {
                    index: request.index(),
                    data: chunks[request.index()].bytes(),
                }
            },
        forall|i: int, j: int|
            0 <= i < j < flush_requests(chunks, order).len() ==> (#[trigger] flush_requests(
                chunks,
                order,
            )[i]).index() != (#[trigger] flush_requests(chunks, order)[j]).index(),
        forall|index: u64|
            chunks.contains_key(index) && chunks[index].is_dirty() ==> flush_requests(
                chunks,
                order,
            ).contains(Request::Store { index, data: #[trigger] chunks[index].bytes() }),
{
    lemma_flush_requests_follow_order(chunks, order);
    let requests = flush_requests(chunks, order);
    assert forall|index: u64| chunks.contains_key(index) && chunks[index].is_dirty() implies requests.contains(
        Request::Store { index, data: #[trigger] chunks[index].bytes() },
    ) by {
        assert(order.to_set().contains(index));
        assert(order.contains(index));
    }
}

/// The requests of a flush are stores for marked chunks whose indices occur in
/// `order`; with no index twice in `order` there is none twice among the
/// requests; and each marked chunk whose index occurs in `order` is stored.
proof fn lemma_flush_requests_follow_order(chunks: Map<u64, Chunk>, order: Seq<u64>)
    requires
        order.no_duplicates(),
    ensures
        forall|i: int|
            0 <= i < flush_requests(chunks, order).len() ==> {
                let request = #[trigger] flush_requests(chunks, order)[i];
                &&& order.contains(request.index())
                &&& chunks.contains_key(request.index())
                &&& chunks[request.index()].is_dirty()
                &&& request == Request::Store {
                    index: request.index(),
                    data: chunks[request.index()].bytes(),
                }
            },
        forall|i: int, j: int|
            0 <= i < j < flush_requests(chunks, order).len() ==> (#[trigger] flush_requests(
                chunks,
                order,
            )[i]).index() != (#[trigger] flush_requests(chunks, order)[j]).index(),
        forall|index: u64|
            order.contains(index) && chunks.contains_key(index) && chunks[index].is_dirty()
                ==> flush_requests(chunks, order).contains(
                Request::Store { index, data: #[trigger] chunks[index].bytes() },
            ),
    decreases order.len(),
{
    if order.len() > 0 {
        let earlier_order = order.drop_last();
        let earlier = flush_requests(chunks, earlier_order);
        let requests = flush_requests(chunks, order);
        let last = order.last();
        lemma_flush_requests_follow_order(chunks, earlier_order);
        assert(!earlier_order.contains(last)) by {
            if earlier_order.contains(last) {
                let k = choose|k: int| 0 <= k < earlier_order.len() && earlier_order[k] == last;
                assert(order[k] == order[order.len() - 1]);
            }
        }
        assert forall|i: int| 0 <= i < requests.len() implies order.contains(
            (#[trigger] requests[i]).index(),
        ) by {
            if i < earlier.len() {
                let k = choose|k: int|
                    0 <= k < earlier_order.len() && earlier_order[k] == earlier[i].index();
                assert(order[k] == earlier[i].index());
            } else {
                assert(order[order.len() - 1] == last);
            }
        }
        assert forall|index: u64|
            order.contains(index) && chunks.contains_key(index) && chunks[index].is_dirty() implies requests.contains(
            Request::Store { index, data: #[trigger] chunks[index].bytes() },
        ) by {
            let wanted = Request::Store { index, data: chunks[index].bytes() };
            if index == last {
                assert(requests[requests.len() - 1] == wanted);
            } else {
                let k = choose|k: int| 0 <= k < order.len() && order[k] == index;
                assert(earlier_order[k] == index);
                assert(earlier.contains(wanted));
                let i = choose|i: int| 0 <= i < earlier.len() && earlier[i] == wanted;
                assert(requests[i] == wanted);
            }
        }
    }
}

/// A chunk size, known to be positive.
struct ChunkSize {
    bytes: u64,
}

impl ChunkSize {
    #[verifier::type_invariant]
    spec fn positive(&self) -> bool {
        self.bytes > 0
    }
}

/// The cache: the entries of the chunks that were asked for so far, by chunk
/// index, over a backing store. Beside them it keeps, for the proofs only, a
/// record of every call that it makes to the backing store.
pub struct Memstore<L: LoadStore> {
    chunks: HashMap<u64, Chunk>,
    chunk_size: ChunkSize,
    load_store: L,
    requests: Ghost<Seq<Request>>,
}

impl<L: LoadStore> View for Memstore<L> {
    type V = Map<u64, Chunk>;

    /// The cached entries, by chunk index.
    closed spec fn view(&self) -> Map<u64, Chunk> {
        self.chunks@
    }
}

impl<L: LoadStore> Memstore<L> {
    /// The number of bytes that one chunk covers.
    pub closed spec fn spec_chunk_size(&self) -> u64 {
        self.chunk_size.bytes
    }

    /// The backing store.
    pub closed spec fn load_store(&self) -> L {
        self.load_store
    }

    /// The calls that the cache has made to its backing store, oldest first.
    pub closed spec fn requests(&self) -> Seq<Request> {
        self.requests@
    }

    /// The index of the chunk that holds the byte at `offset`.
    pub open spec fn chunk_index(&self, offset: u64) -> u64 {
        (offset / self.spec_chunk_size()) as u64
    }

    /// A cache with no entries over `load_store`. A chunk size of zero is
    /// refused.
    pub fn new(chunk_size: u64, load_store: L) -> (result: Result<Memstore<L>, Error>)
        ensures
            match result {
                Ok(store) => {
                    &&& chunk_size > 0
                    &&& store@ == Map::<u64, Chunk>::empty()
                    &&& store.spec_chunk_size() == chunk_size
                    &&& store.load_store() == load_store
                    &&& store.requests() == Seq::<Request>::empty()
                },
                Err(e) => chunk_size == 0 && e == Error::InvalidConfiguration,
            },
    {
        if chunk_size == 0 {
            return Err(Error::InvalidConfiguration);
        }
        Ok(
            Memstore {
                chunks: HashMap::new(),
                chunk_size: ChunkSize { bytes: chunk_size },
                load_store,
                requests: Ghost(Seq::empty()),
            },
        )
    }

    /// The number of bytes that one chunk covers. It is never zero.
    #[verifier::when_used_as_spec(spec_chunk_size)]
    pub fn chunk_size(&self) -> (size: u64)
        ensures
            size == self.spec_chunk_size(),
            size > 0,
    {
        proof {
            use_type_invariant(&self.chunk_size);
        }
        self.chunk_size.bytes
    }

    /// The cached entry for the chunk that holds the byte at `offset`, for
    /// reading and for editing. Where the chunk is not cached yet, the
    /// backing store is asked for it once, and its answer is cached. What
    /// the caller leaves in the entry is what the cache holds afterwards;
    /// the cache does not mark an entry as changed by itself.
    pub fn get(&mut self, offset: u64) -> (chunk: &mut Chunk)
        ensures
            old(self).spec_chunk_size() > 0,
            final(self).spec_chunk_size() == old(self).spec_chunk_size(),
            final(self).load_store() == old(self).load_store(),
            final(self)@ == old(self)@.insert(old(self).chunk_index(offset), *final(chunk)),
            if old(self)@.contains_key(old(self).chunk_index(offset)) {
                &&& *chunk == old(self)@[old(self).chunk_index(offset)]
                &&& final(self).requests() == old(self).requests()
            } else {
                &&& !chunk.is_dirty()
                &&& final(self).requests() == old(self).requests().push(
                    Request::Load { index: old(self).chunk_index(offset), found: chunk.found() },
                )
            },
    {
        proof {
            use_type_invariant(&self.chunk_size);
        }
        let chunk_index: u64 = offset / self.chunk_size.bytes;
        self.get_index(chunk_index)
    }

    /// The cached entry for a chunk index, loaded first where it is missing.
    fn get_index(&mut self, chunk_index: u64) -> (chunk: &mut Chunk)
        ensures
            final(self).spec_chunk_size() == old(self).spec_chunk_size(),
            final(self).load_store() == old(self).load_store(),
            final(self)@ == old(self)@.insert(chunk_index, *final(chunk)),
            if old(self)@.contains_key(chunk_index) {
                &&& *chunk == old(self)@[chunk_index]
                &&& final(self).requests() == old(self).requests()
            } else {
                &&& !chunk.is_dirty()
                &&& final(self).requests() == old(self).requests().push(
                    Request::Load { index: chunk_index, found: chunk.found() },
                )
            },
    {
        match self.chunks.entry(chunk_index) {
            Entry::Occupied(entry) => entry.into_mut(),
            Entry::Vacant(entry) => {
                let chunk = Chunk::from_loaded(self.load_store.load(chunk_index));
                proof {
                    self.requests@ = self.requests@.push(
                        Request::Load { index: chunk_index, found: chunk.found() },
                    );
                }
                entry.insert(chunk)
            },
        }
    }

    /// The cached chunk indices, each once, in the order in which the map
    /// hands them out.
    fn cached_indices(&self) -> (indices: Vec<u64>)
        ensures
            indices@.no_duplicates(),
            indices@.to_set() == self@.dom(),
    {
        let mut indices: Vec<u64> = Vec::new();
        for index in walk: self.chunks.keys()
            invariant
                indices@ == walk.seq().unref().subrange(0, walk.index()),
        {
            indices.push(*index);
            assert(indices@ =~= walk.seq().unref().subrange(0, walk.index() + 1));
        }
        assert(indices@ =~= self.chunks.keys().remaining().unref());
        indices
    }

    /// Writes every chunk that is marked as changed to the backing store,
    /// once, and takes the mark off it. Chunks that are not marked, and
    /// empty entries, are not written.
    pub fn store_all(&mut self)
        ensures
            final(self).spec_chunk_size() == old(self).spec_chunk_size(),
            final(self).load_store() == old(self).load_store(),
            final(self)@ == old(self)@.map_values(|chunk: Chunk| chunk.flushed()),
            forall|index: u64|
                final(self)@.contains_key(index) ==> !(#[trigger] final(self)@[index]).is_dirty(),
            exists|order: Seq<u64>|
                {
                    &&& order.no_duplicates()
                    &&& order.to_set() == old(self)@.dom()
                    &&& final(self).requests() == old(self).requests() + #[trigger] flush_requests(
                        old(self)@,
                        order,
                    )
                },
    {
        let indices = self.cached_indices();
        let ghost before = self@;
        let ghost asked = self.requests@;
        let mut done: usize = 0;
        while done < indices.len()
            invariant
                done <= indices.len(),
                indices@.no_duplicates(),
                indices@.to_set() == before.dom(),
                self.spec_chunk_size() == old(self).spec_chunk_size(),
                self.load_store() == old(self).load_store(),
                self@.dom() == before.dom(),
                forall|i: int|
                    0 <= i < done ==> self@[#[trigger] indices@[i]] == before[indices@[i]].flushed(),
                forall|i: int|
                    done <= i < indices.len() ==> self@[#[trigger] indices@[i]]
                        == before[indices@[i]],
                self.requests() == asked + flush_requests(before, indices@.subrange(0, done as int)),
            decreases indices.len() - done,
        {
            let index = indices[done];
            let ghost visited = indices@.subrange(0, done as int);
            assert(indices@.subrange(0, done + 1).drop_last() =~= visited);
            assert(before.contains_key(index)) by {
                assert(indices@.to_set().contains(indices@[done as int]));
            }
            match self.chunks.entry(index) {
                Entry::Occupied(entry) => {
                    match entry.into_mut() {
                        Chunk::Loaded { data, need_store } => {
                            if *need_store {
                                self.load_store.store(index, data.as_slice());
                                proof {
                                    self.requests@ = self.requests@.push(
                                        Request::Store { index, data: data@ },
                                    );
                                }
                                *need_store = false;
                            }
                        },
                        Chunk::Empty => {},
                    }
                },
                Entry::Vacant(_) => {},
            }
            done += 1;
        }
        assert(indices@.subrange(0, done as int) =~= indices@);
        assert(self@ =~= before.map_values(|chunk: Chunk| chunk.flushed())) by {
            assert forall|index: u64| before.contains_key(index) implies self@[index]
                == before[index].flushed() by {
                assert(indices@.to_set().contains(index));
                let i = choose|i: int| 0 <= i < indices@.len() && indices@[i] == index;
                assert(self@[indices@[i]] == before[indices@[i]].flushed());
            }
        }
    }

    /// The chunks from the one that holds the byte at `offset` onwards, one
    /// per call of [`ChunkIter::next`]. The sequence has no end of its own.
    /// The cache is as the walk leaves it once the walk is dropped.
    pub fn iter_at(&mut self, offset: u64) -> (iter: ChunkIter<'_, L>)
        ensures
            old(self).spec_chunk_size() > 0,
            iter.index == old(self).chunk_index(offset),
            *iter.memstore == *old(self),
            *final(self) == *final(iter.memstore),
    {
        proof {
            use_type_invariant(&self.chunk_size);
        }
        ChunkIter { index: offset / self.chunk_size.bytes, memstore: self }
    }
}

/// A walk over the chunks of a cache, by rising chunk index.
pub struct ChunkIter<'a, L: LoadStore> {
    /// The cache that is walked.
    pub memstore: &'a mut Memstore<L>,
    /// The index of the chunk that the next step yields.
    pub index: u64,
}

impl<'a, L: LoadStore> ChunkIter<'a, L> {
    /// Yields the entry of the chunk at the current index, loaded first
    /// where it is not cached yet, and moves on to the next index. It
    /// always yields an entry: the walk has no end but the last index that a
    /// `u64` can hold, which it must not be asked to step past.
    pub fn next(&mut self) -> (chunk: Option<&Chunk>)
        requires
            old(self).index < u64::MAX,
        ensures
            final(self).index == old(self).index + 1,
            *final(final(self).memstore) == *final(old(self).memstore),
            final(self).memstore.spec_chunk_size() == old(self).memstore.spec_chunk_size(),
            final(self).memstore.load_store() == old(self).memstore.load_store(),
            ({
                &&& chunk matches Some(entry)
                &&& final(self).memstore@ == old(self).memstore@.insert(old(self).index, *entry)
                &&& if old(self).memstore@.contains_key(old(self).index) {
                    &&& final(self).memstore@ == old(self).memstore@
                    &&& final(self).memstore.requests() == old(self).memstore.requests()
                } else {
                    &&& !entry.is_dirty()
                    &&& final(self).memstore.requests() == old(self).memstore.requests().push(
                        Request::Load { index: old(self).index, found: entry.found() },
                    )
                }
            }),
    {
        let chunk = self.memstore.get_index(self.index);
        self.index += 1;
        Some(chunk)
    }
}

} // verus!
