use vstd::prelude::*;
use crate::errors::ChunkError;

verus! {

/// What a single chunk fetch performed by the transport collaborator came back with.
pub enum FetchOutcome {
    /// The raw bytes of the chunk at the requested offset.
    Bytes(Vec<u8>),
    /// The chunk has not propagated through the network yet.
    Pending,
    /// The transport failed.
    Failed,
}

/// Sum of the lengths of a sequence of byte buffers.
pub open spec fn sum_lens(chunks: Seq<Seq<u8>>) -> int
    decreases chunks.len(),
{
    if chunks.len() == 0 {
        0
    } else {
        chunks[0].len() + sum_lens(chunks.skip(1))
    }
}

/// Concatenation of a sequence of byte buffers, in order.
pub open spec fn concat_chunks(chunks: Seq<Seq<u8>>) -> Seq<u8>
    decreases chunks.len(),
{
    if chunks.len() == 0 {
        Seq::empty()
    } else {
        chunks[0] + concat_chunks(chunks.skip(1))
    }
}

/// What the reconstruction loop produces when the collaborator answers the
/// successive fetches with `chunks`, starting at `cursor`: the concatenated
/// bytes of every chunk fetched before the cursor reaches `end`, or the first
/// failure. Chunks beyond the point where the loop stops are never asked for.
pub open spec fn spec_stream_run(cursor: int, end: int, chunks: Seq<Seq<u8>>) -> Result<
    Seq<u8>,
    ChunkError,
>
    decreases chunks.len(),
{
    if cursor >= end {
        Ok(Seq::empty())
    } else if chunks.len() == 0 {
        Err(ChunkError::TransportError)
    } else if chunks[0].len() == 0 {
        Err(ChunkError::ShortOrEmptyChunk)
    } else if cursor + chunks[0].len() > usize::MAX {
        Err(ChunkError::ShortOrEmptyChunk)
    } else {
        match spec_stream_run(cursor + chunks[0].len(), end, chunks.skip(1)) {
            Ok(rest) => Ok(chunks[0] + rest),
            Err(e) => Err(e),
        }
    }
}

/// The length sum of a chunk sequence is never negative.
pub proof fn lemma_sum_lens_nonneg(chunks: Seq<Seq<u8>>)
    ensures
        sum_lens(chunks) >= 0,
    decreases chunks.len(),
{
    if chunks.len() > 0 {
        lemma_sum_lens_nonneg(chunks.skip(1));
    }
}

proof fn lemma_run_covers(cursor: int, end: int, chunks: Seq<Seq<u8>>)
    requires
        0 <= cursor,
        end < usize::MAX,
        forall|j: int| 0 <= j < chunks.len() ==> #[trigger] chunks[j].len() > 0,
        cursor + sum_lens(chunks) == end + 1,
        forall|j: int|
            0 <= j < chunks.len() ==> cursor + #[trigger] sum_lens(chunks.take(j)) < end,
    ensures
        spec_stream_run(cursor, end, chunks) == Ok::<Seq<u8>, crate::errors::ChunkError>(
            concat_chunks(chunks),
        ),
        concat_chunks(chunks).len() == sum_lens(chunks),
    decreases chunks.len(),
{
    if chunks.len() == 0 {
    } else {
        assert(chunks.take(0) =~= Seq::<Seq<u8>>::empty());
        assert(cursor + sum_lens(chunks.take(0)) < end);
        lemma_sum_lens_nonneg(chunks.skip(1));
        let c2 = cursor + chunks[0].len();
        assert forall|j: int| 0 <= j < chunks.skip(1).len() implies c2 + #[trigger] sum_lens(
            chunks.skip(1).take(j),
        ) < end by {
            assert(chunks.take(j + 1).skip(1) =~= chunks.skip(1).take(j));
            assert(chunks.take(j + 1)[0] == chunks[0]);
            assert(sum_lens(chunks.take(j + 1)) == chunks[0].len() + sum_lens(
                chunks.skip(1).take(j),
            ));
            assert(cursor + sum_lens(chunks.take(j + 1)) < end);
        }
        lemma_run_covers(c2, end, chunks.skip(1));
    }
}

/// For every reconstruction whose fetch answers have positive lengths that
/// sum exactly to the declared size, and whose every proper prefix leaves the
/// cursor strictly short of the end offset — so that each chunk is actually
/// asked for — the stream yields exactly their concatenation: `size` bytes,
/// in order, with no gap and no overlap.
pub proof fn lemma_chunk_reconstruction_exact(size: int, end_offset: int, chunks: Seq<Seq<u8>>)
    requires
        0 <= size,
        size <= end_offset + 1,
        end_offset < usize::MAX,
        forall|j: int| 0 <= j < chunks.len() ==> #[trigger] chunks[j].len() > 0,
        sum_lens(chunks) == size,
        forall|j: int| 0 <= j < chunks.len() ==> #[trigger] sum_lens(chunks.take(j)) < size - 1,
    ensures
        spec_stream_run(end_offset - size + 1, end_offset, chunks) == Ok::<
            Seq<u8>,
            crate::errors::ChunkError,
        >(concat_chunks(chunks)),
        concat_chunks(chunks).len() == size,
{
    lemma_run_covers(end_offset - size + 1, end_offset, chunks);
}

/// The chunk-reconstruction state machine. It walks a transaction's byte
/// range in increasing offset order: it names the offset of the next chunk to
/// fetch, and on each fetch outcome either accepts the bytes and advances by
/// exactly their length, or fails and stops. The transport itself is the
/// caller's business; this machine only decides.
pub struct ChunkStream {
    cursor: usize,
    end_offset: usize,
    failed: bool,
    yielded: Ghost<Seq<u8>>,
    start: Ghost<int>,
}

impl ChunkStream {
    /// The concatenation of every chunk accepted so far.
    pub closed spec fn yielded(self) -> Seq<u8> {
        self.yielded@
    }

    /// The offset the next fetch would address.
    pub closed spec fn cursor(self) -> int {
        self.cursor as int
    }

    /// The end offset the stream was created with.
    pub closed spec fn end_offset(self) -> int {
        self.end_offset as int
    }

    /// Whether a fetch outcome was rejected; the stream stops there.
    pub closed spec fn failed(self) -> bool {
        self.failed
    }

    /// No further chunk is fetched: the cursor reached the end, or a fetch failed.
    pub open spec fn done(self) -> bool {
        self.failed() || self.cursor() >= self.end_offset()
    }

    /// The cursor always sits exactly at the start offset plus what was yielded.
    pub closed spec fn wf(self) -> bool {
        &&& self.cursor as int == self.start@ + self.yielded@.len()
        &&& self.end_offset < usize::MAX
    }

    /// Start a reconstruction for a transaction of `size` bytes whose last
    /// byte sits at `end_offset` in the global byte space.
    pub fn new(size: usize, end_offset: usize) -> (s: Self)
        requires
            end_offset < usize::MAX,
            size <= end_offset + 1,
        ensures
            s.wf(),
            !s.failed(),
            s.yielded() == Seq::<u8>::empty(),
            s.cursor() == end_offset - size + 1,
            s.end_offset() == end_offset,
    {
        let cursor = end_offset + 1 - size;
        ChunkStream {
            cursor,
            end_offset,
            failed: false,
            yielded: Ghost(Seq::empty()),
            start: Ghost(cursor as int),
        }
    }

    /// The offset to fetch next, or `None` once the stream is done.
    pub fn next_offset(&self) -> (r: Option<usize>)
        requires
            self.wf(),
        ensures
            match r {
                Some(o) => !self.done() && o == self.cursor(),
                None => self.done(),
            },
    {
        if !self.failed && self.cursor < self.end_offset {
            Some(self.cursor)
        } else {
            None
        }
    }

    /// Judge one fetch outcome: accept the bytes and advance, or fail. A
    /// pending or failed fetch, an empty chunk, and a chunk that would walk
    /// past the addressable byte space all stop the stream; nothing partial
    /// is ever yielded.
    pub fn accept_fetch(&mut self, outcome: FetchOutcome) -> (r: Result<Vec<u8>, ChunkError>)
        requires
            old(self).wf(),
            !old(self).done(),
        ensures
            final(self).wf(),
            final(self).end_offset() == old(self).end_offset(),
            match r {
                Ok(bytes) => {
                    &&& outcome matches FetchOutcome::Bytes(b) && bytes == b
                    &&& bytes@.len() > 0
                    &&& old(self).cursor() + bytes@.len() <= usize::MAX
                    &&& !final(self).failed()
                    &&& final(self).yielded() == old(self).yielded() + bytes@
                    &&& final(self).cursor() == old(self).cursor() + bytes@.len()
                },
                Err(e) => {
                    &&& final(self).failed()
                    &&& final(self).yielded() == old(self).yielded()
                    &&& final(self).cursor() == old(self).cursor()
                    &&& match outcome {
                        FetchOutcome::Pending => e == ChunkError::ChunkPending,
                        FetchOutcome::Failed => e == ChunkError::TransportError,
                        FetchOutcome::Bytes(b) => {
                            &&& e == ChunkError::ShortOrEmptyChunk
                            &&& (b@.len() == 0 || old(self).cursor() + b@.len() > usize::MAX)
                        },
                    }
                },
            },
    {
        match outcome {
            FetchOutcome::Pending => {
                self.failed = true;
                Err(ChunkError::ChunkPending)
            },
            FetchOutcome::Failed => {
                self.failed = true;
                Err(ChunkError::TransportError)
            },
            FetchOutcome::Bytes(bytes) => {
                if bytes.len() == 0 || bytes.len() > usize::MAX - self.cursor {
                    self.failed = true;
                    Err(ChunkError::ShortOrEmptyChunk)
                } else {
                    self.cursor = self.cursor + bytes.len();
                    self.yielded = Ghost(self.yielded@ + bytes@);
                    Ok(bytes)
                }
            },
        }
    }
}

/// Drive a whole reconstruction against an in-order list of fetch answers,
/// as when the collaborator's responses are already at hand: the bytes of
/// `chunks` are accepted one by one until the declared size is covered.
pub fn reconstruct_from_chunks(size: usize, end_offset: usize, chunks: Vec<Vec<u8>>) -> (r: Result<
    Vec<u8>,
    ChunkError,
>)
    requires
        end_offset < usize::MAX,
        size <= end_offset + 1,
    ensures
        ({
            let run = spec_stream_run(
                end_offset - size + 1,
                end_offset as int,
                chunks@.map_values(|c: Vec<u8>| c@),
            );
            match r {
                Ok(bytes) => run == Ok::<Seq<u8>, ChunkError>(bytes@),
                Err(e) => run == Err::<Seq<u8>, ChunkError>(e),
            }
        }),
{
    let ghost all = chunks@.map_values(|c: Vec<u8>| c@);
    let ghost start = end_offset - size + 1;
    let mut stream = ChunkStream::new(size, end_offset);
    let mut out: Vec<u8> = Vec::new();
    let mut k: usize = 0;
    proof {
        assert(all.skip(0) =~= all);
        let whole = spec_stream_run(start, end_offset as int, all);
        if whole is Ok {
            assert(Seq::<u8>::empty() + whole.unwrap() =~= whole.unwrap());
        }
    }
    loop
        invariant
            stream.wf(),
            !stream.failed(),
            stream.end_offset() == end_offset as int,
            k <= chunks.len(),
            all == chunks@.map_values(|c: Vec<u8>| c@),
            start == end_offset + 1 - size,
            out@ == stream.yielded(),
            ({
                let tail = spec_stream_run(stream.cursor(), end_offset as int, all.skip(k as int));
                let whole = spec_stream_run(start, end_offset as int, all);
                match tail {
                    Ok(t) => whole == Ok::<Seq<u8>, ChunkError>(out@ + t),
                    Err(e) => whole == Err::<Seq<u8>, ChunkError>(e),
                }
            }),
        decreases chunks.len() - k,
    {
        match stream.next_offset() {
            None => {
                proof {
                    assert(out@ + Seq::<u8>::empty() =~= out@);
                }
                return Ok(out);
            },
            Some(_) => {
                if k >= chunks.len() {
                    proof {
                        assert(all.skip(k as int) =~= Seq::<Seq<u8>>::empty());
                    }
                    return Err(ChunkError::TransportError);
                }
                let chunk = chunks[k].clone();
                proof {
                    assert(chunk@ == all.skip(k as int)[0]);
                }
                match stream.accept_fetch(FetchOutcome::Bytes(chunk)) {
                    Ok(bytes) => {
                        let ghost prev_out = out@;
                        let mut bytes = bytes;
                        out.append(&mut bytes);
                        k = k + 1;
                        proof {
                            assert(all.skip((k - 1) as int).skip(1) =~= all.skip(k as int));
                            assert(out@ =~= stream.yielded());
                            let tail = spec_stream_run(
                                stream.cursor(),
                                end_offset as int,
                                all.skip(k as int),
                            );
                            if tail is Ok {
                                assert(prev_out + (all.skip((k - 1) as int)[0] + tail.unwrap())
                                    =~= out@ + tail.unwrap());
                            }
                        }
                    },
                    Err(e) => {
                        return Err(e);
                    },
                }
            },
        }
    }
}

} // verus!
