//! Snapshots in chunks (§7 offset/done): a large snapshot travels in bounded
//! pieces, is put together on the follower in memory, and is installed only
//! once the last piece is there.
//!
//! What the pieces are pieces of is the snapshot's encoded form; encoding and
//! decoding are the driver's.

use vstd::prelude::*;

use super::rpc::{ChunkModel, RpcResponse, SnapshotChunkArgs, TransferId};
use super::transport::TransportError;

verus! {

// ---- sending ----

/// The piece of `bytes` at `offset`, of at most `size` bytes.
pub open spec fn piece(transfer: TransferId, bytes: Seq<u8>, size: int, offset: int) -> ChunkModel {
    let end = if size < bytes.len() - offset {
        offset + size
    } else {
        bytes.len() as int
    };
    ChunkModel {
        transfer,
        offset: offset as u64,
        data: bytes.subrange(offset, end),
        done: end == bytes.len(),
    }
}

/// A snapshot on its way out.
pub struct Outgoing {
    pub transfer: TransferId,
    pub bytes: Vec<u8>,
    /// The most bytes in one piece.
    pub size: usize,
}

impl Outgoing {
    /// The piece that follows what the receiver has: from `received` on, or
    /// from the start if there is nothing behind it.
    pub fn next(&self, received: u64) -> (chunk: SnapshotChunkArgs)
        ensures
            chunk@ == piece(
                self.transfer,
                self.bytes@,
                self.size as int,
                if received < self.bytes.len() {
                    received as int
                } else {
                    0
                },
            ),
    {
        let len: usize = self.bytes.len();
        let offset: usize = if received < len as u64 {
            received as usize
        } else {
            0
        };
        let end: usize = if self.size < len - offset {
            offset + self.size
        } else {
            len
        };
        let mut data: Vec<u8> = Vec::new();
        let mut i: usize = offset;
        while i < end
            invariant
                offset <= i <= end <= self.bytes.len(),
                data@ == self.bytes@.subrange(offset as int, i as int),
            decreases end - i,
        {
            data.push(self.bytes[i]);
            i += 1;
            assert(data@ =~= self.bytes@.subrange(offset as int, i as int));
        }
        assert(data@ =~= self.bytes@.subrange(offset as int, end as int));
        SnapshotChunkArgs { transfer: self.transfer, offset: offset as u64, data, done: end == len }
    }
}

/// What to do about a piece once it is answered.
pub enum AfterChunk {
    /// Send the next piece.
    More { chunk: SnapshotChunkArgs },
    /// The transfer is over, one way or the other: the answer stands for it.
    Finished,
}

/// Where a transfer goes on after the piece at `offset` was answered: behind
/// what the receiver has, as long as that gets on and there is more to send.
pub open spec fn goes_on(
    transfer: TransferId,
    len: int,
    offset: u64,
    answer: Result<RpcResponse, TransportError>,
) -> Option<u64> {
    match answer {
        Ok(RpcResponse::SnapshotChunk(reply)) => {
            if reply.term <= transfer.term && offset < reply.received < len {
                Some(reply.received)
            } else {
                None
            }
        },
        _ => None,
    }
}

impl Outgoing {
    /// Whether the snapshot fits one piece: then it need not be cut.
    pub fn is_single(&self) -> (single: bool)
        ensures
            single == (self.bytes.len() <= self.size),
    {
        self.bytes.len() <= self.size
    }

    /// What follows the answer to the piece at `offset`. A receiver that is not
    /// getting on (it has restarted, say) is given up, to be started on anew.
    pub fn after_answer(&self, offset: u64, answer: Result<RpcResponse, TransportError>) -> (after:
        AfterChunk)
        ensures
            match goes_on(self.transfer, self.bytes.len() as int, offset, answer) {
                Some(received) => after is More && after->chunk@ == piece(
                    self.transfer,
                    self.bytes@,
                    self.size as int,
                    received as int,
                ),
                None => after is Finished,
            },
    {
        match answer {
            Ok(RpcResponse::SnapshotChunk(reply)) => {
                if reply.term <= self.transfer.term && offset < reply.received && reply.received
                    < self.bytes.len() as u64 {
                    AfterChunk::More { chunk: self.next(reply.received) }
                } else {
                    AfterChunk::Finished
                }
            },
            _ => AfterChunk::Finished,
        }
    }
}

// ---- receiving ----

/// What has come in of a snapshot.
#[verifier::ext_equal]
pub struct AssemblyModel {
    pub transfer: TransferId,
    pub bytes: Seq<u8>,
}

/// What has come in of `transfer`.
pub open spec fn held(assembly: Option<AssemblyModel>, transfer: TransferId) -> Seq<u8> {
    match assembly {
        Some(a) if a.transfer == transfer => a.bytes,
        _ => Seq::empty(),
    }
}

/// Whether a chunk continues what has come in. The first chunk of another
/// transfer starts over.
pub open spec fn continues(assembly: Option<AssemblyModel>, chunk: ChunkModel) -> bool {
    chunk.offset == held(assembly, chunk.transfer).len()
}

/// What has come in of the chunk's transfer, the chunk included.
pub open spec fn reached(assembly: Option<AssemblyModel>, chunk: ChunkModel) -> Seq<u8> {
    if continues(assembly, chunk) {
        held(assembly, chunk.transfer) + chunk.data
    } else {
        held(assembly, chunk.transfer)
    }
}

/// Whether a chunk is the last that was missing.
pub open spec fn completes(assembly: Option<AssemblyModel>, chunk: ChunkModel) -> bool {
    continues(assembly, chunk) && chunk.done
}

/// What has come in after a chunk; one that does not continue it changes
/// nothing.
pub open spec fn assembly_after(assembly: Option<AssemblyModel>, chunk: ChunkModel) -> Option<
    AssemblyModel,
> {
    if !continues(assembly, chunk) {
        assembly
    } else if chunk.done {
        None
    } else {
        Some(AssemblyModel { transfer: chunk.transfer, bytes: reached(assembly, chunk) })
    }
}

/// What a chunk came to.
pub struct Taken {
    /// How much of its transfer has come in.
    pub received: u64,
    /// Everything, if the chunk was the last that was missing.
    pub whole: Option<Vec<u8>>,
}

/// A snapshot on its way in.
pub struct Assembly {
    current: Option<(TransferId, Vec<u8>)>,
}

impl View for Assembly {
    type V = Option<AssemblyModel>;

    closed spec fn view(&self) -> Option<AssemblyModel> {
        match self.current {
            Some((transfer, bytes)) => Some(AssemblyModel { transfer, bytes: bytes@ }),
            None => None,
        }
    }
}

impl Assembly {
    /// Nothing has come in.
    pub fn new() -> (assembly: Self)
        ensures
            assembly@ is None,
    {
        Assembly { current: None }
    }

    /// Takes a chunk in.
    pub fn take(&mut self, chunk: SnapshotChunkArgs) -> (taken: Taken)
        ensures
            final(self)@ == assembly_after(old(self)@, chunk@),
            taken.received == reached(old(self)@, chunk@).len() as u64,
            match taken.whole {
                Some(bytes) => completes(old(self)@, chunk@) && bytes@ == reached(old(self)@, chunk@),
                None => !completes(old(self)@, chunk@),
            },
    {
        let len: usize = match &self.current {
            Some((transfer, bytes)) => if *transfer == chunk.transfer {
                bytes.len()
            } else {
                0
            },
            None => 0,
        };
        assert(len == held(old(self)@, chunk@.transfer).len());
        if chunk.offset != len as u64 {
            return Taken { received: len as u64, whole: None };
        }
        let mut before: Option<(TransferId, Vec<u8>)> = None;
        std::mem::swap(&mut self.current, &mut before);
        let mut bytes: Vec<u8> = match before {
            Some((transfer, bytes)) => if transfer == chunk.transfer {
                bytes
            } else {
                Vec::new()
            },
            None => Vec::new(),
        };
        assert(bytes@ =~= held(old(self)@, chunk@.transfer));
        let ghost start = bytes@;
        let mut i: usize = 0;
        while i < chunk.data.len()
            invariant
                i <= chunk.data.len(),
                bytes@ == start + chunk.data@.take(i as int),
            decreases chunk.data.len() - i,
        {
            bytes.push(chunk.data[i]);
            i += 1;
            assert(bytes@ =~= start + chunk.data@.take(i as int));
        }
        assert(bytes@ =~= reached(old(self)@, chunk@));
        let received: u64 = bytes.len() as u64;
        if chunk.done {
            Taken { received, whole: Some(bytes) }
        } else {
            self.current = Some((chunk.transfer, bytes));
            Taken { received, whole: None }
        }
    }
}

// ---- what gets through ----

/// Whether a chunk of `transfer` is a piece of `bytes`: a chunk of another
/// transfer need not be.
pub open spec fn piece_of(chunk: ChunkModel, transfer: TransferId, bytes: Seq<u8>) -> bool {
    chunk.transfer == transfer ==> {
        &&& chunk.offset + chunk.data.len() <= bytes.len()
        &&& chunk.data == bytes.subrange(chunk.offset as int, chunk.offset + chunk.data.len())
        &&& chunk.done == (chunk.offset + chunk.data.len() == bytes.len())
    }
}

/// Whether what has come in of `transfer` is a beginning of `bytes`.
pub open spec fn on_track(
    assembly: Option<AssemblyModel>,
    transfer: TransferId,
    bytes: Seq<u8>,
) -> bool {
    let so_far = held(assembly, transfer);
    so_far.len() <= bytes.len() && so_far == bytes.take(so_far.len() as int)
}

/// What has come in after several chunks.
pub open spec fn assembly_after_all(chunks: Seq<ChunkModel>) -> Option<AssemblyModel>
    decreases chunks.len(),
{
    if chunks.len() == 0 {
        None
    } else {
        assembly_after(assembly_after_all(chunks.drop_last()), chunks.last())
    }
}

proof fn lemma_on_track(
    assembly: Option<AssemblyModel>,
    chunk: ChunkModel,
    transfer: TransferId,
    bytes: Seq<u8>,
)
    requires
        on_track(assembly, transfer, bytes),
        piece_of(chunk, transfer, bytes),
    ensures
        on_track(assembly_after(assembly, chunk), transfer, bytes),
        chunk.transfer == transfer && completes(assembly, chunk) ==> reached(assembly, chunk)
            == bytes,
{
    let so_far = held(assembly, transfer);
    assert(bytes.take(0) =~= Seq::empty());
    if chunk.transfer == transfer && continues(assembly, chunk) {
        let end = chunk.offset + chunk.data.len();
        assert(so_far + chunk.data =~= bytes.take(end));
        assert(bytes.take(bytes.len() as int) =~= bytes);
    }
}

/// Only the whole snapshot is handed on: whatever chunks of it come in, in
/// whatever order, duplicated, lost, or mixed with those of other transfers,
/// a transfer that completes has brought exactly the bytes that were sent.
pub proof fn only_the_whole_is_handed_on(
    chunks: Seq<ChunkModel>,
    last: ChunkModel,
    bytes: Seq<u8>,
)
    requires
        forall|i: int|
            #![trigger chunks[i]]
            0 <= i < chunks.len() ==> piece_of(chunks[i], last.transfer, bytes),
        piece_of(last, last.transfer, bytes),
    ensures
        on_track(assembly_after_all(chunks), last.transfer, bytes),
        completes(assembly_after_all(chunks), last) ==> reached(assembly_after_all(chunks), last)
            == bytes,
    decreases chunks.len(),
{
    if chunks.len() == 0 {
        assert(bytes.take(0) =~= Seq::empty());
    } else {
        let init = chunks.drop_last();
        assert forall|i: int| #![trigger init[i]] 0 <= i < init.len() implies piece_of(
            init[i],
            last.transfer,
            bytes,
        ) by {
            assert(init[i] == chunks[i]);
        }
        only_the_whole_is_handed_on(init, last, bytes);
        assert(chunks.last() == chunks[chunks.len() - 1]);
        lemma_on_track(assembly_after_all(init), chunks.last(), last.transfer, bytes);
    }
    lemma_on_track(assembly_after_all(chunks), last, last.transfer, bytes);
}

/// A transfer gets on: the piece that the sender cuts where the receiver stands
/// is a piece of the snapshot, and brings the receiver further or completes the
/// transfer.
pub proof fn each_piece_brings_the_receiver_on(
    assembly: Option<AssemblyModel>,
    transfer: TransferId,
    bytes: Seq<u8>,
    size: int,
)
    requires
        on_track(assembly, transfer, bytes),
        held(assembly, transfer).len() < bytes.len() <= u64::MAX,
        size > 0,
    ensures
        ({
            let chunk = piece(transfer, bytes, size, held(assembly, transfer).len() as int);
            &&& piece_of(chunk, transfer, bytes)
            &&& chunk.data.len() <= size
            &&& reached(assembly, chunk).len() > held(assembly, transfer).len()
            &&& completes(assembly, chunk) <==> reached(assembly, chunk).len() == bytes.len()
        }),
{
}

/// Where a transfer goes on: behind what the receiver says it has, if that is
/// more than before and not everything; it ends where the receiver has it all,
/// is at a newer term, does not get on, or did not answer.
pub proof fn a_transfer_goes_on_where_the_receiver_stands(
    transfer: TransferId,
    len: int,
    offset: u64,
    reply: super::rpc::SnapshotChunkReply,
    error: TransportError,
)
    ensures
        ({
            let next = goes_on(transfer, len, offset, Ok(RpcResponse::SnapshotChunk(reply)));
            &&& next is Some <==> reply.term <= transfer.term && reply.received > offset
                && reply.received < len
            &&& next is Some ==> next->0 == reply.received
            &&& goes_on(transfer, len, offset, Err(error)) is None
        }),
{
}

/// A piece is what stands at its offset: at most `size` bytes of it, all there
/// is where less is left, marked as the last exactly there.
pub proof fn a_piece_is_what_stands_there(
    transfer: TransferId,
    bytes: Seq<u8>,
    size: int,
    offset: int,
)
    requires
        0 <= offset <= bytes.len() <= u64::MAX,
        size > 0,
    ensures
        ({
            let chunk = piece(transfer, bytes, size, offset);
            &&& chunk.transfer == transfer
            &&& chunk.offset == offset
            &&& chunk.data.len() <= size
            &&& chunk.data.len() == size || offset + chunk.data.len() == bytes.len()
            &&& chunk.done == (offset + chunk.data.len() == bytes.len())
            &&& forall|i: int|
                #![trigger chunk.data[i]]
                0 <= i < chunk.data.len() ==> chunk.data[i] == bytes[offset + i]
        }),
{
}

/// What a receiver makes of a chunk: one that starts where it stands is added
/// to what it has of that transfer; any other changes nothing, and what is
/// answered is how far it has got.
pub proof fn a_chunk_is_taken_exactly_where_the_receiver_stands(
    assembly: Option<AssemblyModel>,
    chunk: ChunkModel,
)
    ensures
        ({
            let so_far = if assembly is Some && assembly->0.transfer == chunk.transfer {
                assembly->0.bytes
            } else {
                Seq::empty()
            };
            let after = assembly_after(assembly, chunk);
            &&& chunk.offset != so_far.len() ==> after == assembly && reached(assembly, chunk)
                == so_far && !completes(assembly, chunk)
            &&& chunk.offset == so_far.len() ==> reached(assembly, chunk) == so_far + chunk.data
            &&& chunk.offset == so_far.len() && chunk.done ==> after is None && completes(
                assembly,
                chunk,
            )
            &&& chunk.offset == so_far.len() && !chunk.done ==> after is Some
                && after->0.transfer == chunk.transfer && after->0.bytes == so_far + chunk.data
                && !completes(assembly, chunk)
        }),
{
}

} // verus!
