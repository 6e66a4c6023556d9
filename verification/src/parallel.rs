//! The scheduling core of the multi-threaded decoder.
//!
//! Threads themselves live outside this crate; everything a worker or the
//! dispatching side decides or computes is here: decoding one block job
//! from a shared buffer, the boundary policy that holds back a possibly
//! truncated trailing block, and the ordered queue that hands finished
//! blocks to the consumer in stream order no matter when workers finish.

use crate::bitreader::BitReader;
use crate::bits::bits_val;
use crate::block::{Block, BLOCK_MAGIC, FINAL_MAGIC};
use crate::errors::BlockError;
use crate::header::Header;
use vstd::prelude::*;

verus! {

/// A decompressed prefix of a block, read out front to back.
pub struct ReadableVec {
    vec: Vec<u8>,
    skip: usize,
}

impl ReadableVec {
    /// The bytes not handed out yet.
    pub closed spec fn remaining(self) -> Seq<u8> {
        self.vec@.skip(self.skip as int)
    }

    /// The cursor sits inside the vector.
    pub closed spec fn wf(self) -> bool {
        self.skip <= self.vec@.len()
    }

    /// Wrap a whole vector.
    pub fn from_vec(vec: Vec<u8>) -> (r: Self)
        ensures
            r.wf(),
            r.remaining() == vec@,
    {
        let r = Self { vec, skip: 0 };
        proof {
            assert(r.remaining() =~= r.vec@);
        }
        r
    }

    /// Copy bytes to the front of `out`; returns how many, which is
    /// whatever is smaller: the bytes left or the room in `out`.
    pub fn read(&mut self, out: &mut Vec<u8>) -> (r: usize)
        requires
            old(self).wf(),
        ensures
            final(self).wf(),
            final(out)@.len() == old(out)@.len(),
            r == if old(self).remaining().len() < old(out)@.len() {
                old(self).remaining().len() as int
            } else {
                old(out)@.len() as int
            },
            final(out)@ == old(self).remaining().take(r as int) + old(out)@.skip(r as int),
            final(self).remaining() == old(self).remaining().skip(r as int),
    {
        let available = self.vec.len() - self.skip;
        let r = if available < out.len() {
            available
        } else {
            out.len()
        };
        let mut i: usize = 0;
        while i < r
            invariant
                i <= r,
                r <= out@.len() == old(out)@.len(),
                self == old(self),
                self.skip + r <= self.vec@.len() <= usize::MAX,
                forall|q: int| 0 <= q < i ==> out@[q] == self.vec@[self.skip + q],
                forall|q: int| i <= q < out@.len() ==> out@[q] == old(out)@[q],
            decreases r - i,
        {
            let v = self.vec[self.skip + i];
            out[i] = v;
            i = i + 1;
        }
        self.skip = self.skip + r;
        proof {
            assert(out@ =~= old(self).remaining().take(r as int) + old(out)@.skip(r as int));
            assert(self.remaining() =~= old(self).remaining().skip(r as int));
        }
        r
    }
}

/// What became of one dispatched block job.
pub enum BlockJobResult {
    /// The job decoded a block: an eagerly decompressed prefix plus the
    /// block reader holding the rest.
    Decoded(ReadableVec, Block),
    /// The job found the stream's final marker instead of a block.
    EndOfStream,
    /// The job failed; the error surfaces when this slot is delivered.
    Failed(BlockError),
}

/// Run one block job: position a cursor on the 48-bit marker at
/// `signature_bits`, decode the block body, and pre-read up to
/// `max_preread_len` bytes of its output. The pre-read bytes are exactly
/// the bytes the block's running checksum has absorbed.
#[verifier::loop_isolation(false)]
pub fn decode_block_job(
    data: &[u8],
    signature_bits: u64,
    header: Header,
    max_preread_len: usize,
) -> (r: BlockJobResult)
    requires
        header.wf(),
        data@.len() <= usize::MAX / 8,
        signature_bits <= 8 * data@.len(),
    ensures
        match r {
            BlockJobResult::Decoded(pre, blk) => {
                &&& pre.wf()
                &&& blk.wf()
                &&& blk.spec_header() == header
                &&& blk.crc_view() == pre.remaining()
                &&& (pre.remaining() + blk.remaining()).len() >= 1
                &&& blk.spec_expected_crc() == bits_val(
                    data@,
                    signature_bits as int + 48,
                    32,
                ) as u32
                &&& bits_val(data@, signature_bits as int, 48) == BLOCK_MAGIC
            },
            BlockJobResult::EndOfStream => bits_val(data@, signature_bits as int, 48)
                == FINAL_MAGIC && signature_bits + 80 <= 8 * data@.len(),
            BlockJobResult::Failed(e) => {
                &&& (e == BlockError::NextMagicTruncated <==> 8 * data@.len() < signature_bits
                    + 48)
                &&& (e == BlockError::BadMagic ==> bits_val(data@, signature_bits as int, 48)
                    != BLOCK_MAGIC && bits_val(data@, signature_bits as int, 48) != FINAL_MAGIC)
                &&& (e == BlockError::WholeStreamCrcTruncated ==> bits_val(
                    data@,
                    signature_bits as int,
                    48,
                ) == FINAL_MAGIC && 8 * data@.len() < signature_bits + 80)
                &&& (!(e == BlockError::NextMagicTruncated || e == BlockError::BadMagic || e
                    == BlockError::WholeStreamCrcTruncated) ==> (signature_bits + 48 <= 8
                    * data@.len() && bits_val(data@, signature_bits as int, 48) == BLOCK_MAGIC
                    && crate::block::block_body_errors(
                    data@,
                    signature_bits as int + 48,
                    Err::<(), BlockError>(e),
                )))
            },
        },
{
    let mut reader = BitReader::new(data, signature_bits as usize);
    let mut block = Block::new(header);
    match block.read_block(&mut reader) {
        Ok(Some(_)) => {
            let ghost d0 = block.remaining();
            let mut pre_read: Vec<u8> = Vec::new();
            proof {
                assert(pre_read@ + block.remaining() =~= d0);
            }
            loop
                invariant
                    reader.wf(),
                    block.wf(),
                    block.spec_header() == header,
                    block.spec_expected_crc() == bits_val(
                        data@,
                        signature_bits as int + 48,
                        32,
                    ) as u32,
                    pre_read@.len() <= max_preread_len,
                    block.crc_view() == pre_read@,
                    pre_read@ + block.remaining() == d0,
                    d0.len() >= 1,
                decreases max_preread_len - pre_read@.len(),
            {
                let remaining = max_preread_len - pre_read.len();
                if remaining == 0 {
                    break ;
                }
                let chunk = if remaining < 32 * 1024 {
                    remaining
                } else {
                    32 * 1024
                };
                let mut chunk_buf: Vec<u8> = vec![0u8; chunk];
                let ghost pre_crc = block.crc_view();
                match block.read_from_block(&mut chunk_buf) {
                    Ok(n) => {
                        let mut t: usize = 0;
                        while t < n
                            invariant
                                t <= n <= chunk_buf@.len(),
                                pre_read@ == pre_crc + chunk_buf@.subrange(0, t as int),
                                pre_read@.len() + (n - t) <= max_preread_len,
                            decreases n - t,
                        {
                            let v = chunk_buf[t];
                            pre_read.push(v);
                            t = t + 1;
                            proof {
                                assert(pre_read@ =~= pre_crc + chunk_buf@.subrange(0, t as int));
                            }
                        }
                        proof {
                            assert(block.crc_view() =~= pre_read@);
                            assert(pre_read@ + block.remaining() =~= d0);
                        }
                        if n < chunk {
                            break ;
                        }
                    },
                    Err(e) => {
                        proof {
                            reveal(crate::block::block_body_errors);
                            assert(crate::block::block_body_errors(
                                data@,
                                signature_bits as int + 48,
                                Err::<(), BlockError>(e),
                            ));
                        }
                        return BlockJobResult::Failed(e);
                    },
                }
            }
            let pre = ReadableVec::from_vec(pre_read);
            proof {
                assert(pre.remaining() + block.remaining() =~= d0);
            }
            BlockJobResult::Decoded(pre, block)
        },
        Ok(None) => BlockJobResult::EndOfStream,
        Err(e) => BlockJobResult::Failed(e),
    }
}

/// The dispatcher's buffering heuristic: a dispatch cycle starts once the
/// input has ended, or once the unconsumed bytes could hold one maximal
/// block per pool thread, so the scanner is not run over and over on a
/// short buffer.
pub fn dispatch_due(
    buffered_len: usize,
    skip_bits: usize,
    max_blocksize: u32,
    threads: usize,
    write_eof: bool,
) -> (r: bool)
    requires
        skip_bits / 8 <= buffered_len,
        max_blocksize >= 1,
    ensures
        r == (write_eof || (buffered_len - skip_bits as int / 8) / (max_blocksize as int) >= threads),
{
    if write_eof {
        return true;
    }
    let filled_portion = buffered_len - skip_bits / 8;
    filled_portion / (max_blocksize as usize) >= threads
}

/// The boundary policy of a dispatch cycle: with more input still to
/// come, the last signature may start a truncated block, so it is held
/// back; at the end of the input every signature is dispatched.
pub fn split_dispatch(signatures: Vec<u64>, eof: bool) -> (r: (Vec<u64>, Option<u64>))
    ensures
        eof ==> r.0@ == signatures@ && r.1 is None,
        !eof && signatures@.len() > 0 ==> r.0@ == signatures@.take(signatures@.len() - 1) && r.1
            == Some(signatures@.last()),
        !eof && signatures@.len() == 0 ==> r.0@ == signatures@ && r.1 is None,
{
    if eof {
        (signatures, None)
    } else {
        let mut signatures = signatures;
        match signatures.pop() {
            Some(last) => (signatures, Some(last)),
            None => (signatures, None),
        }
    }
}

/// One slot of the ordered reassembly queue.
pub enum SlotState {
    /// A worker is still decoding this block.
    Pending,
    /// The block is decoded and ready to stream.
    Ready(ReadableVec, Block),
    /// The worker found the final marker here: the stream ends.
    EndOfStream,
    /// The worker failed; the error is delivered in order.
    Failed(BlockError),
}

/// An ordered queue of block slots keyed by consecutive block indices.
/// Slots are allocated in dispatch order and delivered front to back, so
/// the consumer sees blocks in stream order no matter when workers
/// finish.
pub struct BlockQueue {
    base: u32,
    slots: Vec<SlotState>,
}

impl BlockQueue {
    /// The next block index to deliver.
    pub closed spec fn spec_base(self) -> u32 {
        self.base
    }

    /// The slots still queued, front first.
    pub closed spec fn spec_slots(self) -> Seq<SlotState> {
        self.slots@
    }

    /// The next block index to allocate.
    pub open spec fn spec_next(self) -> int {
        self.spec_base() + self.spec_slots().len()
    }

    /// Indices stay inside `u32`. The delivery index never passes the
    /// allocation index, because the queue length is their difference.
    pub open spec fn wf(self) -> bool {
        self.spec_next() <= u32::MAX
    }

    /// An empty queue starting at block index 0.
    pub fn new() -> (r: Self)
        ensures
            r.wf(),
            r.spec_base() == 0,
            r.spec_slots() == Seq::<SlotState>::empty(),
    {
        Self { base: 0, slots: Vec::new() }
    }

    /// The index the next allocation will get.
    pub fn next_index(&self) -> (r: u32)
        requires
            self.wf(),
        ensures
            r == self.spec_next(),
    {
        self.base + (self.slots.len() as u32)
    }

    /// Allocate the next block index as pending.
    pub fn allocate(&mut self) -> (r: u32)
        requires
            old(self).wf(),
            old(self).spec_next() < u32::MAX,
        ensures
            final(self).wf(),
            r == old(self).spec_next(),
            final(self).spec_base() == old(self).spec_base(),
            final(self).spec_slots() == old(self).spec_slots().push(SlotState::Pending),
    {
        let idx = self.base + (self.slots.len() as u32);
        self.slots.push(SlotState::Pending);
        idx
    }

    /// Store a worker's result in its slot. Results for indices that are
    /// no longer (or not yet) queued are ignored; so are duplicates.
    pub fn record(&mut self, index: u32, result: BlockJobResult)
        requires
            old(self).wf(),
        ensures
            final(self).wf(),
            final(self).spec_base() == old(self).spec_base(),
            final(self).spec_slots().len() == old(self).spec_slots().len(),
            forall|t: int|
                0 <= t < old(self).spec_slots().len() && t != index - old(self).spec_base()
                    ==> final(self).spec_slots()[t] == old(self).spec_slots()[t],
            old(self).spec_base() <= index < old(self).spec_next() && old(self).spec_slots()[index
                - old(self).spec_base()] is Pending ==> final(self).spec_slots()[index - old(
                self,
            ).spec_base()] == result_slot(result),
    {
        if index >= self.base {
            let off = (index - self.base) as usize;
            if off < self.slots.len() {
                let is_pending = match &self.slots[off] {
                    SlotState::Pending => true,
                    _ => false,
                };
                if is_pending {
                    let slot = match result {
                        BlockJobResult::Decoded(pre, blk) => SlotState::Ready(pre, blk),
                        BlockJobResult::EndOfStream => SlotState::EndOfStream,
                        BlockJobResult::Failed(e) => SlotState::Failed(e),
                    };
                    self.slots[off] = slot;
                }
            }
        }
    }

    /// Whether a slot is queued at the delivery index.
    pub fn has_front(&self) -> (r: bool)
        ensures
            r == (self.spec_slots().len() > 0),
    {
        self.slots.len() > 0
    }

    /// Whether the slot to deliver next is still being decoded.
    pub fn front_is_pending(&self) -> (r: bool)
        ensures
            r == (self.spec_slots().len() > 0 && self.spec_slots()[0] is Pending),
    {
        if self.slots.len() > 0 {
            match &self.slots[0] {
                SlotState::Pending => true,
                _ => false,
            }
        } else {
            false
        }
    }

    /// Remove and return the front slot, advancing the delivery index by
    /// one: blocks leave the queue in exactly the order their indices
    /// were allocated.
    pub fn pop_front(&mut self) -> (r: Option<SlotState>)
        requires
            old(self).wf(),
        ensures
            final(self).wf(),
            old(self).spec_slots().len() == 0 ==> r is None && *final(self) == *old(self),
            old(self).spec_slots().len() > 0 ==> {
                &&& r == Some(old(self).spec_slots()[0])
                &&& final(self).spec_base() == old(self).spec_base() + 1
                &&& final(self).spec_slots() == old(self).spec_slots().skip(1)
            },
    {
        if self.slots.len() == 0 {
            return None;
        }
        let s = self.slots.remove(0);
        self.base = self.base + 1;
        proof {
            assert(self.slots@ =~= old(self).slots@.skip(1));
        }
        Some(s)
    }

    /// Put a partially drained slot back at the delivery index.
    pub fn push_front(&mut self, s: SlotState)
        requires
            old(self).wf(),
            old(self).spec_base() >= 1,
        ensures
            final(self).wf(),
            final(self).spec_base() == old(self).spec_base() - 1,
            final(self).spec_slots() == seq![s].add(old(self).spec_slots()),
    {
        self.slots.insert(0, s);
        self.base = self.base - 1;
        proof {
            assert(self.slots@ =~= seq![s].add(old(self).slots@));
        }
    }
}

/// The slot a worker result becomes.
pub open spec fn result_slot(r: BlockJobResult) -> SlotState {
    match r {
        BlockJobResult::Decoded(pre, blk) => SlotState::Ready(pre, blk),
        BlockJobResult::EndOfStream => SlotState::EndOfStream,
        BlockJobResult::Failed(e) => SlotState::Failed(e),
    }
}

/// A slot's contents are consistent: a ready block and its pre-read
/// prefix are well formed.
pub open spec fn slot_wf(s: SlotState) -> bool {
    match s {
        SlotState::Ready(pre, blk) => pre.wf() && blk.wf(),
        _ => true,
    }
}

/// All queued slots are consistent.
pub open spec fn queue_slots_wf(q: BlockQueue) -> bool {
    forall|t: int| 0 <= t < q.spec_slots().len() ==> slot_wf(#[trigger] q.spec_slots()[t])
}

/// What one delivery step asks the caller to do.
pub enum DeliveryAction {
    /// The next block in order is still being decoded: block on the
    /// worker channel, record the result, and step again.
    AwaitWorker,
    /// This many bytes were placed at the front of the output buffer.
    Output(usize),
    /// The stream's final marker was delivered: remember that the stream
    /// has ended and step again.
    StreamEnds,
    /// A block finished cleanly (its checksum held): step again.
    BlockDone,
    /// No block is queued: with the stream ended there is nothing left,
    /// otherwise more input must be written.
    NeedsInput,
    /// The stream has ended and nothing is left to deliver.
    Finished,
    /// The block at the delivery index failed; the stream is broken.
    Fail(BlockError),
}

/// Everything one delivery step guarantees: the queue shrinks only from
/// the front, emitted bytes are exactly the next bytes of the front
/// block's pending output (pre-read first), failures are truthful, and a
/// cleanly finished block had a matching checksum.
pub open spec fn delivery_post(
    old_q: BlockQueue,
    old_out: Seq<u8>,
    new_q: BlockQueue,
    new_out: Seq<u8>,
    stream_eof: bool,
    r: DeliveryAction,
) -> bool {
    match r {
        DeliveryAction::AwaitWorker => {
            &&& new_q == old_q
            &&& new_out == old_out
            &&& old_q.spec_slots().len() > 0
            &&& old_q.spec_slots()[0] is Pending
        },
        DeliveryAction::NeedsInput => {
            &&& new_q == old_q
            &&& new_out == old_out
            &&& old_q.spec_slots().len() == 0
            &&& !stream_eof
        },
        DeliveryAction::Finished => {
            &&& new_q == old_q
            &&& new_out == old_out
            &&& old_q.spec_slots().len() == 0
            &&& stream_eof
        },
        DeliveryAction::StreamEnds => {
            &&& old_q.spec_slots().len() > 0
            &&& old_q.spec_slots()[0] is EndOfStream
            &&& new_q.spec_slots() == old_q.spec_slots().skip(1)
            &&& new_out == old_out
        },
        DeliveryAction::Fail(e) => {
            &&& old_q.spec_slots().len() > 0
            &&& new_out == old_out
            &&& (old_q.spec_slots()[0] is Failed || old_q.spec_slots()[0] is Ready)
            &&& (old_q.spec_slots()[0] matches SlotState::Failed(e0) ==> e0 == e)
            &&& (old_q.spec_slots()[0] matches SlotState::Ready(pre, blk) ==> (e
                == BlockError::BadCrc && pre.remaining().len() == 0 && blk.remaining().len() == 0
                && crate::crc::bz_crc(blk.crc_view()) != blk.spec_expected_crc()))
        },
        DeliveryAction::BlockDone => {
            &&& old_q.spec_slots().len() > 0
            &&& old_q.spec_slots()[0] is Ready
            &&& new_q.spec_slots() == old_q.spec_slots().skip(1)
            &&& new_out == old_out
            &&& (old_q.spec_slots()[0] matches SlotState::Ready(pre, blk) ==> (pre
                .remaining().len() == 0 && blk.remaining().len() == 0 && crate::crc::bz_crc(
                blk.crc_view(),
            ) == blk.spec_expected_crc()))
        },
        DeliveryAction::Output(n) => {
            &&& old_q.spec_slots().len() > 0
            &&& old_q.spec_slots()[0] is Ready
            &&& n <= old_out.len()
            &&& (old_q.spec_slots()[0] matches SlotState::Ready(pre, blk) ==> ({
                let pending = pre.remaining() + blk.remaining();
                &&& (old_out.len() > 0 && pending.len() > 0 ==> n > 0)
                &&& new_out == pending.take(n as int) + old_out.skip(n as int)
                &&& new_q.spec_base() == old_q.spec_base()
                &&& new_q.spec_slots().len() == old_q.spec_slots().len()
                &&& new_q.spec_slots().skip(1) == old_q.spec_slots().skip(1)
                &&& (new_q.spec_slots()[0] matches SlotState::Ready(pre2, blk2) && pre2.remaining()
                    + blk2.remaining() == pending.skip(n as int))
            }))
        },
    }
}

/// One step of in-order delivery: inspect the slot at the delivery index
/// and either emit bytes from it, retire it, or tell the caller what is
/// missing. Blocks leave in allocation order, and a block's bytes are
/// handed out exactly in order: first its pre-read prefix, then the rest.
pub fn delivery_step(queue: &mut BlockQueue, stream_eof: bool, out: &mut Vec<u8>) -> (r:
    DeliveryAction)
    requires
        old(queue).wf(),
        queue_slots_wf(*old(queue)),
    ensures
        final(queue).wf(),
        queue_slots_wf(*final(queue)),
        final(out)@.len() == old(out)@.len(),
        final(queue).spec_base() >= old(queue).spec_base(),
        delivery_post(*old(queue), old(out)@, *final(queue), final(out)@, stream_eof, r),
{
    if !queue.has_front() {
        if stream_eof {
            return DeliveryAction::Finished;
        }
        return DeliveryAction::NeedsInput;
    }
    if queue.front_is_pending() {
        return DeliveryAction::AwaitWorker;
    }
    match queue.pop_front() {
        Some(SlotState::Ready(mut pre, mut block)) => {
            let ghost pre_rem = pre.remaining();
            let ghost blk_rem = block.remaining();
            let ghost pending = pre_rem + blk_rem;
            if out.len() == 0 {
                queue.push_front(SlotState::Ready(pre, block));
                proof {
                    assert(queue.spec_slots() =~= old(queue).spec_slots());
                    assert(queue.spec_slots().skip(1) =~= old(queue).spec_slots().skip(1));
                    assert(out@ =~= pending.take(0) + old(out)@.skip(0));
                    assert(pre.remaining() + block.remaining() =~= pending.skip(0));
                }
                return DeliveryAction::Output(0);
            }
            let n = pre.read(out);
            if n > 0 {
                proof {
                    assert(out@ =~= pending.take(n as int) + old(out)@.skip(n as int));
                    assert(pre.remaining() + block.remaining() =~= pending.skip(n as int));
                }
                queue.push_front(SlotState::Ready(pre, block));
                proof {
                    assert(queue.spec_slots().skip(1) =~= old(queue).spec_slots().skip(1));
                }
                return DeliveryAction::Output(n);
            }
            proof {
                assert(pre_rem.len() == 0);
                assert(out@ =~= old(out)@);
                assert(pending =~= blk_rem);
            }
            match block.read_from_block(out) {
                Ok(n2) => {
                    if n2 == 0 {
                        return DeliveryAction::BlockDone;
                    }
                    proof {
                        assert(out@ =~= pending.take(n2 as int) + old(out)@.skip(n2 as int));
                        assert(pre.remaining() + block.remaining() =~= pending.skip(n2 as int));
                    }
                    queue.push_front(SlotState::Ready(pre, block));
                    proof {
                        assert(queue.spec_slots().skip(1) =~= old(queue).spec_slots().skip(1));
                    }
                    DeliveryAction::Output(n2)
                },
                Err(e) => DeliveryAction::Fail(e),
            }
        },
        Some(SlotState::EndOfStream) => DeliveryAction::StreamEnds,
        Some(SlotState::Failed(e)) => DeliveryAction::Fail(e),
        Some(SlotState::Pending) | None => {
            proof {
                assert(false);
            }
            DeliveryAction::AwaitWorker
        },
    }
}

/// Decide the end of the stream when a scan cycle finds no block magic:
/// the unconsumed bits must open with the stream's final marker.
pub fn check_stream_end(data: &[u8], skip_bits: usize) -> (r: Result<(), BlockError>)
    requires
        data@.len() <= usize::MAX / 8,
        skip_bits <= 8 * data@.len(),
    ensures
        r is Ok <==> (skip_bits + 48 <= 8 * data@.len() && bits_val(data@, skip_bits as int, 48)
            == FINAL_MAGIC),
        r == Err::<(), BlockError>(BlockError::NoBlocksFoundEof) <==> 8 * data@.len() < skip_bits
            + 48,
        r == Err::<(), BlockError>(BlockError::NoBlocksFound) <==> (skip_bits + 48 <= 8
            * data@.len() && bits_val(data@, skip_bits as int, 48) != FINAL_MAGIC),
{
    let mut reader = BitReader::new(data, skip_bits);
    proof {
        crate::bits::lemma_bits_val_fits_u64(data@, skip_bits as int, 48);
    }
    match reader.read_u64(48) {
        Some(magic) => {
            if magic == FINAL_MAGIC {
                Ok(())
            } else {
                Err(BlockError::NoBlocksFound)
            }
        },
        None => Err(BlockError::NoBlocksFoundEof),
    }
}

/// The bytes to keep buffered when the trailing block at `last_signature`
/// may still be truncated: everything from its first byte on, plus the
/// bit offset of the magic inside that byte.
pub fn retain_tail(data: &[u8], last_signature: u64) -> (r: (Vec<u8>, usize))
    requires
        data@.len() <= usize::MAX / 8,
        last_signature <= 8 * data@.len(),
    ensures
        r.0@ == data@.skip(last_signature as int / 8),
        r.1 == last_signature as int % 8,
{
    let first_byte = (last_signature / 8) as usize;
    let mut tail: Vec<u8> = Vec::new();
    let mut i: usize = first_byte;
    while i < data.len()
        invariant
            first_byte <= i <= data@.len(),
            first_byte == last_signature as int / 8,
            tail@ =~= data@.subrange(first_byte as int, i as int),
        decreases data@.len() - i,
    {
        let b = data[i];
        tail.push(b);
        i = i + 1;
    }
    proof {
        assert(tail@ =~= data@.skip(first_byte as int));
    }
    (tail, (last_signature % 8) as usize)
}

/// The byte range thread `i` of `threads` scans: an equal share plus an
/// 8-byte overlap, so a magic straddling the boundary is still seen.
pub fn chunk_bounds(len: usize, threads: usize, i: usize) -> (r: (usize, usize))
    requires
        threads >= 1,
        i < threads,
        len <= usize::MAX / 8,
    ensures
        r.0 == (len as int / threads as int) * i,
        r.1 == if r.0 + (len as int / threads as int) + 8 <= len {
            r.0 + (len as int / threads as int) + 8
        } else {
            len as int
        },
        r.0 <= r.1 <= len,
{
    let chunk_size = len / threads;
    proof {
        assert(chunk_size * i + chunk_size <= chunk_size * threads <= len) by (nonlinear_arith)
            requires
                chunk_size == len as int / threads as int,
                0 <= i < threads,
                threads >= 1,
                len >= 0,
        ;
    }
    let start = chunk_size * i;
    let end = if start + chunk_size + 8 <= len {
        start + chunk_size + 8
    } else {
        len
    };
    (start, end)
}

} // verus!
