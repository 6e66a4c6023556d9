//! One bzip2 block: parsing the block body from the bitstream and
//! streaming its bytes back out.
//!
//! After the inverse BWT, `tt` is a linked list: each entry holds the next
//! cursor in its high 24 bits and an output byte in its low 8. Reading
//! walks the list and applies bzip2's run-length-of-four expansion: after
//! four equal bytes the next entry is a repeat count, not a byte. The
//! whole remaining output of a block is pinned down by [`block_output`].

use crate::bitreader::BitReader;
use crate::bits::bits_val;
use crate::bwt::{count_val, inverse_bwt};
use crate::crc::{bz_crc, Crc};
use crate::errors::BlockError;
use crate::header::Header;
use crate::huffman::{lemma_decode_leaf_bound, HuffmanTree};
use crate::move_to_front::MoveToFrontDecoder;
use vstd::arithmetic::power2::pow2;
use vstd::prelude::*;

verus! {

/// The 48-bit marker in front of every data block.
pub const BLOCK_MAGIC: u64 = 0x314159265359;

/// The 48-bit marker after the last data block.
pub const FINAL_MAGIC: u64 = 0x177245385090;

/// The run-length state of a block reader is well formed: the cursor and
/// every link stay inside the list.
pub open spec fn rle_wf(tt: Seq<u32>, t_pos: int, used: int) -> bool {
    &&& tt.len() < 0x100_0000
    &&& 0 <= used <= tt.len()
    &&& (tt.len() > 0 ==> 0 <= t_pos < tt.len())
    &&& forall|p: int| 0 <= p < tt.len() ==> (#[trigger] tt[p]) >> 8 < tt.len()
}

/// Every byte a block still emits, given the linked list and the
/// run-length state: `used` entries are consumed, `reps` copies of `last`
/// are pending, and `brep` equal bytes have just been seen.
pub open spec fn block_output(
    tt: Seq<u32>,
    t_pos: int,
    used: int,
    last: int,
    brep: int,
    reps: int,
) -> Seq<u8>
    recommends
        rle_wf(tt, t_pos, used),
        0 <= reps <= 255,
        0 <= brep <= 3,
        -1 <= last <= 255,
    decreases tt.len() - used, reps,
{
    if reps > 0 {
        seq![last as u8] + block_output(
            tt,
            t_pos,
            used,
            if reps == 1 {
                -1int
            } else {
                last
            },
            brep,
            reps - 1,
        )
    } else if used >= tt.len() || !(0 <= t_pos < tt.len()) || tt.len() - used > tt.len() {
        Seq::empty()
    } else {
        let entry = tt[t_pos];
        let b = (entry % 256) as int;
        let next = (entry >> 8) as int;
        if brep == 3 {
            block_output(tt, next, used + 1, last, 0, b)
        } else {
            seq![b as u8] + block_output(
                tt,
                next,
                used + 1,
                b,
                if last == b {
                    brep + 1
                } else {
                    0int
                },
                0,
            )
        }
    }
}

/// What reading a freshly decoded block emitted: `d` is the block's whole
/// output, its first `n` bytes now sit at the front of the output buffer
/// and are checksummed, and the rest is still pending.
pub open spec fn block_read_emits(
    d: Seq<u8>,
    n: int,
    out_old: Seq<u8>,
    out_new: Seq<u8>,
    blk: Block,
) -> bool {
    &&& d.len() >= 1
    &&& n == if d.len() < out_old.len() {
        d.len() as int
    } else {
        out_old.len() as int
    }
    &&& out_new == d.take(n) + out_old.skip(n)
    &&& blk.remaining() == d.skip(n)
    &&& blk.crc_view() == d.take(n)
}

/// Where one unary-coded selector ending at a 0-bit stops, starting at
/// `pos` with `g` tree indices still allowed: the position after the
/// terminating 0, or the error the table read hits.
pub open spec fn unary_end(data: Seq<u8>, pos: int, g: int) -> Result<int, BlockError>
    decreases g,
{
    if g <= 0 {
        Err(BlockError::TreeIndexTooLarge)
    } else if pos >= 8 * data.len() {
        Err(BlockError::SelectorTruncated)
    } else if !crate::bits::bit_at(data, pos) {
        Ok(pos + 1)
    } else {
        unary_end(data, pos + 1, g - 1)
    }
}

/// Where a table of `n` unary-coded selectors starting at `pos` ends, or
/// the error its read hits.
pub open spec fn selectors_end(data: Seq<u8>, pos: int, g: int, n: int) -> Result<
    int,
    BlockError,
>
    decreases n,
{
    if n <= 0 {
        Ok(pos)
    } else {
        match unary_end(data, pos, g) {
            Ok(p2) => selectors_end(data, p2, g, n - 1),
            Err(e) => Err(e),
        }
    }
}

/// A table whose first `k` selectors parse fine and whose next one fails
/// fails as a whole with that error.
proof fn lemma_selectors_step_err(
    data: Seq<u8>,
    pos: int,
    g: int,
    k: int,
    n: int,
    c: int,
    e: BlockError,
)
    requires
        0 <= k < n,
        selectors_end(data, pos, g, k) == Ok::<int, BlockError>(c),
        unary_end(data, c, g) == Err::<int, BlockError>(e),
    ensures
        selectors_end(data, pos, g, n) == Err::<int, BlockError>(e),
    decreases k,
{
    if k > 0 {
        match unary_end(data, pos, g) {
            Ok(p2) => {
                lemma_selectors_step_err(data, p2, g, k - 1, n - 1, c, e);
            },
            Err(_) => {},
        }
    }
}

/// A table whose first `k` selectors end at `c` and whose next one ends
/// at `p2` has its first `k + 1` selectors end at `p2`.
proof fn lemma_selectors_step_ok(data: Seq<u8>, pos: int, g: int, k: int, c: int, p2: int)
    requires
        0 <= k,
        selectors_end(data, pos, g, k) == Ok::<int, BlockError>(c),
        unary_end(data, c, g) == Ok::<int, BlockError>(p2),
    ensures
        selectors_end(data, pos, g, k + 1) == Ok::<int, BlockError>(p2),
    decreases k,
{
    if k == 0 {
        assert(c == pos);
        assert(selectors_end(data, pos, g, 1) == selectors_end(data, p2, g, 0));
    } else {
        match unary_end(data, pos, g) {
            Ok(q) => {
                lemma_selectors_step_ok(data, q, g, k - 1, c, p2);
                assert(selectors_end(data, pos, g, k + 1) == selectors_end(data, q, g, k));
            },
            Err(e) => {
                assert(selectors_end(data, pos, g, k) == Err::<int, BlockError>(e));
            },
        }
    }
}

/// The exact error ladder of a block body that starts at bit `start`
/// (just after the 48-bit magic): each malformed or truncated field, in
/// the order the fields are read, is rejected with its own error, and
/// success or any later error means every earlier field was sound. `smb`
/// below is the bit length of the symbol map.
#[verifier::opaque]
pub open spec fn block_body_errors(data: Seq<u8>, start: int, r: Result<(), BlockError>) -> bool {
    let bit_end = 8 * data.len();
    let map_start = start + 57;
    let smb = crate::move_to_front::symbol_map_bits(data, map_start);
    let gpos = map_start + smb;
    let prefix_ok = start + 57 <= bit_end && !crate::bits::bit_at(data, start + 32);
    let map_ok = prefix_ok && gpos <= bit_end && (exists|b: int|
        0 <= b < 256 && #[trigger] crate::move_to_front::symbol_present(data, map_start, b));
    let groups = bits_val(data, gpos, 3);
    let groups_ok = map_ok && gpos + 3 <= bit_end && 2 <= groups <= 6;
    let ns = bits_val(data, gpos + 3, 15);
    let selectors_ok = groups_ok && gpos + 18 <= bit_end && ns <= 18001;
    let sel_res = selectors_end(data, gpos + 18, groups as int, ns as int);
    &&& (r == Err::<(), BlockError>(BlockError::CrcTruncated) <==> bit_end < start + 32)
    &&& (r == Err::<(), BlockError>(BlockError::RandomisedTruncated) <==> start + 32 <= bit_end
        < start + 33)
    &&& (r == Err::<(), BlockError>(BlockError::Randomised) <==> start + 33 <= bit_end
        && crate::bits::bit_at(data, start + 32))
    &&& (r == Err::<(), BlockError>(BlockError::OrigPtrTruncated) <==> start + 33 <= bit_end
        < start + 57 && !crate::bits::bit_at(data, start + 32))
    &&& (r == Err::<(), BlockError>(BlockError::SymbolRangeTruncated) <==> prefix_ok && bit_end
        < gpos)
    &&& (r == Err::<(), BlockError>(BlockError::NoSymbols) <==> prefix_ok && gpos <= bit_end
        && (forall|b: int|
        0 <= b < 256 ==> !(#[trigger] crate::move_to_front::symbol_present(data, map_start, b))))
    &&& (r == Err::<(), BlockError>(BlockError::HuffmanGroupsTruncated) <==> map_ok && bit_end
        < gpos + 3)
    &&& (r == Err::<(), BlockError>(BlockError::InvalidHuffmanGroups) <==> map_ok && gpos + 3
        <= bit_end && !(2 <= groups <= 6))
    &&& (r == Err::<(), BlockError>(BlockError::SelectorsUsedTruncated) <==> groups_ok && bit_end
        < gpos + 18)
    &&& (r == Err::<(), BlockError>(BlockError::TooManySelectors) <==> groups_ok && gpos + 18
        <= bit_end && ns > 18001)
    &&& (r == Err::<(), BlockError>(BlockError::SelectorTruncated) <==> selectors_ok && sel_res
        == Err::<int, BlockError>(BlockError::SelectorTruncated))
    &&& (r == Err::<(), BlockError>(BlockError::TreeIndexTooLarge) <==> selectors_ok && sel_res
        == Err::<int, BlockError>(BlockError::TreeIndexTooLarge))
    &&& (selectors_ok ==> (sel_res matches Ok(p0) ==> ({
        &&& (bit_end < p0 + 5 ==> r == Err::<(), BlockError>(BlockError::GroupLengthTruncated))
        &&& (p0 + 5 <= bit_end && !(1 <= bits_val(data, p0, 5) <= 20) ==> r == Err::<
            (),
            BlockError,
        >(BlockError::LengthOutOfRange))
    })))
    &&& ((r is Ok || (r matches Err(e) && !(e == BlockError::CrcTruncated || e
        == BlockError::RandomisedTruncated || e == BlockError::Randomised || e
        == BlockError::OrigPtrTruncated || e == BlockError::SymbolRangeTruncated || e
        == BlockError::NoSymbols || e == BlockError::HuffmanGroupsTruncated || e
        == BlockError::InvalidHuffmanGroups || e == BlockError::SelectorsUsedTruncated || e
        == BlockError::TooManySelectors || e == BlockError::SelectorTruncated || e
        == BlockError::TreeIndexTooLarge))) ==> (selectors_ok && sel_res matches Ok(_)))
}

/// The parse/read state of a block.
enum State {
    ReadyForRead,
    Reading,
    NotReady,
}

/// One block of a bzip2 stream, together with the scratch state its
/// decoding and reading use.
pub struct Block {
    header: Header,
    tt: Vec<u32>,
    pre_rle_used: u32,
    t_pos: u32,
    last_byte: i16,
    byte_repeats: u8,
    repeats: u8,
    hasher: Crc,
    expected_crc: u32,
    state: State,
}

impl Block {
    /// The block's scratch state is well formed.
    pub closed spec fn wf(self) -> bool {
        &&& self.header.wf()
        &&& self.hasher.wf()
        &&& rle_wf(self.tt@, self.t_pos as int, self.pre_rle_used as int)
        &&& -1 <= self.last_byte <= 255
        &&& self.byte_repeats <= 3
    }

    /// The header this block was created for.
    pub closed spec fn spec_header(self) -> Header {
        self.header
    }

    /// The bytes this block will still emit.
    pub closed spec fn remaining(self) -> Seq<u8> {
        block_output(
            self.tt@,
            self.t_pos as int,
            self.pre_rle_used as int,
            self.last_byte as int,
            self.byte_repeats as int,
            self.repeats as int,
        )
    }

    /// How many pre-BWT entries the decoded block holds.
    pub closed spec fn spec_block_len(self) -> int {
        self.tt@.len() as int
    }

    /// The bytes already emitted and checksummed.
    pub closed spec fn crc_view(self) -> Seq<u8> {
        self.hasher@
    }

    /// The CRC the block header announced.
    pub closed spec fn spec_expected_crc(self) -> u32 {
        self.expected_crc
    }

    pub closed spec fn spec_is_ready_for_read(self) -> bool {
        self.state is ReadyForRead
    }

    pub closed spec fn spec_is_reading(self) -> bool {
        self.state is Reading
    }

    pub closed spec fn spec_is_not_ready(self) -> bool {
        self.state is NotReady
    }

    /// A block is always in exactly one of its three states.
    pub proof fn lemma_state_trichotomy(self)
        ensures
            self.spec_is_ready_for_read() || self.spec_is_reading() || self.spec_is_not_ready(),
            !(self.spec_is_ready_for_read() && self.spec_is_reading()),
            !(self.spec_is_ready_for_read() && self.spec_is_not_ready()),
            !(self.spec_is_reading() && self.spec_is_not_ready()),
    {
    }

    /// A fresh block for a stream with the given header.
    pub fn new(header: Header) -> (r: Self)
        requires
            header.wf(),
        ensures
            r.wf(),
            r.spec_is_not_ready(),
            r.spec_header() == header,
            r.remaining() == Seq::<u8>::empty(),
    {
        Self {
            header,
            tt: Vec::new(),
            pre_rle_used: 0,
            t_pos: 0,
            last_byte: -1,
            byte_repeats: 0,
            repeats: 0,
            hasher: Crc::new(),
            expected_crc: 0,
            state: State::NotReady,
        }
    }

    /// The next `read` will decode a block from the bitstream.
    pub fn is_ready_for_read(&self) -> (r: bool)
        ensures
            r == self.spec_is_ready_for_read(),
    {
        match self.state {
            State::ReadyForRead => true,
            State::Reading | State::NotReady => false,
        }
    }

    /// The block is being streamed out.
    pub fn is_reading(&self) -> (r: bool)
        ensures
            r == self.spec_is_reading(),
    {
        match self.state {
            State::Reading => true,
            State::ReadyForRead | State::NotReady => false,
        }
    }

    /// The block waits for more input.
    pub fn is_not_ready(&self) -> (r: bool)
        ensures
            r == self.spec_is_not_ready(),
    {
        match self.state {
            State::NotReady => true,
            State::ReadyForRead | State::Reading => false,
        }
    }

    /// Allow the next `read` to decode a block.
    pub fn set_ready_for_read(&mut self)
        ensures
            final(self).spec_is_ready_for_read(),
            final(self).wf() == old(self).wf(),
            final(self).remaining() == old(self).remaining(),
            final(self).crc_view() == old(self).crc_view(),
            final(self).spec_header() == old(self).spec_header(),
            final(self).spec_expected_crc() == old(self).spec_expected_crc(),
    {
        self.state = State::ReadyForRead;
    }

    /// Stream bytes out of the decoded block into the front of `out`,
    /// until `out` is full or the block is exhausted. When a call finds
    /// the block already exhausted (and `out` has room), the running CRC
    /// is compared against the block header's.
    pub fn read_from_block(&mut self, out: &mut Vec<u8>) -> (r: Result<usize, BlockError>)
        requires
            old(self).wf(),
        ensures
            final(self).wf(),
            final(out)@.len() == old(out)@.len(),
            final(self).spec_header() == old(self).spec_header(),
            final(self).spec_expected_crc() == old(self).spec_expected_crc(),
            match r {
                Ok(n) => {
                    let outseq = old(self).remaining();
                    &&& n == if outseq.len() < old(out)@.len() {
                        outseq.len() as int
                    } else {
                        old(out)@.len() as int
                    }
                    &&& final(out)@ == outseq.take(n as int) + old(out)@.skip(n as int)
                    &&& final(self).remaining() == outseq.skip(n as int)
                    &&& final(self).crc_view() == old(self).crc_view() + outseq.take(n as int)
                    &&& (n == 0 && old(out)@.len() > 0) ==> (outseq.len() == 0 && bz_crc(
                        old(self).crc_view(),
                    ) == old(self).spec_expected_crc() && final(self).spec_is_not_ready())
                    &&& !(n == 0 && old(out)@.len() > 0) ==> final(self).spec_is_reading()
                        == old(self).spec_is_reading() && final(self).spec_is_not_ready()
                        == old(self).spec_is_not_ready() && final(self).spec_is_ready_for_read()
                        == old(self).spec_is_ready_for_read()
                },
                Err(e) => {
                    &&& e == BlockError::BadCrc
                    &&& final(out)@ == old(out)@
                    &&& final(self).spec_is_not_ready()
                    &&& old(self).remaining().len() == 0
                    &&& old(out)@.len() > 0
                    &&& bz_crc(old(self).crc_view()) != old(self).spec_expected_crc()
                },
            },
    {
        let ghost outseq = old(self).remaining();
        let mut emitted: Vec<u8> = Vec::new();
        let out_len = out.len();

        while (self.repeats > 0 || self.pre_rle_used < (self.tt.len() as u32)) && emitted.len()
            < out_len
            invariant
                self.wf(),
                self.header == old(self).header,
                self.expected_crc == old(self).expected_crc,
                self.state == old(self).state,
                self.hasher == old(self).hasher,
                self.tt@ == old(self).tt@,
                out_len == old(out)@.len(),
                emitted@.len() <= out_len,
                outseq == emitted@ + self.remaining(),
                (self.repeats == 0 && self.pre_rle_used >= self.tt@.len()) ==> self.remaining()
                    =~= Seq::<u8>::empty(),
            decreases 256 * (self.tt@.len() - self.pre_rle_used) + self.repeats + (out_len
                - emitted@.len()),
        {
            proof {
                assert(self.remaining() == block_output(
                    self.tt@,
                    self.t_pos as int,
                    self.pre_rle_used as int,
                    self.last_byte as int,
                    self.byte_repeats as int,
                    self.repeats as int,
                ));
            }
            if self.repeats > 0 {
                emitted.push(#[verifier::truncate] (self.last_byte as u8));
                self.repeats = self.repeats - 1;
                if self.repeats == 0 {
                    self.last_byte = -1;
                }
                continue ;
            }
            let entry = self.tt[self.t_pos as usize];
            let b8 = (entry % 256) as u8;
            self.t_pos = entry >> 8;
            self.pre_rle_used = self.pre_rle_used + 1;

            if self.byte_repeats == 3 {
                self.repeats = b8;
                self.byte_repeats = 0;
                continue ;
            }
            if self.last_byte == (b8 as i16) {
                self.byte_repeats = self.byte_repeats + 1;
            } else {
                self.byte_repeats = 0;
            }
            self.last_byte = b8 as i16;
            emitted.push(b8);
        }

        let read = emitted.len();
        proof {
            assert(outseq.take(read as int) =~= emitted@);
            assert(outseq.skip(read as int) =~= self.remaining());
            if read < out_len {
                assert(self.remaining() =~= Seq::<u8>::empty());
            }
        }

        if read == 0 && out_len > 0 {
            self.state = State::NotReady;
            let crc = self.hasher.finalize();
            proof {
                assert(old(self).crc_view() + outseq.take(0) =~= old(self).crc_view());
                assert(outseq =~= Seq::<u8>::empty());
            }
            if self.expected_crc == crc {
                return Ok(0);
            } else {
                return Err(BlockError::BadCrc);
            }
        }

        // Copy the emitted bytes to the front of `out` and extend the CRC.
        let mut i: usize = 0;
        while i < read
            invariant
                read == emitted@.len() <= out@.len() == out_len,
                i <= read,
                forall|q: int| 0 <= q < i ==> out@[q] == emitted@[q],
                forall|q: int| i <= q < out_len ==> out@[q] == old(out)@[q],
            decreases read - i,
        {
            let v = emitted[i];
            out[i] = v;
            i = i + 1;
        }
        self.hasher.update(emitted.as_slice());
        proof {
            assert(out@ =~= outseq.take(read as int) + old(out)@.skip(read as int));
        }
        Ok(read)
    }

    /// Parse one block body (everything after the 48-bit block magic):
    /// CRC, origin pointer, symbol map, selectors, Huffman tables and the
    /// symbol stream, then run the inverse BWT. On success the block's
    /// running CRC is reset and at least one byte is ready to stream.
    #[verifier::loop_isolation(false)]
    #[verifier::rlimit(100)]
    fn do_read_block(&mut self, reader: &mut BitReader<'_>) -> (r: Result<(), BlockError>)
        requires
            old(self).wf(),
            old(reader).wf(),
        ensures
            final(self).wf(),
            final(reader).wf(),
            final(reader).data() == old(reader).data(),
            old(reader).bit_pos() <= final(reader).bit_pos(),
            final(self).spec_header() == old(self).spec_header(),
            final(self).spec_is_ready_for_read() == old(self).spec_is_ready_for_read(),
            final(self).spec_is_reading() == old(self).spec_is_reading(),
            final(self).spec_is_not_ready() == old(self).spec_is_not_ready(),
            r is Ok ==> {
                &&& final(self).crc_view() == Seq::<u8>::empty()
                &&& final(self).spec_expected_crc() == bits_val(
                    old(reader).data(),
                    old(reader).bit_pos(),
                    32,
                ) as u32
                &&& final(self).remaining().len() >= 1
                &&& 1 <= final(self).spec_block_len() <= old(
                    self,
                ).spec_header().spec_max_blocksize()
            },
            r is Err ==> {
                &&& r->Err_0 != BlockError::NextMagicTruncated
                &&& r->Err_0 != BlockError::BadMagic
                &&& r->Err_0 != BlockError::WholeStreamCrcTruncated
            },
            block_body_errors(old(reader).data(), old(reader).bit_pos(), r),
    {
        proof {
            reveal(crate::block::block_body_errors);
        }
        let ghost data = reader.data();
        self.hasher = Crc::new();
        self.tt.clear();
        self.pre_rle_used = 0;
        self.t_pos = 0;

        let expected_crc = match reader.read_u32(32) {
            Some(v) => v,
            None => {
                return Err(BlockError::CrcTruncated);
            },
        };
        self.expected_crc = expected_crc;

        let randomised = match reader.read_bit() {
            Some(b) => b,
            None => {
                return Err(BlockError::RandomisedTruncated);
            },
        };
        if randomised {
            return Err(BlockError::Randomised);
        }

        let orig_ptr = match reader.read_u32(24) {
            Some(v) => v,
            None => {
                return Err(BlockError::OrigPtrTruncated);
            },
        };

        let ghost start = old(reader).bit_pos();
        let (mut huffman_decoder, alpha_size) = match MoveToFrontDecoder::read_from_block(reader) {
            Ok(v) => v,
            Err(e) => {
                return Err(e);
            },
        };
        proof {
            assert(reader.bit_pos() == start + 57 + crate::move_to_front::symbol_map_bits(
                data,
                start + 57,
            ));
            assert(exists|b: int|
                0 <= b < 256 && #[trigger] crate::move_to_front::symbol_present(
                    data,
                    start + 57,
                    b,
                )) by {
                assert(crate::move_to_front::symbol_present(
                    data,
                    start + 57,
                    huffman_decoder@[0] as int,
                ));
            }
        }

        let huffman_groups = match reader.read_u8(3) {
            Some(v) => v,
            None => {
                return Err(BlockError::HuffmanGroupsTruncated);
            },
        };
        proof {
            crate::bits::lemma_bits_val_bound(data, reader.bit_pos() - 3, 3);
            vstd::arithmetic::power2::lemma2_to64();
        }
        if huffman_groups < 2 || huffman_groups > 6 {
            return Err(BlockError::InvalidHuffmanGroups);
        }

        let num_selectors = match reader.read_u16(15) {
            Some(v) => v,
            None => {
                return Err(BlockError::SelectorsUsedTruncated);
            },
        };
        proof {
            crate::bits::lemma_bits_val_bound(data, reader.bit_pos() - 15, 15);
            vstd::arithmetic::power2::lemma2_to64();
        }
        // A stream never needs more selectors than one per 50 symbols of a
        // maximal block, so a larger count is malformed.
        if num_selectors > 18001 {
            return Err(BlockError::TooManySelectors);
        }

        // Decode the selector table; it is stored move-to-front coded and
        // kept in reverse so the next selector can be popped off the end.
        let ghost sel_start = reader.bit_pos();
        let mut reverse_selectors: Vec<u8> = vec![0u8; num_selectors as usize];
        let mut selectors_decoder = MoveToFrontDecoder::new();
        let mut si: usize = reverse_selectors.len();
        while si > 0
            invariant
                reader.wf(),
                reader.data() == data,
                old(reader).bit_pos() <= reader.bit_pos(),
                si <= reverse_selectors@.len(),
                reverse_selectors@.len() == num_selectors as int,
                selectors_end(
                    data,
                    sel_start,
                    huffman_groups as int,
                    reverse_selectors@.len() - si,
                ) == Ok::<int, BlockError>(reader.bit_pos()),
            decreases si,
        {
            si = si - 1;
            let ghost done = reverse_selectors@.len() - si - 1;
            let ghost unary_start = reader.bit_pos();
            let mut trees: u8 = 0;
            let mut more = true;
            while more
                invariant
                    reader.wf(),
                    reader.data() == data,
                    old(reader).bit_pos() <= reader.bit_pos(),
                    trees < huffman_groups,
                    unary_end(data, unary_start, huffman_groups as int) == (if more {
                        unary_end(data, reader.bit_pos(), huffman_groups as int - trees as int)
                    } else {
                        Ok::<int, BlockError>(reader.bit_pos())
                    }),
                decreases 8 * data.len() - reader.bit_pos() + (if more {
                    1int
                } else {
                    0int
                }),
            {
                match reader.read_bit() {
                    Some(true) => {
                        trees = trees + 1;
                        if trees >= huffman_groups {
                            proof {
                                assert(unary_end(data, unary_start, huffman_groups as int)
                                    == Err::<int, BlockError>(BlockError::TreeIndexTooLarge));
                                lemma_selectors_step_err(
                                    data,
                                    sel_start,
                                    huffman_groups as int,
                                    done,
                                    num_selectors as int,
                                    unary_start,
                                    BlockError::TreeIndexTooLarge,
                                );
                            }
                            return Err(BlockError::TreeIndexTooLarge);
                        }
                    },
                    Some(false) => {
                        more = false;
                    },
                    None => {
                        proof {
                            assert(unary_end(data, unary_start, huffman_groups as int) == Err::<
                                int,
                                BlockError,
                            >(BlockError::SelectorTruncated));
                            lemma_selectors_step_err(
                                data,
                                sel_start,
                                huffman_groups as int,
                                done,
                                num_selectors as int,
                                unary_start,
                                BlockError::SelectorTruncated,
                            );
                        }
                        return Err(BlockError::SelectorTruncated);
                    },
                }
            }
            proof {
                lemma_selectors_step_ok(
                    data,
                    sel_start,
                    huffman_groups as int,
                    done,
                    unary_start,
                    reader.bit_pos(),
                );
            }
            let sel = selectors_decoder.decode(trees);
            reverse_selectors[si] = sel;
        }

        // Read the delta-coded code lengths and build one Huffman tree per
        // group.
        let ghost sel_end = reader.bit_pos();
        let mut huffman_trees: Vec<HuffmanTree> = Vec::new();
        let mut lengths: Vec<u8> = vec![0u8; alpha_size];
        let mut g: u8 = 0;
        while g < huffman_groups
            invariant
                reader.wf(),
                reader.data() == data,
                old(reader).bit_pos() <= reader.bit_pos(),
                g <= huffman_groups,
                lengths@.len() == alpha_size,
                huffman_trees@.len() == g,
                forall|ti: int|
                    0 <= ti < g ==> (#[trigger] huffman_trees@[ti]).wf_for(alpha_size as int),
                g == 0 ==> reader.bit_pos() == sel_end,
                g >= 1 ==> sel_end + 5 <= 8 * data.len() && 1 <= bits_val(data, sel_end, 5)
                    <= 20,
            decreases huffman_groups - g,
        {
            let mut length: u8 = match reader.read_u8(5) {
                Some(v) => v,
                None => {
                    return Err(BlockError::GroupLengthTruncated);
                },
            };
            proof {
                crate::bits::lemma_bits_val_bound(data, reader.bit_pos() - 5, 5);
                vstd::arithmetic::power2::lemma2_to64();
            }
            let mut sym: usize = 0;
            while sym < alpha_size
                invariant
                    reader.wf(),
                    reader.data() == data,
                    old(reader).bit_pos() <= reader.bit_pos(),
                    sym <= alpha_size,
                    length <= 31,
                    lengths@.len() == alpha_size,
                    forall|t: int| 0 <= t < sym ==> 1 <= #[trigger] lengths@[t] <= 20,
                    g == 0 ==> sel_end + 5 <= 8 * data.len(),
                    g == 0 && sym == 0 ==> (length == bits_val(data, sel_end, 5) || 1
                        <= bits_val(data, sel_end, 5) <= 20),
                    g == 0 && sym >= 1 ==> 1 <= bits_val(data, sel_end, 5) <= 20,
                decreases alpha_size - sym,
            {
                let mut adjusting = true;
                while adjusting
                    invariant
                        reader.wf(),
                        reader.data() == data,
                        old(reader).bit_pos() <= reader.bit_pos(),
                        adjusting ==> length <= 31,
                        !adjusting ==> 1 <= length <= 20,
                        g == 0 ==> sel_end + 5 <= 8 * data.len(),
                        g == 0 && sym == 0 ==> (length == bits_val(data, sel_end, 5) || 1
                            <= bits_val(data, sel_end, 5) <= 20),
                        g == 0 && sym >= 1 ==> 1 <= bits_val(data, sel_end, 5) <= 20,
                    decreases 8 * data.len() - reader.bit_pos() + (if adjusting {
                        1int
                    } else {
                        0int
                    }),
                {
                    if length < 1 || length > 20 {
                        return Err(BlockError::LengthOutOfRange);
                    }
                    match reader.read_bit() {
                        Some(true) => {
                            match reader.read_bit() {
                                Some(true) => {
                                    length = length - 1;
                                },
                                Some(false) => {
                                    length = length + 1;
                                },
                                None => {
                                    return Err(BlockError::LengthBit2Truncated);
                                },
                            }
                        },
                        Some(false) => {
                            adjusting = false;
                        },
                        None => {
                            return Err(BlockError::LengthBit1Truncated);
                        },
                    }
                }
                lengths[sym] = length;
                sym = sym + 1;
            }
            let tree = match HuffmanTree::new(lengths.as_slice()) {
                Ok(t) => t,
                Err(e) => {
                    return Err(e);
                },
            };
            huffman_trees.push(tree);
            g = g + 1;
        }

        let first_selector = match reverse_selectors.pop() {
            Some(s) => s,
            None => {
                return Err(BlockError::NoSelectors);
            },
        };
        if (first_selector as usize) >= huffman_trees.len() {
            return Err(BlockError::SelectorOutOfRange);
        }
        let mut cur_tree: usize = first_selector as usize;

        // Decode the symbol stream: RUNA/RUNB accumulate a zero-run, any
        // other symbol first flushes the run, and `alpha_size - 1` ends the
        // block. The byte counts in `c` feed the inverse BWT.
        let mut repeat: u32 = 0;
        let mut repeat_power: u32 = 0;
        let mut c = [0u32; 256];
        let mut decoded: u8 = 0;
        let max_bs = self.header.max_blocksize();
        proof {
            assert forall|b: int| 0 <= b < 256 implies c@[b] == count_val(self.tt@, b) by {
                crate::bwt::lemma_count_eq_le(self.tt@, self.tt@.len() as int, b);
            }
        }
        let mut done = false;
        while !done
            invariant
                reader.wf(),
                reader.data() == data,
                old(reader).bit_pos() <= reader.bit_pos(),
                self.header == old(self).header,
                self.state == old(self).state,
                self.hasher.wf(),
                self.hasher@ == Seq::<u8>::empty(),
                self.expected_crc == expected_crc,
                self.t_pos == 0,
                self.pre_rle_used == 0,
                -1 <= self.last_byte <= 255,
                self.byte_repeats <= 3,
                forall|p: int| 0 <= p < self.tt@.len() ==> (#[trigger] self.tt@[p]) >> 8 == 0,
                self.tt@.len() <= max_bs == self.header.spec_max_blocksize(),
                self.header.wf(),
                forall|p: int| 0 <= p < self.tt@.len() ==> #[trigger] self.tt@[p] < 256,
                forall|b: int| 0 <= b < 256 ==> c@[b] == count_val(self.tt@, b),
                forall|b: int| 0 <= b < 256 ==> #[trigger] c@[b] <= self.tt@.len(),
                repeat == 0 || repeat_power <= repeat + 1,
                repeat <= 0x200000,
                cur_tree < huffman_trees@.len(),
                forall|ti: int|
                    0 <= ti < huffman_trees@.len() ==> (#[trigger] huffman_trees@[ti]).wf_for(
                        alpha_size as int,
                    ),
                3 <= alpha_size <= 258,
                decoded <= 50,
            decreases 8 * data.len() - reader.bit_pos() + (if done {
                0int
            } else {
                1int
            }),
        {
            if decoded == 50 {
                let selector = match reverse_selectors.pop() {
                    Some(s) => s,
                    None => {
                        return Err(BlockError::NotEnoughSelectors);
                    },
                };
                if (selector as usize) >= huffman_trees.len() {
                    return Err(BlockError::SelectorOutOfRange);
                }
                cur_tree = selector as usize;
                decoded = 0;
            }

            let ghost pos0 = reader.bit_pos();
            let tree = &huffman_trees[cur_tree];
            let v = match tree.decode(reader) {
                Some(v) => v,
                None => {
                    return Err(BlockError::HuffmanTruncated);
                },
            };
            proof {
                let sp = crate::huffman::decode_from(tree.nodes_seq(), data, pos0, 0);
                match sp {
                    Some(vp) => {
                        lemma_decode_leaf_bound(
                            tree.nodes_seq(),
                            data,
                            pos0,
                            0,
                            alpha_size as int,
                            vp.0,
                            vp.1,
                        );
                    },
                    None => {
                        assert(false);
                    },
                }
            }
            decoded = decoded + 1;

            if v < 2 {
                if repeat == 0 {
                    repeat_power = 1;
                }
                let vshift: u32 = v as u32;
                proof {
                    vstd::arithmetic::power2::lemma2_to64();
                    if vshift == 0 {
                        assert(repeat_power * pow2(0) == repeat_power);
                    } else {
                        assert(repeat_power * pow2(1) == 2 * repeat_power);
                    }
                    vstd::bits::lemma_u32_shl_is_mul(repeat_power, vshift);
                }
                let add = repeat_power << vshift;
                proof {
                    assert(repeat_power <= add <= 2 * repeat_power);
                }
                repeat = repeat + add;
                proof {
                    assert(repeat_power * pow2(1) == 2 * repeat_power);
                    vstd::bits::lemma_u32_shl_is_mul(repeat_power, 1u32);
                }
                repeat_power = repeat_power << 1u32;
                if repeat > 2 * 1024 * 1024 {
                    return Err(BlockError::RepeatTooLarge);
                }
                continue ;
            }

            let old_repeat = repeat;
            repeat = 0;
            if old_repeat > 0 {
                if old_repeat > max_bs - (self.tt.len() as u32) {
                    return Err(BlockError::RepeatsPastEnd);
                }
                let b = huffman_decoder.first();
                proof {
                    vstd::bits::lemma_u32_shr_is_div(b as u32, 8);
                    vstd::arithmetic::power2::lemma2_to64();
                }
                let mut k: u32 = 0;
                while k < old_repeat
                    invariant
                        k <= old_repeat,
                        self.tt@.len() + (old_repeat - k) <= max_bs,
                        forall|p: int| 0 <= p < self.tt@.len() ==> #[trigger] self.tt@[p] < 256,
                        forall|x: int|
                            0 <= x < 256 ==> c@[x] + (if x == b {
                                k as int
                            } else {
                                0int
                            }) == count_val(self.tt@, x),
                        forall|x: int| 0 <= x < 256 ==> #[trigger] c@[x] <= max_bs,
                        forall|p: int|
                            0 <= p < self.tt@.len() ==> (#[trigger] self.tt@[p]) >> 8 == 0,
                        self.header == old(self).header,
                        self.state == old(self).state,
                        self.hasher.wf(),
                        self.hasher@ == Seq::<u8>::empty(),
                        self.expected_crc == expected_crc,
                        self.t_pos == 0,
                        self.pre_rle_used == 0,
                        -1 <= self.last_byte <= 255,
                        self.byte_repeats <= 3,
                    decreases old_repeat - k,
                {
                    let ghost prev = self.tt@;
                    self.tt.push(b as u32);
                    k = k + 1;
                    proof {
                        assert forall|x: int| 0 <= x < 256 implies c@[x] + (if x == b {
                            k as int
                        } else {
                            0int
                        }) == count_val(self.tt@, x) by {
                            crate::bwt::lemma_count_val_push(prev, b as u32, x);
                        }
                    }
                }
                c[b as usize] = c[b as usize] + old_repeat;
                proof {
                    assert forall|x: int| 0 <= x < 256 implies c@[x] == count_val(
                        self.tt@,
                        x,
                    ) by {}
                    assert forall|x: int| 0 <= x < 256 implies #[trigger] c@[x]
                        <= self.tt@.len() by {
                        crate::bwt::lemma_count_eq_le(self.tt@, self.tt@.len() as int, x);
                    }
                }
            }

            if (v as usize) == alpha_size - 1 {
                done = true;
            } else {
                let b = huffman_decoder.decode((v - 1) as u8);
                if self.tt.len() >= max_bs as usize {
                    return Err(BlockError::DataExceedsBlockSize);
                }
                let ghost prev = self.tt@;
                proof {
                    vstd::bits::lemma_u32_shr_is_div(b as u32, 8);
                    vstd::arithmetic::power2::lemma2_to64();
                }
                self.tt.push(b as u32);
                c[b as usize] = c[b as usize] + 1;
                proof {
                    assert forall|x: int| 0 <= x < 256 implies c@[x] == count_val(self.tt@, x) by {
                        crate::bwt::lemma_count_val_push(prev, b as u32, x);
                    }
                    assert forall|x: int| 0 <= x < 256 implies #[trigger] c@[x]
                        <= self.tt@.len() by {
                        crate::bwt::lemma_count_eq_le(self.tt@, self.tt@.len() as int, x);
                    }
                }
            }
        }

        if (orig_ptr as usize) >= self.tt.len() {
            return Err(BlockError::OrigPtrOutOfBounds);
        }

        self.pre_rle_used = 0;
        let t_pos = inverse_bwt(&mut self.tt, orig_ptr as usize, &mut c);
        self.t_pos = t_pos;
        self.last_byte = -1;
        self.byte_repeats = 0;
        self.repeats = 0;
        proof {
            assert(self.remaining().len() >= 1) by {
                assert(self.remaining() == block_output(
                    self.tt@,
                    self.t_pos as int,
                    0,
                    -1,
                    0,
                    0,
                ));
            }
        }
        Ok(())
    }

    /// Read the 48-bit marker in front of the cursor. A block magic
    /// decodes the whole block body (`Ok(Some(()))`); the final magic
    /// consumes the whole-stream CRC and reports the end (`Ok(None)`).
    #[verifier::rlimit(100)]
    #[verifier::spinoff_prover]
    pub fn read_block(&mut self, reader: &mut BitReader<'_>) -> (r: Result<
        Option<()>,
        BlockError,
    >)
        requires
            old(self).wf(),
            old(reader).wf(),
        ensures
            final(self).wf(),
            final(reader).wf(),
            final(reader).data() == old(reader).data(),
            old(reader).bit_pos() <= final(reader).bit_pos(),
            final(self).spec_header() == old(self).spec_header(),
            final(self).spec_is_ready_for_read() == old(self).spec_is_ready_for_read(),
            final(self).spec_is_reading() == old(self).spec_is_reading(),
            final(self).spec_is_not_ready() == old(self).spec_is_not_ready(),
            ({
                let data = old(reader).data();
                let start = old(reader).bit_pos();
                match r {
                    Ok(Some(_)) => {
                        &&& start + 48 <= 8 * data.len()
                        &&& bits_val(data, start, 48) == BLOCK_MAGIC
                        &&& final(self).crc_view() == Seq::<u8>::empty()
                        &&& final(self).spec_expected_crc() == bits_val(data, start + 48, 32) as u32
                        &&& final(self).remaining().len() >= 1
                        &&& 1 <= final(self).spec_block_len() <= old(
                            self,
                        ).spec_header().spec_max_blocksize()
                    },
                    Ok(None) => {
                        &&& start + 80 <= 8 * data.len()
                        &&& bits_val(data, start, 48) == FINAL_MAGIC
                        &&& final(reader).bit_pos() == 8 * ((start + 80 + 7) / 8)
                        &&& final(reader).bit_pos() % 8 == 0
                    },
                    Err(e) => {
                        &&& (e == BlockError::NextMagicTruncated <==> 8 * data.len() < start + 48)
                        &&& e == BlockError::BadMagic ==> (start + 48 <= 8 * data.len()
                            && bits_val(data, start, 48) != BLOCK_MAGIC && bits_val(data, start, 48)
                            != FINAL_MAGIC)
                        &&& e == BlockError::WholeStreamCrcTruncated ==> (bits_val(data, start, 48)
                            == FINAL_MAGIC && 8 * data.len() < start + 80)
                    },
                }
            }),
            ({
                let data = old(reader).data();
                let start = old(reader).bit_pos();
                &&& (start + 48 <= 8 * data.len() && bits_val(data, start, 48) != BLOCK_MAGIC
                    && bits_val(data, start, 48) != FINAL_MAGIC ==> r == Err::<
                    Option<()>,
                    BlockError,
                >(BlockError::BadMagic))
                &&& (start + 80 <= 8 * data.len() && bits_val(data, start, 48) == FINAL_MAGIC
                    ==> r == Ok::<Option<()>, BlockError>(None))
                &&& (start + 48 <= 8 * data.len() && 8 * data.len() < start + 80 && bits_val(
                    data,
                    start,
                    48,
                ) == FINAL_MAGIC ==> r == Err::<Option<()>, BlockError>(
                    BlockError::WholeStreamCrcTruncated,
                ))
                &&& (start + 48 <= 8 * data.len() && bits_val(data, start, 48) == BLOCK_MAGIC
                    ==> block_body_errors(
                    data,
                    start + 48,
                    match r {
                        Ok(_) => Ok(()),
                        Err(e) => Err(e),
                    },
                ))
            }),
    {
        let magic = match reader.read_u64(48) {
            Some(v) => v,
            None => {
                return Err(BlockError::NextMagicTruncated);
            },
        };
        proof {
            crate::bits::lemma_bits_val_fits_u64(
                old(reader).data(),
                old(reader).bit_pos(),
                48,
            );
        }
        if magic == BLOCK_MAGIC {
            let ghost data = reader.data();
            let ghost body_start = reader.bit_pos();
            match self.do_read_block(reader) {
                Ok(r2) => {
                    proof {
                        assert(r2 == ());
                        assert(block_body_errors(data, body_start, Ok::<(), BlockError>(r2)));
                    }
                    Ok(Some(()))
                },
                Err(e) => {
                    proof {
                        assert(block_body_errors(data, body_start, Err::<(), BlockError>(e)));
                    }
                    Err(e)
                },
            }
        } else if magic == FINAL_MAGIC {
            let _crc = match reader.read_u32(32) {
                Some(v) => v,
                None => {
                    return Err(BlockError::WholeStreamCrcTruncated);
                },
            };
            // Consume the padding bits up to the next byte boundary; the
            // buffer holds whole bytes, so the padded position stays
            // inside it.
            let pos = reader.position();
            let pad = (8 - pos % 8) % 8;
            proof {
                assert(pos + pad == 8 * ((pos + 7) as int / 8));
                assert((pos + 7) as int / 8 <= reader.data().len());
            }
            let advanced = reader.advance_by(pad);
            proof {
                assert(advanced);
            }
            Ok(None)
        } else {
            Err(BlockError::BadMagic)
        }
    }

    /// Drive the block state machine: decode a block when one is ready,
    /// then stream bytes into `out`. `Ok(0)` with room in `out` means the
    /// stream's final marker was read.
    pub fn read(&mut self, reader: &mut BitReader<'_>, out: &mut Vec<u8>) -> (r: Result<
        usize,
        BlockError,
    >)
        requires
            old(self).wf(),
            old(reader).wf(),
        ensures
            final(self).wf(),
            final(reader).wf(),
            final(reader).data() == old(reader).data(),
            old(reader).bit_pos() <= final(reader).bit_pos(),
            final(out)@.len() == old(out)@.len(),
            final(self).spec_header() == old(self).spec_header(),
            r is Err ==> final(out)@ == old(out)@,
            r is Err && !old(self).spec_is_not_ready() ==> final(self).spec_is_not_ready(),
            r is Ok && r->Ok_0 == 0 ==> final(out)@ == old(out)@,
            old(self).spec_is_not_ready() ==> r == Err::<usize, BlockError>(BlockError::NotReady)
                && final(out)@ == old(out)@,
            old(self).spec_is_reading() && r is Ok ==> ({
                let outseq = old(self).remaining();
                let n = r->Ok_0;
                &&& n == if outseq.len() < old(out)@.len() {
                    outseq.len() as int
                } else {
                    old(out)@.len() as int
                }
                &&& final(out)@ == outseq.take(n as int) + old(out)@.skip(n as int)
                &&& final(self).remaining() == outseq.skip(n as int)
                &&& final(self).crc_view() == old(self).crc_view() + outseq.take(n as int)
                &&& (n == 0 && old(out)@.len() > 0) ==> bz_crc(old(self).crc_view()) == old(
                    self,
                ).spec_expected_crc()
            }),
            old(self).spec_is_reading() && r is Err ==> r == Err::<usize, BlockError>(
                BlockError::BadCrc,
            ) && bz_crc(old(self).crc_view()) != old(self).spec_expected_crc() && old(
                self,
            ).remaining().len() == 0,
            old(self).spec_is_ready_for_read() ==> ({
                let data = old(reader).data();
                let start = old(reader).bit_pos();
                &&& (8 * data.len() < start + 48 ==> r == Err::<usize, BlockError>(
                    BlockError::NextMagicTruncated,
                ))
                &&& (start + 48 <= 8 * data.len() && bits_val(data, start, 48) != BLOCK_MAGIC
                    && bits_val(data, start, 48) != FINAL_MAGIC ==> r == Err::<usize, BlockError>(
                    BlockError::BadMagic,
                ))
                &&& (start + 80 <= 8 * data.len() && bits_val(data, start, 48) == FINAL_MAGIC
                    ==> r == Ok::<usize, BlockError>(0) && final(self).spec_is_not_ready())
                &&& (start + 48 <= 8 * data.len() && 8 * data.len() < start + 80 && bits_val(
                    data,
                    start,
                    48,
                ) == FINAL_MAGIC ==> r == Err::<usize, BlockError>(
                    BlockError::WholeStreamCrcTruncated,
                ))
                &&& (start + 48 <= 8 * data.len() && bits_val(data, start, 48) == BLOCK_MAGIC && r
                    is Err ==> block_body_errors(data, start + 48, Err::<(), BlockError>(
                    r->Err_0,
                )))
            }),
            old(self).spec_is_ready_for_read() && r is Ok ==> ({
                let data = old(reader).data();
                let start = old(reader).bit_pos();
                let n = r->Ok_0;
                if bits_val(data, start, 48) == FINAL_MAGIC {
                    n == 0 && final(self).spec_is_not_ready()
                } else {
                    &&& bits_val(data, start, 48) == BLOCK_MAGIC
                    &&& (exists|d: Seq<u8>|
                        block_read_emits(d, n as int, old(out)@, final(out)@, *final(self)))
                    &&& final(self).spec_expected_crc() == bits_val(data, start + 48, 32) as u32
                }
            }),
    {
        if self.is_ready_for_read() {
            match self.read_block(reader) {
                Ok(Some(_)) => {
                    self.state = State::Reading;
                    let ghost d = self.remaining();
                    match self.read_from_block(out) {
                        Ok(n) => {
                            proof {
                                if n == 0 && old(out)@.len() > 0 {
                                    assert(d.len() == 0);
                                }
                                assert(block_read_emits(d, n as int, old(out)@, out@, *self));
                            }
                            Ok(n)
                        },
                        Err(e) => {
                            proof {
                                assert(d.len() == 0);
                            }
                            Err(e)
                        },
                    }
                },
                Ok(None) => {
                    self.state = State::NotReady;
                    Ok(0)
                },
                Err(e) => {
                    self.state = State::NotReady;
                    Err(e)
                },
            }
        } else if self.is_reading() {
            match self.read_from_block(out) {
                Ok(n) => {
                    if n == 0 && out.len() > 0 {
                        self.state = State::NotReady;
                    }
                    Ok(n)
                },
                Err(e) => Err(e),
            }
        } else {
            Err(BlockError::NotReady)
        }
    }
}

} // verus!
