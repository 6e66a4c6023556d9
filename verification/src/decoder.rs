//! The single-threaded streaming decoder: a push/pull state machine.
//!
//! Compressed bytes are pushed in with [`Decoder::write`] (an empty write
//! marks the end of the input); decompressed bytes are pulled out with
//! [`Decoder::read`], which reports [`ReadState::NeedsWrite`] whenever it
//! cannot be sure a whole block is buffered.

use crate::bitreader::BitReader;
use crate::bits::bits_val;
use crate::block::{block_read_emits, Block};
use crate::errors::DecoderError;
use crate::header::Header;
use vstd::prelude::*;

verus! {

/// What a call to [`Decoder::read`] did.
#[derive(Debug, Clone, Copy, PartialEq, Eq, Structural)]
pub enum ReadState {
    /// More compressed data must be written before anything can be read.
    NeedsWrite,
    /// This many bytes were placed at the front of the output buffer.
    Read(usize),
    /// The end of the stream was reached.
    Eof,
}

/// While a decoder sits inside a block, a successful read of `n` bytes
/// hands out exactly the next `n` bytes of that block's remaining output.
pub open spec fn decoder_read_exact(
    old_self: Decoder,
    old_out: Seq<u8>,
    new_self: Decoder,
    new_out: Seq<u8>,
    n: int,
) -> bool {
    let ob = old_self.spec_block();
    (ob is Some && ob->Some_0.spec_is_reading() && !old_self.spec_eof()) ==> ({
        let outseq = ob->Some_0.remaining();
        &&& n == if outseq.len() < old_out.len() {
            outseq.len() as int
        } else {
            old_out.len() as int
        }
        &&& new_out == outseq.take(n) + old_out.skip(n)
        &&& new_self.spec_block() is Some
        &&& new_self.spec_block()->Some_0.remaining() == outseq.skip(n)
    })
}

/// Everything one call to [`Decoder::read`] guarantees about its result,
/// beyond well-formedness: buffers change only when bytes are handed out,
/// end-of-stream and error reports are truthful, and a block that is
/// mid-stream with bytes pending must make progress.
pub open spec fn decoder_read_post(
    old_self: Decoder,
    old_out: Seq<u8>,
    new_self: Decoder,
    new_out: Seq<u8>,
    r: Result<ReadState, DecoderError>,
) -> bool {
    &&& ({
        let ob = old_self.spec_block();
        (old_self.spec_failed() is None && ob is Some && ob->Some_0.spec_is_reading()
            && !old_self.spec_eof() && ob->Some_0.remaining().len() > 0 && old_out.len() > 0)
            ==> (r matches Ok(ReadState::Read(n)) && n > 0)
    })
    &&& (old_self.spec_failed() is None && old_self.spec_header() is None
        && old_self.unread().len() < 4 ==> r == Ok::<ReadState, DecoderError>(
        ReadState::NeedsWrite,
    ))
    &&& (old_self.spec_failed() is None && old_self.spec_header() is None
        && old_self.unread().len() >= 4 ==> (
    crate::header::spec_parse(old_self.unread().take(4)) matches Err(he) ==> r == Err::<
        ReadState,
        DecoderError,
    >(DecoderError::Header(he))))
    &&& (old_self.spec_failed() matches Some(e) ==> r == Err::<ReadState, DecoderError>(e))
    &&& (r matches Err(e) ==> new_self.spec_failed() == Some(e))
    &&& (r is Ok ==> new_self.spec_failed() is None && old_self.spec_failed() is None)
    &&& (exists|k: int| 0 <= k && new_self.unread() == old_self.unread().skip(k))
    &&& (r == Ok::<ReadState, DecoderError>(ReadState::Eof) ==> new_self.unread() == old_self
        .unread())
    &&& decoder_progress(old_self, old_out, new_self, r)
    &&& match r {
        Ok(ReadState::NeedsWrite) => new_out == old_out && new_self.produced() == old_self
            .produced() && !(old_self.spec_header() is Some && old_self.spec_eof()),
        Ok(ReadState::Eof) => new_out == old_out && new_self.produced() == old_self.produced()
            && old_self.spec_eof(),
        Ok(ReadState::Read(n)) => {
            &&& 0 < n <= old_out.len()
            &&& (exists|d: Seq<u8>| d.len() == n && new_out == d + old_out.skip(n as int))
            &&& new_self.produced() == old_self.produced() + new_out.take(n as int)
            &&& new_self.spec_block() is Some
            &&& ({
                let b2 = new_self.spec_block()->Some_0;
                let ob = old_self.spec_block();
                if ob is Some && ob->Some_0.spec_is_reading() {
                    b2.crc_view() == ob->Some_0.crc_view() + new_out.take(n as int)
                } else {
                    b2.crc_view() == new_out.take(n as int)
                }
            })
            &&& decoder_read_exact(old_self, old_out, new_self, new_out, n as int)
        },
        Err(e) => new_out == old_out && (old_self.spec_failed() is None ==> (e matches
            DecoderError::Header(he) ==> old_self.spec_header() is None
            && old_self.unread().len() >= 4 && crate::header::spec_parse(
            old_self.unread().take(4),
        ) == Err::<u8, crate::header::HeaderError>(he))),
    }
}

/// The progress rule: with the header parsed, the stream still open, and
/// either the input ended or a whole block's bytes buffered, a read with
/// room in the output does not beg for input — unless the current block
/// just finished cleanly, or the cursor sits on the stream's final marker
/// (which ends the stream).
pub open spec fn decoder_progress(
    old_self: Decoder,
    old_out: Seq<u8>,
    new_self: Decoder,
    r: Result<ReadState, DecoderError>,
) -> bool {
    (old_self.spec_header() matches Some(h) && !old_self.spec_eof() && old_self.spec_failed()
        is None && (old_self.spec_write_eof() || old_self.unread().len()
        >= h.spec_max_blocksize()) && old_out.len() > 0 && r == Ok::<ReadState, DecoderError>(
        ReadState::NeedsWrite,
    )) ==> ({
        ||| (old_self.spec_block() matches Some(b) && b.spec_is_reading() && b.remaining().len()
            == 0)
        ||| (bits_val(old_self.unread(), old_self.spec_bit_offset(), 48)
            == crate::block::FINAL_MAGIC && new_self.spec_eof())
    })
}

/// Consuming whole bytes only shortens the unread suffix.
proof fn lemma_unread_suffix(a: Decoder, b: Decoder)
    requires
        a.in_buf == b.in_buf,
        a.skip_bits / 8 <= b.skip_bits / 8,
        b.skip_bits <= 8 * b.in_buf@.len(),
    ensures
        exists|k: int| 0 <= k && b.unread() == a.unread().skip(k),
{
    let k = b.skip_bits as int / 8 - a.skip_bits as int / 8;
    assert(b.skip_bits as int / 8 <= b.in_buf@.len());
    assert(b.unread() =~= a.unread().skip(k));
}

/// A low-level single-threaded bzip2 decoder. It does no I/O itself:
/// callers feed it compressed bytes and drain decompressed ones.
pub struct Decoder {
    header: Option<Header>,
    block: Option<Block>,
    skip_bits: usize,
    in_buf: Vec<u8>,
    eof: bool,
    write_eof: bool,
    failed: Option<DecoderError>,
    produced: Ghost<Seq<u8>>,
}

impl Decoder {
    /// The decoder's block, once the header has been parsed.
    pub closed spec fn spec_block(self) -> Option<Block> {
        self.block
    }

    /// The stream header, once parsed.
    pub closed spec fn spec_header(self) -> Option<Header> {
        self.header
    }

    /// The end of the stream has been decoded.
    pub closed spec fn spec_eof(self) -> bool {
        self.eof
    }

    /// The caller has announced the end of the input.
    pub closed spec fn spec_write_eof(self) -> bool {
        self.write_eof
    }

    /// Every decompressed byte handed out so far, in order.
    pub closed spec fn produced(self) -> Seq<u8> {
        self.produced@
    }

    /// The first error this decoder hit, if any; it is permanent.
    pub closed spec fn spec_failed(self) -> Option<DecoderError> {
        self.failed
    }

    /// The bit offset of the cursor inside the first unread byte.
    pub closed spec fn spec_bit_offset(self) -> int {
        self.skip_bits as int % 8
    }

    /// The compressed bytes that have not been consumed yet (the leading
    /// fractional byte included).
    pub closed spec fn unread(self) -> Seq<u8> {
        self.in_buf@.skip(self.skip_bits as int / 8)
    }

    /// Internal consistency: header and block exist together, the cursor
    /// stays inside the buffer, and the buffer leaves room to grow.
    pub closed spec fn wf(self) -> bool {
        &&& self.header is Some <==> self.block is Some
        &&& (self.header matches Some(h) ==> h.wf())
        &&& (self.block matches Some(b) ==> b.wf() && b.spec_header() == self.header->Some_0)
        &&& self.skip_bits <= 8 * self.in_buf@.len()
        &&& self.in_buf@.len() <= usize::MAX / 8
        &&& (self.header is None ==> self.skip_bits == 0)
        &&& (self.spec_eof() ==> self.header is Some)
    }

    /// A fresh decoder, ready for a new stream.
    pub fn new() -> (r: Self)
        ensures
            r.wf(),
            r.spec_header() is None,
            r.spec_block() is None,
            !r.spec_eof(),
            !r.spec_write_eof(),
            r.unread() == Seq::<u8>::empty(),
            r.produced() == Seq::<u8>::empty(),
            r.spec_failed() is None,
    {
        Self {
            header: None,
            block: None,
            skip_bits: 0,
            in_buf: Vec::new(),
            eof: false,
            write_eof: false,
            failed: None,
            produced: Ghost(Seq::empty()),
        }
    }

    /// Push compressed bytes. An empty `buf` announces the end of the
    /// input instead; once that happened, no more data may be written.
    pub fn write(&mut self, buf: &[u8])
        requires
            old(self).wf(),
            old(self).unread().len() + buf@.len() + 1024 <= usize::MAX / 8,
            buf@.len() > 0 ==> !old(self).spec_write_eof(),
        ensures
            final(self).wf(),
            final(self).spec_failed() == old(self).spec_failed(),
            final(self).spec_header() == old(self).spec_header(),
            final(self).spec_block() == old(self).spec_block(),
            final(self).spec_eof() == old(self).spec_eof(),
            final(self).produced() == old(self).produced(),
            buf@.len() == 0 ==> final(self).spec_write_eof() && final(self).unread() == old(self).unread(),
            buf@.len() > 0 ==> final(self).spec_write_eof() == old(self).spec_write_eof()
                && final(self).unread() == old(self).unread() + buf@,
    {
        if buf.len() > 0 {
            if self.skip_bits > 1024 * 8 {
                // Drop the whole bytes that have been consumed for good.
                let whole_bytes = self.skip_bits / 8;
                let ghost before = self.in_buf@;
                let tail = self.in_buf.split_off(whole_bytes);
                self.in_buf = tail;
                self.skip_bits = self.skip_bits % 8;
                proof {
                    assert(self.in_buf@ =~= before.skip(whole_bytes as int));
                    assert(self.unread() =~= self.in_buf@);
                }
            }
            let ghost mid = self.unread();
            self.in_buf.extend_from_slice(buf);
            proof {
                assert(self.unread() =~= mid + buf@);
            }
        } else {
            self.write_eof = true;
        }
    }

    /// Pull decompressed bytes into the front of `out`.
    ///
    /// While the decoder is inside a block, the bytes handed out are
    /// exactly the next bytes of that block's remaining output.
    #[verifier::rlimit(100)]
    pub fn read(&mut self, out: &mut Vec<u8>) -> (r: Result<ReadState, DecoderError>)
        requires
            old(self).wf(),
        ensures
            final(self).wf(),
            final(out)@.len() == old(out)@.len(),
            decoder_read_post(*old(self), old(out)@, *final(self), final(out)@, r),
    {
        match self.failed {
            Some(e) => {
                proof {
                    lemma_unread_suffix(*old(self), *self);
                }
                return Err(e);
            },
            None => {},
        }

        if self.header.is_none() {
            if self.in_buf.len() >= 4 {
                let hb = [self.in_buf[0], self.in_buf[1], self.in_buf[2], self.in_buf[3]];
                let header = match Header::parse(hb) {
                    Ok(h) => h,
                    Err(e) => {
                        self.failed = Some(DecoderError::Header(e));
                        proof {
                            lemma_unread_suffix(*old(self), *self);
                        }
                        return Err(DecoderError::Header(e));
                    },
                };
                let block = Block::new(header);
                self.header = Some(header);
                self.block = Some(block);
                self.skip_bits = 4 * 8;
            } else {
                proof {
                    lemma_unread_suffix(*old(self), *self);
                }
                return Ok(ReadState::NeedsWrite);
            }
        }

        if self.eof {
            proof {
                lemma_unread_suffix(*old(self), *self);
                assert(self.unread() =~= old(self).unread());
            }
            return Ok(ReadState::Eof);
        }

        let mut block = match self.block.take() {
            Some(b) => b,
            None => {
                proof {
                    assert(false);
                }
                return Ok(ReadState::NeedsWrite);
            },
        };

        if block.is_not_ready() {
            let max_bs = match &self.header {
                Some(h) => h.max_blocksize(),
                None => {
                    proof {
                        assert(false);
                    }
                    0
                },
            };
            let minimum = self.skip_bits / 8 + (max_bs as usize);
            if self.write_eof || self.in_buf.len() >= minimum {
                block.set_ready_for_read();
            } else {
                proof {
                    block.lemma_state_trichotomy();
                    lemma_unread_suffix(*old(self), *self);
                }
                self.block = Some(block);
                return Ok(ReadState::NeedsWrite);
            }
        }

        let mut reader = BitReader::new(self.in_buf.as_slice(), self.skip_bits);
        let ready = block.is_ready_for_read();
        let ghost pre_block = block;
        let ghost rdata = reader.data();
        let ghost rstart = reader.bit_pos();
        match block.read(&mut reader, out) {
            Ok(read) => {
                let ghost post_block = block;
                if read == 0 {
                    proof {
                        pre_block.lemma_state_trichotomy();
                        if old(self).spec_block() is Some && old(
                            self,
                        ).spec_block()->Some_0.spec_is_reading() {
                            assert(old(self).spec_header() is Some);
                            assert(!old(self).spec_block()->Some_0.spec_is_not_ready()) by {
                                old(self).spec_block()->Some_0.lemma_state_trichotomy();
                            }
                            assert(pre_block == old(self).spec_block()->Some_0);
                        }
                    }
                    if out.len() > 0 {
                        self.eof = ready;
                    }
                    self.block = Some(block);
                    proof {
                        lemma_unread_suffix(*old(self), *self);
                        if old(self).spec_header() is Some && old(out)@.len() > 0 {
                            if pre_block.spec_is_reading() {
                                assert(pre_block == old(self).spec_block()->Some_0);
                                assert(pre_block.remaining().len() == 0);
                            } else {
                                assert(pre_block.spec_is_ready_for_read());
                                assert(bits_val(rdata, rstart, 48) == crate::block::FINAL_MAGIC);
                                assert(rstart + 80 <= 8 * rdata.len());
                                assert(rstart == old(self).skip_bits);
                                crate::scanner::lemma_bits_val_byte_shift(
                                    rdata,
                                    old(self).skip_bits as int / 8,
                                    old(self).skip_bits as int % 8,
                                    48,
                                );
                                assert(bits_val(
                                    old(self).unread(),
                                    old(self).spec_bit_offset(),
                                    48,
                                ) == crate::block::FINAL_MAGIC);
                                assert(self.eof);
                            }
                        }
                    }
                    return Ok(ReadState::NeedsWrite);
                }
                self.skip_bits = reader.position();
                self.block = Some(block);
                proof {
                    self.produced@ = self.produced@ + out@.take(read as int);
                    lemma_unread_suffix(*old(self), *self);
                    pre_block.lemma_state_trichotomy();
                    if pre_block.spec_is_reading() {
                        let outseq = pre_block.remaining();
                        assert(pre_block == old(self).spec_block()->Some_0);
                        assert(read as int == if outseq.len() < old(out)@.len() {
                            outseq.len() as int
                        } else {
                            old(out)@.len() as int
                        });
                        assert(out@ == outseq.take(read as int) + old(out)@.skip(read as int));
                        assert(post_block.remaining() == outseq.skip(read as int));
                        assert(self.block->Some_0 == post_block);
                        assert(out@.take(read as int) =~= outseq.take(read as int));
                        assert(post_block.crc_view() == pre_block.crc_view() + out@.take(
                            read as int,
                        ));
                        assert(decoder_read_exact(*old(self), old(out)@, *self, out@, read as int));
                        assert(exists|dd: Seq<u8>|
                            dd.len() == read && out@ == dd + old(out)@.skip(read as int)) by {
                            assert(outseq.take(read as int).len() == read && out@ == outseq.take(
                                read as int,
                            ) + old(out)@.skip(read as int));
                        }
                    } else {
                        assert(pre_block.spec_is_ready_for_read());
                        if old(self).spec_block() is Some && old(self).spec_block()->Some_0.spec_is_reading() {
                            assert(old(self).spec_header() is Some);
                            assert(old(self).spec_block()->Some_0.spec_is_reading());
                            assert(!old(self).spec_block()->Some_0.spec_is_not_ready()) by {
                                old(self).spec_block()->Some_0.lemma_state_trichotomy();
                            }
                            assert(pre_block == old(self).spec_block()->Some_0);
                            assert(false);
                        }
                        assert(decoder_read_exact(*old(self), old(out)@, *self, out@, read as int));
                        assert(bits_val(rdata, rstart, 48) != crate::block::FINAL_MAGIC);
                        assert(exists|dd: Seq<u8>|
                            block_read_emits(dd, read as int, old(out)@, out@, post_block));
                        let d0 = choose|dd: Seq<u8>|
                            block_read_emits(dd, read as int, old(out)@, out@, post_block);
                        assert(out@.take(read as int) =~= d0.take(read as int));
                        assert(post_block.crc_view() == out@.take(read as int));
                        assert(exists|dd: Seq<u8>|
                            dd.len() == read && out@ == dd + old(out)@.skip(read as int)) by {
                            assert(d0.take(read as int).len() == read && out@ == d0.take(
                                read as int,
                            ) + old(out)@.skip(read as int));
                        }
                    }
                }
                Ok(ReadState::Read(read))
            },
            Err(e) => {
                proof {
                    pre_block.lemma_state_trichotomy();
                    if old(self).spec_block() is Some && old(
                        self,
                    ).spec_block()->Some_0.spec_is_reading() {
                        assert(old(self).spec_header() is Some);
                        assert(!old(self).spec_block()->Some_0.spec_is_not_ready()) by {
                            old(self).spec_block()->Some_0.lemma_state_trichotomy();
                        }
                        assert(pre_block == old(self).spec_block()->Some_0);
                    }
                }
                self.block = Some(block);
                self.failed = Some(DecoderError::Block(e));
                proof {
                    lemma_unread_suffix(*old(self), *self);
                }
                Err(DecoderError::Block(e))
            },
        }
    }
}

/// What a blocking reader adapter does next.
#[derive(Debug, Clone, Copy, PartialEq, Eq, Structural)]
pub enum PullAction {
    /// Pull more compressed bytes from the source and write them in.
    Feed,
    /// The source ended before a stream header was seen: the input is
    /// unexpectedly empty or truncated.
    FailUnexpectedEof,
    /// Hand this many decompressed bytes to the caller.
    Output(usize),
    /// The stream is complete.
    Done,
}

/// The decision a blocking reader adapter takes after one decoder step:
/// `state` is what the decoder reported, `read_zero` whether the previous
/// pull from the source returned no bytes, and `have_header` whether the
/// decoder has seen a stream header yet.
pub fn pull_decision(state: &ReadState, read_zero: bool, have_header: bool) -> (r: PullAction)
    ensures
        match *state {
            ReadState::NeedsWrite => r == if read_zero && !have_header {
                PullAction::FailUnexpectedEof
            } else {
                PullAction::Feed
            },
            ReadState::Read(n) => r == PullAction::Output(n),
            ReadState::Eof => r == PullAction::Done,
        },
{
    match state {
        ReadState::NeedsWrite => {
            if read_zero && !have_header {
                PullAction::FailUnexpectedEof
            } else {
                PullAction::Feed
            }
        },
        ReadState::Read(n) => PullAction::Output(*n),
        ReadState::Eof => PullAction::Done,
    }
}

impl Decoder {
    /// Whether the stream header has been parsed yet.
    pub fn has_header(&self) -> (r: bool)
        ensures
            r == (self.spec_header() is Some),
    {
        self.header.is_some()
    }
}

impl Default for Decoder {
    /// The same as [`Decoder::new`].
    fn default() -> (r: Self)
        ensures
            r.wf(),
            r.spec_header() is None,
            !r.spec_eof(),
    {
        Self::new()
    }
}

} // verus!
