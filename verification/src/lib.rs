//! Least-significant-bit steganography over an in-memory pixel buffer.
//!
//! A payload byte sequence is spread, most-significant-bit first, over the
//! low one or two bits of each 8-bit channel sample of a raster image, and
//! can be read back from those same bits.  The buffer is plain sample data:
//! decoding an image file into it, and writing it back out, is the caller's
//! business, and must go through a lossless pixel format — lossy
//! recompression destroys the low bits that carry the payload.

use vstd::prelude::*;

pub mod laws;

verus! {

/// Why an embed or extract call failed.
#[derive(Clone, Copy, Debug, PartialEq, Eq, Structural)]
pub enum StegError {
    /// The LSB mode was not 1 or 2.
    InvalidParameter,
    /// The buffer holds fewer payload bits than were asked of it.
    InsufficientCapacity,
}

/// Mask selecting the low `lsb_mode` bits of a channel sample.
pub open spec fn lsb_mask(lsb_mode: u8) -> u8 {
    (((1u8 << lsb_mode) - 1) as u8)
}

/// The group of `lsb_mode` payload bits that the channel at raster index
/// `i` carries: bits are taken MSB-first within each payload byte.
pub open spec fn payload_chunk(payload: Seq<u8>, lsb_mode: u8, i: int) -> u8 {
    let bit = (lsb_mode as int) * i;
    let shift = 8 - (lsb_mode as int) - (bit % 8);
    ((payload[bit / 8] >> (shift as u8)) & lsb_mask(lsb_mode))
}

/// Value of the channel at raster index `i` after `payload` is embedded:
/// its low bits are overwritten while payload bits remain, and it is left
/// untouched once the payload is exhausted.
pub open spec fn encoded_channel(orig: u8, payload: Seq<u8>, lsb_mode: u8, i: int) -> u8 {
    if (lsb_mode as int) * i < 8 * payload.len() {
        ((orig & !lsb_mask(lsb_mode)) | payload_chunk(payload, lsb_mode, i))
    } else {
        orig
    }
}

/// Byte assembled, MSB-first, from the low `lsb_mode` bits of `count`
/// consecutive channels starting at raster index `start`.
pub open spec fn gathered_bits(channels: Seq<u8>, lsb_mode: u8, start: int, count: nat) -> u8
    decreases count,
{
    if count == 0 {
        0u8
    } else {
        ((gathered_bits(channels, lsb_mode, start, (count - 1) as nat) << lsb_mode)
            | (channels[start + count - 1] & lsb_mask(lsb_mode)))
    }
}

/// How many channels carry one payload byte: eight at one bit per channel,
/// four at two.
pub open spec fn channels_per_byte(lsb_mode: u8) -> int {
    if lsb_mode == 1 {
        8
    } else if lsb_mode == 2 {
        4
    } else {
        0
    }
}

/// The `j`-th payload byte that an extract at `lsb_mode` reads back.
pub open spec fn decoded_byte(channels: Seq<u8>, lsb_mode: u8, j: int) -> u8 {
    gathered_bits(
        channels,
        lsb_mode,
        j * channels_per_byte(lsb_mode),
        channels_per_byte(lsb_mode) as nat,
    )
}

/// An in-memory raster image: `height` rows of `width` pixels, each pixel
/// `channels` consecutive 8-bit samples (3 for color, 4 for color plus
/// alpha), stored row-major in `data`.
#[derive(Clone, Debug)]
pub struct PixelBuffer {
    pub width: usize,
    pub height: usize,
    pub channels: usize,
    pub data: Vec<u8>,
}

impl PixelBuffer {
    /// The grid shape is consistent: a uniform channel count of 3 or 4, and
    /// exactly one sample byte per channel of every pixel.
    pub open spec fn wf(&self) -> bool {
        &&& (self.channels == 3 || self.channels == 4)
        &&& self.data@.len() == self.width * self.height * self.channels
    }

    /// Total payload bits the buffer can carry at `lsb_mode` bits per channel.
    pub open spec fn capacity_bits(&self, lsb_mode: u8) -> int {
        self.data@.len() * (lsb_mode as int)
    }

    /// Wraps raw row-major sample data as a pixel buffer, refusing shapes
    /// that are not a whole grid of 3- or 4-channel pixels.
    pub fn from_raw(width: usize, height: usize, channels: usize, data: Vec<u8>) -> (r: Option<
        PixelBuffer,
    >)
        ensures
            match r {
                Some(b) => {
                    &&& b.wf()
                    &&& b.width == width
                    &&& b.height == height
                    &&& b.channels == channels
                    &&& b.data@ == data@
                },
                None => !((channels == 3 || channels == 4) && data@.len() == width * height
                    * channels),
            },
    {
        if channels != 3 && channels != 4 {
            return None;
        }
        let len = data.len();
        match width.checked_mul(height) {
            Some(pixels) => match pixels.checked_mul(channels) {
                Some(total) => {
                    proof {
                        assert(pixels == width * height);
                        assert(total == pixels * channels);
                        assert(width * height * channels == pixels * channels);
                    }
                    if len == total {
                        Some(PixelBuffer { width, height, channels, data })
                    } else {
                        None
                    }
                },
                None => {
                    proof {
                        assert(pixels == width * height);
                        assert(width * height * channels == pixels * channels);
                        assert(len < pixels * channels);
                    }
                    None
                },
            },
            None => {
                proof {
                    assert(width * height * channels > usize::MAX) by (nonlinear_arith)
                        requires
                            width * height > usize::MAX,
                            channels >= 3,
                    ;
                }
                None
            },
        }
    }

    /// Embeds `payload` into the low `lsb_mode` bits of the channel samples,
    /// visiting pixels in raster order and channels in storage order, taking
    /// payload bits MSB-first within each byte.  Mutates the buffer in place:
    /// after an `InsufficientCapacity` failure every channel carries a bit of
    /// a truncated payload prefix, and the buffer must be re-made from the
    /// source image before reuse.
    pub fn encode(&mut self, payload: &[u8], lsb_mode: u8) -> (r: Result<(), StegError>)
        ensures
            final(self).width == old(self).width,
            final(self).height == old(self).height,
            final(self).channels == old(self).channels,
            final(self).data@.len() == old(self).data@.len(),
            old(self).wf() ==> final(self).wf(),
            lsb_mode != 1 && lsb_mode != 2 ==> {
                &&& r == Err::<(), StegError>(StegError::InvalidParameter)
                &&& final(self).data@ == old(self).data@
            },
            lsb_mode == 1 || lsb_mode == 2 ==> {
                &&& (r is Ok <==> 8 * payload@.len() <= old(self).capacity_bits(lsb_mode))
                &&& (r is Err ==> r == Err::<(), StegError>(StegError::InsufficientCapacity))
                &&& forall|i: int|
                    0 <= i < final(self).data@.len() ==> final(self).data@[i] == encoded_channel(
                        old(self).data@[i],
                        payload@,
                        lsb_mode,
                        i,
                    )
            },
    {
        if lsb_mode != 1 && lsb_mode != 2 {
            return Err(StegError::InvalidParameter);
        }
        proof {
            assert((1u8 << lsb_mode) == if lsb_mode == 1 {
                2u8
            } else {
                4u8
            }) by (bit_vector)
                requires
                    lsb_mode == 1 || lsb_mode == 2,
            ;
        }
        let mask: u8 = (1u8 << lsb_mode) - 1;
        let mut byte_index: usize = 0;
        let mut bit_index: u8 = 0;
        let n = self.data.len();
        let ghost orig = self.data@;
        for i in 0..n
            invariant
                self.width == old(self).width,
                self.height == old(self).height,
                self.channels == old(self).channels,
                orig == old(self).data@,
                self.data@.len() == n,
                n == orig.len(),
                lsb_mode == 1 || lsb_mode == 2,
                mask == lsb_mask(lsb_mode),
                byte_index <= payload@.len(),
                bit_index < 8,
                (bit_index as int) % (lsb_mode as int) == 0,
                8 * byte_index + bit_index == (lsb_mode as int) * i,
                forall|k: int|
                    0 <= k < i ==> self.data@[k] == encoded_channel(orig[k], payload@, lsb_mode, k),
                forall|k: int| i <= k < n ==> self.data@[k] == orig[k],
        {
            if byte_index >= payload.len() {
                proof {
                    assert forall|k: int| i <= k < n implies self.data@[k] == encoded_channel(
                        orig[k],
                        payload@,
                        lsb_mode,
                        k,
                    ) by {
                        assert((lsb_mode as int) * k >= (lsb_mode as int) * i) by (nonlinear_arith)
                            requires
                                lsb_mode >= 1,
                                k >= i,
                        ;
                    }
                }
                return Ok(());
            }
            let shift: u8 = 8 - lsb_mode - bit_index;
            let bits: u8 = (payload[byte_index] >> shift) & mask;
            proof {
                vstd::arithmetic::div_mod::lemma_fundamental_div_mod_converse(
                    (lsb_mode as int) * (i as int),
                    8,
                    byte_index as int,
                    bit_index as int,
                );
                assert(bits == payload_chunk(payload@, lsb_mode, i as int));
                assert((lsb_mode as int) * (i as int) < 8 * payload@.len());
            }
            let sample = self.data[i];
            self.data[i] = (sample & !mask) | bits;
            bit_index = bit_index + lsb_mode;
            if bit_index >= 8 {
                bit_index = 0;
                byte_index = byte_index + 1;
            }
        }
        if byte_index >= payload.len() {
            Ok(())
        } else {
            Err(StegError::InsufficientCapacity)
        }
    }

    /// Reads `length` payload bytes back from the low `lsb_mode` bits of the
    /// channel samples, in the same raster order and MSB-first bit order as
    /// the embed.  The encoding stores no length or terminator of its own, so
    /// the caller must know the payload length, and `lsb_mode` must match the
    /// mode the payload was embedded with.
    pub fn decode(&self, length: usize, lsb_mode: u8) -> (r: Result<Vec<u8>, StegError>)
        ensures
            lsb_mode != 1 && lsb_mode != 2 ==> r == Err::<Vec<u8>, StegError>(
                StegError::InvalidParameter,
            ),
            lsb_mode == 1 || lsb_mode == 2 ==> {
                if 8 * (length as int) <= self.capacity_bits(lsb_mode) {
                    &&& r is Ok
                    &&& r.unwrap()@.len() == length
                    &&& forall|j: int|
                        0 <= j < length ==> r.unwrap()@[j] == decoded_byte(
                            self.data@,
                            lsb_mode,
                            j,
                        )
                } else {
                    r == Err::<Vec<u8>, StegError>(StegError::InsufficientCapacity)
                }
            },
    {
        if lsb_mode != 1 && lsb_mode != 2 {
            return Err(StegError::InvalidParameter);
        }
        proof {
            assert((1u8 << lsb_mode) == if lsb_mode == 1 {
                2u8
            } else {
                4u8
            }) by (bit_vector)
                requires
                    lsb_mode == 1 || lsb_mode == 2,
            ;
        }
        let mask: u8 = (1u8 << lsb_mode) - 1;
        let mut out: Vec<u8> = Vec::new();
        let mut cur: u8 = 0;
        let mut bit_index: u8 = 0;
        let n = self.data.len();
        for i in 0..n
            invariant
                lsb_mode == 1 || lsb_mode == 2,
                mask == lsb_mask(lsb_mode),
                n == self.data@.len(),
                out@.len() <= length,
                bit_index < 8,
                (bit_index as int) % (lsb_mode as int) == 0,
                8 * out@.len() + bit_index == (lsb_mode as int) * i,
                cur == gathered_bits(
                    self.data@,
                    lsb_mode,
                    i - (bit_index as int) / (lsb_mode as int),
                    ((bit_index as int) / (lsb_mode as int)) as nat,
                ),
                forall|j: int|
                    0 <= j < out@.len() ==> out@[j] == decoded_byte(self.data@, lsb_mode, j),
        {
            if out.len() >= length {
                return Ok(out);
            }
            let ghost k = (bit_index as int) / (lsb_mode as int);
            proof {
                vstd::arithmetic::div_mod::lemma_fundamental_div_mod_converse(
                    bit_index as int,
                    lsb_mode as int,
                    k,
                    0,
                );
            }
            cur = (cur << lsb_mode) | (self.data[i] & mask);
            proof {
                assert(cur == gathered_bits(self.data@, lsb_mode, i - k, (k + 1) as nat));
            }
            bit_index = bit_index + lsb_mode;
            if bit_index >= 8 {
                proof {
                    assert(k + 1 == channels_per_byte(lsb_mode));
                    assert((lsb_mode as int) * (i - k) == 8 * out@.len());
                    assert(i - k == out@.len() * channels_per_byte(lsb_mode)) by (nonlinear_arith)
                        requires
                            lsb_mode == 1 || lsb_mode == 2,
                            (lsb_mode as int) * (i - k) == 8 * out@.len(),
                            lsb_mode == 1 ==> channels_per_byte(lsb_mode) == 8,
                            lsb_mode == 2 ==> channels_per_byte(lsb_mode) == 4,
                    ;
                    assert(cur == decoded_byte(self.data@, lsb_mode, out@.len() as int));
                }
                out.push(cur);
                cur = 0;
                bit_index = 0;
            }
        }
        if out.len() >= length {
            Ok(out)
        } else {
            Err(StegError::InsufficientCapacity)
        }
    }
}

} // verus!
