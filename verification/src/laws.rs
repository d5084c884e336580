//! The laws the codec obeys, proved from the contracts in the crate root:
//! an embed never touches the bits above the carrier bits, and extracting
//! after an embed returns the payload unchanged.

use vstd::prelude::*;

use crate::channels_per_byte;
use crate::decoded_byte;
use crate::encoded_channel;
use crate::gathered_bits;
use crate::lsb_mask;
use crate::payload_chunk;
use crate::PixelBuffer;

verus! {

/// The alpha channel carries payload data: of two buffers with the same
/// pixel grid, the 4-channel one holds strictly more payload bits than the
/// 3-channel one — a third more, since every sample carries the same number
/// of bits.
pub proof fn lemma_alpha_raises_capacity(rgb: PixelBuffer, rgba: PixelBuffer, lsb_mode: u8)
    requires
        rgb.wf(),
        rgba.wf(),
        rgb.channels == 3,
        rgba.channels == 4,
        rgb.width == rgba.width,
        rgb.height == rgba.height,
        rgb.width * rgb.height > 0,
        lsb_mode == 1 || lsb_mode == 2,
    ensures
        rgb.capacity_bits(lsb_mode) < rgba.capacity_bits(lsb_mode),
        3 * rgba.capacity_bits(lsb_mode) == 4 * rgb.capacity_bits(lsb_mode),
{
    let pixels = rgb.width * rgb.height;
    assert(rgb.capacity_bits(lsb_mode) < rgba.capacity_bits(lsb_mode) && 3 * rgba.capacity_bits(
        lsb_mode,
    ) == 4 * rgb.capacity_bits(lsb_mode)) by (nonlinear_arith)
        requires
            pixels > 0,
            lsb_mode >= 1,
            rgb.data@.len() == pixels * 3,
            rgba.data@.len() == pixels * 4,
            rgb.capacity_bits(lsb_mode) == rgb.data@.len() * (lsb_mode as int),
            rgba.capacity_bits(lsb_mode) == rgba.data@.len() * (lsb_mode as int),
    ;
}

/// Writing a chunk into the carrier bits of a sample leaves the sample's
/// remaining bits as they were.
proof fn lemma_write_keeps_high(o: u8, x: u8, s: u8, lsb_mode: u8)
    by (bit_vector)
    ensures
        ((o & !lsb_mask(lsb_mode)) | ((x >> s) & lsb_mask(lsb_mode))) & !lsb_mask(lsb_mode) == o
            & !lsb_mask(lsb_mode),
{
}

/// Reading the carrier bits of a sample a chunk was written into returns
/// exactly that chunk.
proof fn lemma_write_reads_back(o: u8, x: u8, s: u8, lsb_mode: u8)
    by (bit_vector)
    ensures
        ((o & !lsb_mask(lsb_mode)) | ((x >> s) & lsb_mask(lsb_mode))) & lsb_mask(lsb_mode) == (x
            >> s) & lsb_mask(lsb_mode),
{
}

/// Every bit of a channel sample above its low `lsb_mode` carrier bits is
/// bit-for-bit the same after an embed as before it, on every channel,
/// whether or not the payload reached that channel.
pub proof fn lemma_encode_preserves_high_bits(
    orig: Seq<u8>,
    new: Seq<u8>,
    payload: Seq<u8>,
    lsb_mode: u8,
)
    requires
        lsb_mode == 1 || lsb_mode == 2,
        new.len() == orig.len(),
        forall|i: int|
            0 <= i < new.len() ==> new[i] == encoded_channel(orig[i], payload, lsb_mode, i),
    ensures
        forall|i: int|
            0 <= i < new.len() ==> new[i] & !lsb_mask(lsb_mode) == orig[i] & !lsb_mask(lsb_mode),
{
    assert forall|i: int| 0 <= i < new.len() implies new[i] & !lsb_mask(lsb_mode) == orig[i]
        & !lsb_mask(lsb_mode) by {
        assert(new[i] == encoded_channel(orig[i], payload, lsb_mode, i));
        if (lsb_mode as int) * i < 8 * payload.len() {
            let x = payload[((lsb_mode as int) * i) / 8];
            let s = ((8 - (lsb_mode as int) - (((lsb_mode as int) * i) % 8)) as u8);
            lemma_write_keeps_high(orig[i], x, s, lsb_mode);
        }
    };
}

/// One payload byte survives the trip through the channel samples: if each
/// channel carrying a chunk of payload byte `j` holds that chunk in its low
/// bits, gathering those channels back yields payload byte `j` exactly.
proof fn lemma_byte_round_trip(channels: Seq<u8>, payload: Seq<u8>, lsb_mode: u8, j: int)
    requires
        lsb_mode == 1 || lsb_mode == 2,
        0 <= j < payload.len(),
        (j + 1) * channels_per_byte(lsb_mode) <= channels.len(),
        forall|c: int|
            j * channels_per_byte(lsb_mode) <= c < (j + 1) * channels_per_byte(lsb_mode)
                ==> channels[c] & lsb_mask(lsb_mode) == payload_chunk(payload, lsb_mode, c),
    ensures
        decoded_byte(channels, lsb_mode, j) == payload[j],
{
    let b = payload[j];
    let m = lsb_mask(lsb_mode);
    if lsb_mode == 1 {
        let s0 = j * 8;
        assert(channels_per_byte(lsb_mode) == 8);
        assert((lsb_mode as int) * (s0 + 0) == 8 * j + 0
            && (lsb_mode as int) * (s0 + 1) == 8 * j + 1
            && (lsb_mode as int) * (s0 + 2) == 8 * j + 2
            && (lsb_mode as int) * (s0 + 3) == 8 * j + 3
            && (lsb_mode as int) * (s0 + 4) == 8 * j + 4
            && (lsb_mode as int) * (s0 + 5) == 8 * j + 5
            && (lsb_mode as int) * (s0 + 6) == 8 * j + 6
            && (lsb_mode as int) * (s0 + 7) == 8 * j + 7) by (nonlinear_arith)
            requires
                lsb_mode == 1,
                s0 == j * 8,
        ;
        vstd::arithmetic::div_mod::lemma_fundamental_div_mod_converse(8 * j + 0, 8, j, 0);
        vstd::arithmetic::div_mod::lemma_fundamental_div_mod_converse(8 * j + 1, 8, j, 1);
        vstd::arithmetic::div_mod::lemma_fundamental_div_mod_converse(8 * j + 2, 8, j, 2);
        vstd::arithmetic::div_mod::lemma_fundamental_div_mod_converse(8 * j + 3, 8, j, 3);
        vstd::arithmetic::div_mod::lemma_fundamental_div_mod_converse(8 * j + 4, 8, j, 4);
        vstd::arithmetic::div_mod::lemma_fundamental_div_mod_converse(8 * j + 5, 8, j, 5);
        vstd::arithmetic::div_mod::lemma_fundamental_div_mod_converse(8 * j + 6, 8, j, 6);
        vstd::arithmetic::div_mod::lemma_fundamental_div_mod_converse(8 * j + 7, 8, j, 7);
        let v0 = (b >> 7u8) & m;
        let v1 = (b >> 6u8) & m;
        let v2 = (b >> 5u8) & m;
        let v3 = (b >> 4u8) & m;
        let v4 = (b >> 3u8) & m;
        let v5 = (b >> 2u8) & m;
        let v6 = (b >> 1u8) & m;
        let v7 = (b >> 0u8) & m;
        assert(channels[s0 + 0] & m == payload_chunk(payload, lsb_mode, s0 + 0) && v0
            == payload_chunk(payload, lsb_mode, s0 + 0));
        assert(channels[s0 + 1] & m == payload_chunk(payload, lsb_mode, s0 + 1) && v1
            == payload_chunk(payload, lsb_mode, s0 + 1));
        assert(channels[s0 + 2] & m == payload_chunk(payload, lsb_mode, s0 + 2) && v2
            == payload_chunk(payload, lsb_mode, s0 + 2));
        assert(channels[s0 + 3] & m == payload_chunk(payload, lsb_mode, s0 + 3) && v3
            == payload_chunk(payload, lsb_mode, s0 + 3));
        assert(channels[s0 + 4] & m == payload_chunk(payload, lsb_mode, s0 + 4) && v4
            == payload_chunk(payload, lsb_mode, s0 + 4));
        assert(channels[s0 + 5] & m == payload_chunk(payload, lsb_mode, s0 + 5) && v5
            == payload_chunk(payload, lsb_mode, s0 + 5));
        assert(channels[s0 + 6] & m == payload_chunk(payload, lsb_mode, s0 + 6) && v6
            == payload_chunk(payload, lsb_mode, s0 + 6));
        assert(channels[s0 + 7] & m == payload_chunk(payload, lsb_mode, s0 + 7) && v7
            == payload_chunk(payload, lsb_mode, s0 + 7));
        let g0 = gathered_bits(channels, lsb_mode, s0, 0);
        let g1 = gathered_bits(channels, lsb_mode, s0, 1);
        let g2 = gathered_bits(channels, lsb_mode, s0, 2);
        let g3 = gathered_bits(channels, lsb_mode, s0, 3);
        let g4 = gathered_bits(channels, lsb_mode, s0, 4);
        let g5 = gathered_bits(channels, lsb_mode, s0, 5);
        let g6 = gathered_bits(channels, lsb_mode, s0, 6);
        let g7 = gathered_bits(channels, lsb_mode, s0, 7);
        let g8 = gathered_bits(channels, lsb_mode, s0, 8);
        assert(g0 == 0);
        assert(g1 == ((g0 << lsb_mode) | v0));
        assert(g2 == ((g1 << lsb_mode) | v1));
        assert(g3 == ((g2 << lsb_mode) | v2));
        assert(g4 == ((g3 << lsb_mode) | v3));
        assert(g5 == ((g4 << lsb_mode) | v4));
        assert(g6 == ((g5 << lsb_mode) | v5));
        assert(g7 == ((g6 << lsb_mode) | v6));
        assert(g8 == ((g7 << lsb_mode) | v7));
        assert(g8 == b) by (bit_vector)
            requires
                lsb_mode == 1u8,
                m == lsb_mask(lsb_mode),
                v0 == (b >> 7u8) & m,
                v1 == (b >> 6u8) & m,
                v2 == (b >> 5u8) & m,
                v3 == (b >> 4u8) & m,
                v4 == (b >> 3u8) & m,
                v5 == (b >> 2u8) & m,
                v6 == (b >> 1u8) & m,
                v7 == (b >> 0u8) & m,
                g0 == 0u8,
                g1 == ((g0 << lsb_mode) | v0),
                g2 == ((g1 << lsb_mode) | v1),
                g3 == ((g2 << lsb_mode) | v2),
                g4 == ((g3 << lsb_mode) | v3),
                g5 == ((g4 << lsb_mode) | v4),
                g6 == ((g5 << lsb_mode) | v5),
                g7 == ((g6 << lsb_mode) | v6),
                g8 == ((g7 << lsb_mode) | v7),
        ;
        assert(decoded_byte(channels, lsb_mode, j) == g8);
    } else {
        let s0 = j * 4;
        assert(channels_per_byte(lsb_mode) == 4);
        assert((lsb_mode as int) * (s0 + 0) == 8 * j + 0
            && (lsb_mode as int) * (s0 + 1) == 8 * j + 2
            && (lsb_mode as int) * (s0 + 2) == 8 * j + 4
            && (lsb_mode as int) * (s0 + 3) == 8 * j + 6) by (nonlinear_arith)
            requires
                lsb_mode == 2,
                s0 == j * 4,
        ;
        vstd::arithmetic::div_mod::lemma_fundamental_div_mod_converse(8 * j + 0, 8, j, 0);
        vstd::arithmetic::div_mod::lemma_fundamental_div_mod_converse(8 * j + 2, 8, j, 2);
        vstd::arithmetic::div_mod::lemma_fundamental_div_mod_converse(8 * j + 4, 8, j, 4);
        vstd::arithmetic::div_mod::lemma_fundamental_div_mod_converse(8 * j + 6, 8, j, 6);
        let v0 = (b >> 6u8) & m;
        let v1 = (b >> 4u8) & m;
        let v2 = (b >> 2u8) & m;
        let v3 = (b >> 0u8) & m;
        assert(channels[s0 + 0] & m == payload_chunk(payload, lsb_mode, s0 + 0) && v0
            == payload_chunk(payload, lsb_mode, s0 + 0));
        assert(channels[s0 + 1] & m == payload_chunk(payload, lsb_mode, s0 + 1) && v1
            == payload_chunk(payload, lsb_mode, s0 + 1));
        assert(channels[s0 + 2] & m == payload_chunk(payload, lsb_mode, s0 + 2) && v2
            == payload_chunk(payload, lsb_mode, s0 + 2));
        assert(channels[s0 + 3] & m == payload_chunk(payload, lsb_mode, s0 + 3) && v3
            == payload_chunk(payload, lsb_mode, s0 + 3));
        let g0 = gathered_bits(channels, lsb_mode, s0, 0);
        let g1 = gathered_bits(channels, lsb_mode, s0, 1);
        let g2 = gathered_bits(channels, lsb_mode, s0, 2);
        let g3 = gathered_bits(channels, lsb_mode, s0, 3);
        let g4 = gathered_bits(channels, lsb_mode, s0, 4);
        assert(g0 == 0);
        assert(g1 == ((g0 << lsb_mode) | v0));
        assert(g2 == ((g1 << lsb_mode) | v1));
        assert(g3 == ((g2 << lsb_mode) | v2));
        assert(g4 == ((g3 << lsb_mode) | v3));
        assert(g4 == b) by (bit_vector)
            requires
                lsb_mode == 2u8,
                m == lsb_mask(lsb_mode),
                v0 == (b >> 6u8) & m,
                v1 == (b >> 4u8) & m,
                v2 == (b >> 2u8) & m,
                v3 == (b >> 0u8) & m,
                g0 == 0u8,
                g1 == ((g0 << lsb_mode) | v0),
                g2 == ((g1 << lsb_mode) | v1),
                g3 == ((g2 << lsb_mode) | v2),
                g4 == ((g3 << lsb_mode) | v3),
        ;
        assert(decoded_byte(channels, lsb_mode, j) == g4);
    }
}

/// The round trip: for every channel sequence whose capacity holds the
/// payload, and either LSB mode, the bytes read back after an embed are the
/// payload, byte for byte.
pub proof fn lemma_encode_decode_round_trip(
    orig: Seq<u8>,
    new: Seq<u8>,
    payload: Seq<u8>,
    lsb_mode: u8,
)
    requires
        lsb_mode == 1 || lsb_mode == 2,
        new.len() == orig.len(),
        8 * payload.len() <= new.len() * (lsb_mode as int),
        forall|i: int|
            0 <= i < new.len() ==> new[i] == encoded_channel(orig[i], payload, lsb_mode, i),
    ensures
        forall|j: int| 0 <= j < payload.len() ==> decoded_byte(new, lsb_mode, j) == payload[j],
{
    assert forall|j: int| 0 <= j < payload.len() implies decoded_byte(new, lsb_mode, j)
        == payload[j] by {
        let cpb = channels_per_byte(lsb_mode);
        if lsb_mode == 1 {
            assert(new.len() * (lsb_mode as int) == new.len()) by (nonlinear_arith)
                requires
                    lsb_mode == 1,
            ;
        } else {
            assert(new.len() * (lsb_mode as int) == 2 * new.len()) by (nonlinear_arith)
                requires
                    lsb_mode == 2,
            ;
        }
        assert((j + 1) * cpb <= new.len());
        assert forall|c: int| j * cpb <= c < (j + 1) * cpb implies new[c] & lsb_mask(lsb_mode)
            == payload_chunk(payload, lsb_mode, c) by {
            if lsb_mode == 1 {
                assert((lsb_mode as int) * c == c) by (nonlinear_arith)
                    requires
                        lsb_mode == 1,
                ;
            } else {
                assert((lsb_mode as int) * c == 2 * c) by (nonlinear_arith)
                    requires
                        lsb_mode == 2,
                ;
            }
            assert((lsb_mode as int) * c < 8 * payload.len());
            assert(new[c] == encoded_channel(orig[c], payload, lsb_mode, c));
            let x = payload[((lsb_mode as int) * c) / 8];
            let s = ((8 - (lsb_mode as int) - (((lsb_mode as int) * c) % 8)) as u8);
            lemma_write_reads_back(orig[c], x, s, lsb_mode);
        };
        lemma_byte_round_trip(new, payload, lsb_mode, j);
    };
}

} // verus!
