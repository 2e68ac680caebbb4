//! What holds of the codec as a whole: encoding and decoding are inverse to
//! each other, and a frame that has only partly arrived is never mistaken for
//! anything else.
use crate::frame::{
    client_extent, decode_client, decode_server, encode_server, encode_text, roads_at,
    server_extent, u16_at, u32_at, Decoded, Extent, ServerFrameView, TAG_ERROR, TAG_HEARTBEAT,
    TAG_I_AM_DISPATCHER, TAG_PLATE, TAG_TICKET,
};
use crate::wire::{
    lemma_be16_of_u16_bytes, lemma_be32_of_u32_bytes, lemma_u16_bytes_of_be16,
    lemma_u32_bytes_of_be32, u16_bytes, u32_bytes,
};
use vstd::prelude::*;
use vstd::utf8::{decode_utf8, encode_utf8};

verus! {

/// A 16-bit integer written at index `i` of `b` is read back from there.
proof fn lemma_u16_at(b: Seq<u8>, i: int, n: u16)
    requires
        0 <= i,
        i + 2 <= b.len(),
        b.subrange(i, i + 2) == u16_bytes(n),
    ensures
        u16_at(b, i) == n,
{
    lemma_be16_of_u16_bytes(n);
    assert(b[i] == b.subrange(i, i + 2)[0]);
    assert(b[i + 1] == b.subrange(i, i + 2)[1]);
}

/// A 32-bit integer written at index `i` of `b` is read back from there.
proof fn lemma_u32_at(b: Seq<u8>, i: int, n: u32)
    requires
        0 <= i,
        i + 4 <= b.len(),
        b.subrange(i, i + 4) == u32_bytes(n),
    ensures
        u32_at(b, i) == n,
{
    lemma_be32_of_u32_bytes(n);
    assert(b[i] == b.subrange(i, i + 4)[0]);
    assert(b[i + 1] == b.subrange(i, i + 4)[1]);
    assert(b[i + 2] == b.subrange(i, i + 4)[2]);
    assert(b[i + 3] == b.subrange(i, i + 4)[3]);
}

/// Decoding undoes encoding: the bytes of a server frame that can be written
/// decode to that frame, and take up all the bytes.
pub proof fn lemma_decode_encode_server(f: ServerFrameView)
    requires
        f.fits(),
    ensures
        decode_server(encode_server(f)) == (Decoded::Frame {
            frame: f,
            len: encode_server(f).len(),
        }),
{
    let b = encode_server(f);
    match f {
        ServerFrameView::Heartbeat => {},
        ServerFrameView::Error { msg } => {
            let text = encode_utf8(msg);
            vstd::utf8::encode_utf8_valid_utf8(msg);
            vstd::utf8::encode_utf8_decode_utf8(msg);
            assert(b.len() == 2 + text.len());
            assert(b[0] == TAG_ERROR);
            assert(b[1] == text.len());
            assert(b.subrange(2, 2 + b[1]) =~= text);
        },
        ServerFrameView::Ticket { plate, road, mile1, timestamp1, mile2, timestamp2, speed } => {
            let text = encode_utf8(plate);
            let at: int = 2 + text.len() as int;
            vstd::utf8::encode_utf8_valid_utf8(plate);
            vstd::utf8::encode_utf8_decode_utf8(plate);
            assert(b.len() == 18 + text.len());
            assert(b[0] == TAG_TICKET);
            assert(b[1] == text.len());
            assert(b.subrange(2, 2 + b[1]) =~= text);
            assert(b.subrange(at, at + 2) =~= u16_bytes(road));
            assert(b.subrange(at + 2, at + 4) =~= u16_bytes(mile1));
            assert(b.subrange(at + 4, at + 8) =~= u32_bytes(timestamp1));
            assert(b.subrange(at + 8, at + 10) =~= u16_bytes(mile2));
            assert(b.subrange(at + 10, at + 14) =~= u32_bytes(timestamp2));
            assert(b.subrange(at + 14, at + 16) =~= u16_bytes(speed));
            lemma_u16_at(b, at, road);
            lemma_u16_at(b, at + 2, mile1);
            lemma_u32_at(b, at + 4, timestamp1);
            lemma_u16_at(b, at + 8, mile2);
            lemma_u32_at(b, at + 10, timestamp2);
            lemma_u16_at(b, at + 14, speed);
        },
    }
}

/// Encoding undoes decoding: a byte string that holds one server frame and
/// nothing more is what that frame encodes to, and the frame can be written.
pub proof fn lemma_encode_decode_server(b: Seq<u8>)
    requires
        decode_server(b) matches Decoded::Frame { len, .. } && len == b.len(),
    ensures
        decode_server(b) matches Decoded::Frame { frame, .. } && frame.fits() && encode_server(
            frame,
        ) == b,
{
    let frame = decode_server(b)->frame;
    if b[0] == TAG_HEARTBEAT {
        assert(encode_server(frame) =~= b);
    } else {
        let text = b.subrange(2, 2 + b[1]);
        let at: int = 2 + b[1];
        vstd::utf8::decode_utf8_encode_utf8(text);
        assert(encode_utf8(decode_utf8(text)) == text);
        assert(encode_text(decode_utf8(text)) =~= b.subrange(1, at));
        if b[0] == TAG_ERROR {
            assert(encode_server(frame) =~= b);
        } else {
            lemma_u16_bytes_of_be16(b[at], b[at + 1]);
            lemma_u16_bytes_of_be16(b[at + 2], b[at + 3]);
            lemma_u32_bytes_of_be32(b[at + 4], b[at + 5], b[at + 6], b[at + 7]);
            lemma_u16_bytes_of_be16(b[at + 8], b[at + 9]);
            lemma_u32_bytes_of_be32(b[at + 10], b[at + 11], b[at + 12], b[at + 13]);
            lemma_u16_bytes_of_be16(b[at + 14], b[at + 15]);
            assert(encode_server(frame) =~= b);
        }
    }
}

/// While a client frame is still arriving the decoder asks for more: every
/// proper prefix of a byte string that holds exactly one client frame is
/// incomplete.
pub proof fn lemma_client_prefix_incomplete(b: Seq<u8>, k: int)
    requires
        decode_client(b) matches Decoded::Frame { len, .. } && len == b.len(),
        0 <= k < b.len(),
    ensures
        client_extent(b.take(k)) is Incomplete,
        decode_client(b.take(k)) is Incomplete,
{
    let p = b.take(k);
    if k >= 1 {
        assert(p[0] == b[0]);
    }
    if k >= 2 {
        assert(p[1] == b[1]);
    }
}

/// Bytes that arrive after a whole client frame change nothing about it, and
/// bytes that cannot start a frame stay that way.
pub proof fn lemma_client_decode_stable(b: Seq<u8>, more: Seq<u8>)
    requires
        !(decode_client(b) is Incomplete),
    ensures
        decode_client(b + more) == decode_client(b),
{
    let c = b + more;
    assert(c[0] == b[0]);
    match client_extent(b) {
        Extent::Complete(n) => {
            assert(forall|i: int| 0 <= i < n ==> c[i] == b[i]);
            if b[0] == TAG_PLATE {
                assert(c[1] == b[1]);
                assert(c.subrange(2, 2 + c[1]) =~= b.subrange(2, 2 + b[1]));
            } else if b[0] == TAG_I_AM_DISPATCHER {
                assert(c[1] == b[1]);
                assert(roads_at(c) =~= roads_at(b));
            }
        },
        _ => {},
    }
}

/// While a server frame is still arriving the decoder asks for more.
pub proof fn lemma_server_prefix_incomplete(b: Seq<u8>, k: int)
    requires
        decode_server(b) matches Decoded::Frame { len, .. } && len == b.len(),
        0 <= k < b.len(),
    ensures
        server_extent(b.take(k)) is Incomplete,
        decode_server(b.take(k)) is Incomplete,
{
    let p = b.take(k);
    if k >= 1 {
        assert(p[0] == b[0]);
    }
    if k >= 2 {
        assert(p[1] == b[1]);
    }
}

} // verus!
