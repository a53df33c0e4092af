//! Length-prefixed framing, shared by the gossip protocol and the block
//! store: each record is its length as a little-endian `u32`, then its bytes.
use vstd::prelude::*;
use vstd::bytes::{
    lemma_auto_spec_u32_to_from_le_bytes, spec_u32_from_le_bytes, spec_u32_to_le_bytes,
    u32_from_le_bytes, u32_to_le_bytes,
};

verus! {

/// The length header written for a payload of `n` bytes: `n` cast to `u32`
/// (keeping its low 32 bits), little-endian.
pub open spec fn header_for(n: nat) -> Seq<u8> {
    spec_u32_to_le_bytes((n % 0x1_0000_0000) as u32)
}

/// One framed record.
pub open spec fn frame_spec(payload: Seq<u8>) -> Seq<u8> {
    header_for(payload.len()) + payload
}

/// Frames one payload.
pub fn encode_frame(payload: &[u8]) -> (bytes: Vec<u8>)
    ensures
        bytes@ == frame_spec(payload@),
        bytes@.len() == payload@.len() + 4,
{
    proof {
        lemma_auto_spec_u32_to_from_le_bytes();
    }
    let len = payload.len();
    let header = ((len as u64) % 0x1_0000_0000u64) as u32;
    let mut out = u32_to_le_bytes(header);
    let mut i: usize = 0;
    let ghost h = out@;
    while i < payload.len()
        invariant
            0 <= i <= payload@.len(),
            out@ == h + payload@.take(i as int),
        decreases payload@.len() - i,
    {
        out.push(payload[i]);
        i = i + 1;
        assert(out@ =~= h + payload@.take(i as int));
    }
    assert(payload@.take(i as int) =~= payload@);
    out
}

/// The payload length announced by a 4-byte header.
pub fn frame_len(header: &[u8; 4]) -> (n: usize)
    ensures
        n == spec_u32_from_le_bytes(header@),
{
    let v = u32_from_le_bytes(header.as_slice());
    v as usize
}

/// Why a sequence of frames could not be read back.
#[derive(Debug, Clone, Copy, PartialEq, Eq, Structural)]
pub enum FrameError {
    /// A header announces more bytes than follow it.
    Truncated,
}

/// Reading frames back: fewer than four bytes left ends the sequence; a
/// header announcing more bytes than remain is an error.
pub open spec fn frames_spec(data: Seq<u8>) -> Result<Seq<Seq<u8>>, FrameError>
    decreases data.len(),
{
    if data.len() < 4 {
        Ok(Seq::empty())
    } else {
        let n = spec_u32_from_le_bytes(data.take(4));
        if data.len() - 4 < n {
            Err(FrameError::Truncated)
        } else {
            match frames_spec(data.skip(4 + n)) {
                Ok(rest) => Ok(seq![data.subrange(4, 4 + n)] + rest),
                Err(e) => Err(e),
            }
        }
    }
}

/// Splits a byte string into the payloads of its frames.
pub fn split_frames(data: &[u8]) -> (r: Result<Vec<Vec<u8>>, FrameError>)
    ensures
        match r {
            Ok(v) => frames_spec(data@) == Ok::<Seq<Seq<u8>>, FrameError>(
                v@.map_values(|p: Vec<u8>| p@),
            ),
            Err(e) => frames_spec(data@) == Err::<Seq<Seq<u8>>, FrameError>(e),
        },
{
    let mut out: Vec<Vec<u8>> = Vec::new();
    let mut pos: usize = 0;
    let len = data.len();
    assert(data@.skip(0) =~= data@);
    loop
        invariant
            len == data@.len(),
            0 <= pos <= len,
            match frames_spec(data@.skip(pos as int)) {
                Ok(rest) => frames_spec(data@) == Ok::<Seq<Seq<u8>>, FrameError>(
                    out@.map_values(|p: Vec<u8>| p@) + rest,
                ),
                Err(e) => frames_spec(data@) == Err::<Seq<Seq<u8>>, FrameError>(e),
            },
        decreases len - pos,
    {
        let ghost rem = data@.skip(pos as int);
        if len - pos < 4 {
            proof {
                assert(out@.map_values(|p: Vec<u8>| p@) + Seq::<Seq<u8>>::empty() =~= out@.map_values(
                    |p: Vec<u8>| p@,
                ));
            }
            return Ok(out);
        }
        let header: [u8; 4] = [data[pos], data[pos + 1], data[pos + 2], data[pos + 3]];
        proof {
            assert(header@ =~= rem.take(4));
        }
        let n = frame_len(&header);
        if len - pos - 4 < n {
            return Err(FrameError::Truncated);
        }
        let mut payload: Vec<u8> = Vec::new();
        let start = pos + 4;
        let mut i: usize = 0;
        while i < n
            invariant
                len == data@.len(),
                start + n <= len,
                0 <= i <= n,
                payload@ == data@.subrange(start as int, start + i),
            decreases n - i,
        {
            payload.push(data[start + i]);
            i = i + 1;
            assert(payload@ =~= data@.subrange(start as int, start + i));
        }
        proof {
            assert(rem.subrange(4, 4 + n) =~= payload@);
            assert(rem.skip(4 + n) =~= data@.skip(start + n));
            let ghost old_out = out@.map_values(|p: Vec<u8>| p@);
            assert(old_out.push(payload@) =~= out@.push(payload).map_values(|p: Vec<u8>| p@));
            match frames_spec(data@.skip(start + n)) {
                Ok(rest) => {
                    assert(old_out + (seq![payload@] + rest) =~= old_out.push(payload@) + rest);
                },
                Err(e) => {},
            }
        }
        out.push(payload);
        pos = start + n;
    }
}

/// Reading back a frame followed by more frames gives its payload first.
pub proof fn lemma_frames_of_frame(payload: Seq<u8>, rest: Seq<u8>)
    requires
        payload.len() <= u32::MAX,
    ensures
        frames_spec(frame_spec(payload) + rest) == match frames_spec(rest) {
            Ok(ps) => Ok(seq![payload] + ps),
            Err(e) => Err::<Seq<Seq<u8>>, FrameError>(e),
        },
{
    lemma_auto_spec_u32_to_from_le_bytes();
    let data = frame_spec(payload) + rest;
    let h = header_for(payload.len());
    assert(h.len() == 4);
    assert(data.take(4) =~= h);
    assert(spec_u32_from_le_bytes(h) == payload.len());
    assert(data.subrange(4, 4 + payload.len() as int) =~= payload);
    assert(data.skip(4 + payload.len() as int) =~= rest);
}

/// Concatenated frames of the payloads, in order.
pub open spec fn frames_of(ps: Seq<Seq<u8>>) -> Seq<u8>
    decreases ps.len(),
{
    if ps.len() == 0 {
        Seq::empty()
    } else {
        frame_spec(ps[0]) + frames_of(ps.drop_first())
    }
}

/// Framing payloads and reading the frames back gives the payloads.
pub proof fn lemma_frames_roundtrip(ps: Seq<Seq<u8>>)
    requires
        forall|i: int| 0 <= i < ps.len() ==> (#[trigger] ps[i]).len() <= u32::MAX,
    ensures
        frames_spec(frames_of(ps)) == Ok::<Seq<Seq<u8>>, FrameError>(ps),
    decreases ps.len(),
{
    if ps.len() == 0 {
        assert(ps =~= Seq::<Seq<u8>>::empty());
        assert(frames_of(ps) =~= Seq::<u8>::empty());
    } else {
        lemma_frames_roundtrip(ps.drop_first());
        lemma_frames_of_frame(ps[0], frames_of(ps.drop_first()));
        assert(seq![ps[0]] + ps.drop_first() =~= ps);
    }
}

} // verus!
