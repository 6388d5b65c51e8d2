//! Length-prefixed frames: four bytes of length, most significant first, then the
//! payload.

use vstd::prelude::*;

verus! {

/// The four bytes of `n`, most significant first.
pub open spec fn be_bytes(n: u32) -> Seq<u8> {
    seq![
        (n / 0x100_0000) as u8,
        ((n / 0x1_0000) % 0x100) as u8,
        ((n / 0x100) % 0x100) as u8,
        (n % 0x100) as u8,
    ]
}

/// The number whose big-endian bytes are the first four of `bytes`.
pub open spec fn be_value(bytes: Seq<u8>) -> u32
    recommends
        bytes.len() >= 4,
{
    (bytes[0] * 0x100_0000 + bytes[1] * 0x1_0000 + bytes[2] * 0x100 + bytes[3]) as u32
}

/// The length prefix written before a payload of `len` bytes. A prefix holds 32
/// bits: a longer payload gets its length modulo 2^32.
pub open spec fn prefix_of(len: nat) -> u32 {
    (len % 0x1_0000_0000) as u32
}

/// One frame: the prefix, then the payload.
pub open spec fn frame(payload: Seq<u8>) -> Seq<u8> {
    be_bytes(prefix_of(payload.len())) + payload
}

/// The frames of `payloads`, one after the other, in order.
pub open spec fn frames(payloads: Seq<Seq<u8>>) -> Seq<u8>
    decreases payloads.len(),
{
    if payloads.len() == 0 {
        Seq::empty()
    } else {
        frames(payloads.drop_last()) + frame(payloads.last())
    }
}

/// Big-endian bytes of `n`.
pub fn encode_prefix(n: u32) -> (bytes: [u8; 4])
    ensures
        bytes@ == be_bytes(n),
{
    let b0: u8 = (n / 0x100_0000) as u8;
    let b1: u8 = ((n / 0x1_0000) % 0x100) as u8;
    let b2: u8 = ((n / 0x100) % 0x100) as u8;
    let b3: u8 = (n % 0x100) as u8;
    let bytes: [u8; 4] = [b0, b1, b2, b3];
    assert(bytes@ =~= be_bytes(n));
    bytes
}

/// The number that a four-byte big-endian prefix stands for.
pub fn decode_prefix(bytes: &[u8; 4]) -> (n: u32)
    ensures
        n == be_value(bytes@),
{
    let b0: u32 = bytes[0] as u32;
    let b1: u32 = bytes[1] as u32;
    let b2: u32 = bytes[2] as u32;
    let b3: u32 = bytes[3] as u32;
    b0 * 0x100_0000 + b1 * 0x1_0000 + b2 * 0x100 + b3
}

/// Decoding undoes encoding.
pub proof fn lemma_decode_encode(n: u32)
    ensures
        be_bytes(n).len() == 4,
        be_value(be_bytes(n)) == n,
{
    assert((n / 0x100_0000) < 0x100 && (n / 0x100_0000) * 0x100_0000 + ((n / 0x1_0000) % 0x100)
        * 0x1_0000 + ((n / 0x100) % 0x100) * 0x100 + (n % 0x100) == n) by (bit_vector);
}

/// Encoding undoes decoding.
pub proof fn lemma_encode_decode(bytes: Seq<u8>)
    requires
        bytes.len() == 4,
    ensures
        be_bytes(be_value(bytes)) == bytes,
{
    let b0: u8 = bytes[0];
    let b1: u8 = bytes[1];
    let b2: u8 = bytes[2];
    let b3: u8 = bytes[3];
    let v: int = b0 * 0x100_0000 + b1 * 0x1_0000 + b2 * 0x100 + b3;
    assert(0 <= v < 0x1_0000_0000);
    assert(v / 0x100_0000 == b0 as int);
    assert((v / 0x1_0000) % 0x100 == b1 as int);
    assert((v / 0x100) % 0x100 == b2 as int);
    assert(v % 0x100 == b3 as int);
    assert(be_bytes(be_value(bytes)) =~= bytes);
}

/// Appends to `stream` the frame of `img_bytes`.
pub fn send_image(img_bytes: &Vec<u8>, stream: &mut Vec<u8>)
    ensures
        final(stream)@ == old(stream)@ + frame(img_bytes@),
{
    let len: usize = img_bytes.len();
    let prefix: [u8; 4] = encode_prefix(#[verifier::truncate] (len as u32));
    assert(#[verifier::truncate] (len as u32) == prefix_of(len as nat)) by {
        assert(len as u32 == (len as int % 0x1_0000_0000) as u32) by (bit_vector);
    }
    stream.push(prefix[0]);
    stream.push(prefix[1]);
    stream.push(prefix[2]);
    stream.push(prefix[3]);
    stream.extend_from_slice(img_bytes.as_slice());
    assert(stream@ =~= old(stream)@ + frame(img_bytes@));
}

/// The frames of two lists of payloads, one after the other, are the frames of
/// the lists joined.
pub proof fn lemma_frames_concat(first: Seq<Seq<u8>>, second: Seq<Seq<u8>>)
    ensures
        frames(first + second) == frames(first) + frames(second),
    decreases second.len(),
{
    if second.len() == 0 {
        assert(first + second =~= first);
        assert(frames(first) + frames(second) =~= frames(first));
    } else {
        assert((first + second).drop_last() =~= first + second.drop_last());
        assert((first + second).last() == second.last());
        lemma_frames_concat(first, second.drop_last());
        assert(frames(first + second) =~= frames(first) + frames(second));
    }
}

/// The payloads of a stream that is made of whole frames, in order; `None` for
/// a stream that ends inside a frame.
pub open spec fn unframed(stream: Seq<u8>) -> Option<Seq<Seq<u8>>>
    decreases stream.len(),
{
    if stream.len() == 0 {
        Some(Seq::empty())
    } else if stream.len() < 4 || stream.len() < 4 + be_value(stream) {
        None
    } else {
        match unframed(stream.subrange(4 + be_value(stream), stream.len() as int)) {
            Some(rest) => Some(seq![stream.subrange(4, 4 + be_value(stream))] + rest),
            None => None,
        }
    }
}

/// What is written for a list of payloads is a stream of whole frames that
/// holds exactly those payloads, as many and in that order, as long as each
/// payload's length fits its prefix.
pub proof fn lemma_frames_round_trip(payloads: Seq<Seq<u8>>)
    requires
        forall|i: int| 0 <= i < payloads.len() ==> (#[trigger] payloads[i]).len() <= u32::MAX,
    ensures
        unframed(frames(payloads)) == Some(payloads),
    decreases payloads.len(),
{
    if payloads.len() > 0 {
        let first = payloads.first();
        let rest = payloads.drop_first();
        assert(payloads =~= seq![first] + rest);
        lemma_frames_concat(seq![first], rest);
        let one = seq![first];
        assert(one.drop_last() =~= Seq::<Seq<u8>>::empty());
        assert(one.last() == first);
        assert(frames(one.drop_last()) =~= Seq::<u8>::empty());
        assert(frames(one) == frames(one.drop_last()) + frame(one.last()));
        assert(frames(one) =~= frame(first));
        let stream = frames(payloads);
        assert(stream =~= frame(first) + frames(rest));
        lemma_decode_encode(prefix_of(first.len()));
        assert(payloads[0].len() <= u32::MAX);
        assert(prefix_of(first.len()) == first.len());
        let prefix = be_bytes(prefix_of(first.len()));
        assert(be_value(stream) == be_value(prefix)) by {
            assert(stream[0] == prefix[0] && stream[1] == prefix[1] && stream[2] == prefix[2]
                && stream[3] == prefix[3]);
        }
        assert(stream.subrange(4 + be_value(stream), stream.len() as int) =~= frames(rest));
        assert(stream.subrange(4, 4 + be_value(stream)) =~= first);
        assert forall|i: int| 0 <= i < rest.len() implies (#[trigger] rest[i]).len()
            <= u32::MAX by {
            assert(rest[i] == payloads[i + 1]);
        }
        lemma_frames_round_trip(rest);
    }
}

} // verus!
