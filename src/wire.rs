use vstd::prelude::*;

verus! {

/// Bytes of the length prefix that opens every frame.
pub const HEADER_LEN: usize = 8;

/// Little-endian bytes of `x`.
pub open spec fn le_bytes(x: u64) -> Seq<u8> {
    seq![
        x as u8,
        (x >> 8u64) as u8,
        (x >> 16u64) as u8,
        (x >> 24u64) as u8,
        (x >> 32u64) as u8,
        (x >> 40u64) as u8,
        (x >> 48u64) as u8,
        (x >> 56u64) as u8,
    ]
}

/// The number whose little-endian bytes open `b`.
pub open spec fn le_value(b: Seq<u8>) -> u64
    recommends
        b.len() >= 8,
{
    (b[0] as u64) | ((b[1] as u64) << 8u64) | ((b[2] as u64) << 16u64) | ((b[3] as u64) << 24u64)
        | ((b[4] as u64) << 32u64) | ((b[5] as u64) << 40u64) | ((b[6] as u64) << 48u64) | ((
    b[7] as u64) << 56u64)
}

/// The frame that carries `payload`: its length, then the payload itself.
pub open spec fn framed(payload: Seq<u8>) -> Seq<u8> {
    le_bytes(payload.len() as u64) + payload
}

/// What the first frame of `buf` holds, with the number of bytes it takes;
/// `None` while the frame is not yet complete.
pub open spec fn first_frame(buf: Seq<u8>) -> Option<(Seq<u8>, nat)> {
    if buf.len() < 8 {
        None
    } else {
        let n = le_value(buf) as nat;
        if buf.len() < 8 + n {
            None
        } else {
            Some((buf.subrange(8, 8 + n as int), (8 + n) as nat))
        }
    }
}

/// Reading back the bytes of a number gives the number.
pub proof fn lemma_le_round_trip(x: u64)
    ensures
        le_value(le_bytes(x)) == x,
{
    let b0 = x as u8;
    let b1 = (x >> 8u64) as u8;
    let b2 = (x >> 16u64) as u8;
    let b3 = (x >> 24u64) as u8;
    let b4 = (x >> 32u64) as u8;
    let b5 = (x >> 40u64) as u8;
    let b6 = (x >> 48u64) as u8;
    let b7 = (x >> 56u64) as u8;
    assert((b0 as u64) | ((b1 as u64) << 8u64) | ((b2 as u64) << 16u64) | ((b3 as u64) << 24u64)
        | ((b4 as u64) << 32u64) | ((b5 as u64) << 40u64) | ((b6 as u64) << 48u64) | ((
    b7 as u64) << 56u64) == x) by (bit_vector)
        requires
            b0 == x as u8,
            b1 == (x >> 8u64) as u8,
            b2 == (x >> 16u64) as u8,
            b3 == (x >> 24u64) as u8,
            b4 == (x >> 32u64) as u8,
            b5 == (x >> 40u64) as u8,
            b6 == (x >> 48u64) as u8,
            b7 == (x >> 56u64) as u8,
    ;
}

/// Eight bytes read as a number give back those bytes.
pub proof fn lemma_le_bytes_of_value(b: Seq<u8>)
    requires
        b.len() == 8,
    ensures
        le_bytes(le_value(b)) == b,
{
    let (b0, b1, b2, b3, b4, b5, b6, b7) = (b[0], b[1], b[2], b[3], b[4], b[5], b[6], b[7]);
    let v = le_value(b);
    assert(v as u8 == b0 && (v >> 8u64) as u8 == b1 && (v >> 16u64) as u8 == b2 && (v >> 24u64) as u8
        == b3 && (v >> 32u64) as u8 == b4 && (v >> 40u64) as u8 == b5 && (v >> 48u64) as u8 == b6 && (v
        >> 56u64) as u8 == b7) by (bit_vector)
        requires
            v == (b0 as u64) | ((b1 as u64) << 8u64) | ((b2 as u64) << 16u64) | ((b3 as u64) << 24u64)
                | ((b4 as u64) << 32u64) | ((b5 as u64) << 40u64) | ((b6 as u64) << 48u64) | ((
            b7 as u64) << 56u64),
    ;
    assert(le_bytes(v) =~= b);
}

/// A frame read from the front of a buffer gives back the payload it was
/// made from and its exact length, whatever follows it in the buffer.
pub proof fn lemma_frame_round_trip(payload: Seq<u8>, rest: Seq<u8>)
    requires
        payload.len() <= u64::MAX,
    ensures
        first_frame(framed(payload) + rest) == Some((payload, (8 + payload.len()) as nat)),
{
    let buf = framed(payload) + rest;
    lemma_le_round_trip(payload.len() as u64);
    assert(buf.subrange(0, 8) =~= le_bytes(payload.len() as u64));
    assert(le_value(buf) == le_value(buf.subrange(0, 8)));
    assert(buf.subrange(8, 8 + payload.len() as int) =~= payload);
}

/// Wraps `payload` in a frame.
pub fn frame(payload: &Vec<u8>) -> (r: Vec<u8>)
    ensures
        r@ == framed(payload@),
{
    let n = payload.len() as u64;
    let mut r: Vec<u8> = Vec::new();
    r.push(n as u8);
    r.push((n >> 8u64) as u8);
    r.push((n >> 16u64) as u8);
    r.push((n >> 24u64) as u8);
    r.push((n >> 32u64) as u8);
    r.push((n >> 40u64) as u8);
    r.push((n >> 48u64) as u8);
    r.push((n >> 56u64) as u8);
    assert(r@ =~= le_bytes(n));
    let mut i: usize = 0;
    while i < payload.len()
        invariant
            i <= payload@.len(),
            r@ == le_bytes(n) + payload@.take(i as int),
        decreases payload@.len() - i,
    {
        r.push(payload[i]);
        i += 1;
        assert(r@ =~= le_bytes(n) + payload@.take(i as int));
    }
    assert(payload@.take(i as int) =~= payload@);
    r
}

/// Takes the first complete frame from the front of `buf`: its payload and
/// the number of bytes it took. `None` while `buf` holds only part of a
/// frame, which is not yet data.
pub fn parse_frame(buf: &Vec<u8>) -> (r: Option<(Vec<u8>, usize)>)
    ensures
        match (r, first_frame(buf@)) {
            (None, None) => true,
            (Some((p, used)), Some((sp, sn))) => p@ == sp && used as nat == sn,
            _ => false,
        },
{
    if buf.len() < HEADER_LEN {
        return None;
    }
    let n: u64 = (buf[0] as u64) | ((buf[1] as u64) << 8u64) | ((buf[2] as u64) << 16u64) | ((
    buf[3] as u64) << 24u64) | ((buf[4] as u64) << 32u64) | ((buf[5] as u64) << 40u64) | ((
    buf[6] as u64) << 48u64) | ((buf[7] as u64) << 56u64);
    assert(n == le_value(buf@));
    if n > (buf.len() - HEADER_LEN) as u64 {
        return None;
    }
    let end = HEADER_LEN + n as usize;
    let mut p: Vec<u8> = Vec::new();
    let mut i: usize = HEADER_LEN;
    while i < end
        invariant
            HEADER_LEN <= i <= end,
            end <= buf@.len(),
            p@ == buf@.subrange(8, i as int),
        decreases end - i,
    {
        p.push(buf[i]);
        i += 1;
        assert(p@ =~= buf@.subrange(8, i as int));
    }
    Some((p, end))
}

} // verus!
