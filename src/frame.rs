use vstd::prelude::*;

verus! {

/// The four big-endian bytes of a length below 2^32.
pub open spec fn be32(n: nat) -> Seq<u8> {
    seq![(n / 0x1000000) as u8, ((n / 0x10000) % 256) as u8, ((n / 0x100) % 256) as u8, (n % 256) as u8]
}

/// The length that four big-endian bytes give.
pub open spec fn be32_value(b: Seq<u8>) -> nat {
    (b[0] as nat) * 0x1000000 + (b[1] as nat) * 0x10000 + (b[2] as nat) * 0x100 + (b[3] as nat)
}

/// A payload behind its length.
pub open spec fn framed(p: Seq<u8>) -> Seq<u8> {
    be32(p.len()) + p
}

/// The payload at the front of a buffer, and how many bytes its frame
/// takes; none while the frame is incomplete.
pub open spec fn unframed(b: Seq<u8>) -> Option<(Seq<u8>, nat)> {
    if b.len() < 4 {
        None
    } else {
        let n = be32_value(b);
        if b.len() < 4 + n {
            None
        } else {
            Some((b.subrange(4, 4 + n as int), (4 + n) as nat))
        }
    }
}

/// Puts a payload behind its four-byte big-endian length.
pub fn frame(payload: &Vec<u8>) -> (r: Vec<u8>)
    requires
        payload@.len() < 0x1_0000_0000,
    ensures
        r@ == framed(payload@),
{
    let n = payload.len() as u64;
    let mut r: Vec<u8> = Vec::new();
    r.push((n / 0x1000000) as u8);
    r.push(((n / 0x10000) % 256) as u8);
    r.push(((n / 0x100) % 256) as u8);
    r.push((n % 256) as u8);
    let mut i: usize = 0;
    while i < payload.len()
        invariant
            i <= payload@.len(),
            r@ == be32(payload@.len()) + payload@.subrange(0, i as int),
        decreases payload@.len() - i,
    {
        r.push(payload[i]);
        i = i + 1;
        proof {
            assert(r@ =~= be32(payload@.len()) + payload@.subrange(0, i as int));
        }
    }
    proof {
        assert(payload@.subrange(0, payload@.len() as int) =~= payload@);
    }
    r
}

/// Takes the payload of the frame at the front of `buf`, with the number of
/// bytes the frame takes; `None` while it is incomplete.
pub fn unframe(buf: &Vec<u8>) -> (r: Option<(Vec<u8>, usize)>)
    ensures
        match r {
            Some((p, used)) => unframed(buf@) == Some((p@, used as nat)),
            None => unframed(buf@) is None,
        },
{
    if buf.len() < 4 {
        return None;
    }
    let n: u64 = (buf[0] as u64) * 0x1000000 + (buf[1] as u64) * 0x10000 + (buf[2] as u64) * 0x100 + (buf[3] as u64);
    proof {
        assert(n == be32_value(buf@));
    }
    if (buf.len() as u64) < 4 || (buf.len() as u64) - 4 < n {
        return None;
    }
    let end = 4 + n as usize;
    let mut p: Vec<u8> = Vec::new();
    let mut i: usize = 4;
    while i < end
        invariant
            4 <= i <= end <= buf@.len(),
            p@ == buf@.subrange(4, i as int),
        decreases end - i,
    {
        p.push(buf[i]);
        i = i + 1;
        proof {
            assert(p@ =~= buf@.subrange(4, i as int));
        }
    }
    Some((p, end))
}

/// Reading a frame back gives the payload, however many bytes follow it.
pub proof fn law_frame_round_trip(p: Seq<u8>, rest: Seq<u8>)
    requires
        p.len() < 0x1_0000_0000,
    ensures
        unframed(framed(p) + rest) == Some((p, (4 + p.len()) as nat)),
{
    let b = framed(p) + rest;
    let n = p.len();
    assert(be32_value(b) == n) by {
        assert(b[0] == (n / 0x1000000) as u8);
        assert(b[1] == ((n / 0x10000) % 256) as u8);
        assert(b[2] == ((n / 0x100) % 256) as u8);
        assert(b[3] == (n % 256) as u8);
        assert(n == (n / 0x1000000) * 0x1000000 + ((n / 0x10000) % 256) * 0x10000
            + ((n / 0x100) % 256) * 0x100 + n % 256) by (nonlinear_arith)
            requires n < 0x1_0000_0000;
    }
    assert(b.subrange(4, 4 + n as int) =~= p);
}

} // verus!
