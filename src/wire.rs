//! The control-stream messages and their byte encoding.
//!
//! Every message travels as one frame: a four-byte big-endian length, then
//! that many bytes of body. A body is one tag byte and a payload. Integers
//! are big-endian; an event takes five bytes (see `event_bytes`).

use vstd::prelude::*;
use crate::event::{event_bytes, MiditipEvent};
use crate::state::{keyed, MiditipState};

verus! {

/// The two bytes of `x`, most significant first.
pub open spec fn be16(x: u16) -> Seq<u8> {
    seq![((x >> 8u16) & 0xffu16) as u8, (x & 0xffu16) as u8]
}

/// The four bytes of `x`, most significant first.
pub open spec fn be32(x: u32) -> Seq<u8> {
    seq![
        ((x >> 24u32) & 0xffu32) as u8,
        ((x >> 16u32) & 0xffu32) as u8,
        ((x >> 8u32) & 0xffu32) as u8,
        (x & 0xffu32) as u8,
    ]
}

/// The eight bytes of `x`, most significant first.
pub open spec fn be64(x: u64) -> Seq<u8> {
    be32(((x >> 32u64) & 0xffff_ffffu64) as u32) + be32((x & 0xffff_ffffu64) as u32)
}

fn push_be16(out: &mut Vec<u8>, x: u16)
    ensures
        final(out)@ == old(out)@ + be16(x),
{
    out.push(((x >> 8u16) & 0xffu16) as u8);
    out.push((x & 0xffu16) as u8);
    assert(final(out)@ =~= old(out)@ + be16(x));
}

fn push_be32(out: &mut Vec<u8>, x: u32)
    ensures
        final(out)@ == old(out)@ + be32(x),
{
    out.push(((x >> 24u32) & 0xffu32) as u8);
    out.push(((x >> 16u32) & 0xffu32) as u8);
    out.push(((x >> 8u32) & 0xffu32) as u8);
    out.push((x & 0xffu32) as u8);
    assert(final(out)@ =~= old(out)@ + be32(x));
}

fn push_be64(out: &mut Vec<u8>, x: u64)
    ensures
        final(out)@ == old(out)@ + be64(x),
{
    push_be32(out, ((x >> 32u64) & 0xffff_ffffu64) as u32);
    push_be32(out, (x & 0xffff_ffffu64) as u32);
    assert(final(out)@ =~= old(out)@ + be64(x));
}

/// The integer whose big-endian bytes are `b[pos..pos + 2]`.
fn read_be16(b: &Vec<u8>, pos: usize) -> (r: u16)
    requires
        pos + 2 <= b@.len() <= usize::MAX,
    ensures
        be16(r) == b@.subrange(pos as int, pos + 2),
{
    let b0 = b[pos];
    let b1 = b[pos + 1];
    let r: u16 = ((b0 as u16) << 8u16) | (b1 as u16);
    assert(((r >> 8u16) & 0xffu16) == b0 as u16 && (r & 0xffu16) == b1 as u16) by (bit_vector)
        requires
            r == ((b0 as u16) << 8u16) | (b1 as u16),
    ;
    assert(be16(r) =~= b@.subrange(pos as int, pos + 2));
    r
}

/// The integer whose big-endian bytes are `b0, b1, b2, b3`.
pub open spec fn be32_value(b0: u8, b1: u8, b2: u8, b3: u8) -> u32 {
    ((b0 as u32) << 24u32) | ((b1 as u32) << 16u32) | ((b2 as u32) << 8u32) | (b3 as u32)
}

/// The integer whose big-endian bytes are `b[pos..pos + 4]`.
fn read_be32(b: &Vec<u8>, pos: usize) -> (r: u32)
    requires
        pos + 4 <= b@.len() <= usize::MAX,
    ensures
        be32(r) == b@.subrange(pos as int, pos + 4),
        r == be32_value(b@[pos as int], b@[pos + 1], b@[pos + 2], b@[pos + 3]),
{
    let b0 = b[pos];
    let b1 = b[pos + 1];
    let b2 = b[pos + 2];
    let b3 = b[pos + 3];
    let r: u32 = ((b0 as u32) << 24u32) | ((b1 as u32) << 16u32) | ((b2 as u32) << 8u32) | (b3 as u32);
    assert(((r >> 24u32) & 0xffu32) == b0 as u32 && ((r >> 16u32) & 0xffu32) == b1 as u32
        && ((r >> 8u32) & 0xffu32) == b2 as u32 && (r & 0xffu32) == b3 as u32) by (bit_vector)
        requires
            r == ((b0 as u32) << 24u32) | ((b1 as u32) << 16u32) | ((b2 as u32) << 8u32) | (b3 as u32),
    ;
    assert(be32(r) =~= b@.subrange(pos as int, pos + 4));
    r
}

/// The integer whose big-endian bytes are `b[pos..pos + 8]`.
fn read_be64(b: &Vec<u8>, pos: usize) -> (r: u64)
    requires
        pos + 8 <= b@.len() <= usize::MAX,
    ensures
        be64(r) == b@.subrange(pos as int, pos + 8),
{
    let hi = read_be32(b, pos);
    let lo = read_be32(b, pos + 4);
    let r: u64 = ((hi as u64) << 32u64) | (lo as u64);
    assert(((r >> 32u64) & 0xffff_ffffu64) == hi as u64 && (r & 0xffff_ffffu64) == lo as u64) by (bit_vector)
        requires
            r == ((hi as u64) << 32u64) | (lo as u64),
    ;
    assert(be64(r) =~= b@.subrange(pos as int, pos + 8));
    r
}

/// A transport address of a peer: an IPv4 address and port, or an IPv6
/// address (as two 64-bit halves, high first), port, flow label and scope.
#[derive(PartialEq, Eq, Structural, Clone, Copy, Debug)]
pub enum PeerAddr {
    V4 { ip: u32, port: u16 },
    V6 { hi: u64, lo: u64, port: u16, flowinfo: u32, scope_id: u32 },
}

impl PeerAddr {
    pub open spec fn spec_port(&self) -> u16 {
        match *self {
            PeerAddr::V4 { port, .. } => port,
            PeerAddr::V6 { port, .. } => port,
        }
    }

    /// The same address with another port.
    pub open spec fn spec_with_port(&self, port: u16) -> PeerAddr {
        match *self {
            PeerAddr::V4 { ip, .. } => PeerAddr::V4 { ip, port },
            PeerAddr::V6 { hi, lo, flowinfo, scope_id, .. } => PeerAddr::V6 { hi, lo, port, flowinfo, scope_id },
        }
    }

    /// The port of this address.
    #[verifier::when_used_as_spec(spec_port)]
    pub fn port(&self) -> (r: u16)
        ensures
            r == self.spec_port(),
    {
        match self {
            PeerAddr::V4 { port, .. } => *port,
            PeerAddr::V6 { port, .. } => *port,
        }
    }

    /// The same address with another port: where a peer's datagrams go is
    /// the address the server saw its connection come from, with the port
    /// the peer reported.
    #[verifier::when_used_as_spec(spec_with_port)]
    pub fn with_port(&self, port: u16) -> (r: PeerAddr)
        ensures
            r == self.spec_with_port(port),
    {
        match *self {
            PeerAddr::V4 { ip, .. } => PeerAddr::V4 { ip, port },
            PeerAddr::V6 { hi, lo, flowinfo, scope_id, .. } => PeerAddr::V6 { hi, lo, port, flowinfo, scope_id },
        }
    }
}

/// The bytes of one address: 4, the address and the port (7 bytes); or 6,
/// the two halves, the port, the flow label and the scope (27 bytes).
pub open spec fn addr_bytes(a: PeerAddr) -> Seq<u8> {
    match a {
        PeerAddr::V4 { ip, port } => seq![4u8] + be32(ip) + be16(port),
        PeerAddr::V6 { hi, lo, port, flowinfo, scope_id } =>
            seq![6u8] + be64(hi) + be64(lo) + be16(port) + be32(flowinfo) + be32(scope_id),
    }
}

/// The bytes of a list of addresses, one after another.
pub open spec fn addrs_bytes(s: Seq<PeerAddr>) -> Seq<u8>
    decreases s.len(),
{
    if s.len() == 0 {
        Seq::empty()
    } else {
        addr_bytes(s[0]) + addrs_bytes(s.skip(1))
    }
}

/// The bytes of a list of events, five per event.
pub open spec fn events_bytes(s: Seq<MiditipEvent>) -> Seq<u8>
    decreases s.len(),
{
    if s.len() == 0 {
        Seq::empty()
    } else {
        events_bytes(s.drop_last()) + event_bytes(s.last())
    }
}

proof fn lemma_events_bytes_len(s: Seq<MiditipEvent>)
    ensures
        events_bytes(s).len() == 5 * s.len(),
    decreases s.len(),
{
    if s.len() > 0 {
        lemma_events_bytes_len(s.drop_last());
    }
}

/// Different event lists have different bytes.
pub proof fn lemma_events_bytes_injective(s: Seq<MiditipEvent>, t: Seq<MiditipEvent>)
    requires
        events_bytes(s) == events_bytes(t),
    ensures
        s == t,
    decreases s.len(),
{
    lemma_events_bytes_len(s);
    lemma_events_bytes_len(t);
    if s.len() > 0 {
        let bs = events_bytes(s);
        let n = bs.len();
        let ps = events_bytes(s.drop_last());
        let pt = events_bytes(t.drop_last());
        lemma_events_bytes_len(s.drop_last());
        lemma_events_bytes_len(t.drop_last());
        assert(ps =~= bs.subrange(0, n - 5));
        assert(pt =~= bs.subrange(0, n - 5));
        lemma_events_bytes_injective(s.drop_last(), t.drop_last());
        let es = s.last();
        let et = t.last();
        assert(event_bytes(es) =~= bs.subrange(n - 5, n as int));
        assert(event_bytes(et) =~= bs.subrange(n - 5, n as int));
        assert(es.status == et.status && es.data1 == et.data1 && es.data2 == et.data2);
        assert(es.peer_id == bs[n - 2] && et.peer_id == bs[n - 2]);
        assert(es.msg_id == bs[n - 1] && et.msg_id == bs[n - 1]);
        assert(s =~= s.drop_last().push(es));
        assert(t =~= t.drop_last().push(et));
    } else {
        assert(s =~= t);
    }
}

fn push_addr(out: &mut Vec<u8>, a: PeerAddr)
    ensures
        final(out)@ == old(out)@ + addr_bytes(a),
{
    match a {
        PeerAddr::V4 { ip, port } => {
            out.push(4u8);
            push_be32(out, ip);
            push_be16(out, port);
        },
        PeerAddr::V6 { hi, lo, port, flowinfo, scope_id } => {
            out.push(6u8);
            push_be64(out, hi);
            push_be64(out, lo);
            push_be16(out, port);
            push_be32(out, flowinfo);
            push_be32(out, scope_id);
        },
    }
    assert(final(out)@ =~= old(out)@ + addr_bytes(a));
}

/// Appends the bytes of a list of events.
fn push_events(out: &mut Vec<u8>, events: &Vec<MiditipEvent>)
    ensures
        final(out)@ == old(out)@ + events_bytes(events@),
{
    let mut i: usize = 0;
    while i < events.len()
        invariant
            i <= events.len(),
            out@ == old(out)@ + events_bytes(events@.take(i as int)),
        decreases events.len() - i,
    {
        let raw = events[i].to_array();
        out.push(raw[0]);
        out.push(raw[1]);
        out.push(raw[2]);
        out.push(raw[3]);
        out.push(raw[4]);
        assert(events@.take(i + 1).drop_last() =~= events@.take(i as int));
        assert(out@ =~= old(out)@ + events_bytes(events@.take(i + 1)));
        i += 1;
    }
    assert(events@.take(i as int) =~= events@);
}

/// Reads `b[start..]` as a list of events: `None` unless its length is a
/// multiple of five.
fn read_events(b: &Vec<u8>, start: usize) -> (r: Option<Vec<MiditipEvent>>)
    requires
        start <= b@.len(),
    ensures
        r is Some <==> (b@.len() - start) % 5 == 0,
        r matches Some(v) ==> events_bytes(v@) == b@.skip(start as int),
{
    let len = b.len();
    if (len - start) % 5 != 0 {
        return None;
    }
    let mut out: Vec<MiditipEvent> = Vec::new();
    let mut pos: usize = start;
    while pos < len
        invariant
            len == b@.len(),
            start <= pos <= len,
            (len - pos) % 5 == 0,
            events_bytes(out@) == b@.subrange(start as int, pos as int),
        decreases len - pos,
    {
        let raw: [u8; 5] = [b[pos], b[pos + 1], b[pos + 2], b[pos + 3], b[pos + 4]];
        let e = MiditipEvent::from_array(&raw);
        let ghost before = out@;
        out.push(e);
        assert(out@.drop_last() == before);
        assert(raw@ =~= b@.subrange(pos as int, pos + 5));
        assert(b@.subrange(start as int, pos + 5) =~= b@.subrange(start as int, pos as int) + b@.subrange(pos as int, pos + 5));
        pos += 5;
    }
    assert(b@.subrange(start as int, len as int) =~= b@.skip(start as int));
    Some(out)
}

/// Reads one address at `b[pos..]`: the address and the number of bytes it
/// took, or `None` where no address's bytes start there.
fn read_addr(b: &Vec<u8>, pos: usize) -> (r: Option<(PeerAddr, usize)>)
    requires
        pos < b@.len(),
    ensures
        r matches Some((a, n)) ==> pos + n <= b@.len() && addr_bytes(a) == b@.subrange(pos as int, pos + n),
        r is None ==> forall|a: PeerAddr| #[trigger] addr_bytes(a) != b@.subrange(pos as int, pos + addr_bytes(a).len()) || pos + addr_bytes(a).len() > b@.len(),
{
    let len = b.len();
    let tag = b[pos];
    if tag == 4 && len - pos >= 7 {
        let ip = read_be32(b, pos + 1);
        let port = read_be16(b, pos + 5);
        let a = PeerAddr::V4 { ip, port };
        assert(addr_bytes(a) =~= b@.subrange(pos as int, pos + 7));
        Some((a, 7))
    } else if tag == 6 && len - pos >= 27 {
        let hi = read_be64(b, pos + 1);
        let lo = read_be64(b, pos + 9);
        let port = read_be16(b, pos + 17);
        let flowinfo = read_be32(b, pos + 19);
        let scope_id = read_be32(b, pos + 23);
        let a = PeerAddr::V6 { hi, lo, port, flowinfo, scope_id };
        assert(addr_bytes(a) =~= b@.subrange(pos as int, pos + 27));
        Some((a, 27))
    } else {
        assert forall|a: PeerAddr| #[trigger] addr_bytes(a) != b@.subrange(pos as int, pos + addr_bytes(a).len()) || pos + addr_bytes(a).len() > b@.len() by {
            if pos + addr_bytes(a).len() <= b@.len() && addr_bytes(a) == b@.subrange(pos as int, pos + addr_bytes(a).len()) {
                assert(addr_bytes(a)[0] == b@[pos as int]);
            }
        }
        None
    }
}

proof fn lemma_addr_bytes_shape(a: PeerAddr)
    ensures
        addr_bytes(a).len() >= 7,
        addr_bytes(a)[0] == 4 ==> addr_bytes(a).len() == 7,
        addr_bytes(a)[0] == 6 ==> addr_bytes(a).len() == 27,
        addr_bytes(a)[0] == 4 || addr_bytes(a)[0] == 6,
{
}

/// Reads `b[pos..]` as a list of addresses, or `None` where no list's bytes
/// are exactly that.
fn read_addrs(b: &Vec<u8>, pos: usize) -> (r: Option<Vec<PeerAddr>>)
    requires
        pos <= b@.len(),
    ensures
        r matches Some(v) ==> addrs_bytes(v@) == b@.skip(pos as int),
        r is None ==> forall|s: Seq<PeerAddr>| addrs_bytes(s) != b@.skip(pos as int),
    decreases b@.len() - pos,
{
    let len = b.len();
    if pos == len {
        let v: Vec<PeerAddr> = Vec::new();
        assert(b@.skip(pos as int) =~= addrs_bytes(v@));
        return Some(v);
    }
    match read_addr(b, pos) {
        None => {
            assert forall|s: Seq<PeerAddr>| addrs_bytes(s) != b@.skip(pos as int) by {
                if addrs_bytes(s) == b@.skip(pos as int) {
                    assert(b@.skip(pos as int).len() == len - pos);
                    assert(s.len() > 0);
                    assert(addrs_bytes(s) == addr_bytes(s[0]) + addrs_bytes(s.skip(1)));
                    let a = s[0];
                    let n = addr_bytes(a).len();
                    assert(addr_bytes(a) =~= b@.skip(pos as int).subrange(0, n as int));
                    assert(addr_bytes(a) =~= b@.subrange(pos as int, pos + n));
                }
            }
            None
        },
        Some((a, n)) => {
            proof {
                lemma_addr_bytes_shape(a);
            }
            match read_addrs(b, pos + n) {
                None => {
                    assert forall|s: Seq<PeerAddr>| addrs_bytes(s) != b@.skip(pos as int) by {
                        if addrs_bytes(s) == b@.skip(pos as int) {
                            assert(b@.skip(pos as int).len() == len - pos);
                            assert(s.len() > 0);
                            assert(addrs_bytes(s) == addr_bytes(s[0]) + addrs_bytes(s.skip(1)));
                            let x = s[0];
                            lemma_addr_bytes_shape(x);
                            assert(addr_bytes(x)[0] == b@[pos as int]);
                            assert(addr_bytes(a)[0] == b@[pos as int]);
                            assert(addr_bytes(x).len() == n);
                            assert(addrs_bytes(s).skip(n as int) =~= addrs_bytes(s.skip(1)));
                            assert(b@.skip(pos as int).skip(n as int) =~= b@.skip(pos + n));
                        }
                    }
                    None
                },
                Some(rest) => {
                    let ghost tail = rest@;
                    let mut v = rest;
                    v.insert(0, a);
                    assert(v@.skip(1) =~= tail);
                    assert(addrs_bytes(v@) =~= b@.skip(pos as int));
                    Some(v)
                },
            }
        },
    }
}

/// Appends the bytes of a list of addresses.
fn push_addrs(out: &mut Vec<u8>, addrs: &Vec<PeerAddr>)
    ensures
        final(out)@ == old(out)@ + addrs_bytes(addrs@),
{
    let mut i: usize = 0;
    assert(addrs@.skip(0) =~= addrs@);
    while i < addrs.len()
        invariant
            i <= addrs.len(),
            out@ + addrs_bytes(addrs@.skip(i as int)) == old(out)@ + addrs_bytes(addrs@),
        decreases addrs.len() - i,
    {
        let ghost before = out@;
        push_addr(out, addrs[i]);
        assert(addrs@.skip(i as int).skip(1) =~= addrs@.skip(i + 1));
        assert(addrs@.skip(i as int)[0] == addrs@[i as int]);
        assert(out@ + addrs_bytes(addrs@.skip(i + 1)) =~= before + addrs_bytes(addrs@.skip(i as int)));
        i += 1;
    }
    assert(addrs@.skip(i as int) =~= Seq::<PeerAddr>::empty());
    assert(out@ =~= out@ + addrs_bytes(addrs@.skip(i as int)));
}

/// An address list of at most `n` entries takes at most `27 * n` bytes.
proof fn lemma_addrs_bytes_len(s: Seq<PeerAddr>)
    ensures
        addrs_bytes(s).len() <= 27 * s.len(),
    decreases s.len(),
{
    if s.len() > 0 {
        lemma_addrs_bytes_len(s.skip(1));
        lemma_addr_bytes_shape(s[0]);
    }
}

/// A frame: the length of the body, then the body, which is the tag and
/// the payload.
pub open spec fn frame(tag: u8, payload: Seq<u8>) -> Seq<u8> {
    be32((payload.len() + 1) as u32) + seq![tag] + payload
}

/// Where the frame that starts `b` ends, as its length field tells.
pub open spec fn frame_end(b: Seq<u8>) -> int {
    4 + be32_value(b[0], b[1], b[2], b[3])
}

/// `b` starts with a whole frame.
pub open spec fn frame_complete(b: Seq<u8>) -> bool {
    b.len() >= 4 && b.len() >= frame_end(b)
}

proof fn lemma_be32_injective(x: u32, y: u32)
    requires
        be32(x) == be32(y),
    ensures
        x == y,
{
    assert(be32(x)[0] == be32(y)[0] && be32(x)[1] == be32(y)[1]);
    assert(be32(x)[2] == be32(y)[2] && be32(x)[3] == be32(y)[3]);
    let (a0, a1, a2, a3) = ((x >> 24u32) & 0xffu32, (x >> 16u32) & 0xffu32, (x >> 8u32) & 0xffu32, x & 0xffu32);
    let (c0, c1, c2, c3) = ((y >> 24u32) & 0xffu32, (y >> 16u32) & 0xffu32, (y >> 8u32) & 0xffu32, y & 0xffu32);
    assert(a0 < 256 && a1 < 256 && a2 < 256 && a3 < 256 && c0 < 256 && c1 < 256 && c2 < 256 && c3 < 256) by (bit_vector)
        requires
            a0 == (x >> 24u32) & 0xffu32, a1 == (x >> 16u32) & 0xffu32, a2 == (x >> 8u32) & 0xffu32, a3 == x & 0xffu32,
            c0 == (y >> 24u32) & 0xffu32, c1 == (y >> 16u32) & 0xffu32, c2 == (y >> 8u32) & 0xffu32, c3 == y & 0xffu32,
    ;
    assert(x == y) by (bit_vector)
        requires
            (x >> 24u32) & 0xffu32 == (y >> 24u32) & 0xffu32,
            (x >> 16u32) & 0xffu32 == (y >> 16u32) & 0xffu32,
            (x >> 8u32) & 0xffu32 == (y >> 8u32) & 0xffu32,
            x & 0xffu32 == y & 0xffu32,
    ;
}

/// The length field of a frame is the encoding of the length it gives.
proof fn lemma_header_bytes(b: Seq<u8>)
    requires
        b.len() >= 4,
    ensures
        be32(be32_value(b[0], b[1], b[2], b[3])) == b.take(4),
{
    let v = be32_value(b[0], b[1], b[2], b[3]);
    let (b0, b1, b2, b3) = (b[0], b[1], b[2], b[3]);
    assert(((v >> 24u32) & 0xffu32) == b0 as u32 && ((v >> 16u32) & 0xffu32) == b1 as u32
        && ((v >> 8u32) & 0xffu32) == b2 as u32 && (v & 0xffu32) == b3 as u32) by (bit_vector)
        requires
            v == ((b0 as u32) << 24u32) | ((b1 as u32) << 16u32) | ((b2 as u32) << 8u32) | (b3 as u32),
    ;
    assert(be32(v) =~= b.take(4));
}

/// A whole frame with a non-empty body is the frame of its tag and payload.
proof fn lemma_frame_whole(b: Seq<u8>)
    requires
        frame_complete(b),
        frame_end(b) >= 5,
    ensures
        frame(b[4], b.subrange(5, frame_end(b))) == b.take(frame_end(b)),
{
    lemma_header_bytes(b);
    let p = b.subrange(5, frame_end(b));
    assert((p.len() + 1) as u32 == be32_value(b[0], b[1], b[2], b[3]));
    assert(frame(b[4], p) =~= b.take(frame_end(b)));
}

/// A frame that is the start of `b` has the length `b`'s header gives, and
/// its tag and payload are the bytes that follow the header.
proof fn lemma_frame_parts(tag: u8, payload: Seq<u8>, b: Seq<u8>)
    requires
        frame_complete(b),
        frame(tag, payload) == b.take(frame_end(b)),
    ensures
        frame_end(b) == payload.len() + 5,
        b[4] == tag,
        payload == b.subrange(5, frame_end(b)),
{
    let f = frame(tag, payload);
    let v = be32_value(b[0], b[1], b[2], b[3]);
    lemma_header_bytes(b);
    assert(f.len() == v + 4);
    assert(f.len() == payload.len() + 5);
    assert(f[4] == tag);
    assert(payload =~= f.subrange(5, f.len() as int));
    assert(f.subrange(5, f.len() as int) =~= b.subrange(5, frame_end(b)));
}

/// A frame with a given tag and payload.
fn frame_of(tag: u8, payload: &Vec<u8>) -> (r: Vec<u8>)
    requires
        payload@.len() + 1 <= u32::MAX,
    ensures
        r@ == frame(tag, payload@),
{
    let mut out: Vec<u8> = Vec::new();
    push_be32(&mut out, (payload.len() + 1) as u32);
    out.push(tag);
    let mut i: usize = 0;
    while i < payload.len()
        invariant
            i <= payload.len(),
            out@ == be32((payload@.len() + 1) as u32) + seq![tag] + payload@.take(i as int),
        decreases payload.len() - i,
    {
        out.push(payload[i]);
        assert(payload@.take(i + 1) =~= payload@.take(i as int).push(payload@[i as int]));
        i += 1;
    }
    assert(payload@.take(i as int) =~= payload@);
    out
}

/// The body of the frame that starts `b`, and where that frame ends; `None`
/// while the frame is not whole.
fn split_frame(b: &Vec<u8>) -> (r: Option<(Vec<u8>, usize)>)
    ensures
        r is None <==> !frame_complete(b@),
        r matches Some((body, n)) ==> frame_complete(b@) && n == frame_end(b@) && body@ == b@.subrange(4, n as int),
{
    let len = b.len();
    if len < 4 {
        return None;
    }
    let declared = read_be32(b, 0);
    if (len as u64) < 4 + (declared as u64) {
        return None;
    }
    let end: usize = 4 + declared as usize;
    let mut body: Vec<u8> = Vec::new();
    let mut i: usize = 4;
    while i < end
        invariant
            4 <= i <= end <= b@.len(),
            body@ == b@.subrange(4, i as int),
        decreases end - i,
    {
        body.push(b[i]);
        assert(b@.subrange(4, i + 1) =~= b@.subrange(4, i as int).push(b@[i as int]));
        i += 1;
    }
    Some((body, end))
}

/// What a result of decoding the start of a byte buffer can be.
pub enum Decoded<T> {
    /// The buffer does not yet hold a whole frame.
    Incomplete,
    /// The first frame is whole but no message of the expected kind is
    /// encoded as it.
    Malformed,
    /// The first frame, which takes the given number of bytes.
    Message(T, usize),
}

/// The first message a client sends: the port it receives datagrams on.
pub enum ClientInitMsg {
    NewPeer(u16),
}

/// The server's answer to `ClientInitMsg`: the id it gave the peer.
pub enum ServerInitMsg {
    PeerId(u8),
}

/// A batch of events a client produced.
pub enum ClientMsg {
    MiditipEvents(Vec<MiditipEvent>),
}

/// What the server sends an active peer.
pub enum ServerMsg {
    /// The datagram addresses of the other peers.
    NewPeerList(Vec<PeerAddr>),
    /// The merged state of the session.
    MiditipState(MiditipState),
}

pub const CLIENT_INIT_TAG: u8 = 1;
pub const SERVER_INIT_TAG: u8 = 2;
pub const EVENTS_TAG: u8 = 3;
pub const PEER_LIST_TAG: u8 = 4;
pub const STATE_TAG: u8 = 5;

pub open spec fn client_init_bytes(m: ClientInitMsg) -> Seq<u8> {
    match m {
        ClientInitMsg::NewPeer(port) => frame(CLIENT_INIT_TAG, be16(port)),
    }
}

pub open spec fn server_init_bytes(m: ServerInitMsg) -> Seq<u8> {
    match m {
        ServerInitMsg::PeerId(id) => frame(SERVER_INIT_TAG, seq![id]),
    }
}

pub open spec fn client_msg_bytes(m: ClientMsg) -> Seq<u8> {
    match m {
        ClientMsg::MiditipEvents(v) => frame(EVENTS_TAG, events_bytes(v@)),
    }
}

pub open spec fn peer_list_bytes(s: Seq<PeerAddr>) -> Seq<u8> {
    frame(PEER_LIST_TAG, addrs_bytes(s))
}

pub open spec fn state_bytes(s: Seq<MiditipEvent>) -> Seq<u8> {
    frame(STATE_TAG, events_bytes(s))
}

pub open spec fn server_msg_bytes(m: ServerMsg) -> Seq<u8> {
    match m {
        ServerMsg::NewPeerList(v) => peer_list_bytes(v@),
        ServerMsg::MiditipState(s) => state_bytes(s.records()),
    }
}

/// The largest number of events that fits in a frame.
pub const MAX_FRAME_EVENTS: usize = 858_993_458;

/// The largest number of addresses a peer list may hold.
pub const MAX_PEER_LIST: usize = 256;

/// The frame of a `ClientInitMsg`.
pub fn encode_client_init(m: &ClientInitMsg) -> (r: Vec<u8>)
    ensures
        r@ == client_init_bytes(*m),
{
    match m {
        ClientInitMsg::NewPeer(port) => {
            let mut payload: Vec<u8> = Vec::new();
            push_be16(&mut payload, *port);
            assert(payload@ =~= be16(*port));
            frame_of(CLIENT_INIT_TAG, &payload)
        },
    }
}

/// The frame of a `ServerInitMsg`.
pub fn encode_server_init(m: &ServerInitMsg) -> (r: Vec<u8>)
    ensures
        r@ == server_init_bytes(*m),
{
    match m {
        ServerInitMsg::PeerId(id) => {
            let payload: Vec<u8> = vec![*id];
            assert(payload@ =~= seq![*id]);
            frame_of(SERVER_INIT_TAG, &payload)
        },
    }
}

/// The frame of a `ClientMsg`.
pub fn encode_client_msg(m: &ClientMsg) -> (r: Vec<u8>)
    requires
        m matches ClientMsg::MiditipEvents(v) && v@.len() <= MAX_FRAME_EVENTS,
    ensures
        r@ == client_msg_bytes(*m),
{
    match m {
        ClientMsg::MiditipEvents(v) => {
            let mut payload: Vec<u8> = Vec::new();
            push_events(&mut payload, v);
            proof {
                lemma_events_bytes_len(v@);
            }
            frame_of(EVENTS_TAG, &payload)
        },
    }
}

/// The frame of a `ServerMsg`.
pub fn encode_server_msg(m: &ServerMsg) -> (r: Vec<u8>)
    requires
        match m {
            ServerMsg::NewPeerList(v) => v@.len() <= MAX_PEER_LIST,
            ServerMsg::MiditipState(s) => s.records().len() <= MAX_FRAME_EVENTS,
        },
    ensures
        r@ == server_msg_bytes(*m),
{
    match m {
        ServerMsg::NewPeerList(v) => {
            let mut payload: Vec<u8> = Vec::new();
            push_addrs(&mut payload, v);
            proof {
                lemma_addrs_bytes_len(v@);
            }
            frame_of(PEER_LIST_TAG, &payload)
        },
        ServerMsg::MiditipState(s) => {
            let events = s.events();
            let mut payload: Vec<u8> = Vec::new();
            push_events(&mut payload, &events);
            proof {
                lemma_events_bytes_len(events@);
            }
            frame_of(STATE_TAG, &payload)
        },
    }
}

/// Reads the `ClientInitMsg` at the start of `b`.
pub fn decode_client_init(b: &Vec<u8>) -> (r: Decoded<ClientInitMsg>)
    ensures
        r is Incomplete <==> !frame_complete(b@),
        r matches Decoded::Message(m, n) ==> n == frame_end(b@) && client_init_bytes(m) == b@.take(n as int),
        r is Malformed ==> forall|m: ClientInitMsg| client_init_bytes(m) != b@.take(frame_end(b@)),
{
    match split_frame(b) {
        None => Decoded::Incomplete,
        Some((body, n)) => {
            if body.len() == 3 && body[0] == CLIENT_INIT_TAG {
                let port = read_be16(&body, 1);
                let m = ClientInitMsg::NewPeer(port);
                proof {
                    lemma_frame_whole(b@);
                    assert(be16(port) =~= b@.subrange(5, n as int));
                }
                Decoded::Message(m, n)
            } else {
                assert forall|m: ClientInitMsg| client_init_bytes(m) != b@.take(frame_end(b@)) by {
                    let ClientInitMsg::NewPeer(port) = m;
                    if client_init_bytes(m) == b@.take(frame_end(b@)) {
                        lemma_frame_parts(CLIENT_INIT_TAG, be16(port), b@);
                        assert(body@[0] == b@[4]);
                    }
                }
                Decoded::Malformed
            }
        },
    }
}

/// Reads the `ServerInitMsg` at the start of `b`.
pub fn decode_server_init(b: &Vec<u8>) -> (r: Decoded<ServerInitMsg>)
    ensures
        r is Incomplete <==> !frame_complete(b@),
        r matches Decoded::Message(m, n) ==> n == frame_end(b@) && server_init_bytes(m) == b@.take(n as int),
        r is Malformed ==> forall|m: ServerInitMsg| server_init_bytes(m) != b@.take(frame_end(b@)),
{
    match split_frame(b) {
        None => Decoded::Incomplete,
        Some((body, n)) => {
            if body.len() == 2 && body[0] == SERVER_INIT_TAG {
                let m = ServerInitMsg::PeerId(body[1]);
                proof {
                    lemma_frame_whole(b@);
                    assert(seq![body@[1]] =~= b@.subrange(5, n as int));
                }
                Decoded::Message(m, n)
            } else {
                assert forall|m: ServerInitMsg| server_init_bytes(m) != b@.take(frame_end(b@)) by {
                    let ServerInitMsg::PeerId(id) = m;
                    if server_init_bytes(m) == b@.take(frame_end(b@)) {
                        lemma_frame_parts(SERVER_INIT_TAG, seq![id], b@);
                        assert(body@[0] == b@[4]);
                    }
                }
                Decoded::Malformed
            }
        },
    }
}

/// Reads the `ClientMsg` at the start of `b`.
pub fn decode_client_msg(b: &Vec<u8>) -> (r: Decoded<ClientMsg>)
    ensures
        r is Incomplete <==> !frame_complete(b@),
        r matches Decoded::Message(m, n) ==> n == frame_end(b@) && client_msg_bytes(m) == b@.take(n as int),
        r is Malformed ==> forall|m: ClientMsg| client_msg_bytes(m) != b@.take(frame_end(b@)),
{
    match split_frame(b) {
        None => Decoded::Incomplete,
        Some((body, n)) => {
            if body.len() >= 1 && body[0] == EVENTS_TAG {
                match read_events(&body, 1) {
                    Some(v) => {
                        proof {
                            lemma_frame_whole(b@);
                            assert(body@.skip(1) =~= b@.subrange(5, n as int));
                        }
                        Decoded::Message(ClientMsg::MiditipEvents(v), n)
                    },
                    None => {
                        assert forall|m: ClientMsg| client_msg_bytes(m) != b@.take(frame_end(b@)) by {
                            let ClientMsg::MiditipEvents(v) = m;
                            if client_msg_bytes(m) == b@.take(frame_end(b@)) {
                                lemma_frame_parts(EVENTS_TAG, events_bytes(v@), b@);
                                lemma_events_bytes_len(v@);
                                assert(body@.skip(1) =~= b@.subrange(5, n as int));
                            }
                        }
                        Decoded::Malformed
                    },
                }
            } else {
                assert forall|m: ClientMsg| client_msg_bytes(m) != b@.take(frame_end(b@)) by {
                    let ClientMsg::MiditipEvents(v) = m;
                    if client_msg_bytes(m) == b@.take(frame_end(b@)) {
                        lemma_frame_parts(EVENTS_TAG, events_bytes(v@), b@);
                        assert(body@[0] == b@[4]);
                    }
                }
                Decoded::Malformed
            }
        },
    }
}

/// A server message that a server can send: a state is well formed.
pub open spec fn server_msg_valid(m: ServerMsg) -> bool {
    match m {
        ServerMsg::NewPeerList(_) => true,
        ServerMsg::MiditipState(s) => s.wf(),
    }
}

/// Reads the `ServerMsg` at the start of `b`.
pub fn decode_server_msg(b: &Vec<u8>) -> (r: Decoded<ServerMsg>)
    ensures
        r is Incomplete <==> !frame_complete(b@),
        r matches Decoded::Message(m, n) ==> n == frame_end(b@) && server_msg_valid(m)
            && server_msg_bytes(m) == b@.take(n as int),
        r is Malformed ==> forall|m: ServerMsg|
            server_msg_valid(m) ==> server_msg_bytes(m) != b@.take(frame_end(b@)),
{
    match split_frame(b) {
        None => Decoded::Incomplete,
        Some((body, n)) => {
            if body.len() >= 1 && body[0] == PEER_LIST_TAG {
                match read_addrs(&body, 1) {
                    Some(v) => {
                        proof {
                            lemma_frame_whole(b@);
                            assert(body@.skip(1) =~= b@.subrange(5, n as int));
                        }
                        Decoded::Message(ServerMsg::NewPeerList(v), n)
                    },
                    None => {
                        assert forall|m: ServerMsg|
                            server_msg_valid(m) implies server_msg_bytes(m) != b@.take(frame_end(b@)) by {
                            if server_msg_bytes(m) == b@.take(frame_end(b@)) {
                                match m {
                                    ServerMsg::NewPeerList(v) => {
                                        lemma_frame_parts(PEER_LIST_TAG, addrs_bytes(v@), b@);
                                        assert(body@.skip(1) =~= b@.subrange(5, n as int));
                                    },
                                    ServerMsg::MiditipState(s) => {
                                        lemma_frame_parts(STATE_TAG, events_bytes(s.records()), b@);
                                    },
                                }
                            }
                        }
                        Decoded::Malformed
                    },
                }
            } else if body.len() >= 1 && body[0] == STATE_TAG {
                let decoded = match read_events(&body, 1) {
                    Some(v) => {
                        proof {
                            assert(body@.skip(1) =~= b@.subrange(5, n as int));
                        }
                        match MiditipState::from_events(&v) {
                            Some(s) => Some(s),
                            None => {
                                assert forall|m: ServerMsg|
                                    server_msg_valid(m) implies server_msg_bytes(m) != b@.take(frame_end(b@)) by {
                                    if server_msg_bytes(m) == b@.take(frame_end(b@)) {
                                        match m {
                                            ServerMsg::NewPeerList(a) => {
                                                lemma_frame_parts(PEER_LIST_TAG, addrs_bytes(a@), b@);
                                            },
                                            ServerMsg::MiditipState(s) => {
                                                lemma_frame_parts(STATE_TAG, events_bytes(s.records()), b@);
                                                lemma_events_bytes_injective(s.records(), v@);
                                            },
                                        }
                                    }
                                }
                                None
                            },
                        }
                    },
                    None => {
                        assert forall|m: ServerMsg|
                            server_msg_valid(m) implies server_msg_bytes(m) != b@.take(frame_end(b@)) by {
                            if server_msg_bytes(m) == b@.take(frame_end(b@)) {
                                match m {
                                    ServerMsg::NewPeerList(a) => {
                                        lemma_frame_parts(PEER_LIST_TAG, addrs_bytes(a@), b@);
                                    },
                                    ServerMsg::MiditipState(s) => {
                                        lemma_frame_parts(STATE_TAG, events_bytes(s.records()), b@);
                                        lemma_events_bytes_len(s.records());
                                        assert(body@.skip(1) =~= b@.subrange(5, n as int));
                                    },
                                }
                            }
                        }
                        None
                    },
                };
                match decoded {
                    Some(s) => {
                        proof {
                            lemma_frame_whole(b@);
                        }
                        Decoded::Message(ServerMsg::MiditipState(s), n)
                    },
                    None => Decoded::Malformed,
                }
            } else {
                assert forall|m: ServerMsg|
                    server_msg_valid(m) implies server_msg_bytes(m) != b@.take(frame_end(b@)) by {
                    if server_msg_bytes(m) == b@.take(frame_end(b@)) {
                        match m {
                            ServerMsg::NewPeerList(a) => {
                                lemma_frame_parts(PEER_LIST_TAG, addrs_bytes(a@), b@);
                            },
                            ServerMsg::MiditipState(s) => {
                                lemma_frame_parts(STATE_TAG, events_bytes(s.records()), b@);
                            },
                        }
                        assert(body@[0] == b@[4]);
                    }
                }
                Decoded::Malformed
            }
        },
    }
}

} // verus!
