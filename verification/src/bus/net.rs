//! Network transport: framing, schema negotiation and the state of a node.
//!
//! Knowledge travels in length-prefixed frames, the numbers little-endian:
//!
//! ```text
//! [u32 schema version][u32 payload length][payload]
//! ```
//!
//! Before exchange, both ends run a handshake: the client advertises its
//! schema version, and the server replies with its own version if the client's
//! lies within its bounds (a `0` reply rejects). A node never interprets
//! frames from an incompatible peer.

use vstd::prelude::*;

use crate::akx::knowledge::KnowledgeObject;
use crate::akx::reasoner::KnowledgeBatch;
use crate::akx::stats::BusMetrics;
use crate::bus::interface::BusError;
use std::collections::VecDeque;
#[allow(unused_imports)]
use crate::akx::import;
#[allow(unused_imports)]
use crate::akx::knowledge::ObjectView;

verus! {

/// Current on-the-wire schema version. Bump on any breaking change to the
/// serialization of objects or the frame format.
pub const SCHEMA_VERSION: u32 = 1;

/// Maximum serialized frame we are willing to read (64 MiB).
pub const DEFAULT_MAX_FRAME: usize = 67_108_864;

/// Negotiation bounds plus framing limits for a network node.
#[derive(Clone, Copy, Debug, PartialEq, Eq, Structural)]
pub struct NetConfig {
    /// Version we advertise in the handshake.
    pub schema_version: u32,
    /// Lowest peer schema version we accept.
    pub min_compat: u32,
    /// Highest peer schema version we accept.
    pub max_compat: u32,
    /// Reject frames larger than this.
    pub max_frame: usize,
}

impl Default for NetConfig {
    fn default() -> (c: Self)
        ensures
            c == (NetConfig {
                schema_version: SCHEMA_VERSION,
                min_compat: SCHEMA_VERSION,
                max_compat: SCHEMA_VERSION,
                max_frame: DEFAULT_MAX_FRAME,
            }),
    {
        NetConfig {
            schema_version: SCHEMA_VERSION,
            min_compat: SCHEMA_VERSION,
            max_compat: SCHEMA_VERSION,
            max_frame: DEFAULT_MAX_FRAME,
        }
    }
}

// ---------------------------------------------------------------------------
// Little-endian numbers
// ---------------------------------------------------------------------------

/// The number that four bytes stand for.
pub open spec fn number(b: Seq<u8>) -> int {
    b[0] + 256 * b[1] + 65_536 * b[2] + 16_777_216 * b[3]
}

/// The four bytes of a number.
pub open spec fn le_bytes(n: u32) -> Seq<u8> {
    seq![
        (n % 256) as u8,
        (n as int / 256 % 256) as u8,
        (n as int / 65_536 % 256) as u8,
        (n as int / 16_777_216) as u8,
    ]
}

/// The bytes of a number stand for it.
pub proof fn number_round_trip(n: u32)
    ensures
        number(le_bytes(n)) == n,
{
}

/// Append the bytes of a number.
pub fn push_number(out: &mut Vec<u8>, n: u32)
    ensures
        final(out)@ == old(out)@ + le_bytes(n),
{
    let ghost before = out@;
    out.push((n % 256) as u8);
    out.push((n / 256 % 256) as u8);
    out.push((n / 65_536 % 256) as u8);
    out.push((n / 16_777_216) as u8);
    assert(out@ =~= before + le_bytes(n));
}

/// Read the number at the front of some bytes.
pub fn read_number(bytes: &[u8]) -> (n: u32)
    requires
        bytes@.len() >= 4,
    ensures
        n == number(bytes@),
{
    bytes[0] as u32 + 256 * bytes[1] as u32 + 65_536 * bytes[2] as u32 + 16_777_216
        * bytes[3] as u32
}

// ---------------------------------------------------------------------------
// Frames
// ---------------------------------------------------------------------------

/// A frame is longer than the reader is willing to read.
#[derive(Clone, Copy, Debug, PartialEq, Eq, Structural)]
pub struct FrameTooLarge {
    pub len: usize,
    pub max_frame: usize,
}

/// A received frame.
#[derive(Debug)]
pub struct Frame {
    pub version: u32,
    pub payload: Vec<u8>,
}

/// The bytes of a frame.
pub open spec fn frame_bytes(version: u32, payload: Seq<u8>) -> Seq<u8> {
    le_bytes(version) + le_bytes(payload.len() as u32) + payload
}

/// Put a payload into a frame of the current schema version.
pub fn encode_frame(payload: &[u8]) -> (frame: Vec<u8>)
    requires
        payload@.len() <= u32::MAX,
    ensures
        frame@ == frame_bytes(SCHEMA_VERSION, payload@),
{
    let mut frame: Vec<u8> = Vec::new();
    push_number(&mut frame, SCHEMA_VERSION);
    push_number(&mut frame, payload.len() as u32);
    let mut rest: Vec<u8> = vstd::slice::slice_to_vec(payload);
    frame.append(&mut rest);
    assert(frame@ =~= frame_bytes(SCHEMA_VERSION, payload@));
    frame
}

/// The payload length that a header announces.
pub open spec fn announced(buf: Seq<u8>) -> int {
    number(buf.subrange(4, 8))
}

/// What some received bytes amount to.
pub enum Reading {
    /// More bytes are needed.
    Partial,
    /// The announced frame is too large.
    TooLarge { len: int },
    /// A frame is complete; it takes up so many bytes.
    Complete { version: int, payload: Seq<u8>, taken: int },
}

/// What some received bytes amount to, with a limit on the payload.
pub open spec fn reading(buf: Seq<u8>, max_frame: int) -> Reading {
    if buf.len() < 8 {
        Reading::Partial
    } else if announced(buf) > max_frame {
        Reading::TooLarge { len: announced(buf) }
    } else if buf.len() < 8 + announced(buf) {
        Reading::Partial
    } else {
        Reading::Complete {
            version: number(buf),
            payload: buf.subrange(8, 8 + announced(buf)),
            taken: 8 + announced(buf),
        }
    }
}

/// Incremental frame reader: returns one complete frame per call.
pub struct FrameReader {
    /// The bytes of the frame that is being received.
    buf: Vec<u8>,
}

impl FrameReader {
    /// The bytes received of the next frame.
    pub closed spec fn view(&self) -> Seq<u8> {
        self.buf@
    }

    pub fn new() -> (r: Self)
        ensures
            r@.len() == 0,
    {
        FrameReader { buf: Vec::new() }
    }

    /// How many bytes are missing to complete the header or, after that, the
    /// frame.
    pub fn wanted(&self, max_frame: usize) -> (r: Result<usize, FrameTooLarge>)
        requires
            self@.len() + 8 <= usize::MAX,
        ensures
            match r {
                Ok(n) => {
                    &&& !(reading(self@, max_frame as int) is TooLarge)
                    &&& self@.len() < 8 ==> n == 8 - self@.len()
                    &&& self@.len() >= 8 && reading(self@, max_frame as int) is Partial ==> n == 8
                        + announced(self@) - self@.len()
                    &&& reading(self@, max_frame as int) is Complete ==> n == 0
                },
                Err(e) => reading(self@, max_frame as int) is TooLarge && e.max_frame == max_frame
                    && e.len == announced(self@),
            },
    {
        if self.buf.len() < 8 {
            return Ok(8 - self.buf.len());
        }
        let len: usize = self.announced_len();
        if len > max_frame {
            return Err(FrameTooLarge { len, max_frame });
        }
        let have: usize = self.buf.len() - 8;
        if have < len {
            Ok(len - have)
        } else {
            Ok(0)
        }
    }

    fn announced_len(&self) -> (n: usize)
        requires
            self@.len() >= 8,
        ensures
            n == announced(self@),
    {
        let len: &[u8] = vstd::slice::slice_subrange(self.buf.as_slice(), 4, 8);
        read_number(len) as usize
    }

    /// Add received bytes.
    pub fn push(&mut self, bytes: &[u8])
        ensures
            final(self)@ == old(self)@ + bytes@,
    {
        let mut more: Vec<u8> = vstd::slice::slice_to_vec(bytes);
        self.buf.append(&mut more);
    }

    /// Take from `input` what the next frame needs, and return the frame if it
    /// is complete. Returns too how many bytes of the input were taken; the
    /// rest belongs to later frames. Nothing of a partial frame is lost. A frame
    /// that is too large is reported again and again.
    pub fn next_frame(&mut self, input: &[u8], max_frame: usize) -> (r: (
        Result<Option<Frame>, FrameTooLarge>,
        usize,
    ))
        requires
            old(self)@.len() + input@.len() + 8 <= usize::MAX,
        ensures
            ({
                let all = old(self)@ + input@;
                let (res, taken) = r;
                match reading(all, max_frame as int) {
                    Reading::Partial => {
                        &&& res matches Ok(None)
                        &&& taken == input@.len()
                        &&& final(self)@ == all
                    },
                    Reading::TooLarge { len } => {
                        &&& res matches Err(e) && e.len == len && e.max_frame == max_frame
                        &&& taken == if old(self)@.len() < 8 {
                            8 - old(self)@.len()
                        } else {
                            0
                        }
                        &&& final(self)@ == old(self)@ + input@.take(taken as int)
                    },
                    Reading::Complete { version, payload, taken: end } => {
                        &&& res matches Ok(Some(f)) && f.version == version && f.payload@ == payload
                        &&& taken == if old(self)@.len() < end {
                            end - old(self)@.len()
                        } else {
                            0
                        }
                        &&& final(self)@ == (old(self)@ + input@.take(taken as int)).skip(end)
                    },
                }
            }),
    {
        let ghost start = self@;
        let ghost all = start + input@;
        let mut taken: usize = 0;
        if self.buf.len() < 8 {
            let want: usize = 8 - self.buf.len();
            let n: usize = if want < input.len() {
                want
            } else {
                input.len()
            };
            self.push(vstd::slice::slice_subrange(input, 0, n));
            taken = n;
            assert(self@ =~= all.take(start.len() + n));
            if self.buf.len() < 8 {
                assert(self@ =~= all);
                return (Ok(None), taken);
            }
        } else {
            assert(self@ =~= all.take(start.len() as int));
        }
        assert(self@ =~= all.take(start.len() + taken));
        assert(self@ =~= start + input@.take(taken as int));
        assert(self@.len() >= 8);
        let len: usize = self.announced_len();
        assert(self@.subrange(4, 8) =~= all.subrange(4, 8));
        if len > max_frame {
            return (Err(FrameTooLarge { len, max_frame }), taken);
        }
        let have: usize = self.buf.len() - 8;
        let want: usize = if have < len {
            len - have
        } else {
            0
        };
        let left: usize = input.len() - taken;
        let n: usize = if want < left {
            want
        } else {
            left
        };
        self.push(vstd::slice::slice_subrange(input, taken, taken + n));
        taken = taken + n;
        assert(self@ =~= all.take(start.len() + taken));
        assert(self@ =~= start + input@.take(taken as int));
        if n < want {
            assert(self@ =~= all);
            return (Ok(None), taken);
        }
        let version: u32 = read_number(self.buf.as_slice());
        let payload: Vec<u8> = vstd::slice::slice_to_vec(
            vstd::slice::slice_subrange(self.buf.as_slice(), 8, 8 + len),
        );
        let rest: Vec<u8> = vstd::slice::slice_to_vec(
            vstd::slice::slice_subrange(self.buf.as_slice(), 8 + len, self.buf.len()),
        );
        proof {
            assert(self@.len() >= 8 + len);
            assert(rest@ =~= self@.skip(8 + len));
            assert(payload@ =~= all.subrange(8, 8 + len));
            assert(self@.subrange(0, 4) =~= all.subrange(0, 4));
            assert(number(self@) == number(all));
        }
        self.buf = rest;
        (Ok(Some(Frame { version, payload })), taken)
    }
}

/// A frame that was encoded is read back, whatever follows it.
pub proof fn frame_round_trip(version: u32, payload: Seq<u8>, rest: Seq<u8>, max_frame: int)
    requires
        payload.len() <= u32::MAX,
        payload.len() <= max_frame,
    ensures
        reading(frame_bytes(version, payload) + rest, max_frame) == (Reading::Complete {
            version: version as int,
            payload,
            taken: frame_bytes(version, payload).len() as int,
        }),
{
    let f = frame_bytes(version, payload);
    let all = f + rest;
    number_round_trip(version);
    number_round_trip(payload.len() as u32);
    assert(all.subrange(4, 8) =~= le_bytes(payload.len() as u32));
    assert(number(all) == number(le_bytes(version))) by {
        assert(all[0] == le_bytes(version)[0]);
        assert(all[1] == le_bytes(version)[1]);
        assert(all[2] == le_bytes(version)[2]);
        assert(all[3] == le_bytes(version)[3]);
    }
    assert(all.subrange(8, 8 + payload.len() as int) =~= payload);
}

/// A part of an encoded frame is never taken for a frame.
pub proof fn partial_frame_waits(version: u32, payload: Seq<u8>, n: int, max_frame: int)
    requires
        payload.len() <= u32::MAX,
        payload.len() <= max_frame,
        0 <= n < frame_bytes(version, payload).len(),
    ensures
        reading(frame_bytes(version, payload).take(n), max_frame) is Partial,
{
    let part = frame_bytes(version, payload).take(n);
    number_round_trip(payload.len() as u32);
    if n >= 8 {
        assert(part.subrange(4, 8) =~= le_bytes(payload.len() as u32));
    }
}

// ---------------------------------------------------------------------------
// Handshake
// ---------------------------------------------------------------------------

/// Whether a node accepts a peer's schema version.
pub open spec fn accepts(cfg: NetConfig, peer_version: u32) -> bool {
    cfg.min_compat <= peer_version <= cfg.max_compat
}

/// Server side of the handshake: the reply to a peer's version, and whether
/// the peer is accepted. On accept the reply is our (nonzero) schema version;
/// on reject it is `0`.
pub fn negotiate(cfg: &NetConfig, peer_version: u32) -> (r: (u32, Result<(), BusError>))
    ensures
        r.0 == (if accepts(*cfg, peer_version) {
            cfg.schema_version
        } else {
            0
        }),
        match r.1 {
            Ok(_) => accepts(*cfg, peer_version),
            Err(e) => !accepts(*cfg, peer_version) && e == BusError::SchemaRejected,
        },
{
    if cfg.min_compat <= peer_version && peer_version <= cfg.max_compat {
        (cfg.schema_version, Ok(()))
    } else {
        (0, Err(BusError::SchemaRejected))
    }
}

/// Client side of the handshake: what the server's reply means.
pub fn judge_reply(reply: u32) -> (r: Result<(), BusError>)
    ensures
        match r {
            Ok(_) => reply != 0,
            Err(e) => reply == 0 && e == BusError::SchemaRejected,
        },
{
    if reply == 0 {
        Err(BusError::SchemaRejected)
    } else {
        Ok(())
    }
}

// ---------------------------------------------------------------------------
// The state of a node
// ---------------------------------------------------------------------------

/// Counters of a network node. They wrap around.
#[derive(Clone, Copy, Debug, PartialEq, Eq, Structural)]
pub struct NetTally {
    pub published: u64,
    pub polled: u64,
    pub deduplicated: u64,
    pub backpressure: u64,
    pub schema_rejected: u64,
    pub bytes_serialized: u64,
    pub bytes_received: u64,
}

/// The incoming objects and the counters of a network node.
pub struct NetNode {
    incoming: VecDeque<KnowledgeObject>,
    tally: NetTally,
}

/// The state of a network node.
#[verifier::ext_equal]
pub struct NetView {
    pub incoming: Seq<ObjectView>,
    pub tally: NetTally,
}

impl NetNode {
    pub closed spec fn view(&self) -> NetView {
        NetView { incoming: import::object_views(self.incoming@), tally: self.tally }
    }

    pub fn new() -> (n: Self)
        ensures
            n@ == (NetView {
                incoming: Seq::empty(),
                tally: NetTally {
                    published: 0,
                    polled: 0,
                    deduplicated: 0,
                    backpressure: 0,
                    schema_rejected: 0,
                    bytes_serialized: 0,
                    bytes_received: 0,
                },
            }),
    {
        let n = NetNode {
            incoming: VecDeque::new(),
            tally: NetTally {
                published: 0,
                polled: 0,
                deduplicated: 0,
                backpressure: 0,
                schema_rejected: 0,
                bytes_serialized: 0,
                bytes_received: 0,
            },
        };
        assert(n@.incoming =~= Seq::<ObjectView>::empty());
        n
    }

    /// A peer was turned away in the handshake.
    pub fn on_rejected_peer(&mut self)
        ensures
            final(self)@ == rejected(old(self)@),
    {
        self.tally.schema_rejected = self.tally.schema_rejected.wrapping_add(1);
    }

    /// A frame arrived. Returns whether its payload is to be decoded; a frame
    /// of another schema version is counted, and its connection ends.
    pub fn on_frame(&mut self, frame: &Frame) -> (decode: bool)
        ensures
            decode == (frame.version == SCHEMA_VERSION),
            final(self)@ == (if frame.version == SCHEMA_VERSION {
                NetView {
                    tally: NetTally {
                        bytes_received: old(self)@.tally.bytes_received.wrapping_add(
                            frame.payload@.len() as u64,
                        ),
                        ..old(self)@.tally
                    },
                    ..old(self)@
                }
            } else {
                rejected(old(self)@)
            }),
    {
        if frame.version != SCHEMA_VERSION {
            self.on_rejected_peer();
            false
        } else {
            self.tally.bytes_received = self.tally.bytes_received.wrapping_add(
                frame.payload.len() as u64,
            );
            true
        }
    }

    /// The outcome of decoding a payload: a batch joins the incoming objects,
    /// a payload that could not be decoded is counted.
    pub fn on_decoded(&mut self, batch: Option<KnowledgeBatch>)
        ensures
            final(self)@ == (match batch {
                Some(b) => NetView {
                    incoming: old(self)@.incoming + import::object_views(b@),
                    ..old(self)@
                },
                None => rejected(old(self)@),
            }),
    {
        match batch {
            None => {
                self.on_rejected_peer();
            },
            Some(objs) => {
                let ghost before = self@;
                let ghost all = import::object_views(objs@);
                assert(self@.incoming =~= before.incoming + all.take(0));
                for obj in it: objs
                    invariant
                        all == import::object_views(it.seq()),
                        self@.tally == before.tally,
                        self@.incoming == before.incoming + all.take(it.index() as int),
                {
                    let ghost i = it.index() as int;
                    let ghost here = self@.incoming;
                    let ghost v = obj@;
                    self.incoming.push_back(obj);
                    proof {
                        assert(all[i] == v);
                        assert(self@.incoming =~= here.push(v));
                        assert(all.take(i + 1) =~= all.take(i).push(v));
                        assert(self@.incoming =~= before.incoming + all.take(i + 1));
                    }
                }
                assert(all.take(all.len() as int) =~= all);
            },
        }
    }

    /// A payload of `bytes` bytes was handed to the peers; `sent` of them took
    /// it and `failed` did not.
    pub fn on_published(&mut self, bytes: usize, sent: usize, failed: usize) -> (enqueued: usize)
        ensures
            enqueued == sent,
            final(self)@ == (NetView {
                tally: NetTally {
                    published: old(self)@.tally.published.wrapping_add(1),
                    backpressure: old(self)@.tally.backpressure.wrapping_add(failed as u64),
                    bytes_serialized: old(self)@.tally.bytes_serialized.wrapping_add(
                        bytes as u64,
                    ),
                    ..old(self)@.tally
                },
                ..old(self)@
            }),
    {
        self.tally.bytes_serialized = self.tally.bytes_serialized.wrapping_add(bytes as u64);
        self.tally.backpressure = self.tally.backpressure.wrapping_add(failed as u64);
        self.tally.published = self.tally.published.wrapping_add(1);
        sent
    }

    /// Take up to `max_items` incoming objects, in the order of their arrival.
    pub fn poll(&mut self, max_items: usize) -> (batch: KnowledgeBatch)
        ensures
            ({
                let n: int = if old(self)@.incoming.len() < max_items {
                    old(self)@.incoming.len() as int
                } else {
                    max_items as int
                };
                &&& import::object_views(batch@) == old(self)@.incoming.take(n)
                &&& final(self)@ == (NetView {
                    incoming: old(self)@.incoming.skip(n),
                    tally: NetTally {
                        polled: old(self)@.tally.polled.wrapping_add(n as u64),
                        ..old(self)@.tally
                    },
                })
            }),
    {
        let ghost a = self@.incoming;
        let mut batch: Vec<KnowledgeObject> = Vec::new();
        proof {
            assert(import::object_views(batch@) =~= a.take(0));
            assert(a.skip(0) =~= a);
        }
        while batch.len() < max_items && self.incoming.len() > 0
            invariant
                a == old(self)@.incoming,
                batch@.len() <= max_items,
                batch@.len() <= a.len(),
                import::object_views(batch@) == a.take(batch@.len() as int),
                self@.incoming == a.skip(batch@.len() as int),
                self@.tally == old(self)@.tally,
            decreases self@.incoming.len(),
        {
            let ghost n = batch@.len() as int;
            let ghost before = import::object_views(batch@);
            let ghost queue = self.incoming@;
            match self.incoming.pop_front() {
                Some(obj) => {
                    let ghost v = obj@;
                    assert(v == import::object_views(queue)[0]);
                    batch.push(obj);
                    proof {
                        assert(v == a[n]);
                        assert(import::object_views(batch@) =~= before.push(v));
                        assert(a.take(n + 1) =~= a.take(n).push(a[n]));
                        assert(self@.incoming =~= import::object_views(queue).skip(1));
                        assert(a.skip(n).skip(1) =~= a.skip(n + 1));
                    }
                },
                None => {},
            }
        }
        self.tally.polled = self.tally.polled.wrapping_add(batch.len() as u64);
        batch
    }

    pub fn metrics(&self) -> (m: BusMetrics)
        ensures
            m == (BusMetrics {
                published_total: self@.tally.published,
                polled_total: self@.tally.polled,
                deduplicated: self@.tally.deduplicated,
                evicted: 0,
                superseded: 0,
                backpressure: self@.tally.backpressure,
                schema_rejected: self@.tally.schema_rejected,
                bytes_serialized: self@.tally.bytes_serialized,
                bytes_received: self@.tally.bytes_received,
                buffer_used: 0,
                buffer_capacity: 0,
            }),
    {
        BusMetrics {
            published_total: self.tally.published,
            polled_total: self.tally.polled,
            deduplicated: self.tally.deduplicated,
            evicted: 0,
            superseded: 0,
            backpressure: self.tally.backpressure,
            schema_rejected: self.tally.schema_rejected,
            bytes_serialized: self.tally.bytes_serialized,
            bytes_received: self.tally.bytes_received,
            buffer_used: 0,
            buffer_capacity: 0,
        }
    }
}

/// The state after something was rejected for its schema.
pub open spec fn rejected(n: NetView) -> NetView {
    NetView {
        tally: NetTally {
            schema_rejected: n.tally.schema_rejected.wrapping_add(1),
            ..n.tally
        },
        ..n
    }
}

} // verus!
