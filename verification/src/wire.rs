//! Wire codec for the speed-daemon protocol.
//!
//! Framing is length-prefixed per field: integers are big-endian, strings
//! are one length byte followed by that many raw bytes, and every message
//! starts with a single type byte. The decoder is a pure function of an
//! accumulating buffer and reports either a decoded message with the
//! number of bytes consumed, "need more bytes", or a hard parse error.

use vstd::prelude::*;
use vstd::string::StringSliceAdditionalSpecFns;

verus! {

// ----------------------------------------------------------------------
// Big-endian integers
// ----------------------------------------------------------------------

/// The two big-endian bytes of a 16-bit integer.
pub open spec fn be16_bytes(x: u16) -> Seq<u8> {
    seq![(x / 256) as u8, (x % 256) as u8]
}

/// The four big-endian bytes of a 32-bit integer.
pub open spec fn be32_bytes(x: u32) -> Seq<u8> {
    seq![
        (x / 0x1000000) as u8,
        ((x / 0x10000) % 256) as u8,
        ((x / 256) % 256) as u8,
        (x % 256) as u8,
    ]
}

/// The 16-bit integer with the given big-endian bytes.
pub open spec fn u16_of(b0: u8, b1: u8) -> u16 {
    (b0 as int * 256 + b1 as int) as u16
}

/// The 32-bit integer with the given big-endian bytes.
pub open spec fn u32_of(b0: u8, b1: u8, b2: u8, b3: u8) -> u32 {
    (b0 as int * 0x1000000 + b1 as int * 0x10000 + b2 as int * 256 + b3 as int) as u32
}

pub proof fn lemma_be16_roundtrip(x: u16)
    ensures
        u16_of(be16_bytes(x)[0], be16_bytes(x)[1]) == x,
{
}

pub proof fn lemma_be32_roundtrip(x: u32)
    ensures
        u32_of(be32_bytes(x)[0], be32_bytes(x)[1], be32_bytes(x)[2], be32_bytes(x)[3]) == x,
{
}

fn push_be16(out: &mut Vec<u8>, x: u16)
    ensures
        final(out)@ == old(out)@ + be16_bytes(x),
{
    out.push((x / 256) as u8);
    out.push((x % 256) as u8);
    assert(out@ =~= old(out)@ + be16_bytes(x));
}

fn push_be32(out: &mut Vec<u8>, x: u32)
    ensures
        final(out)@ == old(out)@ + be32_bytes(x),
{
    out.push((x / 0x1000000) as u8);
    out.push(((x / 0x10000) % 256) as u8);
    out.push(((x / 256) % 256) as u8);
    out.push((x % 256) as u8);
    assert(out@ =~= old(out)@ + be32_bytes(x));
}

// ----------------------------------------------------------------------
// Outbound messages
// ----------------------------------------------------------------------

/// A speeding ticket: two observations of one plate on one road, with the
/// measured speed in hundredths of a mile per hour.
pub struct Ticket {
    pub plate: Vec<u8>,
    pub road: u16,
    pub mile1: u16,
    pub timestamp1: u32,
    pub mile2: u16,
    pub timestamp2: u32,
    pub speed: u16,
}

/// The mathematical value of a `Ticket`.
#[verifier::ext_equal]
pub struct SpecTicket {
    pub plate: Seq<u8>,
    pub road: u16,
    pub mile1: u16,
    pub timestamp1: u32,
    pub mile2: u16,
    pub timestamp2: u32,
    pub speed: u16,
}

impl View for Ticket {
    type V = SpecTicket;

    open spec fn view(&self) -> SpecTicket {
        SpecTicket {
            plate: self.plate@,
            road: self.road,
            mile1: self.mile1,
            timestamp1: self.timestamp1,
            mile2: self.mile2,
            timestamp2: self.timestamp2,
            speed: self.speed,
        }
    }
}

/// The wire encoding of a ticket message (type byte 0x21).
pub open spec fn ticket_bytes(t: SpecTicket) -> Seq<u8> {
    seq![0x21u8, t.plate.len() as u8] + t.plate + be16_bytes(t.road) + be16_bytes(t.mile1)
        + be32_bytes(t.timestamp1) + be16_bytes(t.mile2) + be32_bytes(t.timestamp2)
        + be16_bytes(t.speed)
}

impl Ticket {
    /// Whole-message encoding; the server writes exactly these bytes.
    pub fn to_msg(&self) -> (r: Vec<u8>)
        requires
            self.plate@.len() <= 255,
        ensures
            r@ == ticket_bytes(self@),
    {
        let mut msg: Vec<u8> = Vec::new();
        msg.push(0x21u8);
        msg.push(self.plate.len() as u8);
        let mut i: usize = 0;
        while i < self.plate.len()
            invariant
                i <= self.plate.len(),
                msg@ == seq![0x21u8, self.plate@.len() as u8] + self.plate@.subrange(0, i as int),
            decreases self.plate.len() - i,
        {
            msg.push(self.plate[i]);
            i += 1;
            assert(msg@ =~= seq![0x21u8, self.plate@.len() as u8] + self.plate@.subrange(
                0,
                i as int,
            ));
        }
        assert(self.plate@.subrange(0, self.plate@.len() as int) =~= self.plate@);
        push_be16(&mut msg, self.road);
        push_be16(&mut msg, self.mile1);
        push_be32(&mut msg, self.timestamp1);
        push_be16(&mut msg, self.mile2);
        push_be32(&mut msg, self.timestamp2);
        push_be16(&mut msg, self.speed);
        assert(msg@ =~= ticket_bytes(self@));
        msg
    }
}

/// An error report: the last message the server sends on a connection.
pub struct ErrorMsg {
    pub message: Vec<u8>,
}

/// The wire encoding of an error message (type byte 0x10).
pub open spec fn error_bytes(m: Seq<u8>) -> Seq<u8> {
    seq![0x10u8, m.len() as u8] + m
}

impl ErrorMsg {
    /// Builds an error report from a human-readable string.
    pub fn msg(s: &str) -> (r: ErrorMsg)
        ensures
            r.message@ == s.spec_bytes(),
    {
        ErrorMsg { message: vstd::slice::slice_to_vec(s.as_bytes()) }
    }

    /// Whole-message encoding; the server writes exactly these bytes.
    pub fn to_msg(&self) -> (r: Vec<u8>)
        requires
            self.message@.len() <= 255,
        ensures
            r@ == error_bytes(self.message@),
    {
        let mut msg: Vec<u8> = Vec::new();
        msg.push(0x10u8);
        msg.push(self.message.len() as u8);
        let mut i: usize = 0;
        while i < self.message.len()
            invariant
                i <= self.message.len(),
                msg@ == seq![0x10u8, self.message@.len() as u8] + self.message@.subrange(
                    0,
                    i as int,
                ),
            decreases self.message.len() - i,
        {
            msg.push(self.message[i]);
            i += 1;
            assert(msg@ =~= seq![0x10u8, self.message@.len() as u8] + self.message@.subrange(
                0,
                i as int,
            ));
        }
        assert(msg@ =~= error_bytes(self.message@));
        msg
    }
}

/// A keepalive message with an empty body.
pub struct Heartbeat {}

impl Heartbeat {
    /// Whole-message encoding (type byte 0x41, no body).
    pub fn to_msg(&self) -> (r: Vec<u8>)
        ensures
            r@ == seq![0x41u8],
    {
        let mut msg: Vec<u8> = Vec::new();
        msg.push(0x41u8);
        assert(msg@ =~= seq![0x41u8]);
        msg
    }
}

// ----------------------------------------------------------------------
// Inbound messages
// ----------------------------------------------------------------------

/// A message a client may send: a plate sighting, a heartbeat request,
/// or one of the two role declarations.
pub enum IncomingPacket {
    PlateReport { plate: Vec<u8>, timestamp: u32 },
    WantHeartbeat { interval: u32 },
    IAmCamera { road: u16, mile: u16, limit: u16 },
    IAmDispatcher { roads: Vec<u16> },
}

/// The mathematical value of an `IncomingPacket`.
#[verifier::ext_equal]
pub enum SpecPacket {
    PlateReport { plate: Seq<u8>, timestamp: u32 },
    WantHeartbeat { interval: u32 },
    IAmCamera { road: u16, mile: u16, limit: u16 },
    IAmDispatcher { roads: Seq<u16> },
}

impl View for IncomingPacket {
    type V = SpecPacket;

    open spec fn view(&self) -> SpecPacket {
        match self {
            IncomingPacket::PlateReport { plate, timestamp } => SpecPacket::PlateReport {
                plate: plate@,
                timestamp: *timestamp,
            },
            IncomingPacket::WantHeartbeat { interval } => SpecPacket::WantHeartbeat {
                interval: *interval,
            },
            IncomingPacket::IAmCamera { road, mile, limit } => SpecPacket::IAmCamera {
                road: *road,
                mile: *mile,
                limit: *limit,
            },
            IncomingPacket::IAmDispatcher { roads } => SpecPacket::IAmDispatcher { roads: roads@ },
        }
    }
}

/// Whether a packet fits the wire format: length-prefixed fields carry at
/// most 255 items.
pub open spec fn packet_wf(p: SpecPacket) -> bool {
    match p {
        SpecPacket::PlateReport { plate, .. } => plate.len() <= 255,
        SpecPacket::IAmDispatcher { roads } => roads.len() <= 255,
        _ => true,
    }
}

/// The big-endian encoding of a sequence of road numbers.
pub open spec fn roads_bytes(roads: Seq<u16>) -> Seq<u8>
    decreases roads.len(),
{
    if roads.len() == 0 {
        seq![]
    } else {
        roads_bytes(roads.drop_last()) + be16_bytes(roads.last())
    }
}

/// The road numbers encoded by a byte sequence, two bytes each, paired
/// from the back; on an odd-length input — which never arises, the
/// decoder hands it even-length slices only — the leading byte is
/// ignored.
pub open spec fn roads_of(b: Seq<u8>) -> Seq<u16>
    decreases b.len(),
{
    if b.len() < 2 {
        seq![]
    } else {
        roads_of(b.subrange(0, b.len() - 2)) + seq![u16_of(b[b.len() - 2], b[b.len() - 1])]
    }
}

pub proof fn lemma_roads_bytes_len(roads: Seq<u16>)
    ensures
        roads_bytes(roads).len() == 2 * roads.len(),
    decreases roads.len(),
{
    if roads.len() > 0 {
        lemma_roads_bytes_len(roads.drop_last());
    }
}

pub proof fn lemma_roads_roundtrip(roads: Seq<u16>)
    ensures
        roads_of(roads_bytes(roads)) == roads,
    decreases roads.len(),
{
    lemma_roads_bytes_len(roads);
    if roads.len() > 0 {
        lemma_roads_roundtrip(roads.drop_last());
        lemma_roads_bytes_len(roads.drop_last());
        let b = roads_bytes(roads);
        assert(b.subrange(0, b.len() - 2) =~= roads_bytes(roads.drop_last()));
        assert(b[b.len() - 2] == be16_bytes(roads.last())[0]);
        assert(b[b.len() - 1] == be16_bytes(roads.last())[1]);
        lemma_be16_roundtrip(roads.last());
        assert(roads_of(b) =~= roads);
    } else {
        assert(roads_of(roads_bytes(roads)) =~= roads);
    }
}

/// The full wire encoding of an inbound packet, type byte included.
pub open spec fn packet_bytes(p: SpecPacket) -> Seq<u8> {
    match p {
        SpecPacket::PlateReport { plate, timestamp } => seq![0x20u8, plate.len() as u8] + plate
            + be32_bytes(timestamp),
        SpecPacket::WantHeartbeat { interval } => seq![0x40u8] + be32_bytes(interval),
        SpecPacket::IAmCamera { road, mile, limit } => seq![0x80u8] + be16_bytes(road)
            + be16_bytes(mile) + be16_bytes(limit),
        SpecPacket::IAmDispatcher { roads } => seq![0x81u8, roads.len() as u8] + roads_bytes(
            roads,
        ),
    }
}

/// The decoder's three outcomes on a buffer: a packet and the number of
/// bytes it occupies, a request for more bytes, or a hard parse error.
#[verifier::ext_equal]
pub enum SpecParsed {
    Packet(SpecPacket, int),
    Incomplete,
    Malformed,
}

/// What the decoder returns on a given buffer. A buffer is malformed
/// exactly when its first byte is not a recognized type byte; otherwise
/// the message is decoded greedily once enough bytes are present.
pub open spec fn spec_parse(s: Seq<u8>) -> SpecParsed {
    if s.len() == 0 {
        SpecParsed::Incomplete
    } else if s[0] == 0x20 {
        if s.len() < 2 {
            SpecParsed::Incomplete
        } else {
            let n = s[1] as int;
            if s.len() < n + 6 {
                SpecParsed::Incomplete
            } else {
                SpecParsed::Packet(
                    SpecPacket::PlateReport {
                        plate: s.subrange(2, 2 + n),
                        timestamp: u32_of(s[2 + n], s[3 + n], s[4 + n], s[5 + n]),
                    },
                    n + 6,
                )
            }
        }
    } else if s[0] == 0x40 {
        if s.len() < 5 {
            SpecParsed::Incomplete
        } else {
            SpecParsed::Packet(
                SpecPacket::WantHeartbeat { interval: u32_of(s[1], s[2], s[3], s[4]) },
                5,
            )
        }
    } else if s[0] == 0x80 {
        if s.len() < 7 {
            SpecParsed::Incomplete
        } else {
            SpecParsed::Packet(
                SpecPacket::IAmCamera {
                    road: u16_of(s[1], s[2]),
                    mile: u16_of(s[3], s[4]),
                    limit: u16_of(s[5], s[6]),
                },
                7,
            )
        }
    } else if s[0] == 0x81 {
        if s.len() < 2 {
            SpecParsed::Incomplete
        } else {
            let n = s[1] as int;
            if s.len() < 2 + 2 * n {
                SpecParsed::Incomplete
            } else {
                SpecParsed::Packet(
                    SpecPacket::IAmDispatcher { roads: roads_of(s.subrange(2, 2 + 2 * n)) },
                    2 + 2 * n,
                )
            }
        }
    } else {
        SpecParsed::Malformed
    }
}

/// A decoded packet stays within the buffer and fits the wire format.
pub proof fn lemma_parse_packet_len(s: Seq<u8>)
    ensures
        spec_parse(s) matches SpecParsed::Packet(p, n) ==> 2 <= n <= s.len() && packet_wf(p),
{
    if spec_parse(s) matches SpecParsed::Packet(p, n) {
        if s[0] == 0x81 {
            let c = s[1] as int;
            assert(roads_of(s.subrange(2, 2 + 2 * c)).len() == c) by {
                lemma_roads_of_len(s.subrange(2, 2 + 2 * c));
            }
        }
    }
}

pub proof fn lemma_roads_of_len(b: Seq<u8>)
    ensures
        2 * roads_of(b).len() + 1 >= b.len(),
        2 * roads_of(b).len() <= b.len(),
    decreases b.len(),
{
    if b.len() >= 2 {
        lemma_roads_of_len(b.subrange(0, b.len() - 2));
    }
}

/// The exec decoder's result.
pub enum Parsed {
    Packet(IncomingPacket, usize),
    Incomplete,
    Malformed,
}

/// Whether an exec result denotes a given spec outcome.
pub open spec fn parsed_matches(r: Parsed, s: SpecParsed) -> bool {
    match r {
        Parsed::Packet(p, n) => s == SpecParsed::Packet(p@, n as int),
        Parsed::Incomplete => s == SpecParsed::Incomplete,
        Parsed::Malformed => s == SpecParsed::Malformed,
    }
}

fn read_u16(b: &[u8], i: usize) -> (r: u16)
    requires
        i + 2 <= b@.len(),
    ensures
        r == u16_of(b@[i as int], b@[i + 1]),
{
    (b[i] as u16) * 256 + (b[i + 1] as u16)
}

fn read_u32(b: &[u8], i: usize) -> (r: u32)
    requires
        i + 4 <= b@.len(),
    ensures
        r == u32_of(b@[i as int], b@[i + 1], b@[i + 2], b@[i + 3]),
{
    (b[i] as u32) * 0x1000000 + (b[i + 1] as u32) * 0x10000 + (b[i + 2] as u32) * 256 + (b[i
        + 3] as u32)
}

/// Decodes the message at the head of the buffer. The decoder never
/// blocks and leaves the buffer untouched; the caller removes the
/// consumed bytes after a successful decode.
pub fn parse_incoming(input: &[u8]) -> (r: Parsed)
    ensures
        parsed_matches(r, spec_parse(input@)),
{
    if input.len() == 0 {
        return Parsed::Incomplete;
    }
    let t = input[0];
    if t == 0x20 {
        if input.len() < 2 {
            return Parsed::Incomplete;
        }
        let n = input[1] as usize;
        if input.len() < n + 6 {
            return Parsed::Incomplete;
        }
        let plate = vstd::slice::slice_to_vec(&input[2..2 + n]);
        let timestamp = read_u32(input, 2 + n);
        let p = IncomingPacket::PlateReport { plate, timestamp };
        assert(SpecParsed::Packet(p@, n + 6) =~= spec_parse(input@));
        Parsed::Packet(p, n + 6)
    } else if t == 0x40 {
        if input.len() < 5 {
            return Parsed::Incomplete;
        }
        let interval = read_u32(input, 1);
        Parsed::Packet(IncomingPacket::WantHeartbeat { interval }, 5)
    } else if t == 0x80 {
        if input.len() < 7 {
            return Parsed::Incomplete;
        }
        let road = read_u16(input, 1);
        let mile = read_u16(input, 3);
        let limit = read_u16(input, 5);
        Parsed::Packet(IncomingPacket::IAmCamera { road, mile, limit }, 7)
    } else if t == 0x81 {
        if input.len() < 2 {
            return Parsed::Incomplete;
        }
        let n = input[1] as usize;
        if input.len() < 2 + 2 * n {
            return Parsed::Incomplete;
        }
        let mut roads: Vec<u16> = Vec::new();
        let mut k: usize = 0;
        while k < n
            invariant
                k <= n,
                n <= 255,
                2 + 2 * n <= input@.len(),
                roads@ == roads_of(input@.subrange(2, 2 + 2 * k as int)),
            decreases n - k,
        {
            let r = read_u16(input, 2 + 2 * k);
            roads.push(r);
            k += 1;
            proof {
                let sub = input@.subrange(2, 2 + 2 * k as int);
                assert(sub.subrange(0, sub.len() - 2) =~= input@.subrange(
                    2,
                    2 + 2 * (k - 1) as int,
                ));
                assert(roads@ =~= roads_of(sub));
            }
        }
        let p = IncomingPacket::IAmDispatcher { roads };
        assert(SpecParsed::Packet(p@, 2 + 2 * n) =~= spec_parse(input@));
        Parsed::Packet(p, 2 + 2 * n)
    } else {
        Parsed::Malformed
    }
}

// ----------------------------------------------------------------------
// Stream framing
// ----------------------------------------------------------------------

/// A decode is determined by a prefix of the buffer: appending bytes
/// never changes a decoded packet, and never repairs a malformed head.
pub proof fn lemma_parse_prefix_stable(s: Seq<u8>, t: Seq<u8>)
    ensures
        spec_parse(s) matches SpecParsed::Packet(p, n) ==> spec_parse(s + t)
            == SpecParsed::Packet(p, n),
        spec_parse(s) is Malformed ==> spec_parse(s + t) is Malformed,
{
    let u = s + t;
    if s.len() > 0 {
        assert(u[0] == s[0]);
        if s[0] == 0x20 && s.len() >= 2 {
            let n = s[1] as int;
            if s.len() >= n + 6 {
                assert(u.subrange(2, 2 + n) =~= s.subrange(2, 2 + n));
                assert(spec_parse(u) =~= spec_parse(s));
            }
        } else if s[0] == 0x81 && s.len() >= 2 {
            let n = s[1] as int;
            if s.len() >= 2 + 2 * n {
                assert(u.subrange(2, 2 + 2 * n) =~= s.subrange(2, 2 + 2 * n));
                assert(spec_parse(u) =~= spec_parse(s));
            }
        }
    }
}

/// Decoding a buffer that starts with a well-formed packet's encoding
/// yields that packet and consumes exactly its bytes.
pub proof fn lemma_parse_encoding(p: SpecPacket, rest: Seq<u8>)
    requires
        packet_wf(p),
    ensures
        spec_parse(packet_bytes(p) + rest) == SpecParsed::Packet(p, packet_bytes(p).len() as int),
{
    let s = packet_bytes(p) + rest;
    match p {
        SpecPacket::PlateReport { plate, timestamp } => {
            let n = plate.len() as int;
            assert(s[1] == n as u8);
            assert(s.subrange(2, 2 + n) =~= plate);
            assert(s[2 + n] == be32_bytes(timestamp)[0]);
            assert(s[3 + n] == be32_bytes(timestamp)[1]);
            assert(s[4 + n] == be32_bytes(timestamp)[2]);
            assert(s[5 + n] == be32_bytes(timestamp)[3]);
            lemma_be32_roundtrip(timestamp);
            assert(spec_parse(s) =~= SpecParsed::Packet(p, packet_bytes(p).len() as int));
        },
        SpecPacket::WantHeartbeat { interval } => {
            assert(s[1] == be32_bytes(interval)[0]);
            assert(s[2] == be32_bytes(interval)[1]);
            assert(s[3] == be32_bytes(interval)[2]);
            assert(s[4] == be32_bytes(interval)[3]);
            lemma_be32_roundtrip(interval);
            assert(spec_parse(s) =~= SpecParsed::Packet(p, packet_bytes(p).len() as int));
        },
        SpecPacket::IAmCamera { road, mile, limit } => {
            assert(s[1] == be16_bytes(road)[0] && s[2] == be16_bytes(road)[1]);
            assert(s[3] == be16_bytes(mile)[0] && s[4] == be16_bytes(mile)[1]);
            assert(s[5] == be16_bytes(limit)[0] && s[6] == be16_bytes(limit)[1]);
            lemma_be16_roundtrip(road);
            lemma_be16_roundtrip(mile);
            lemma_be16_roundtrip(limit);
            assert(spec_parse(s) =~= SpecParsed::Packet(p, packet_bytes(p).len() as int));
        },
        SpecPacket::IAmDispatcher { roads } => {
            let n = roads.len() as int;
            lemma_roads_bytes_len(roads);
            assert(s[1] == n as u8);
            assert(s.subrange(2, 2 + 2 * n) =~= roads_bytes(roads));
            lemma_roads_roundtrip(roads);
            assert(spec_parse(s) =~= SpecParsed::Packet(p, packet_bytes(p).len() as int));
        },
    }
}

/// The result of decoding a buffer greedily: the packets found, the
/// unconsumed tail, and whether a hard parse error was hit.
#[verifier::ext_equal]
pub struct SpecStream {
    pub packets: Seq<SpecPacket>,
    pub rest: Seq<u8>,
    pub malformed: bool,
}

/// Greedy decoding of a whole buffer: take packets off the head until
/// the remainder is incomplete or malformed.
pub open spec fn spec_stream(s: Seq<u8>) -> SpecStream
    decreases s.len(),
{
    match spec_parse(s) {
        SpecParsed::Packet(p, n) => if 2 <= n <= s.len() {
            let r = spec_stream(s.subrange(n, s.len() as int));
            SpecStream { packets: seq![p] + r.packets, rest: r.rest, malformed: r.malformed }
        } else {
            SpecStream { packets: seq![], rest: s, malformed: true }
        },
        SpecParsed::Incomplete => SpecStream { packets: seq![], rest: s, malformed: false },
        SpecParsed::Malformed => SpecStream { packets: seq![], rest: s, malformed: true },
    }
}

/// Framing resilience: however a stream is cut into chunks, feeding the
/// chunks through the decoder with a carry-over buffer produces the same
/// packets as decoding the concatenated stream. One carry step is
/// stated here; any partition follows by applying it per chunk.
pub proof fn lemma_stream_chunked(s1: Seq<u8>, s2: Seq<u8>)
    requires
        !spec_stream(s1).malformed,
    ensures
        spec_stream(s1 + s2).packets == spec_stream(s1).packets + spec_stream(
            spec_stream(s1).rest + s2,
        ).packets,
        spec_stream(s1 + s2).rest == spec_stream(spec_stream(s1).rest + s2).rest,
        spec_stream(s1 + s2).malformed == spec_stream(spec_stream(s1).rest + s2).malformed,
    decreases s1.len(),
{
    lemma_parse_packet_len(s1);
    lemma_parse_prefix_stable(s1, s2);
    match spec_parse(s1) {
        SpecParsed::Packet(p, n) => {
            let tail = s1.subrange(n, s1.len() as int);
            assert((s1 + s2).subrange(n, (s1 + s2).len() as int) =~= tail + s2);
            lemma_stream_chunked(tail, s2);
            assert(spec_stream(s1 + s2).packets =~= spec_stream(s1).packets + spec_stream(
                spec_stream(s1).rest + s2,
            ).packets);
        },
        SpecParsed::Incomplete => {
            assert(spec_stream(s1).rest + s2 =~= s1 + s2);
            assert(spec_stream(s1 + s2).packets =~= spec_stream(s1).packets + spec_stream(
                spec_stream(s1).rest + s2,
            ).packets);
        },
        SpecParsed::Malformed => {},
    }
}

/// A malformed stream stays malformed: appending bytes changes neither
/// the packets already decoded nor the error.
pub proof fn lemma_stream_malformed_stable(s1: Seq<u8>, s2: Seq<u8>)
    requires
        spec_stream(s1).malformed,
    ensures
        spec_stream(s1 + s2).packets == spec_stream(s1).packets,
        spec_stream(s1 + s2).malformed,
    decreases s1.len(),
{
    lemma_parse_packet_len(s1);
    lemma_parse_prefix_stable(s1, s2);
    match spec_parse(s1) {
        SpecParsed::Packet(p, n) => {
            let tail = s1.subrange(n, s1.len() as int);
            assert((s1 + s2).subrange(n, (s1 + s2).len() as int) =~= tail + s2);
            lemma_stream_malformed_stable(tail, s2);
            assert(spec_stream(s1 + s2).packets =~= spec_stream(s1).packets);
        },
        SpecParsed::Incomplete => {},
        SpecParsed::Malformed => {
            assert(spec_stream(s1 + s2).packets =~= spec_stream(s1).packets);
        },
    }
}

/// What greedy decoding leaves behind cannot be decoded further: its
/// head is incomplete, or the malformed byte itself.
pub proof fn lemma_stream_rest_undecodable(s: Seq<u8>)
    ensures
        !(spec_parse(spec_stream(s).rest) is Packet),
        spec_stream(s).malformed == (spec_parse(spec_stream(s).rest) is Malformed),
    decreases s.len(),
{
    lemma_parse_packet_len(s);
    match spec_parse(s) {
        SpecParsed::Packet(p, n) => {
            lemma_stream_rest_undecodable(s.subrange(n, s.len() as int));
        },
        SpecParsed::Incomplete => {},
        SpecParsed::Malformed => {},
    }
}

/// A stream of bytes cut into chunks, in order.
pub open spec fn concat_chunks(cs: Seq<Seq<u8>>) -> Seq<u8>
    decreases cs.len(),
{
    if cs.len() == 0 {
        seq![]
    } else {
        cs[0] + concat_chunks(cs.drop_first())
    }
}

/// What a connection driver produces when the chunks arrive one at a
/// time: each chunk is appended to the carried buffer, the buffer is
/// drained, and a hard parse error stops the connection.
pub open spec fn feed_from(carry: Seq<u8>, cs: Seq<Seq<u8>>) -> SpecStream
    decreases cs.len(),
{
    if cs.len() == 0 {
        SpecStream { packets: seq![], rest: carry, malformed: false }
    } else {
        let s = spec_stream(carry + cs[0]);
        if s.malformed {
            s
        } else {
            let r = feed_from(s.rest, cs.drop_first());
            SpecStream { packets: s.packets + r.packets, rest: r.rest, malformed: r.malformed }
        }
    }
}

/// Framing resilience: however a byte stream is partitioned into
/// chunks, feeding them through the decoder with a carry-over buffer
/// yields exactly the packets, the leftover and the error of decoding
/// the concatenated stream. The carry starts as any buffer the decoder
/// has already drained, the empty buffer included.
pub proof fn lemma_framing_resilience(carry: Seq<u8>, cs: Seq<Seq<u8>>)
    requires
        spec_parse(carry) is Incomplete,
    ensures
        feed_from(carry, cs).packets == spec_stream(carry + concat_chunks(cs)).packets,
        feed_from(carry, cs).malformed == spec_stream(carry + concat_chunks(cs)).malformed,
        !feed_from(carry, cs).malformed ==> feed_from(carry, cs).rest == spec_stream(
            carry + concat_chunks(cs),
        ).rest,
    decreases cs.len(),
{
    if cs.len() == 0 {
        assert(carry + concat_chunks(cs) =~= carry);
        assert(feed_from(carry, cs).packets =~= spec_stream(carry).packets);
    } else {
        let first = carry + cs[0];
        let more = concat_chunks(cs.drop_first());
        assert(carry + concat_chunks(cs) =~= first + more);
        let s = spec_stream(first);
        if s.malformed {
            lemma_stream_malformed_stable(first, more);
        } else {
            lemma_stream_chunked(first, more);
            lemma_stream_rest_undecodable(first);
            lemma_framing_resilience(s.rest, cs.drop_first());
            assert(s.rest + more =~= s.rest + concat_chunks(cs.drop_first()));
            assert(feed_from(carry, cs).packets =~= spec_stream(first + more).packets);
        }
    }
}

/// The packet values a sequence of decoded packets denotes.
pub open spec fn packet_views(v: Seq<IncomingPacket>) -> Seq<SpecPacket> {
    v.map(|i: int, p: IncomingPacket| p@)
}

/// Decodes every complete message at the head of the buffer, removing
/// the consumed bytes, and reports whether the remainder is malformed.
pub fn drain_packets(buf: &mut Vec<u8>) -> (r: (Vec<IncomingPacket>, bool))
    ensures
        packet_views(r.0@) == spec_stream(old(buf)@).packets,
        final(buf)@ == spec_stream(old(buf)@).rest,
        r.1 == spec_stream(old(buf)@).malformed,
{
    let mut acc: Vec<IncomingPacket> = Vec::new();
    loop
        invariant
            spec_stream(old(buf)@).packets == packet_views(acc@) + spec_stream(buf@).packets,
            spec_stream(old(buf)@).rest == spec_stream(buf@).rest,
            spec_stream(old(buf)@).malformed == spec_stream(buf@).malformed,
        decreases buf@.len(),
    {
        proof {
            lemma_parse_packet_len(buf@);
        }
        match parse_incoming(buf.as_slice()) {
            Parsed::Packet(p, n) => {
                let ghost pre = buf@;
                let tail = vstd::slice::slice_to_vec(&buf.as_slice()[n..buf.len()]);
                *buf = tail;
                acc.push(p);
                proof {
                    assert(buf@ =~= pre.subrange(n as int, pre.len() as int));
                    assert(packet_views(acc@) =~= packet_views(acc@.drop_last()) + seq![p@]);
                    assert(packet_views(acc@) + spec_stream(buf@).packets =~= (packet_views(
                        acc@.drop_last(),
                    ) + spec_stream(pre).packets));
                }
            },
            Parsed::Incomplete => {
                return (acc, false);
            },
            Parsed::Malformed => {
                return (acc, true);
            },
        }
    }
}

// ----------------------------------------------------------------------
// Outbound schema decoding
// ----------------------------------------------------------------------

/// What decoding a buffer against the outbound ticket schema yields: the
/// ticket at the head of the buffer and its size, if whole.
pub open spec fn spec_parse_ticket(s: Seq<u8>) -> Option<(SpecTicket, int)> {
    if s.len() < 2 || s[0] != 0x21 {
        None
    } else {
        let n = s[1] as int;
        if s.len() < n + 18 {
            None
        } else {
            Some(
                (
                    SpecTicket {
                        plate: s.subrange(2, 2 + n),
                        road: u16_of(s[2 + n], s[3 + n]),
                        mile1: u16_of(s[4 + n], s[5 + n]),
                        timestamp1: u32_of(s[6 + n], s[7 + n], s[8 + n], s[9 + n]),
                        mile2: u16_of(s[10 + n], s[11 + n]),
                        timestamp2: u32_of(s[12 + n], s[13 + n], s[14 + n], s[15 + n]),
                        speed: u16_of(s[16 + n], s[17 + n]),
                    },
                    n + 18,
                ),
            )
        }
    }
}

/// Decodes a ticket message, as a dispatcher client would.
pub fn parse_ticket(input: &[u8]) -> (r: Option<(Ticket, usize)>)
    ensures
        match r {
            Some((t, n)) => spec_parse_ticket(input@) == Some((t@, n as int)),
            None => spec_parse_ticket(input@) is None,
        },
{
    if input.len() < 2 || input[0] != 0x21 {
        return None;
    }
    let n = input[1] as usize;
    if input.len() < n + 18 {
        return None;
    }
    let plate = vstd::slice::slice_to_vec(&input[2..2 + n]);
    let t = Ticket {
        plate,
        road: read_u16(input, 2 + n),
        mile1: read_u16(input, 4 + n),
        timestamp1: read_u32(input, 6 + n),
        mile2: read_u16(input, 10 + n),
        timestamp2: read_u32(input, 12 + n),
        speed: read_u16(input, 16 + n),
    };
    assert(spec_parse_ticket(input@) =~~= Some((t@, (n + 18) as int)));
    Some((t, n + 18))
}

/// Codec round trip: encoding a ticket and decoding it with the
/// outbound schema yields the same field values.
pub proof fn lemma_ticket_roundtrip(t: SpecTicket)
    requires
        t.plate.len() <= 255,
    ensures
        spec_parse_ticket(ticket_bytes(t)) == Some((t, ticket_bytes(t).len() as int)),
{
    let s = ticket_bytes(t);
    let n = t.plate.len() as int;
    assert(s.len() == n + 18);
    assert(s[1] == n as u8);
    assert(s.subrange(2, 2 + n) =~= t.plate);
    assert(s[2 + n] == be16_bytes(t.road)[0] && s[3 + n] == be16_bytes(t.road)[1]);
    assert(s[4 + n] == be16_bytes(t.mile1)[0] && s[5 + n] == be16_bytes(t.mile1)[1]);
    assert(s[6 + n] == be32_bytes(t.timestamp1)[0] && s[7 + n] == be32_bytes(t.timestamp1)[1]
        && s[8 + n] == be32_bytes(t.timestamp1)[2] && s[9 + n] == be32_bytes(t.timestamp1)[3]);
    assert(s[10 + n] == be16_bytes(t.mile2)[0] && s[11 + n] == be16_bytes(t.mile2)[1]);
    assert(s[12 + n] == be32_bytes(t.timestamp2)[0] && s[13 + n] == be32_bytes(t.timestamp2)[1]
        && s[14 + n] == be32_bytes(t.timestamp2)[2] && s[15 + n] == be32_bytes(t.timestamp2)[3]);
    assert(s[16 + n] == be16_bytes(t.speed)[0] && s[17 + n] == be16_bytes(t.speed)[1]);
    lemma_be16_roundtrip(t.road);
    lemma_be16_roundtrip(t.mile1);
    lemma_be32_roundtrip(t.timestamp1);
    lemma_be16_roundtrip(t.mile2);
    lemma_be32_roundtrip(t.timestamp2);
    lemma_be16_roundtrip(t.speed);
    assert(spec_parse_ticket(s) =~~= Some((t, s.len() as int)));
}

} // verus!
