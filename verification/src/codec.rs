//! Binary wire protocol: message types, the byte-level encoding as a spec
//! function, and a verified incremental encoder/decoder.
//!
//! All integers are big-endian on the wire. Strings carry a one-byte length
//! prefix, so nothing longer than 255 bytes can be framed.

use vstd::prelude::*;

use crate::SD_ERROR;
use crate::SD_HEARTBEAT;
use crate::SD_IAMCAMERA;
use crate::SD_IAMDISPATCHER;
use crate::SD_PLATE;
use crate::SD_TICKET;
use crate::SD_WANTHEARTBEAT;

verus! {

/// A protocol message, client-to-server or server-to-client.
///
/// Plates and error texts are byte strings on the wire (length-prefixed,
/// at most 255 bytes) and are kept as plain bytes here.
#[derive(Debug, PartialEq, Clone)]
pub enum SDMessage {
    Error { msg: Vec<u8> },
    Plate { plate: Vec<u8>, timestamp: u32 },
    Ticket {
        plate: Vec<u8>,
        road: u16,
        mile1: u16,
        timestamp1: u32,
        mile2: u16,
        timestamp2: u32,
        speed: u16,
    },
    WantHeartbeat { interval: u32 },
    Heartbeat,
    IAmCamera { road: u16, mile: u16, limit: u16 },
    IAmDispatcher { roads: Vec<u16> },
}

/// Mathematical model of a message: byte strings become sequences.
pub enum MsgV {
    Error { msg: Seq<u8> },
    Plate { plate: Seq<u8>, timestamp: u32 },
    Ticket {
        plate: Seq<u8>,
        road: u16,
        mile1: u16,
        timestamp1: u32,
        mile2: u16,
        timestamp2: u32,
        speed: u16,
    },
    WantHeartbeat { interval: u32 },
    Heartbeat,
    IAmCamera { road: u16, mile: u16, limit: u16 },
    IAmDispatcher { roads: Seq<u16> },
}

impl View for SDMessage {
    type V = MsgV;

    open spec fn view(&self) -> MsgV {
        match self {
            SDMessage::Error { msg } => MsgV::Error { msg: msg@ },
            SDMessage::Plate { plate, timestamp } => MsgV::Plate {
                plate: plate@,
                timestamp: *timestamp,
            },
            SDMessage::Ticket { plate, road, mile1, timestamp1, mile2, timestamp2, speed } => (
            MsgV::Ticket {
                plate: plate@,
                road: *road,
                mile1: *mile1,
                timestamp1: *timestamp1,
                mile2: *mile2,
                timestamp2: *timestamp2,
                speed: *speed,
            }),
            SDMessage::WantHeartbeat { interval } => MsgV::WantHeartbeat { interval: *interval },
            SDMessage::Heartbeat => MsgV::Heartbeat,
            SDMessage::IAmCamera { road, mile, limit } => MsgV::IAmCamera {
                road: *road,
                mile: *mile,
                limit: *limit,
            },
            SDMessage::IAmDispatcher { roads } => MsgV::IAmDispatcher { roads: roads@ },
        }
    }
}

/// Big-endian bytes of a 16-bit integer.
pub open spec fn be16(x: u16) -> Seq<u8> {
    seq![(x >> 8u16) as u8, x as u8]
}

/// Big-endian bytes of a 32-bit integer.
pub open spec fn be32(x: u32) -> Seq<u8> {
    seq![(x >> 24u32) as u8, (x >> 16u32) as u8, (x >> 8u32) as u8, x as u8]
}

/// The 16-bit integer read from two big-endian bytes.
pub open spec fn u16_from(b0: u8, b1: u8) -> u16 {
    (((b0 as u16) << 8u16) | (b1 as u16)) as u16
}

/// The 32-bit integer read from four big-endian bytes.
pub open spec fn u32_from(b0: u8, b1: u8, b2: u8, b3: u8) -> u32 {
    (((b0 as u32) << 24u32) | ((b1 as u32) << 16u32) | ((b2 as u32) << 8u32) | (b3 as u32)) as u32
}

/// Concatenated big-endian encodings of a road list.
pub open spec fn roads_bytes(roads: Seq<u16>) -> Seq<u8>
    decreases roads.len(),
{
    if roads.len() == 0 {
        Seq::empty()
    } else {
        be16(roads[0]) + roads_bytes(roads.drop_first())
    }
}

/// The full frame encoding of a message. Exact only for well-formed
/// messages (see [`msg_wf`]); length bytes truncate beyond 255.
pub open spec fn encoding(m: MsgV) -> Seq<u8> {
    match m {
        MsgV::Error { msg } => seq![SD_ERROR, msg.len() as u8] + msg,
        MsgV::Plate { plate, timestamp } => seq![SD_PLATE, plate.len() as u8] + plate + be32(
            timestamp,
        ),
        MsgV::Ticket { plate, road, mile1, timestamp1, mile2, timestamp2, speed } => (
        seq![SD_TICKET, plate.len() as u8] + plate + be16(road) + be16(mile1) + be32(timestamp1)
            + be16(mile2) + be32(timestamp2) + be16(speed)),
        MsgV::WantHeartbeat { interval } => seq![SD_WANTHEARTBEAT] + be32(interval),
        MsgV::Heartbeat => seq![SD_HEARTBEAT],
        MsgV::IAmCamera { road, mile, limit } => seq![SD_IAMCAMERA] + be16(road) + be16(mile)
            + be16(limit),
        MsgV::IAmDispatcher { roads } => seq![SD_IAMDISPATCHER, roads.len() as u8] + roads_bytes(
            roads,
        ),
    }
}

/// A message whose variable-length parts fit their one-byte length prefixes.
pub open spec fn msg_wf(m: MsgV) -> bool {
    match m {
        MsgV::Error { msg } => msg.len() <= 255,
        MsgV::Plate { plate, .. } => plate.len() <= 255,
        MsgV::Ticket { plate, .. } => plate.len() <= 255,
        MsgV::IAmDispatcher { roads } => roads.len() <= 255,
        _ => true,
    }
}

/// Messages the encoder accepts: everything the server may put on the wire,
/// plus the client-side messages shared with test clients. Only
/// WantHeartbeat is never encoded here.
pub open spec fn encodable(m: MsgV) -> bool {
    !(m is WantHeartbeat)
}

/// Codec failure: an encode of an oversized or unsupported message, or a
/// decode of a tag the server must never receive.
#[derive(Debug, PartialEq, Eq, Structural, Clone, Copy)]
pub enum SpeedDaemonCodecError {
    /// A variable-length field does not fit its one-byte length prefix.
    FrameTooLarge { len: usize },
    /// The message kind is not encoded by this codec.
    UnsupportedMessage,
    /// The inbound tag is reserved for the other direction or unknown.
    UnexpectedTag { tag: u8 },
}

/// The error [`SpeedDaemonCodec::encode`] reports for a message it refuses.
pub open spec fn encode_err(m: MsgV) -> SpeedDaemonCodecError {
    if !encodable(m) {
        SpeedDaemonCodecError::UnsupportedMessage
    } else {
        match m {
            MsgV::Error { msg } => SpeedDaemonCodecError::FrameTooLarge { len: msg.len() as usize },
            MsgV::Plate { plate, .. } => SpeedDaemonCodecError::FrameTooLarge {
                len: plate.len() as usize,
            },
            MsgV::Ticket { plate, .. } => SpeedDaemonCodecError::FrameTooLarge {
                len: plate.len() as usize,
            },
            MsgV::IAmDispatcher { roads } => SpeedDaemonCodecError::FrameTooLarge {
                len: roads.len() as usize,
            },
            _ => SpeedDaemonCodecError::UnsupportedMessage,
        }
    }
}

/// Stateless encoder/decoder for the wire protocol.
#[derive(Debug)]
pub struct SpeedDaemonCodec {}

impl SpeedDaemonCodec {
    pub fn new() -> (c: SpeedDaemonCodec) {
        SpeedDaemonCodec {}
    }
}

impl Default for SpeedDaemonCodec {
    fn default() -> (c: Self) {
        SpeedDaemonCodec::new()
    }
}

fn push_u16(dst: &mut Vec<u8>, x: u16)
    ensures
        final(dst)@ == old(dst)@ + be16(x),
{
    proof {
        assert((x >> 8u16) < 256) by (bit_vector);
    }
    dst.push((x >> 8u16) as u8);
    dst.push(#[verifier::truncate] (x as u8));
    assert(dst@ =~= old(dst)@ + be16(x));
}

fn push_u32(dst: &mut Vec<u8>, x: u32)
    ensures
        final(dst)@ == old(dst)@ + be32(x),
{
    proof {
        assert((x >> 24u32) < 256) by (bit_vector);
    }
    dst.push((x >> 24u32) as u8);
    dst.push(#[verifier::truncate] ((x >> 16u32) as u8));
    dst.push(#[verifier::truncate] ((x >> 8u32) as u8));
    dst.push(#[verifier::truncate] (x as u8));
    assert(dst@ =~= old(dst)@ + be32(x));
}

fn push_bytes(dst: &mut Vec<u8>, src: &Vec<u8>)
    ensures
        final(dst)@ == old(dst)@ + src@,
{
    let n: usize = src.len();
    let mut i: usize = 0;
    while i < n
        invariant
            i <= n,
            n == src@.len(),
            dst@ == old(dst)@ + src@.take(i as int),
        decreases n - i,
    {
        dst.push(src[i]);
        assert(dst@ =~= old(dst)@ + src@.take(i + 1));
        i = i + 1;
    }
    assert(dst@ =~= old(dst)@ + src@);
}

impl SpeedDaemonCodec {
    /// Append the frame for `item` to `dst`. Refuses messages whose
    /// variable-length parts exceed 255 entries, and WantHeartbeat, which
    /// only clients send; on refusal `dst` is untouched.
    pub fn encode(&self, item: SDMessage, dst: &mut Vec<u8>) -> (r: Result<
        (),
        SpeedDaemonCodecError,
    >)
        ensures
            match r {
                Ok(()) => msg_wf(item@) && encodable(item@) && final(dst)@ == old(dst)@
                    + encoding(item@),
                Err(e) => final(dst)@ == old(dst)@ && !(msg_wf(item@) && encodable(item@)) && e
                    == encode_err(item@),
            },
    {
        match item {
            SDMessage::Error { msg } => {
                if msg.len() > 255 {
                    return Err(SpeedDaemonCodecError::FrameTooLarge { len: msg.len() });
                }
                dst.push(SD_ERROR);
                dst.push(#[verifier::truncate] (msg.len() as u8));
                push_bytes(dst, &msg);
                assert(dst@ =~= old(dst)@ + encoding(MsgV::Error { msg: msg@ }));
                Ok(())
            },
            SDMessage::Heartbeat => {
                dst.push(SD_HEARTBEAT);
                assert(dst@ =~= old(dst)@ + encoding(MsgV::Heartbeat));
                Ok(())
            },
            SDMessage::Ticket { plate, road, mile1, timestamp1, mile2, timestamp2, speed } => {
                if plate.len() > 255 {
                    return Err(SpeedDaemonCodecError::FrameTooLarge { len: plate.len() });
                }
                dst.push(SD_TICKET);
                dst.push(#[verifier::truncate] (plate.len() as u8));
                push_bytes(dst, &plate);
                push_u16(dst, road);
                push_u16(dst, mile1);
                push_u32(dst, timestamp1);
                push_u16(dst, mile2);
                push_u32(dst, timestamp2);
                push_u16(dst, speed);
                assert(dst@ =~= old(dst)@ + encoding(
                    MsgV::Ticket {
                        plate: plate@,
                        road,
                        mile1,
                        timestamp1,
                        mile2,
                        timestamp2,
                        speed,
                    },
                ));
                Ok(())
            },
            SDMessage::IAmCamera { road, mile, limit } => {
                dst.push(SD_IAMCAMERA);
                push_u16(dst, road);
                push_u16(dst, mile);
                push_u16(dst, limit);
                assert(dst@ =~= old(dst)@ + encoding(MsgV::IAmCamera { road, mile, limit }));
                Ok(())
            },
            SDMessage::IAmDispatcher { roads } => {
                if roads.len() > 255 {
                    return Err(SpeedDaemonCodecError::FrameTooLarge { len: roads.len() });
                }
                dst.push(SD_IAMDISPATCHER);
                dst.push(#[verifier::truncate] (roads.len() as u8));
                let ghost prefix: Seq<u8> = dst@;
                let n: usize = roads.len();
                let mut i: usize = 0;
                while i < n
                    invariant
                        i <= n,
                        n == roads@.len(),
                        dst@ == prefix + roads_bytes(roads@.take(i as int)),
                    decreases n - i,
                {
                    push_u16(dst, roads[i]);
                    proof {
                        lemma_roads_bytes_take_snoc(roads@, i as int);
                        assert(dst@ =~= prefix + roads_bytes(roads@.take(i + 1)));
                    }
                    i = i + 1;
                }
                proof {
                    assert(roads@.take(n as int) =~= roads@);
                    assert(dst@ =~= old(dst)@ + encoding(MsgV::IAmDispatcher { roads: roads@ }));
                }
                Ok(())
            },
            SDMessage::Plate { plate, timestamp } => {
                if plate.len() > 255 {
                    return Err(SpeedDaemonCodecError::FrameTooLarge { len: plate.len() });
                }
                dst.push(SD_PLATE);
                dst.push(#[verifier::truncate] (plate.len() as u8));
                push_bytes(dst, &plate);
                push_u32(dst, timestamp);
                assert(dst@ =~= old(dst)@ + encoding(
                    MsgV::Plate { plate: plate@, timestamp },
                ));
                Ok(())
            },
            SDMessage::WantHeartbeat { .. } => Err(SpeedDaemonCodecError::UnsupportedMessage),
        }
    }
}

/// The road list read back from `n` big-endian pairs at the front of `s`.
pub open spec fn parse_roads(s: Seq<u8>, n: nat) -> Seq<u16>
    decreases n,
{
    if n == 0 {
        Seq::empty()
    } else {
        seq![u16_from(s[0], s[1])] + parse_roads(s.skip(2), (n - 1) as nat)
    }
}

/// What one decoding attempt on a byte prefix yields: an incomplete frame,
/// a refused tag, or a message together with the frame's byte count.
pub enum DecodeStep {
    NeedMore,
    Reject { tag: u8 },
    Got { msg: MsgV, used: int },
}

/// The decoder's answer on `s`, as a function of the bytes alone.
pub open spec fn decode_spec(s: Seq<u8>) -> DecodeStep {
    if s.len() == 0 {
        DecodeStep::NeedMore
    } else {
        let tag = s[0];
        if tag == SD_WANTHEARTBEAT {
            if s.len() < 5 {
                DecodeStep::NeedMore
            } else {
                DecodeStep::Got {
                    msg: MsgV::WantHeartbeat { interval: u32_from(s[1], s[2], s[3], s[4]) },
                    used: 5,
                }
            }
        } else if tag == SD_PLATE {
            if s.len() < 2 {
                DecodeStep::NeedMore
            } else {
                let n = s[1] as int;
                if s.len() < n + 6 {
                    DecodeStep::NeedMore
                } else {
                    DecodeStep::Got {
                        msg: MsgV::Plate {
                            plate: s.subrange(2, n + 2),
                            timestamp: u32_from(s[n + 2], s[n + 3], s[n + 4], s[n + 5]),
                        },
                        used: n + 6,
                    }
                }
            }
        } else if tag == SD_IAMCAMERA {
            if s.len() < 7 {
                DecodeStep::NeedMore
            } else {
                DecodeStep::Got {
                    msg: MsgV::IAmCamera {
                        road: u16_from(s[1], s[2]),
                        mile: u16_from(s[3], s[4]),
                        limit: u16_from(s[5], s[6]),
                    },
                    used: 7,
                }
            }
        } else if tag == SD_IAMDISPATCHER {
            if s.len() < 2 {
                DecodeStep::NeedMore
            } else {
                let n = s[1] as int;
                if s.len() < 2 * n + 2 {
                    DecodeStep::NeedMore
                } else {
                    DecodeStep::Got {
                        msg: MsgV::IAmDispatcher { roads: parse_roads(s.skip(2), n as nat) },
                        used: 2 * n + 2,
                    }
                }
            }
        } else if tag == SD_TICKET {
            if s.len() < 2 {
                DecodeStep::NeedMore
            } else {
                let n = s[1] as int;
                if s.len() < n + 18 {
                    DecodeStep::NeedMore
                } else {
                    DecodeStep::Got {
                        msg: MsgV::Ticket {
                            plate: s.subrange(2, n + 2),
                            road: u16_from(s[n + 2], s[n + 3]),
                            mile1: u16_from(s[n + 4], s[n + 5]),
                            timestamp1: u32_from(s[n + 6], s[n + 7], s[n + 8], s[n + 9]),
                            mile2: u16_from(s[n + 10], s[n + 11]),
                            timestamp2: u32_from(s[n + 12], s[n + 13], s[n + 14], s[n + 15]),
                            speed: u16_from(s[n + 16], s[n + 17]),
                        },
                        used: n + 18,
                    }
                }
            }
        } else {
            DecodeStep::Reject { tag }
        }
    }
}

fn read_u16(src: &[u8], i: usize) -> (x: u16)
    requires
        i + 2 <= src@.len(),
    ensures
        x == u16_from(src@[i as int], src@[i + 1]),
{
    ((src[i] as u16) << 8u16) | (src[i + 1] as u16)
}

fn read_u32(src: &[u8], i: usize) -> (x: u32)
    requires
        i + 4 <= src@.len(),
    ensures
        x == u32_from(src@[i as int], src@[i + 1], src@[i + 2], src@[i + 3]),
{
    ((src[i] as u32) << 24u32) | ((src[i + 1] as u32) << 16u32) | ((src[i + 2] as u32) << 8u32) | (
    src[i + 3] as u32)
}

fn copy_bytes(src: &[u8], start: usize, end: usize) -> (v: Vec<u8>)
    requires
        start <= end <= src@.len(),
    ensures
        v@ == src@.subrange(start as int, end as int),
{
    let mut v: Vec<u8> = Vec::new();
    let mut i: usize = start;
    while i < end
        invariant
            start <= i <= end <= src@.len(),
            v@ == src@.subrange(start as int, i as int),
        decreases end - i,
    {
        v.push(src[i]);
        assert(v@ =~= src@.subrange(start as int, i + 1));
        i = i + 1;
    }
    v
}

impl SpeedDaemonCodec {
    /// Try to decode one frame from the front of `src`. `Ok(None)` means the
    /// frame is not complete yet; `Ok(Some((m, used)))` hands back the
    /// message and how many bytes its frame occupied, which the caller
    /// discards before the next attempt. Tags the server must never receive
    /// (Error, Heartbeat) and unknown tags are refused.
    pub fn decode(&self, src: &[u8]) -> (r: Result<
        Option<(SDMessage, usize)>,
        SpeedDaemonCodecError,
    >)
        ensures
            match r {
                Ok(Some((m, used))) => decode_spec(src@) == (DecodeStep::Got {
                    msg: m@,
                    used: used as int,
                }),
                Ok(None) => decode_spec(src@) == DecodeStep::NeedMore,
                Err(e) => decode_spec(src@) == (DecodeStep::Reject { tag: src@[0] }) && e == (
                SpeedDaemonCodecError::UnexpectedTag { tag: src@[0] }),
            },
    {
        if src.len() == 0 {
            return Ok(None);
        }
        let tag: u8 = src[0];
        if tag == SD_WANTHEARTBEAT {
            if src.len() < 5 {
                return Ok(None);
            }
            let interval: u32 = read_u32(src, 1);
            Ok(Some((SDMessage::WantHeartbeat { interval }, 5)))
        } else if tag == SD_PLATE {
            if src.len() < 2 {
                return Ok(None);
            }
            let n: usize = src[1] as usize;
            if src.len() < n + 6 {
                return Ok(None);
            }
            let plate: Vec<u8> = copy_bytes(src, 2, n + 2);
            let timestamp: u32 = read_u32(src, n + 2);
            Ok(Some((SDMessage::Plate { plate, timestamp }, n + 6)))
        } else if tag == SD_IAMCAMERA {
            if src.len() < 7 {
                return Ok(None);
            }
            let road: u16 = read_u16(src, 1);
            let mile: u16 = read_u16(src, 3);
            let limit: u16 = read_u16(src, 5);
            Ok(Some((SDMessage::IAmCamera { road, mile, limit }, 7)))
        } else if tag == SD_IAMDISPATCHER {
            if src.len() < 2 {
                return Ok(None);
            }
            let n: usize = src[1] as usize;
            if src.len() < 2 * n + 2 {
                return Ok(None);
            }
            let mut roads: Vec<u16> = Vec::new();
            let mut i: usize = 0;
            while i < n
                invariant
                    i <= n,
                    n <= 255,
                    2 * n + 2 <= src@.len(),
                    roads@ == parse_roads(src@.skip(2), i as nat),
                decreases n - i,
            {
                let road: u16 = read_u16(src, 2 * i + 2);
                roads.push(road);
                proof {
                    lemma_parse_roads_snoc(src@.skip(2), i as nat);
                    assert(src@.skip(2)[2 * i as int] == src@[2 * i + 2]);
                    assert(src@.skip(2)[2 * i + 1] == src@[2 * i + 3]);
                    assert(roads@ =~= parse_roads(src@.skip(2), (i + 1) as nat));
                }
                i = i + 1;
            }
            Ok(Some((SDMessage::IAmDispatcher { roads }, 2 * n + 2)))
        } else if tag == SD_TICKET {
            if src.len() < 2 {
                return Ok(None);
            }
            let n: usize = src[1] as usize;
            if src.len() < n + 18 {
                return Ok(None);
            }
            let plate: Vec<u8> = copy_bytes(src, 2, n + 2);
            let road: u16 = read_u16(src, n + 2);
            let mile1: u16 = read_u16(src, n + 4);
            let timestamp1: u32 = read_u32(src, n + 6);
            let mile2: u16 = read_u16(src, n + 10);
            let timestamp2: u32 = read_u32(src, n + 12);
            let speed: u16 = read_u16(src, n + 16);
            Ok(Some(
                (
                    SDMessage::Ticket { plate, road, mile1, timestamp1, mile2, timestamp2, speed },
                    n + 18,
                ),
            ))
        } else {
            Err(SpeedDaemonCodecError::UnexpectedTag { tag })
        }
    }
}

/// One more pair extends the parsed road list by one entry.
proof fn lemma_parse_roads_snoc(s: Seq<u8>, i: nat)
    requires
        2 * i + 2 <= s.len(),
    ensures
        parse_roads(s, i + 1) == parse_roads(s, i) + seq![
            u16_from(s[2 * i as int], s[2 * i as int + 1]),
        ],
    decreases i,
{
    if i == 0 {
        assert(parse_roads(s.skip(2), 0) =~= Seq::<u16>::empty());
        assert(parse_roads(s, 0) =~= Seq::<u16>::empty());
        assert(parse_roads(s, 1) =~= parse_roads(s, 0) + seq![u16_from(s[0], s[1])]);
    } else {
        lemma_parse_roads_snoc(s.skip(2), (i - 1) as nat);
        assert(s.skip(2)[2 * (i - 1)] == s[2 * i as int]);
        assert(s.skip(2)[2 * (i - 1) + 1] == s[2 * i as int + 1]);
        assert(parse_roads(s, i + 1) =~= parse_roads(s, i) + seq![
            u16_from(s[2 * i as int], s[2 * i as int + 1]),
        ]);
    }
}

/// Reading two big-endian bytes gives back the 16-bit integer.
proof fn lemma_u16_round(x: u16)
    ensures
        u16_from((x >> 8u16) as u8, x as u8) == x,
{
    assert(((((x >> 8u16) as u8) as u16) << 8u16 | ((x as u8) as u16)) == x) by (bit_vector);
}

/// Reading four big-endian bytes gives back the 32-bit integer.
proof fn lemma_u32_round(x: u32)
    ensures
        u32_from((x >> 24u32) as u8, (x >> 16u32) as u8, (x >> 8u32) as u8, x as u8) == x,
{
    assert(((((x >> 24u32) as u8) as u32) << 24u32 | (((x >> 16u32) as u8) as u32) << 16u32 | (((x
        >> 8u32) as u8) as u32) << 8u32 | ((x as u8) as u32)) == x) by (bit_vector);
}

/// A road list occupies two bytes per entry.
proof fn lemma_roads_bytes_len(roads: Seq<u16>)
    ensures
        roads_bytes(roads).len() == 2 * roads.len(),
    decreases roads.len(),
{
    if roads.len() > 0 {
        lemma_roads_bytes_len(roads.drop_first());
    }
}

/// Parsing the encoding of a road list gives back the list, whatever
/// bytes follow it.
proof fn lemma_parse_roads_round(roads: Seq<u16>, rest: Seq<u8>)
    ensures
        parse_roads(roads_bytes(roads) + rest, roads.len()) == roads,
    decreases roads.len(),
{
    if roads.len() == 0 {
        assert(parse_roads(roads_bytes(roads) + rest, 0) =~= roads);
    } else {
        let s = roads_bytes(roads) + rest;
        let tail = roads.drop_first();
        lemma_roads_bytes_len(roads);
        lemma_roads_bytes_len(tail);
        assert(s[0] == be16(roads[0])[0]);
        assert(s[1] == be16(roads[0])[1]);
        lemma_u16_round(roads[0]);
        assert(s.skip(2) =~= roads_bytes(tail) + rest);
        lemma_parse_roads_round(tail, rest);
        assert(parse_roads(s, roads.len()) =~= roads);
    }
}

/// The messages a server-side decoder understands: everything a client may
/// legally send, plus Ticket, which test clients read with the same codec.
pub open spec fn client_decodable(m: MsgV) -> bool {
    !(m is Error) && !(m is Heartbeat)
}

/// Round trip: decoding a well-formed frame gives back exactly the message
/// it encodes and consumes exactly its bytes, whatever bytes follow.
pub proof fn lemma_decode_of_encoding(m: MsgV, rest: Seq<u8>)
    requires
        msg_wf(m),
        client_decodable(m),
    ensures
        decode_spec(encoding(m) + rest) == (DecodeStep::Got {
            msg: m,
            used: encoding(m).len() as int,
        }),
{
    match m {
        MsgV::WantHeartbeat { interval } => {
            lemma_decode_wantheartbeat(interval, rest);
        },
        MsgV::IAmCamera { road, mile, limit } => {
            lemma_decode_iamcamera(road, mile, limit, rest);
        },
        MsgV::Plate { plate, timestamp } => {
            lemma_decode_plate(plate, timestamp, rest);
        },
        MsgV::IAmDispatcher { roads } => {
            lemma_decode_iamdispatcher(roads, rest);
        },
        MsgV::Ticket { plate, road, mile1, timestamp1, mile2, timestamp2, speed } => {
            lemma_decode_ticket(plate, road, mile1, timestamp1, mile2, timestamp2, speed, rest);
        },
        _ => {},
    }
}

proof fn lemma_decode_wantheartbeat(interval: u32, rest: Seq<u8>)
    ensures
        decode_spec(encoding(MsgV::WantHeartbeat { interval }) + rest) == (DecodeStep::Got {
            msg: MsgV::WantHeartbeat { interval },
            used: encoding(MsgV::WantHeartbeat { interval }).len() as int,
        }),
{
    let m = MsgV::WantHeartbeat { interval };
    let e = encoding(m);
    let s = e + rest;
    assert(s[0] == SD_WANTHEARTBEAT);
    assert(s[1] == be32(interval)[0]);
    assert(s[2] == be32(interval)[1]);
    assert(s[3] == be32(interval)[2]);
    assert(s[4] == be32(interval)[3]);
    lemma_u32_round(interval);
    assert(decode_spec(s) == (DecodeStep::Got { msg: m, used: e.len() as int }));
}

proof fn lemma_decode_iamcamera(road: u16, mile: u16, limit: u16, rest: Seq<u8>)
    ensures
        decode_spec(encoding(MsgV::IAmCamera { road, mile, limit }) + rest) == (DecodeStep::Got {
            msg: MsgV::IAmCamera { road, mile, limit },
            used: encoding(MsgV::IAmCamera { road, mile, limit }).len() as int,
        }),
{
    let m = MsgV::IAmCamera { road, mile, limit };
    let e = encoding(m);
    let s = e + rest;
    assert(s[0] == SD_IAMCAMERA);
    assert(s[1] == be16(road)[0]);
    assert(s[2] == be16(road)[1]);
    assert(s[3] == be16(mile)[0]);
    assert(s[4] == be16(mile)[1]);
    assert(s[5] == be16(limit)[0]);
    assert(s[6] == be16(limit)[1]);
    lemma_u16_round(road);
    lemma_u16_round(mile);
    lemma_u16_round(limit);
    assert(decode_spec(s) == (DecodeStep::Got { msg: m, used: e.len() as int }));
}

proof fn lemma_decode_plate(plate: Seq<u8>, timestamp: u32, rest: Seq<u8>)
    requires
        plate.len() <= 255,
    ensures
        decode_spec(encoding(MsgV::Plate { plate, timestamp }) + rest) == (DecodeStep::Got {
            msg: MsgV::Plate { plate, timestamp },
            used: encoding(MsgV::Plate { plate, timestamp }).len() as int,
        }),
{
    let m = MsgV::Plate { plate, timestamp };
    let e = encoding(m);
    let s = e + rest;
    let n = plate.len() as int;
    assert(s[0] == SD_PLATE);
    assert(s[1] == n as u8);
    assert(s[1] as int == n);
    assert(s.subrange(2, n + 2) =~= plate);
    assert(s[n + 2] == be32(timestamp)[0]);
    assert(s[n + 3] == be32(timestamp)[1]);
    assert(s[n + 4] == be32(timestamp)[2]);
    assert(s[n + 5] == be32(timestamp)[3]);
    lemma_u32_round(timestamp);
    assert(decode_spec(s) == (DecodeStep::Got { msg: m, used: e.len() as int }));
}

proof fn lemma_decode_iamdispatcher(roads: Seq<u16>, rest: Seq<u8>)
    requires
        roads.len() <= 255,
    ensures
        decode_spec(encoding(MsgV::IAmDispatcher { roads }) + rest) == (DecodeStep::Got {
            msg: MsgV::IAmDispatcher { roads },
            used: encoding(MsgV::IAmDispatcher { roads }).len() as int,
        }),
{
    let m = MsgV::IAmDispatcher { roads };
    let e = encoding(m);
    let s = e + rest;
    let n = roads.len() as int;
    lemma_roads_bytes_len(roads);
    assert(s[0] == SD_IAMDISPATCHER);
    assert(s[1] == n as u8);
    assert(s[1] as int == n);
    assert(s.skip(2) =~= roads_bytes(roads) + rest);
    lemma_parse_roads_round(roads, rest);
    assert(decode_spec(s) == (DecodeStep::Got { msg: m, used: e.len() as int }));
}

#[verifier::rlimit(50)]
proof fn lemma_decode_ticket(
    plate: Seq<u8>,
    road: u16,
    mile1: u16,
    timestamp1: u32,
    mile2: u16,
    timestamp2: u32,
    speed: u16,
    rest: Seq<u8>,
)
    requires
        plate.len() <= 255,
    ensures
        decode_spec(
            encoding(MsgV::Ticket { plate, road, mile1, timestamp1, mile2, timestamp2, speed })
                + rest,
        ) == (DecodeStep::Got {
            msg: MsgV::Ticket { plate, road, mile1, timestamp1, mile2, timestamp2, speed },
            used: encoding(
                MsgV::Ticket { plate, road, mile1, timestamp1, mile2, timestamp2, speed },
            ).len() as int,
        }),
{
    let m = MsgV::Ticket { plate, road, mile1, timestamp1, mile2, timestamp2, speed };
    let e = encoding(m);
    let s = e + rest;
    let n = plate.len() as int;
    let head: Seq<u8> = seq![SD_TICKET, plate.len() as u8] + plate;
    let tail: Seq<u8> = be16(road) + be16(mile1) + be32(timestamp1) + be16(mile2) + be32(
        timestamp2,
    ) + be16(speed);
    assert(e =~= head + tail);
    assert(s =~= head + (tail + rest));
    assert(s[0] == SD_TICKET);
    assert(s[1] == n as u8);
    assert(s[1] as int == n);
    assert(s.subrange(2, n + 2) =~= plate);
    assert forall|k: int| 0 <= k < 16 implies s[n + 2 + k] == tail[k] by {
        assert(s[n + 2 + k] == (head + (tail + rest))[n + 2 + k]);
    }
    assert(tail[0] == be16(road)[0]);
    assert(tail[1] == be16(road)[1]);
    assert(tail[2] == be16(mile1)[0]);
    assert(tail[3] == be16(mile1)[1]);
    assert(tail[4] == be32(timestamp1)[0]);
    assert(tail[5] == be32(timestamp1)[1]);
    assert(tail[6] == be32(timestamp1)[2]);
    assert(tail[7] == be32(timestamp1)[3]);
    assert(tail[8] == be16(mile2)[0]);
    assert(tail[9] == be16(mile2)[1]);
    assert(tail[10] == be32(timestamp2)[0]);
    assert(tail[11] == be32(timestamp2)[1]);
    assert(tail[12] == be32(timestamp2)[2]);
    assert(tail[13] == be32(timestamp2)[3]);
    assert(tail[14] == be16(speed)[0]);
    assert(tail[15] == be16(speed)[1]);
    lemma_u16_round(road);
    lemma_u16_round(mile1);
    lemma_u16_round(mile2);
    lemma_u16_round(speed);
    lemma_u32_round(timestamp1);
    lemma_u32_round(timestamp2);
    assert(decode_spec(s) == (DecodeStep::Got { msg: m, used: e.len() as int }));
}

/// One more road extends the road-list encoding by one big-endian pair.
proof fn lemma_roads_bytes_take_snoc(roads: Seq<u16>, i: int)
    requires
        0 <= i < roads.len(),
    ensures
        roads_bytes(roads.take(i + 1)) == roads_bytes(roads.take(i)) + be16(roads[i]),
    decreases i,
{
    if i == 0 {
        assert(roads.take(1).drop_first() =~= roads.take(0));
        assert(roads_bytes(roads.take(1)) =~= roads_bytes(roads.take(0)) + be16(roads[0]));
    } else {
        lemma_roads_bytes_take_snoc(roads.drop_first(), i - 1);
        assert(roads.take(i + 1).drop_first() =~= roads.drop_first().take(i));
        assert(roads.take(i).drop_first() =~= roads.drop_first().take(i - 1));
        assert(roads.take(i + 1)[0] == roads[0]);
        assert(roads_bytes(roads.take(i + 1)) == be16(roads[0]) + roads_bytes(
            roads.drop_first().take(i),
        ));
        assert(roads_bytes(roads.take(i)) == be16(roads[0]) + roads_bytes(
            roads.drop_first().take(i - 1),
        ));
        assert(roads_bytes(roads.take(i + 1)) =~= roads_bytes(roads.take(i)) + be16(roads[i]));
    }
}

} // verus!
