//! The application datagram: a packed little-endian header of
//! `APP_HEADER_LENGTH` bytes followed by the payload, and the one-byte
//! indicator that tags each fragment with its role in a burst.

use vstd::prelude::*;

verus! {

pub const IP_HEADER_LENGTH: usize = 20;

pub const UDP_HEADER_LENGTH: usize = 8;

pub const APP_HEADER_LENGTH: usize = 19;

pub const UDP_MAX_LENGTH: usize = 1500 - IP_HEADER_LENGTH - UDP_HEADER_LENGTH;

pub const MAX_PAYLOAD_LEN: usize = UDP_MAX_LENGTH - APP_HEADER_LENGTH;

/// Role of a fragment within its burst.  The first eight tag data
/// fragments; `SLFL` and `SLSL` tag acknowledgements of a burst that was
/// completed by a fragment of the first or the second link.
#[derive(Clone, Copy, Debug, PartialEq, Eq, Structural)]
pub enum PacketType {
    SNL,
    SL,
    DFN,
    DFL,
    DSS,
    DSF,
    DSM,
    DSL,
    SLFL,
    SLSL,
}

/// The byte that encodes a tag on the wire.  Bit 2 holds the link the
/// tag belongs to (0: first, 1: second).
pub open spec fn indicator_of(t: PacketType) -> u8 {
    match t {
        PacketType::SNL => 0,
        PacketType::SL => 1,
        PacketType::DFN => 2,
        PacketType::DFL => 3,
        PacketType::DSS => 4,
        PacketType::DSF => 5,
        PacketType::DSM => 6,
        PacketType::DSL => 7,
        PacketType::SLFL => 8,
        PacketType::SLSL => 12,
    }
}

/// The tag that a byte encodes, if any.
pub open spec fn tag_of(b: u8) -> Option<PacketType> {
    if b == 0 {
        Some(PacketType::SNL)
    } else if b == 1 {
        Some(PacketType::SL)
    } else if b == 2 {
        Some(PacketType::DFN)
    } else if b == 3 {
        Some(PacketType::DFL)
    } else if b == 4 {
        Some(PacketType::DSS)
    } else if b == 5 {
        Some(PacketType::DSF)
    } else if b == 6 {
        Some(PacketType::DSM)
    } else if b == 7 {
        Some(PacketType::DSL)
    } else if b == 8 {
        Some(PacketType::SLFL)
    } else if b == 12 {
        Some(PacketType::SLSL)
    } else {
        None
    }
}

pub open spec fn is_indicator(b: u8) -> bool {
    tag_of(b).is_some()
}

/// Link index (0 or 1) carried by bit 2 of an indicator byte.
pub open spec fn channel_of(b: u8) -> u8 {
    ((b / 4) % 2) as u8
}

/// Decoding the encoding of a tag gives the tag back.
pub proof fn lemma_tag_round_trip(t: PacketType)
    ensures
        tag_of(indicator_of(t)) == Some(t),
{
}

/// Encoding the tag of a valid indicator byte gives the byte back.
pub proof fn lemma_indicator_round_trip(b: u8)
    requires
        is_indicator(b),
    ensures
        indicator_of(tag_of(b).unwrap()) == b,
{
}

pub fn to_indicator(t: PacketType) -> (r: u8)
    ensures
        r == indicator_of(t),
{
    match t {
        PacketType::SNL => 0,
        PacketType::SL => 1,
        PacketType::DFN => 2,
        PacketType::DFL => 3,
        PacketType::DSS => 4,
        PacketType::DSF => 5,
        PacketType::DSM => 6,
        PacketType::DSL => 7,
        PacketType::SLFL => 8,
        PacketType::SLSL => 12,
    }
}

/// The tag of an indicator byte, or `None` when the byte encodes none.
pub fn try_packet_type(indicators: u8) -> (r: Option<PacketType>)
    ensures
        r == tag_of(indicators),
{
    match indicators {
        0 => Some(PacketType::SNL),
        1 => Some(PacketType::SL),
        2 => Some(PacketType::DFN),
        3 => Some(PacketType::DFL),
        4 => Some(PacketType::DSS),
        5 => Some(PacketType::DSF),
        6 => Some(PacketType::DSM),
        7 => Some(PacketType::DSL),
        8 => Some(PacketType::SLFL),
        12 => Some(PacketType::SLSL),
        _ => None,
    }
}

/// WMM access category of an IP type-of-service byte, from its three
/// precedence bits: 0 (voice) is served first, 3 (background) last.
pub open spec fn ac_of(tos: u8) -> usize {
    let bits = tos / 32;
    if bits == 1 || bits == 2 {
        3
    } else if bits == 0 || bits == 3 {
        2
    } else if bits == 4 || bits == 5 {
        1
    } else {
        0
    }
}

pub fn tos2ac(tos: u8) -> (r: usize)
    ensures
        r == ac_of(tos),
        r < 4,
{
    let ac_bits: u8 = tos / 32;
    match ac_bits {
        1 | 2 => 3,
        0 | 3 => 2,
        4 | 5 => 1,
        _ => 0,
    }
}

pub open spec fn le_u16(x: u16) -> Seq<u8> {
    seq![(x % 256) as u8, (x / 256) as u8]
}

pub open spec fn le_u32(x: u32) -> Seq<u8> {
    le_u16((x % 0x1_0000) as u16) + le_u16((x / 0x1_0000) as u16)
}

pub open spec fn le_u64(x: u64) -> Seq<u8> {
    le_u32((x % 0x1_0000_0000) as u32) + le_u32((x / 0x1_0000_0000) as u32)
}

pub open spec fn from_le_u16(s: Seq<u8>) -> u16 {
    (s[0] as int + 256 * s[1] as int) as u16
}

pub open spec fn from_le_u32(s: Seq<u8>) -> u32 {
    (from_le_u16(s.subrange(0, 2)) as int + 0x1_0000 * from_le_u16(s.subrange(2, 4)) as int) as u32
}

pub open spec fn from_le_u64(s: Seq<u8>) -> u64 {
    (from_le_u32(s.subrange(0, 4)) as int + 0x1_0000_0000 * from_le_u32(
        s.subrange(4, 8),
    ) as int) as u64
}

/// One fragment of a burst, or an acknowledgement of one.
#[derive(Clone, Debug)]
pub struct PacketStruct {
    pub seq: u32,
    pub offset: u16,
    pub length: u16,
    pub port: u16,
    pub indicators: u8,
    /// Bit pattern of the sender's wall-clock time; carried, never read.
    pub timestamp: u64,
    pub payload: Vec<u8>,
}

/// Mathematical model of a packet: its header fields and payload bytes.
pub struct PacketView {
    pub seq: u32,
    pub offset: u16,
    pub length: u16,
    pub port: u16,
    pub indicators: u8,
    pub timestamp: u64,
    pub payload: Seq<u8>,
}

impl View for PacketStruct {
    type V = PacketView;

    open spec fn view(&self) -> PacketView {
        PacketView {
            seq: self.seq,
            offset: self.offset,
            length: self.length,
            port: self.port,
            indicators: self.indicators,
            timestamp: self.timestamp,
            payload: self.payload@,
        }
    }
}

/// The wire form of a packet: header fields in order, then the first
/// `length` payload bytes.
pub open spec fn encode_spec(p: PacketView) -> Seq<u8> {
    le_u32(p.seq) + le_u16(p.offset) + le_u16(p.length) + le_u16(p.port) + seq![p.indicators]
        + le_u64(p.timestamp) + p.payload.subrange(0, p.length as int)
}

#[derive(Clone, Copy, Debug, PartialEq, Eq, Structural)]
pub enum DecodeError {
    /// Fewer bytes than a header.
    TooShort,
    /// The indicator byte encodes no tag.
    BadIndicator,
    /// The length field exceeds the largest payload.
    BadLength,
    /// Fewer payload bytes than the length field announces.
    Truncated,
}

pub open spec fn header_length_field(b: Seq<u8>) -> u16 {
    from_le_u16(b.subrange(6, 8))
}

/// What decoding a datagram gives.
pub open spec fn decode_spec(b: Seq<u8>) -> Result<PacketView, DecodeError> {
    if b.len() < APP_HEADER_LENGTH {
        Err(DecodeError::TooShort)
    } else if !is_indicator(b[10]) {
        Err(DecodeError::BadIndicator)
    } else if header_length_field(b) > MAX_PAYLOAD_LEN {
        Err(DecodeError::BadLength)
    } else if b.len() < APP_HEADER_LENGTH + header_length_field(b) {
        Err(DecodeError::Truncated)
    } else {
        Ok(
            PacketView {
                seq: from_le_u32(b.subrange(0, 4)),
                offset: from_le_u16(b.subrange(4, 6)),
                length: header_length_field(b),
                port: from_le_u16(b.subrange(8, 10)),
                indicators: b[10],
                timestamp: from_le_u64(b.subrange(11, 19)),
                payload: b.subrange(19, 19 + header_length_field(b)),
            },
        )
    }
}

/// A packet whose declared length fits its payload.
pub open spec fn packet_wf(p: PacketView) -> bool {
    p.length as int <= p.payload.len()
}

/// The payload that a fresh template carries: byte `i` is `i mod 256`.
pub open spec fn template_payload() -> Seq<u8> {
    Seq::new(MAX_PAYLOAD_LEN as nat, |i: int| (i % 256) as u8)
}

fn push_le_u16(out: &mut Vec<u8>, x: u16)
    ensures
        final(out)@ == old(out)@ + le_u16(x),
{
    out.push((x % 256) as u8);
    out.push((x / 256) as u8);
}

fn push_le_u32(out: &mut Vec<u8>, x: u32)
    ensures
        final(out)@ == old(out)@ + le_u32(x),
{
    push_le_u16(out, (x % 0x1_0000) as u16);
    push_le_u16(out, (x / 0x1_0000) as u16);
    assert(final(out)@ =~= old(out)@ + le_u32(x));
}

fn push_le_u64(out: &mut Vec<u8>, x: u64)
    ensures
        final(out)@ == old(out)@ + le_u64(x),
{
    push_le_u32(out, (x % 0x1_0000_0000) as u32);
    push_le_u32(out, (x / 0x1_0000_0000) as u32);
    assert(final(out)@ =~= old(out)@ + le_u64(x));
}

fn read_le_u16(b: &[u8], at: usize) -> (r: u16)
    requires
        at + 2 <= b@.len(),
    ensures
        r == from_le_u16(b@.subrange(at as int, at + 2)),
{
    (b[at] as u16 + 256 * (b[at + 1] as u16)) as u16
}

fn read_le_u32(b: &[u8], at: usize) -> (r: u32)
    requires
        at + 4 <= b@.len(),
    ensures
        r == from_le_u32(b@.subrange(at as int, at + 4)),
{
    let n = b.len();
    assert(at + 4 <= n);
    let lo = read_le_u16(b, at);
    let hi = read_le_u16(b, at + 2);
    assert(b@.subrange(at as int, at + 4).subrange(0, 2) =~= b@.subrange(at as int, at + 2));
    assert(b@.subrange(at as int, at + 4).subrange(2, 4) =~= b@.subrange(at + 2, at + 4));
    (lo as u32 + 0x1_0000 * (hi as u32)) as u32
}

fn read_le_u64(b: &[u8], at: usize) -> (r: u64)
    requires
        at + 8 <= b@.len(),
    ensures
        r == from_le_u64(b@.subrange(at as int, at + 8)),
{
    let n = b.len();
    assert(at + 8 <= n);
    let lo = read_le_u32(b, at);
    let hi = read_le_u32(b, at + 4);
    assert(b@.subrange(at as int, at + 8).subrange(0, 4) =~= b@.subrange(at as int, at + 4));
    assert(b@.subrange(at as int, at + 8).subrange(4, 8) =~= b@.subrange(at + 4, at + 8));
    (lo as u64 + 0x1_0000_0000 * (hi as u64)) as u64
}

impl PacketStruct {
    /// The template for a destination port: zero header fields and a
    /// full-size payload.
    pub open spec fn new_spec(port: u16) -> PacketView {
        PacketView {
            seq: 0,
            offset: 0,
            length: 0,
            port,
            indicators: 0,
            timestamp: 0,
            payload: template_payload(),
        }
    }

    pub fn new(port: u16) -> (r: Self)
        ensures
            r@ == Self::new_spec(port),
            packet_wf(r@),
    {
        let mut payload: Vec<u8> = Vec::with_capacity(MAX_PAYLOAD_LEN);
        let mut i: usize = 0;
        while i < MAX_PAYLOAD_LEN
            invariant
                i <= MAX_PAYLOAD_LEN,
                payload@.len() == i,
                forall|j: int| 0 <= j < i ==> payload@[j] == (j % 256) as u8,
            decreases MAX_PAYLOAD_LEN - i,
        {
            payload.push((i % 256) as u8);
            i = i + 1;
        }
        assert(payload@ =~= template_payload());
        PacketStruct { seq: 0, offset: 0, length: 0, port, indicators: 0, timestamp: 0, payload }
    }

    /// A copy with the same fields.
    pub fn duplicate(&self) -> (r: Self)
        ensures
            r@ == self@,
    {
        let mut payload: Vec<u8> = Vec::with_capacity(self.payload.len());
        let mut i: usize = 0;
        while i < self.payload.len()
            invariant
                i <= self.payload@.len(),
                payload@ == self.payload@.subrange(0, i as int),
            decreases self.payload@.len() - i,
        {
            payload.push(self.payload[i]);
            i = i + 1;
            assert(payload@ =~= self.payload@.subrange(0, i as int));
        }
        assert(payload@ =~= self.payload@);
        PacketStruct {
            seq: self.seq,
            offset: self.offset,
            length: self.length,
            port: self.port,
            indicators: self.indicators,
            timestamp: self.timestamp,
            payload,
        }
    }

    pub fn set_length(&mut self, length: u16)
        ensures
            *final(self) == (PacketStruct { length, ..*old(self) }),
    {
        self.length = length;
    }

    /// Starts the next burst: the sequence number advances (wrapping at
    /// 2^32) and the offset field records the burst's fragment count,
    /// `num` full fragments plus one for a remainder.
    pub fn next_seq(&mut self, num: usize, remains: usize)
        ensures
            final(self).seq == (old(self).seq + 1) % 0x1_0000_0000,
            final(self).offset == (if remains > 0 {
                num as int + 1
            } else {
                num as int
            }) % 0x1_0000,
            final(self).length == old(self).length,
            final(self).port == old(self).port,
            final(self).indicators == old(self).indicators,
            final(self).timestamp == old(self).timestamp,
            final(self).payload == old(self).payload,
    {
        self.seq = self.seq.wrapping_add(1);
        let n: usize = num % 0x1_0000;
        let m: usize = if remains > 0 {
            (n + 1) % 0x1_0000
        } else {
            n
        };
        self.offset = m as u16;
    }

    pub fn set_offset(&mut self, offset: u16)
        ensures
            *final(self) == (PacketStruct { offset, ..*old(self) }),
    {
        self.offset = offset;
    }

    pub fn set_indicator(&mut self, packet_type: PacketType)
        ensures
            *final(self) == (PacketStruct { indicators: indicator_of(packet_type), ..*old(self) }),
    {
        self.indicators = to_indicator(packet_type);
    }

    /// The tag of a valid indicator byte; a byte that encodes no tag is a
    /// protocol error that callers rule out first.
    pub fn get_packet_type(indicators: u8) -> (r: PacketType)
        requires
            is_indicator(indicators),
        ensures
            tag_of(indicators) == Some(r),
    {
        match try_packet_type(indicators) {
            Some(t) => t,
            None => PacketType::SNL,
        }
    }

    pub fn channel_info(indicator: u8) -> (r: u8)
        ensures
            r == channel_of(indicator),
            r < 2,
    {
        (indicator / 4) % 2
    }

    /// Parses a datagram, checking its size and its indicator.
    pub fn from_buffer(buffer: &[u8]) -> (r: Result<PacketStruct, DecodeError>)
        ensures
            match r {
                Ok(p) => decode_spec(buffer@) == Ok::<PacketView, DecodeError>(p@),
                Err(e) => decode_spec(buffer@) == Err::<PacketView, DecodeError>(e),
            },
    {
        if buffer.len() < APP_HEADER_LENGTH {
            return Err(DecodeError::TooShort);
        }
        let indicators = buffer[10];
        if try_packet_type(indicators).is_none() {
            return Err(DecodeError::BadIndicator);
        }
        let length = read_le_u16(buffer, 6);
        if length as usize > MAX_PAYLOAD_LEN {
            return Err(DecodeError::BadLength);
        }
        if buffer.len() < APP_HEADER_LENGTH + length as usize {
            return Err(DecodeError::Truncated);
        }
        let seq = read_le_u32(buffer, 0);
        let offset = read_le_u16(buffer, 4);
        let port = read_le_u16(buffer, 8);
        let timestamp = read_le_u64(buffer, 11);
        let end: usize = APP_HEADER_LENGTH + length as usize;
        let mut payload: Vec<u8> = Vec::with_capacity(length as usize);
        let mut i: usize = APP_HEADER_LENGTH;
        while i < end
            invariant
                APP_HEADER_LENGTH <= i <= end,
                end <= buffer@.len(),
                payload@ == buffer@.subrange(APP_HEADER_LENGTH as int, i as int),
            decreases end - i,
        {
            payload.push(buffer[i]);
            i = i + 1;
            assert(payload@ =~= buffer@.subrange(APP_HEADER_LENGTH as int, i as int));
        }
        Ok(PacketStruct { seq, offset, length, port, indicators, timestamp, payload })
    }

    /// The wire form: header, then the first `length` payload bytes.
    pub fn to_bytes(&self) -> (r: Vec<u8>)
        requires
            packet_wf(self@),
        ensures
            r@ == encode_spec(self@),
    {
        let mut out: Vec<u8> = Vec::with_capacity(APP_HEADER_LENGTH + self.length as usize);
        push_le_u32(&mut out, self.seq);
        push_le_u16(&mut out, self.offset);
        push_le_u16(&mut out, self.length);
        push_le_u16(&mut out, self.port);
        out.push(self.indicators);
        push_le_u64(&mut out, self.timestamp);
        let ghost header = out@;
        let mut i: usize = 0;
        while i < self.length as usize
            invariant
                packet_wf(self@),
                i <= self.length,
                out@ == header + self.payload@.subrange(0, i as int),
            decreases self.length - i,
        {
            out.push(self.payload[i]);
            i = i + 1;
            assert(out@ =~= header + self.payload@.subrange(0, i as int));
        }
        out
    }

    /// Copies `payload` over the start of this packet's payload.
    pub fn set_payload(&mut self, payload: &[u8])
        requires
            payload@.len() <= old(self).payload@.len(),
        ensures
            final(self).payload@ == payload@ + old(self).payload@.subrange(
                payload@.len() as int,
                old(self).payload@.len() as int,
            ),
            *final(self) == (PacketStruct { payload: final(self).payload, ..*old(self) }),
    {
        let mut i: usize = 0;
        while i < payload.len()
            invariant
                payload@.len() <= old(self).payload@.len(),
                i <= payload@.len(),
                self.payload@.len() == old(self).payload@.len(),
                forall|j: int| 0 <= j < i ==> self.payload@[j] == payload@[j],
                forall|j: int| i <= j < self.payload@.len() ==> self.payload@[j] == old(self).payload@[j],
                *self == (PacketStruct { payload: self.payload, ..*old(self) }),
            decreases payload@.len() - i,
        {
            self.payload.set(i, payload[i]);
            i = i + 1;
        }
        assert(self.payload@ =~= payload@ + old(self).payload@.subrange(
            payload@.len() as int,
            old(self).payload@.len() as int,
        ));
    }
}

/// Decoding an encoded packet gives back its header and the payload bytes
/// it sends.
pub proof fn lemma_decode_encode(p: PacketView)
    requires
        packet_wf(p),
        is_indicator(p.indicators),
        p.length <= MAX_PAYLOAD_LEN,
    ensures
        decode_spec(encode_spec(p)) == Ok::<PacketView, DecodeError>(
            PacketView { payload: p.payload.subrange(0, p.length as int), ..p },
        ),
{
    let b = encode_spec(p);
    assert(b.subrange(0, 4) =~= le_u32(p.seq));
    assert(b.subrange(4, 6) =~= le_u16(p.offset));
    assert(b.subrange(6, 8) =~= le_u16(p.length));
    assert(b.subrange(8, 10) =~= le_u16(p.port));
    assert(b.subrange(11, 19) =~= le_u64(p.timestamp));
    assert(b.subrange(19, 19 + p.length) =~= p.payload.subrange(0, p.length as int));
    assert(le_u32(p.seq).subrange(0, 2) =~= le_u16((p.seq % 0x1_0000) as u16));
    assert(le_u32(p.seq).subrange(2, 4) =~= le_u16((p.seq / 0x1_0000) as u16));
    let t = p.timestamp;
    let lo = (t % 0x1_0000_0000) as u32;
    let hi = (t / 0x1_0000_0000) as u32;
    assert(le_u64(t).subrange(0, 4) =~= le_u32(lo));
    assert(le_u64(t).subrange(4, 8) =~= le_u32(hi));
    assert(le_u32(lo).subrange(0, 2) =~= le_u16((lo % 0x1_0000) as u16));
    assert(le_u32(lo).subrange(2, 4) =~= le_u16((lo / 0x1_0000) as u16));
    assert(le_u32(hi).subrange(0, 2) =~= le_u16((hi % 0x1_0000) as u16));
    assert(le_u32(hi).subrange(2, 4) =~= le_u16((hi / 0x1_0000) as u16));
    assert(decode_spec(b).unwrap().payload =~= p.payload.subrange(0, p.length as int));
}

} // verus!
