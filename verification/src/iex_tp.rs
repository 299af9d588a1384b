//! IEX-TP segments: a fixed header, then a payload of length-prefixed messages.

use crate::time::utc_from_nanos;
use crate::error::{outcome, outcome_view, DecodeError};
use crate::utils::{
    le_i64, le_signed, le_u16, le_u32, le_unsigned, lemma_le_fits, lemma_le_signed_skip,
    lemma_le_unsigned_skip, tag, take, timestamp,
};
use chrono::NaiveDateTime;
use vstd::prelude::*;

verus! {

/// The version byte of the one segment layout that is known.
pub const VERSION_1: u8 = 1;

/// The length in bytes of a version 1 segment's header.
pub const HEADER_LEN: usize = 40;

/// A version 1 segment. The messages borrow from the buffer that was decoded.
#[derive(Clone, Debug)]
pub struct IexTp1Segment<'a> {
    pub message_protocol_id: u16,
    pub channel_id: u32,
    pub session_id: u32,
    pub send_time: NaiveDateTime,
    pub messages: Vec<&'a [u8]>,
    pub first_message_sequence_no: i64,
}

/// A version 1 segment with each message as a sequence of bytes.
pub struct IexTp1SegmentView {
    pub message_protocol_id: u16,
    pub channel_id: u32,
    pub session_id: u32,
    pub send_time: NaiveDateTime,
    pub messages: Seq<Seq<u8>>,
    pub first_message_sequence_no: i64,
}

/// The contents of borrowed messages.
pub open spec fn contents(messages: Seq<&[u8]>) -> Seq<Seq<u8>> {
    Seq::new(messages.len(), |i: int| messages[i]@)
}

impl<'a> View for IexTp1Segment<'a> {
    type V = IexTp1SegmentView;

    open spec fn view(&self) -> IexTp1SegmentView {
        IexTp1SegmentView {
            message_protocol_id: self.message_protocol_id,
            channel_id: self.channel_id,
            session_id: self.session_id,
            send_time: self.send_time,
            messages: contents(self.messages@),
            first_message_sequence_no: self.first_message_sequence_no,
        }
    }
}

/// The result of reading one framed message from the start of `bytes`: a 16-bit length,
/// least significant byte first, then that many bytes, which are the message.
pub open spec fn message_spec(bytes: Seq<u8>) -> Result<(Seq<u8>, Seq<u8>), DecodeError> {
    let end = 2 + le_unsigned(bytes, 0, 2);
    if bytes.len() < 2 || bytes.len() < end {
        Err(DecodeError::InsufficientBytes)
    } else {
        Ok((bytes.skip(end as int), bytes.subrange(2, end as int)))
    }
}

/// The result of reading `count` framed messages, one after the other, from the start of
/// `bytes`.
pub open spec fn messages_spec(bytes: Seq<u8>, count: nat) -> Result<
    (Seq<u8>, Seq<Seq<u8>>),
    DecodeError,
>
    decreases count,
{
    if count == 0 {
        Ok((bytes, Seq::empty()))
    } else {
        match messages_spec(bytes, (count - 1) as nat) {
            Err(e) => Err(e),
            Ok((rest, messages)) => match message_spec(rest) {
                Err(e) => Err(e),
                Ok((after, message)) => Ok((after, messages.push(message))),
            },
        }
    }
}

/// The number of payload bytes that messages occupy: for each message its 2-byte length
/// prefix and its bytes.
pub open spec fn framed_len(messages: Seq<Seq<u8>>) -> nat
    decreases messages.len(),
{
    if messages.len() == 0 {
        0
    } else {
        framed_len(messages.drop_last()) + 2 + messages.last().len()
    }
}

/// The payload length that a segment's header declares.
pub open spec fn declared_payload_len(bytes: Seq<u8>) -> nat {
    le_unsigned(bytes, 12, 2)
}

/// The message count that a segment's header declares.
pub open spec fn declared_message_count(bytes: Seq<u8>) -> nat {
    le_unsigned(bytes, 14, 2)
}

/// The result of reading one version 1 segment from the start of `bytes`: the version byte 1
/// and a reserved zero byte; protocol, channel and session; the payload length and the
/// message count; a stream offset that is not looked at; the sequence number of the first
/// message and the send time; then the payload, which must hold exactly the declared number
/// of messages and nothing else.
pub open spec fn segment_spec(bytes: Seq<u8>) -> Result<(Seq<u8>, IexTp1SegmentView), DecodeError> {
    let end = HEADER_LEN + declared_payload_len(bytes);
    if bytes.len() < 2 {
        Err(DecodeError::InsufficientBytes)
    } else if bytes[0] != VERSION_1 || bytes[1] != 0 {
        Err(DecodeError::InvalidEncoding)
    } else if bytes.len() < HEADER_LEN || bytes.len() < end {
        Err(DecodeError::InsufficientBytes)
    } else {
        match messages_spec(
            bytes.subrange(HEADER_LEN as int, end as int),
            declared_message_count(bytes),
        ) {
            Err(e) => Err(e),
            Ok((litter, messages)) => if litter.len() > 0 {
                Err(DecodeError::TrailingBytes)
            } else {
                Ok(
                    (
                        bytes.skip(end as int),
                        IexTp1SegmentView {
                            message_protocol_id: le_unsigned(bytes, 2, 2) as u16,
                            channel_id: le_unsigned(bytes, 4, 4) as u32,
                            session_id: le_unsigned(bytes, 8, 4) as u32,
                            send_time: utc_from_nanos(le_signed(bytes, 32, 8) as i64),
                            messages,
                            first_message_sequence_no: le_signed(bytes, 24, 8) as i64,
                        },
                    ),
                )
            },
        }
    }
}

/// Once reading messages has failed, asking for more messages fails in the same way.
pub proof fn lemma_messages_error_stays(bytes: Seq<u8>, count: nat, more: nat)
    requires
        count <= more,
        messages_spec(bytes, count) is Err,
    ensures
        messages_spec(bytes, more) == messages_spec(bytes, count),
    decreases more,
{
    if count < more {
        lemma_messages_error_stays(bytes, count, (more - 1) as nat);
    }
}

/// Messages that were read account for every byte in front of what is left, and there are
/// as many of them as were asked for.
pub proof fn lemma_messages_fill(bytes: Seq<u8>, count: nat)
    requires
        messages_spec(bytes, count) is Ok,
    ensures
        ({
            let (rest, messages) = messages_spec(bytes, count)->Ok_0;
            &&& messages.len() == count
            &&& framed_len(messages) + rest.len() == bytes.len()
            &&& rest == bytes.skip(framed_len(messages) as int)
        }),
    decreases count,
{
    if count > 0 {
        lemma_messages_fill(bytes, (count - 1) as nat);
        let (rest, messages) = messages_spec(bytes, (count - 1) as nat)->Ok_0;
        let (after, message) = message_spec(rest)->Ok_0;
        assert(messages.push(message).drop_last() =~= messages);
        assert(after =~= bytes.skip(framed_len(messages.push(message)) as int));
    } else {
        assert(bytes.skip(0) =~= bytes);
    }
}

/// Reads one framed message: a 16-bit length, then that many bytes.
pub fn iex_tp_1_message(input: &[u8]) -> (r: Result<(&[u8], &[u8]), DecodeError>)
    ensures
        outcome_view(r) == message_spec(input@),
{
    proof {
        lemma_le_fits(input@, 0);
    }
    let (body, length) = le_u16(input)?;
    let (rest, message) = take(length as usize, body)?;
    assert(rest@ =~= input@.skip(2 + length));
    assert(message@ =~= input@.subrange(2, 2 + length));
    Ok((rest, message))
}

/// Reads `count` framed messages, one after the other.
pub fn iex_tp_1_messages(count: u16, input: &[u8]) -> (r: Result<
    (&[u8], Vec<&[u8]>),
    DecodeError,
>)
    ensures
        match r {
            Ok((rest, messages)) => messages_spec(input@, count as nat) == Ok::<
                (Seq<u8>, Seq<Seq<u8>>),
                DecodeError,
            >((rest@, contents(messages@))),
            Err(e) => messages_spec(input@, count as nat) == Err::<
                (Seq<u8>, Seq<Seq<u8>>),
                DecodeError,
            >(e),
        },
{
    let mut messages: Vec<&[u8]> = Vec::new();
    let mut rest: &[u8] = input;
    let mut i: u16 = 0;
    assert(contents(messages@) =~= Seq::<Seq<u8>>::empty());
    while i < count
        invariant
            i <= count,
            messages_spec(input@, i as nat) == Ok::<(Seq<u8>, Seq<Seq<u8>>), DecodeError>(
                (rest@, contents(messages@)),
            ),
        decreases count - i,
    {
        match iex_tp_1_message(rest) {
            Err(e) => {
                proof {
                    lemma_messages_error_stays(input@, (i + 1) as nat, count as nat);
                }
                return Err(e);
            },
            Ok((after, message)) => {
                assert(contents(messages@.push(message)) =~= contents(messages@).push(
                    message@,
                ));
                messages.push(message);
                rest = after;
            },
        }
        i += 1;
    }
    Ok((rest, messages))
}

/// The fixed fields at the start of a version 1 segment.
#[derive(Clone, Copy, Debug)]
pub struct IexTp1Header {
    pub message_protocol_id: u16,
    pub channel_id: u32,
    pub session_id: u32,
    pub payload_length: u16,
    pub message_count: u16,
    pub first_message_sequence_no: i64,
    pub send_time: NaiveDateTime,
}

/// The result of reading the header of a version 1 segment from the start of `bytes`.
pub open spec fn header_spec(bytes: Seq<u8>) -> Result<(Seq<u8>, IexTp1Header), DecodeError> {
    if bytes.len() < 2 {
        Err(DecodeError::InsufficientBytes)
    } else if bytes[0] != VERSION_1 || bytes[1] != 0 {
        Err(DecodeError::InvalidEncoding)
    } else if bytes.len() < HEADER_LEN {
        Err(DecodeError::InsufficientBytes)
    } else {
        Ok(
            (
                bytes.skip(HEADER_LEN as int),
                IexTp1Header {
                    message_protocol_id: le_unsigned(bytes, 2, 2) as u16,
                    channel_id: le_unsigned(bytes, 4, 4) as u32,
                    session_id: le_unsigned(bytes, 8, 4) as u32,
                    payload_length: declared_payload_len(bytes) as u16,
                    message_count: declared_message_count(bytes) as u16,
                    first_message_sequence_no: le_signed(bytes, 24, 8) as i64,
                    send_time: utc_from_nanos(le_signed(bytes, 32, 8) as i64),
                },
            ),
        )
    }
}

/// Reads the header of a version 1 segment: the version byte and the reserved byte, which
/// must be 1 and 0, and the fixed fields that follow them.
pub fn iex_tp_1_header(input: &[u8]) -> (r: Result<(&[u8], IexTp1Header), DecodeError>)
    ensures
        outcome(r) == header_spec(input@),
{
    let prefix: [u8; 2] = [VERSION_1, 0];
    assert(input@.len() >= 2 && input@[0] == VERSION_1 && input@[1] == 0 ==> input@.take(2)
        =~= prefix@);
    assert(input@.len() >= 2 && input@.take(2) == prefix@ ==> input@.take(2)[0] == VERSION_1
        && input@.take(2)[1] == 0);
    let (input1, _) = tag(prefix.as_slice(), input)?;
    let (input2, message_protocol_id) = le_u16(input1)?;
    assert(input2@ =~= input@.skip(4));
    let (input3, channel_id) = le_u32(input2)?;
    assert(input3@ =~= input@.skip(8));
    let (input4, session_id) = le_u32(input3)?;
    assert(input4@ =~= input@.skip(12));
    let (input5, payload_length) = le_u16(input4)?;
    assert(input5@ =~= input@.skip(14));
    let (input6, message_count) = le_u16(input5)?;
    assert(input6@ =~= input@.skip(16));
    let (input7, _stream_offset) = le_i64(input6)?;
    assert(input7@ =~= input@.skip(24));
    let (input8, first_message_sequence_no) = le_i64(input7)?;
    assert(input8@ =~= input@.skip(32));
    let (input9, send_time) = timestamp(input8)?;
    assert(input9@ =~= input@.skip(40));
    proof {
        lemma_le_unsigned_skip(input@, 2, 0, 2);
        lemma_le_unsigned_skip(input@, 4, 0, 4);
        lemma_le_unsigned_skip(input@, 8, 0, 4);
        lemma_le_unsigned_skip(input@, 12, 0, 2);
        lemma_le_unsigned_skip(input@, 14, 0, 2);
        lemma_le_signed_skip(input@, 24, 0, 8);
        lemma_le_signed_skip(input@, 32, 0, 8);
    }
    Ok(
        (
            input9,
            IexTp1Header {
                message_protocol_id,
                channel_id,
                session_id,
                payload_length,
                message_count,
                first_message_sequence_no,
                send_time,
            },
        ),
    )
}

/// Reads one version 1 segment and returns it with the bytes that follow it. The payload
/// has to hold exactly the declared number of messages: bytes left over in it are an error.
pub fn iex_tp_1_segment(input: &[u8]) -> (r: Result<(&[u8], IexTp1Segment<'_>), DecodeError>)
    ensures
        outcome_view(r) == segment_spec(input@),
        r matches Ok((_, segment)) ==> {
            &&& segment@.messages.len() == declared_message_count(input@)
            &&& framed_len(segment@.messages) == declared_payload_len(input@)
        },
{
    proof {
        lemma_le_fits(input@, 12);
        lemma_le_fits(input@, 14);
    }
    let (body, header) = iex_tp_1_header(input)?;
    let (rest, payload) = take(header.payload_length as usize, body)?;
    assert(rest@ =~= input@.skip(HEADER_LEN + header.payload_length));
    assert(payload@ =~= input@.subrange(
        HEADER_LEN as int,
        HEADER_LEN + header.payload_length,
    ));
    let (litter, messages) = iex_tp_1_messages(header.message_count, payload)?;
    if litter.len() > 0 {
        return Err(DecodeError::TrailingBytes);
    }
    proof {
        lemma_messages_fill(payload@, header.message_count as nat);
    }
    Ok(
        (
            rest,
            IexTp1Segment {
                message_protocol_id: header.message_protocol_id,
                channel_id: header.channel_id,
                session_id: header.session_id,
                send_time: header.send_time,
                messages,
                first_message_sequence_no: header.first_message_sequence_no,
            },
        ),
    )
}

/// A segment of any known version.
#[derive(Debug)]
pub enum IexTpSegment<'a> {
    V1(IexTp1Segment<'a>),
}

/// A segment of any known version, with each message as a sequence of bytes.
pub enum IexTpSegmentView {
    V1(IexTp1SegmentView),
}

impl<'a> View for IexTpSegment<'a> {
    type V = IexTpSegmentView;

    open spec fn view(&self) -> IexTpSegmentView {
        match self {
            IexTpSegment::V1(segment) => IexTpSegmentView::V1(segment@),
        }
    }
}

/// The result of reading one segment from the start of `bytes`. Version 1 is the only
/// version there is; any other version byte is an encoding error.
pub open spec fn iex_tp_segment_spec(bytes: Seq<u8>) -> Result<
    (Seq<u8>, IexTpSegmentView),
    DecodeError,
> {
    match segment_spec(bytes) {
        Err(e) => Err(e),
        Ok((rest, segment)) => Ok((rest, IexTpSegmentView::V1(segment))),
    }
}

/// Reads one segment from the start of the input and returns it with the bytes that follow
/// it, which may hold further segments.
pub fn iex_tp_segment(input: &[u8]) -> (r: Result<(&[u8], IexTpSegment<'_>), DecodeError>)
    ensures
        outcome_view(r) == iex_tp_segment_spec(input@),
        r matches Ok((_, IexTpSegment::V1(segment))) ==> {
            &&& segment@.messages.len() == declared_message_count(input@)
            &&& framed_len(segment@.messages) == declared_payload_len(input@)
        },
{
    let (rest, segment) = iex_tp_1_segment(input)?;
    Ok((rest, IexTpSegment::V1(segment)))
}

/// Reading messages fails in one way only: the bytes run out.
pub proof fn lemma_messages_error_kind(bytes: Seq<u8>, count: nat)
    requires
        messages_spec(bytes, count) is Err,
    ensures
        messages_spec(bytes, count)->Err_0 == DecodeError::InsufficientBytes,
    decreases count,
{
    if count > 0 && messages_spec(bytes, (count - 1) as nat) is Err {
        lemma_messages_error_kind(bytes, (count - 1) as nat);
    }
}

/// Bytes appended to a buffer from which messages were read do not change the messages:
/// they are left over behind them.
pub proof fn lemma_messages_extend(bytes: Seq<u8>, extra: Seq<u8>, count: nat)
    requires
        messages_spec(bytes, count) is Ok,
    ensures
        messages_spec(bytes + extra, count) == Ok::<(Seq<u8>, Seq<Seq<u8>>), DecodeError>(
            (messages_spec(bytes, count)->Ok_0.0 + extra, messages_spec(bytes, count)->Ok_0.1),
        ),
    decreases count,
{
    if count > 0 {
        lemma_messages_extend(bytes, extra, (count - 1) as nat);
        let (rest, messages) = messages_spec(bytes, (count - 1) as nat)->Ok_0;
        let (after, message) = message_spec(rest)->Ok_0;
        let end = 2 + le_unsigned(rest, 0, 2);
        assert(le_unsigned(rest + extra, 0, 2) == le_unsigned(rest, 0, 2)) by {
            reveal_with_fuel(le_unsigned, 3);
        }
        assert((rest + extra).skip(end as int) =~= after + extra);
        assert((rest + extra).subrange(2, end as int) =~= message);
    } else {
        assert(bytes + extra =~= bytes + extra);
    }
}

/// In a segment that decodes, the messages with their 2-byte length prefixes fill the
/// payload exactly: their framed length is the payload length that the header declares, and
/// their number is the message count that it declares.
pub proof fn lemma_segment_payload_exact(bytes: Seq<u8>)
    requires
        segment_spec(bytes) is Ok,
    ensures
        framed_len(segment_spec(bytes)->Ok_0.1.messages) == declared_payload_len(bytes),
        segment_spec(bytes)->Ok_0.1.messages.len() == declared_message_count(bytes),
{
    let end = HEADER_LEN + declared_payload_len(bytes);
    lemma_messages_fill(bytes.subrange(HEADER_LEN as int, end as int), declared_message_count(bytes));
}

/// A segment whose declared payload length is changed no longer decodes. If `intact` is a
/// buffer that starts with a segment that decodes, and `changed` is the same buffer with
/// another payload length written into the header and nothing else touched, then decoding
/// `changed` fails, and it fails with `InsufficientBytes` or with `TrailingBytes`.
pub proof fn lemma_mismatched_length_fails(intact: Seq<u8>, changed: Seq<u8>)
    requires
        segment_spec(intact) is Ok,
        changed.len() == intact.len(),
        forall|i: int| 0 <= i < intact.len() && i != 12 && i != 13 ==> changed[i] == intact[i],
        declared_payload_len(changed) != declared_payload_len(intact),
    ensures
        segment_spec(changed) == Err::<(Seq<u8>, IexTp1SegmentView), DecodeError>(
            DecodeError::InsufficientBytes,
        ) || segment_spec(changed) == Err::<(Seq<u8>, IexTp1SegmentView), DecodeError>(
            DecodeError::TrailingBytes,
        ),
{
    let count = declared_message_count(intact);
    assert(declared_message_count(changed) == count) by {
        reveal_with_fuel(le_unsigned, 3);
    }
    let old_len = declared_payload_len(intact);
    let new_len = declared_payload_len(changed);
    let old_payload = intact.subrange(HEADER_LEN as int, HEADER_LEN + old_len);
    lemma_messages_fill(old_payload, count);
    if changed.len() >= HEADER_LEN + new_len {
        let new_payload = changed.subrange(HEADER_LEN as int, HEADER_LEN + new_len);
        if new_len > old_len {
            let extra = changed.subrange(HEADER_LEN + old_len, HEADER_LEN + new_len);
            assert(new_payload =~= old_payload + extra);
            lemma_messages_extend(old_payload, extra, count);
        } else {
            if messages_spec(new_payload, count) is Ok {
                let extra = intact.subrange(HEADER_LEN + new_len, HEADER_LEN + old_len);
                assert(old_payload =~= new_payload + extra);
                lemma_messages_extend(new_payload, extra, count);
            } else {
                lemma_messages_error_kind(new_payload, count);
            }
        }
    }
}

/// Decoding a segment is a function of the bytes alone: whatever two decodes of the same
/// bytes return, they return the same outcome, be it the same error or segments and
/// remainders with the same contents.
pub proof fn lemma_segment_decode_repeats(
    first: Result<(&[u8], IexTpSegment<'_>), DecodeError>,
    second: Result<(&[u8], IexTpSegment<'_>), DecodeError>,
    bytes: Seq<u8>,
)
    requires
        outcome_view(first) == iex_tp_segment_spec(bytes),
        outcome_view(second) == iex_tp_segment_spec(bytes),
    ensures
        outcome_view(first) == outcome_view(second),
{
}

} // verus!
