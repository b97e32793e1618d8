//! How messages are laid out on a connection: each one is preceded by the
//! number of its bytes, as four bytes, the least significant first.

use vstd::prelude::*;

use crate::message::Message;

verus! {

/// The number of bytes in front of a message's own.
pub const PREFIX_LEN: usize = 4;

/// The four bytes that stand for `length`, the least significant first.
pub open spec fn length_prefix(length: nat) -> Seq<u8> {
    seq![
        (length % 256) as u8,
        (length / 256 % 256) as u8,
        (length / 65536 % 256) as u8,
        (length / 16777216 % 256) as u8,
    ]
}

/// The length that the first four bytes of `bytes` stand for.
pub open spec fn prefixed_length(bytes: Seq<u8>) -> nat {
    (bytes[0] + 256 * bytes[1] + 65536 * bytes[2] + 16777216 * bytes[3]) as nat
}

/// The bytes that carry a message whose serialized form is `payload`.
pub open spec fn frame(payload: Seq<u8>) -> Seq<u8> {
    length_prefix(payload.len()) + payload
}

/// A message's serialized form does not fit its length prefix.
#[derive(Clone, Copy, Debug, PartialEq, Eq, Structural)]
pub struct PayloadTooLong;

/// How far a message has been read.
#[derive(Debug, PartialEq, Eq)]
pub enum ReadProgress {
    /// This many more bytes have to be read.
    Missing(usize),
    /// The message has been read: its serialized form.
    Payload(Vec<u8>),
}

/// How far a message has been read.
pub enum ReadProgressView {
    /// This many more bytes have to be read.
    Missing(nat),
    /// The message has been read: its serialized form.
    Payload(Seq<u8>),
}

impl View for ReadProgress {
    type V = ReadProgressView;

    open spec fn view(&self) -> ReadProgressView {
        match self {
            ReadProgress::Missing(count) => ReadProgressView::Missing(*count as nat),
            ReadProgress::Payload(payload) => ReadProgressView::Payload(payload@),
        }
    }
}

/// How far a message has been read once `received` has come in: first the
/// prefix is completed, then as many bytes are read as it says.
pub open spec fn read_progress(received: Seq<u8>) -> ReadProgressView {
    if received.len() < PREFIX_LEN {
        ReadProgressView::Missing((PREFIX_LEN - received.len()) as nat)
    } else {
        let length = prefixed_length(received);
        let held = (received.len() - PREFIX_LEN) as nat;
        if held < length {
            ReadProgressView::Missing((length - held) as nat)
        } else {
            ReadProgressView::Payload(received.subrange(PREFIX_LEN as int, PREFIX_LEN + length))
        }
    }
}

impl Message {
    /// Says what the bytes `received` of a connection, from the start of a
    /// message on, amount to: either the serialized message, or the number of
    /// bytes to read before asking again.
    pub fn read(received: &[u8]) -> (res: ReadProgress)
        ensures
            res@ == read_progress(received@),
    {
        let received_len: usize = received.len();
        if received_len < PREFIX_LEN {
            return ReadProgress::Missing(PREFIX_LEN - received_len);
        }
        let length: u32 = received[0] as u32 + 256 * received[1] as u32 + 65536
            * received[2] as u32 + 16777216 * received[3] as u32;
        let length: usize = length as usize;
        let held: usize = received_len - PREFIX_LEN;
        if held < length {
            return ReadProgress::Missing(length - held);
        }
        let mut payload: Vec<u8> = Vec::new();
        let end: usize = PREFIX_LEN + length;
        let mut at: usize = PREFIX_LEN;
        while at < end
            invariant
                PREFIX_LEN <= at <= end <= received@.len(),
                payload@ == received@.subrange(PREFIX_LEN as int, at as int),
            decreases end - at,
        {
            payload.push(received[at]);
            at += 1;
        }
        ReadProgress::Payload(payload)
    }

    /// Returns the bytes that stand for the length of a message.
    ///
    /// # Errors
    ///
    /// Returns an error if `length` does not fit a `u32`.
    pub fn prefix(length: usize) -> (res: Result<Vec<u8>, PayloadTooLong>)
        ensures
            res is Ok <==> length <= u32::MAX,
            res matches Ok(bytes) ==> bytes@ == length_prefix(length as nat),
    {
        let length: u32 = match u32::try_from(length) {
            Ok(length) => length,
            Err(_) => return Err(PayloadTooLong),
        };
        let mut bytes: Vec<u8> = Vec::new();
        bytes.push((length % 256) as u8);
        bytes.push((length / 256 % 256) as u8);
        bytes.push((length / 65536 % 256) as u8);
        bytes.push((length / 16777216 % 256) as u8);
        assert(bytes@ =~= length_prefix(length as nat));
        Ok(bytes)
    }

    /// Returns the bytes to send for a message whose serialized form is
    /// `payload`.
    ///
    /// # Errors
    ///
    /// Returns an error if `payload` has more bytes than fit a `u32`.
    pub fn write(payload: &[u8]) -> (res: Result<Vec<u8>, PayloadTooLong>)
        ensures
            res is Ok <==> payload@.len() <= u32::MAX,
            res matches Ok(bytes) ==> bytes@ == frame(payload@),
    {
        match Message::prefix(payload.len()) {
            Ok(mut bytes) => {
                bytes.extend_from_slice(payload);
                assert(bytes@ =~= frame(payload@));
                Ok(bytes)
            },
            Err(error) => Err(error),
        }
    }
}

/// What is written is read back, and no byte beyond it: once the bytes of a
/// frame have come in, whatever `rest` follows them, the payload is read, and
/// `rest` is what is left.
pub proof fn written_message_is_read_back(payload: Seq<u8>, rest: Seq<u8>)
    requires
        payload.len() <= u32::MAX,
    ensures
        read_progress(frame(payload) + rest) == ReadProgressView::Payload(payload),
        (frame(payload) + rest).skip((PREFIX_LEN + payload.len()) as int) == rest,
{
    let bytes = frame(payload) + rest;
    prefix_stands_for_its_length(payload.len());
    assert(prefixed_length(bytes) == prefixed_length(length_prefix(payload.len())));
    assert(bytes.subrange(PREFIX_LEN as int, (PREFIX_LEN + payload.len()) as int) =~= payload);
    assert(bytes.skip((PREFIX_LEN + payload.len()) as int) =~= rest);
}

/// While a frame is incomplete more bytes are asked for, at least one and
/// never more than the frame has left.
pub proof fn reading_stays_within_the_frame(payload: Seq<u8>, received: int)
    requires
        payload.len() <= u32::MAX,
        0 <= received < PREFIX_LEN + payload.len(),
    ensures
        read_progress(frame(payload).take(received)) matches ReadProgressView::Missing(count)
            && 0 < count <= PREFIX_LEN + payload.len() - received,
{
    prefix_stands_for_its_length(payload.len());
    let bytes = frame(payload).take(received);
    if PREFIX_LEN <= received {
        assert(prefixed_length(bytes) == prefixed_length(length_prefix(payload.len())));
    }
}

/// The length prefix stands for the length that it was made of.
pub proof fn prefix_stands_for_its_length(length: nat)
    requires
        length <= u32::MAX,
    ensures
        prefixed_length(length_prefix(length)) == length,
{
}

/// A frame is the length of its payload, in four bytes, the least significant
/// first, and then the payload.
pub proof fn frame_is_length_then_payload(payload: Seq<u8>)
    requires
        payload.len() <= u32::MAX,
    ensures
        frame(payload).len() == 4 + payload.len(),
        frame(payload)[0] + 256 * frame(payload)[1] + 65536 * frame(payload)[2] + 16777216
            * frame(payload)[3] == payload.len(),
        forall|i: int| 0 <= i < payload.len() ==> #[trigger] payload[i] == frame(payload)[4 + i],
        length_prefix(payload.len()) == frame(payload).take(4),
{
    prefix_stands_for_its_length(payload.len());
    assert(length_prefix(payload.len()) =~= frame(payload).take(4));
}

/// The four bytes in front of a message stand for its length, each for 256 times
/// what the one before it does.
pub proof fn prefix_spells_the_length(length: nat)
    requires
        length <= u32::MAX,
    ensures
        length_prefix(length).len() == 4,
        length_prefix(length)[0] + 256 * length_prefix(length)[1] + 65536 * length_prefix(length)[2]
            + 16777216 * length_prefix(length)[3] == length,
{
}

/// Reading completes the four bytes of the length first, and then as many bytes
/// as they say: it asks for exactly those that are missing, and gives exactly
/// those that follow the length, in order.
pub proof fn reading_takes_the_length_first(received: Seq<u8>)
    ensures
        received.len() < 4 ==> read_progress(received) == ReadProgressView::Missing(
            (4 - received.len()) as nat,
        ),
        received.len() >= 4 ==> {
            let length = received[0] + 256 * received[1] + 65536 * received[2] + 16777216
                * received[3];
            &&& received.len() < 4 + length ==> read_progress(received)
                == ReadProgressView::Missing((4 + length - received.len()) as nat)
            &&& received.len() >= 4 + length ==> {
                &&& read_progress(received) matches ReadProgressView::Payload(payload)
                &&& payload.len() == length
                &&& forall|i: int|
                    0 <= i < length ==> #[trigger] payload[i] == received[4 + i]
            }
        },
{
}

/// How far a message has been read is what the progress holds.
pub proof fn progress_says_what_it_holds(count: usize, payload: Vec<u8>)
    ensures
        ReadProgress::Missing(count)@ == ReadProgressView::Missing(count as nat),
        ReadProgress::Payload(payload)@ == ReadProgressView::Payload(payload@),
{
}

} // verus!
