//! Binary wire format: an 8-variant tagged frame vocabulary with big-endian
//! integers and length-prefixed UTF-8 usernames.
//!
//! Every frame starts with a one-byte tag. [`spec_encode`] and [`spec_decode`]
//! give the format's mathematical definition; the executable [`BinaryMessage::encode`]
//! and [`BinaryMessage::decode`] are proved against them, and
//! [`lemma_encode_decode_roundtrip`] shows that decoding an encoded frame
//! returns the original message.

use vstd::prelude::*;
use vstd::slice::{slice_subrange, slice_to_vec};
use vstd::utf8::{decode_utf8, encode_utf8, valid_utf8};

verus! {

/// Client to server: cursor position update (7 bytes).
pub const MSG_CURSOR_UPDATE: u8 = 0x01;

/// Server to client: cursor position of a peer (8 bytes).
pub const MSG_CURSOR_BROADCAST: u8 = 0x02;

/// Client to server: join a board (4 to 36 bytes).
pub const MSG_JOIN: u8 = 0x03;

/// Client to server: leave a board (3 bytes).
pub const MSG_LEAVE: u8 = 0x04;

/// Server to client: a peer joined (8 to 40 bytes).
pub const MSG_USER_JOINED: u8 = 0x05;

/// Server to client: a peer left (4 bytes).
pub const MSG_USER_LEFT: u8 = 0x06;

/// Server to client: member count of a board (4 bytes).
pub const MSG_PRESENCE_UPDATE: u8 = 0x07;

/// Either direction: keepalive (1 byte).
pub const MSG_HEARTBEAT: u8 = 0x08;

/// Longest username the wire format carries, in UTF-8 bytes.
pub const MAX_USERNAME_LENGTH: usize = 32;

/// Decoding errors; encoding cannot fail for a well-formed message.
#[derive(Debug, Clone, PartialEq, Eq, Structural)]
pub enum ProtocolError {
    /// The first byte is not one of the known tags.
    UnknownMessageType(u8),
    /// A fixed-size frame arrived with the wrong byte count.
    InvalidLength { expected: usize, actual: usize },
    /// A username field is not valid UTF-8.
    InvalidUtf8,
    /// A username length prefix exceeds [`MAX_USERNAME_LENGTH`].
    UsernameTooLong(usize),
    /// The frame ended before a field was complete.
    BufferUnderflow,
}

/// The frame vocabulary. One variant per wire tag.
#[derive(Debug, Clone, PartialEq)]
pub enum BinaryMessage {
    /// `0x01`: tag, board_id(2), x(2), y(2).
    CursorUpdate { board_id: u16, x: u16, y: u16 },
    /// `0x02`: tag, board_id(2), user_id(1), x(2), y(2).
    CursorBroadcast { board_id: u16, user_id: u8, x: u16, y: u16 },
    /// `0x03`: tag, board_id(2), len(1), username(len).
    Join { board_id: u16, username: String },
    /// `0x04`: tag, board_id(2).
    Leave { board_id: u16 },
    /// `0x05`: tag, board_id(2), user_id(1), len(1), username(len), r, g, b.
    UserJoined { board_id: u16, user_id: u8, username: String, color: [u8; 3] },
    /// `0x06`: tag, board_id(2), user_id(1).
    UserLeft { board_id: u16, user_id: u8 },
    /// `0x07`: tag, board_id(2), count(1).
    PresenceUpdate { board_id: u16, count: u8 },
    /// `0x08`: tag only.
    Heartbeat,
}

/// Mathematical image of a [`BinaryMessage`]: usernames as character
/// sequences, colours as byte sequences.
pub enum MessageView {
    CursorUpdate { board_id: u16, x: u16, y: u16 },
    CursorBroadcast { board_id: u16, user_id: u8, x: u16, y: u16 },
    Join { board_id: u16, username: Seq<char> },
    Leave { board_id: u16 },
    UserJoined { board_id: u16, user_id: u8, username: Seq<char>, color: Seq<u8> },
    UserLeft { board_id: u16, user_id: u8 },
    PresenceUpdate { board_id: u16, count: u8 },
    Heartbeat,
}

impl View for BinaryMessage {
    type V = MessageView;

    open spec fn view(&self) -> MessageView {
        match *self {
            BinaryMessage::CursorUpdate { board_id, x, y } => MessageView::CursorUpdate {
                board_id,
                x,
                y,
            },
            BinaryMessage::CursorBroadcast { board_id, user_id, x, y } => {
                MessageView::CursorBroadcast { board_id, user_id, x, y }
            },
            BinaryMessage::Join { board_id, ref username } => MessageView::Join {
                board_id,
                username: username@,
            },
            BinaryMessage::Leave { board_id } => MessageView::Leave { board_id },
            BinaryMessage::UserJoined { board_id, user_id, ref username, ref color } => {
                MessageView::UserJoined { board_id, user_id, username: username@, color: color@ }
            },
            BinaryMessage::UserLeft { board_id, user_id } => MessageView::UserLeft {
                board_id,
                user_id,
            },
            BinaryMessage::PresenceUpdate { board_id, count } => MessageView::PresenceUpdate {
                board_id,
                count,
            },
            BinaryMessage::Heartbeat => MessageView::Heartbeat,
        }
    }
}

/// High byte of a big-endian 16-bit integer.
pub open spec fn u16_hi(x: u16) -> u8 {
    (x >> 8) as u8
}

/// Low byte of a big-endian 16-bit integer.
pub open spec fn u16_lo(x: u16) -> u8 {
    (x & 0xff) as u8
}

/// The two-byte big-endian image of a 16-bit integer.
pub open spec fn u16_be(x: u16) -> Seq<u8> {
    seq![u16_hi(x), u16_lo(x)]
}

/// The 16-bit integer read from two big-endian bytes.
pub open spec fn u16_of_be(b0: u8, b1: u8) -> u16 {
    ((b0 as u16) << 8) | (b1 as u16)
}

pub proof fn lemma_u16_be_roundtrip(x: u16)
    ensures
        u16_of_be(u16_hi(x), u16_lo(x)) == x,
        u16_hi(x) < 256 && u16_lo(x) < 256,
{
    assert((((((x >> 8) as u8) as u16) << 8) | (((x & 0xff) as u8) as u16)) == x) by (bit_vector);
}

/// Whether a message fits the wire format: usernames at most
/// [`MAX_USERNAME_LENGTH`] UTF-8 bytes, colours exactly three bytes.
pub open spec fn wire_valid(m: MessageView) -> bool {
    match m {
        MessageView::Join { username, .. } => encode_utf8(username).len() <= 32,
        MessageView::UserJoined { username, color, .. } => encode_utf8(username).len() <= 32
            && color.len() == 3,
        _ => true,
    }
}

/// The byte sequence a message encodes to.
pub open spec fn spec_encode(m: MessageView) -> Seq<u8> {
    match m {
        MessageView::CursorUpdate { board_id, x, y } => seq![MSG_CURSOR_UPDATE] + u16_be(board_id)
            + u16_be(x) + u16_be(y),
        MessageView::CursorBroadcast { board_id, user_id, x, y } => seq![MSG_CURSOR_BROADCAST]
            + u16_be(board_id) + seq![user_id] + u16_be(x) + u16_be(y),
        MessageView::Join { board_id, username } => seq![MSG_JOIN] + u16_be(board_id) + seq![
            encode_utf8(username).len() as u8,
        ] + encode_utf8(username),
        MessageView::Leave { board_id } => seq![MSG_LEAVE] + u16_be(board_id),
        MessageView::UserJoined { board_id, user_id, username, color } => seq![MSG_USER_JOINED]
            + u16_be(board_id) + seq![user_id, encode_utf8(username).len() as u8] + encode_utf8(
            username,
        ) + color,
        MessageView::UserLeft { board_id, user_id } => seq![MSG_USER_LEFT] + u16_be(board_id)
            + seq![user_id],
        MessageView::PresenceUpdate { board_id, count } => seq![MSG_PRESENCE_UPDATE] + u16_be(
            board_id,
        ) + seq![count],
        MessageView::Heartbeat => seq![MSG_HEARTBEAT],
    }
}

/// The message a byte sequence decodes to, or the error that rejects it.
/// Fixed-size variants demand an exact length; variable ones check the
/// length prefix and UTF-8 validity, and ignore trailing bytes as the wire
/// reader does.
pub open spec fn spec_decode(bytes: Seq<u8>) -> Result<MessageView, ProtocolError> {
    if bytes.len() == 0 {
        Err(ProtocolError::BufferUnderflow)
    } else if bytes[0] == MSG_CURSOR_UPDATE {
        if bytes.len() != 7 {
            Err(ProtocolError::InvalidLength { expected: 7, actual: bytes.len() as usize })
        } else {
            Ok(
                MessageView::CursorUpdate {
                    board_id: u16_of_be(bytes[1], bytes[2]),
                    x: u16_of_be(bytes[3], bytes[4]),
                    y: u16_of_be(bytes[5], bytes[6]),
                },
            )
        }
    } else if bytes[0] == MSG_CURSOR_BROADCAST {
        if bytes.len() != 8 {
            Err(ProtocolError::InvalidLength { expected: 8, actual: bytes.len() as usize })
        } else {
            Ok(
                MessageView::CursorBroadcast {
                    board_id: u16_of_be(bytes[1], bytes[2]),
                    user_id: bytes[3],
                    x: u16_of_be(bytes[4], bytes[5]),
                    y: u16_of_be(bytes[6], bytes[7]),
                },
            )
        }
    } else if bytes[0] == MSG_JOIN {
        if bytes.len() < 4 {
            Err(ProtocolError::InvalidLength { expected: 4, actual: bytes.len() as usize })
        } else {
            let n = bytes[3] as int;
            if n > 32 {
                Err(ProtocolError::UsernameTooLong(bytes[3] as usize))
            } else if bytes.len() < 4 + n {
                Err(ProtocolError::BufferUnderflow)
            } else {
                let name = bytes.subrange(4, 4 + n);
                if valid_utf8(name) {
                    Ok(
                        MessageView::Join {
                            board_id: u16_of_be(bytes[1], bytes[2]),
                            username: decode_utf8(name),
                        },
                    )
                } else {
                    Err(ProtocolError::InvalidUtf8)
                }
            }
        }
    } else if bytes[0] == MSG_LEAVE {
        if bytes.len() != 3 {
            Err(ProtocolError::InvalidLength { expected: 3, actual: bytes.len() as usize })
        } else {
            Ok(MessageView::Leave { board_id: u16_of_be(bytes[1], bytes[2]) })
        }
    } else if bytes[0] == MSG_USER_JOINED {
        if bytes.len() < 8 {
            Err(ProtocolError::InvalidLength { expected: 8, actual: bytes.len() as usize })
        } else {
            let n = bytes[4] as int;
            if n > 32 {
                Err(ProtocolError::UsernameTooLong(bytes[4] as usize))
            } else if bytes.len() < 5 + n + 3 {
                Err(ProtocolError::BufferUnderflow)
            } else {
                let name = bytes.subrange(5, 5 + n);
                if valid_utf8(name) {
                    Ok(
                        MessageView::UserJoined {
                            board_id: u16_of_be(bytes[1], bytes[2]),
                            user_id: bytes[3],
                            username: decode_utf8(name),
                            color: bytes.subrange(5 + n, 5 + n + 3),
                        },
                    )
                } else {
                    Err(ProtocolError::InvalidUtf8)
                }
            }
        }
    } else if bytes[0] == MSG_USER_LEFT {
        if bytes.len() != 4 {
            Err(ProtocolError::InvalidLength { expected: 4, actual: bytes.len() as usize })
        } else {
            Ok(
                MessageView::UserLeft {
                    board_id: u16_of_be(bytes[1], bytes[2]),
                    user_id: bytes[3],
                },
            )
        }
    } else if bytes[0] == MSG_PRESENCE_UPDATE {
        if bytes.len() != 4 {
            Err(ProtocolError::InvalidLength { expected: 4, actual: bytes.len() as usize })
        } else {
            Ok(
                MessageView::PresenceUpdate {
                    board_id: u16_of_be(bytes[1], bytes[2]),
                    count: bytes[3],
                },
            )
        }
    } else if bytes[0] == MSG_HEARTBEAT {
        if bytes.len() != 1 {
            Err(ProtocolError::InvalidLength { expected: 1, actual: bytes.len() as usize })
        } else {
            Ok(MessageView::Heartbeat)
        }
    } else {
        Err(ProtocolError::UnknownMessageType(bytes[0]))
    }
}

/// Decoding inverts encoding: every message that fits the wire format comes
/// back unchanged from its own bytes.
pub proof fn lemma_encode_decode_roundtrip(m: MessageView)
    requires
        wire_valid(m),
    ensures
        spec_decode(spec_encode(m)) == Ok::<MessageView, ProtocolError>(m),
{
    broadcast use vstd::utf8::encode_utf8_valid_utf8, vstd::utf8::encode_utf8_decode_utf8;

    let bytes = spec_encode(m);
    match m {
        MessageView::CursorUpdate { board_id, x, y } => {
            lemma_u16_be_roundtrip(board_id);
            lemma_u16_be_roundtrip(x);
            lemma_u16_be_roundtrip(y);
            assert(spec_decode(bytes) == Ok::<MessageView, ProtocolError>(m));
        },
        MessageView::CursorBroadcast { board_id, user_id, x, y } => {
            lemma_u16_be_roundtrip(board_id);
            lemma_u16_be_roundtrip(x);
            lemma_u16_be_roundtrip(y);
            assert(spec_decode(bytes) == Ok::<MessageView, ProtocolError>(m));
        },
        MessageView::Join { board_id, username } => {
            lemma_u16_be_roundtrip(board_id);
            let nb = encode_utf8(username);
            assert(bytes.len() == 4 + nb.len());
            assert(bytes[3] == nb.len() as u8);
            assert(bytes.subrange(4, 4 + nb.len() as int) =~= nb);
            assert(valid_utf8(nb));
            assert(decode_utf8(nb) == username);
            assert(spec_decode(bytes) == Ok::<MessageView, ProtocolError>(m));
        },
        MessageView::Leave { board_id } => {
            lemma_u16_be_roundtrip(board_id);
            assert(spec_decode(bytes) == Ok::<MessageView, ProtocolError>(m));
        },
        MessageView::UserJoined { board_id, user_id, username, color } => {
            lemma_u16_be_roundtrip(board_id);
            let nb = encode_utf8(username);
            let n = nb.len() as int;
            assert(bytes.len() == 8 + n);
            assert(bytes[4] == nb.len() as u8);
            assert(bytes.subrange(5, 5 + n) =~= nb);
            assert(bytes.subrange(5 + n, 5 + n + 3) =~= color);
            assert(valid_utf8(nb));
            assert(decode_utf8(nb) == username);
            assert(spec_decode(bytes) == Ok::<MessageView, ProtocolError>(m));
        },
        MessageView::UserLeft { board_id, user_id } => {
            lemma_u16_be_roundtrip(board_id);
            assert(spec_decode(bytes) == Ok::<MessageView, ProtocolError>(m));
        },
        MessageView::PresenceUpdate { board_id, count } => {
            lemma_u16_be_roundtrip(board_id);
            assert(spec_decode(bytes) == Ok::<MessageView, ProtocolError>(m));
        },
        MessageView::Heartbeat => {
            assert(spec_decode(bytes) == Ok::<MessageView, ProtocolError>(m));
        },
    }
}

/// Relies on `String::from_utf8`: returns the decoded string exactly when the
/// bytes are valid UTF-8, as vstd's UTF-8 model defines it.
#[verifier::external_body]
pub(crate) fn from_utf8_vec(v: Vec<u8>) -> (r: Option<String>)
    ensures
        (r is Some) == valid_utf8(v@),
        r matches Some(s) ==> s@ == decode_utf8(v@),
{
    String::from_utf8(v).ok()
}

/// Append the big-endian image of a 16-bit integer.
fn push_u16_be(buf: &mut Vec<u8>, x: u16)
    ensures
        final(buf)@ == old(buf)@ + u16_be(x),
{
    proof {
        lemma_u16_be_roundtrip(x);
    }
    buf.push((x >> 8) as u8);
    buf.push((x & 0xff) as u8);
    assert(final(buf)@ =~= old(buf)@ + u16_be(x));
}

/// Read a big-endian 16-bit integer at byte offset `i`.
fn read_u16(data: &[u8], i: usize) -> (r: u16)
    requires
        i + 2 <= data@.len(),
    ensures
        r == u16_of_be(data@[i as int], data@[i as int + 1]),
{
    let b0 = data[i];
    let b1 = data[i + 1];
    ((b0 as u16) << 8) | (b1 as u16)
}

/// Read one byte at offset `i`.
fn read_u8(data: &[u8], i: usize) -> (r: u8)
    requires
        i < data@.len(),
    ensures
        r == data@[i as int],
{
    data[i]
}

/// Read `n` bytes at offset `start` as a UTF-8 string.
fn read_string(data: &[u8], start: usize, n: usize) -> (r: Option<String>)
    requires
        start + n <= data@.len(),
    ensures
        (r is Some) == valid_utf8(data@.subrange(start as int, start as int + n as int)),
        r matches Some(s) ==> s@ == decode_utf8(
            data@.subrange(start as int, start as int + n as int),
        ),
{
    let _total = data.len();
    let sub = slice_subrange(data, start, start + n);
    from_utf8_vec(slice_to_vec(sub))
}

/// Read the three colour bytes at offset `i`.
fn read_color(data: &[u8], i: usize) -> (r: [u8; 3])
    requires
        i + 3 <= data@.len(),
    ensures
        r@ == data@.subrange(i as int, i as int + 3),
{
    let r: [u8; 3] = [data[i], data[i + 1], data[i + 2]];
    assert(r@ =~= data@.subrange(i as int, i as int + 3));
    r
}

impl BinaryMessage {
    /// Whether this message fits the wire format (usernames at most
    /// [`MAX_USERNAME_LENGTH`] UTF-8 bytes).
    pub fn is_wire_valid(&self) -> (r: bool)
        ensures
            r == wire_valid(self@),
    {
        match self {
            BinaryMessage::Join { username, .. } => {
                username.as_str().as_bytes().len() <= MAX_USERNAME_LENGTH
            },
            BinaryMessage::UserJoined { username, color, .. } => {
                assert(color@.len() == 3);
                username.as_str().as_bytes().len() <= MAX_USERNAME_LENGTH
            },
            _ => true,
        }
    }

    /// Encode this message into its wire bytes.
    pub fn encode(&self) -> (r: Vec<u8>)
        requires
            wire_valid(self@),
        ensures
            r@ == spec_encode(self@),
    {
        let mut buf: Vec<u8> = Vec::new();
        match self {
            BinaryMessage::CursorUpdate { board_id, x, y } => {
                buf.push(MSG_CURSOR_UPDATE);
                push_u16_be(&mut buf, *board_id);
                push_u16_be(&mut buf, *x);
                push_u16_be(&mut buf, *y);
                assert(buf@ =~= spec_encode(self@));
            },
            BinaryMessage::CursorBroadcast { board_id, user_id, x, y } => {
                buf.push(MSG_CURSOR_BROADCAST);
                push_u16_be(&mut buf, *board_id);
                buf.push(*user_id);
                push_u16_be(&mut buf, *x);
                push_u16_be(&mut buf, *y);
                assert(buf@ =~= spec_encode(self@));
            },
            BinaryMessage::Join { board_id, username } => {
                buf.push(MSG_JOIN);
                push_u16_be(&mut buf, *board_id);
                let bs = username.as_str().as_bytes();
                buf.push(bs.len() as u8);
                let mut tail = slice_to_vec(bs);
                buf.append(&mut tail);
                assert(buf@ =~= spec_encode(self@));
            },
            BinaryMessage::Leave { board_id } => {
                buf.push(MSG_LEAVE);
                push_u16_be(&mut buf, *board_id);
                assert(buf@ =~= spec_encode(self@));
            },
            BinaryMessage::UserJoined { board_id, user_id, username, color } => {
                buf.push(MSG_USER_JOINED);
                push_u16_be(&mut buf, *board_id);
                buf.push(*user_id);
                let bs = username.as_str().as_bytes();
                buf.push(bs.len() as u8);
                let mut tail = slice_to_vec(bs);
                buf.append(&mut tail);
                buf.push(color[0]);
                buf.push(color[1]);
                buf.push(color[2]);
                assert(buf@ =~= spec_encode(self@));
            },
            BinaryMessage::UserLeft { board_id, user_id } => {
                buf.push(MSG_USER_LEFT);
                push_u16_be(&mut buf, *board_id);
                buf.push(*user_id);
                assert(buf@ =~= spec_encode(self@));
            },
            BinaryMessage::PresenceUpdate { board_id, count } => {
                buf.push(MSG_PRESENCE_UPDATE);
                push_u16_be(&mut buf, *board_id);
                buf.push(*count);
                assert(buf@ =~= spec_encode(self@));
            },
            BinaryMessage::Heartbeat => {
                buf.push(MSG_HEARTBEAT);
                assert(buf@ =~= spec_encode(self@));
            },
        }
        buf
    }

    /// Decode wire bytes into a message; the result agrees with
    /// [`spec_decode`] on both success and failure.
    pub fn decode(data: &[u8]) -> (r: Result<BinaryMessage, ProtocolError>)
        ensures
            (r is Ok) == (spec_decode(data@) is Ok),
            r matches Ok(m) ==> m@ == spec_decode(data@)->Ok_0,
            r matches Err(e) ==> e == spec_decode(data@)->Err_0,
    {
        if data.len() == 0 {
            return Err(ProtocolError::BufferUnderflow);
        }
        let tag = read_u8(data, 0);
        if tag == MSG_CURSOR_UPDATE {
            if data.len() != 7 {
                return Err(ProtocolError::InvalidLength { expected: 7, actual: data.len() });
            }
            Ok(
                BinaryMessage::CursorUpdate {
                    board_id: read_u16(data, 1),
                    x: read_u16(data, 3),
                    y: read_u16(data, 5),
                },
            )
        } else if tag == MSG_CURSOR_BROADCAST {
            if data.len() != 8 {
                return Err(ProtocolError::InvalidLength { expected: 8, actual: data.len() });
            }
            Ok(
                BinaryMessage::CursorBroadcast {
                    board_id: read_u16(data, 1),
                    user_id: read_u8(data, 3),
                    x: read_u16(data, 4),
                    y: read_u16(data, 6),
                },
            )
        } else if tag == MSG_JOIN {
            if data.len() < 4 {
                return Err(ProtocolError::InvalidLength { expected: 4, actual: data.len() });
            }
            let n = read_u8(data, 3) as usize;
            if n > MAX_USERNAME_LENGTH {
                return Err(ProtocolError::UsernameTooLong(n));
            }
            if data.len() < 4 + n {
                return Err(ProtocolError::BufferUnderflow);
            }
            match read_string(data, 4, n) {
                Some(username) => Ok(
                    BinaryMessage::Join { board_id: read_u16(data, 1), username },
                ),
                None => Err(ProtocolError::InvalidUtf8),
            }
        } else if tag == MSG_LEAVE {
            if data.len() != 3 {
                return Err(ProtocolError::InvalidLength { expected: 3, actual: data.len() });
            }
            Ok(BinaryMessage::Leave { board_id: read_u16(data, 1) })
        } else if tag == MSG_USER_JOINED {
            if data.len() < 8 {
                return Err(ProtocolError::InvalidLength { expected: 8, actual: data.len() });
            }
            let n = read_u8(data, 4) as usize;
            if n > MAX_USERNAME_LENGTH {
                return Err(ProtocolError::UsernameTooLong(n));
            }
            if data.len() < 5 + n + 3 {
                return Err(ProtocolError::BufferUnderflow);
            }
            match read_string(data, 5, n) {
                Some(username) => Ok(
                    BinaryMessage::UserJoined {
                        board_id: read_u16(data, 1),
                        user_id: read_u8(data, 3),
                        username,
                        color: read_color(data, 5 + n),
                    },
                ),
                None => Err(ProtocolError::InvalidUtf8),
            }
        } else if tag == MSG_USER_LEFT {
            if data.len() != 4 {
                return Err(ProtocolError::InvalidLength { expected: 4, actual: data.len() });
            }
            Ok(BinaryMessage::UserLeft { board_id: read_u16(data, 1), user_id: read_u8(data, 3) })
        } else if tag == MSG_PRESENCE_UPDATE {
            if data.len() != 4 {
                return Err(ProtocolError::InvalidLength { expected: 4, actual: data.len() });
            }
            Ok(
                BinaryMessage::PresenceUpdate {
                    board_id: read_u16(data, 1),
                    count: read_u8(data, 3),
                },
            )
        } else if tag == MSG_HEARTBEAT {
            if data.len() != 1 {
                return Err(ProtocolError::InvalidLength { expected: 1, actual: data.len() });
            }
            Ok(BinaryMessage::Heartbeat)
        } else {
            Err(ProtocolError::UnknownMessageType(tag))
        }
    }

    /// A copy of this message with the same view.
    pub fn duplicate(&self) -> (r: Self)
        ensures
            r@ == self@,
    {
        match self {
            BinaryMessage::CursorUpdate { board_id, x, y } => BinaryMessage::CursorUpdate {
                board_id: *board_id,
                x: *x,
                y: *y,
            },
            BinaryMessage::CursorBroadcast { board_id, user_id, x, y } => {
                BinaryMessage::CursorBroadcast {
                    board_id: *board_id,
                    user_id: *user_id,
                    x: *x,
                    y: *y,
                }
            },
            BinaryMessage::Join { board_id, username } => BinaryMessage::Join {
                board_id: *board_id,
                username: username.clone(),
            },
            BinaryMessage::Leave { board_id } => BinaryMessage::Leave { board_id: *board_id },
            BinaryMessage::UserJoined { board_id, user_id, username, color } => {
                let c: [u8; 3] = [color[0], color[1], color[2]];
                proof {
                    assert(c@ =~= color@);
                }
                BinaryMessage::UserJoined {
                    board_id: *board_id,
                    user_id: *user_id,
                    username: username.clone(),
                    color: c,
                }
            },
            BinaryMessage::UserLeft { board_id, user_id } => BinaryMessage::UserLeft {
                board_id: *board_id,
                user_id: *user_id,
            },
            BinaryMessage::PresenceUpdate { board_id, count } => BinaryMessage::PresenceUpdate {
                board_id: *board_id,
                count: *count,
            },
            BinaryMessage::Heartbeat => BinaryMessage::Heartbeat,
        }
    }
}

/// Stateless codec pairing [`BinaryMessage::encode`] and
/// [`BinaryMessage::decode`] for use at a connection boundary.
#[derive(Debug, Clone)]
pub struct BinaryCodec;

impl BinaryCodec {
    /// A new codec value.
    pub fn new() -> (r: Self) {
        BinaryCodec
    }

    /// Encode a message, or refuse one that does not fit the wire format.
    pub fn encode(&self, message: &BinaryMessage) -> (r: Option<Vec<u8>>)
        ensures
            wire_valid(message@) ==> (r matches Some(v) && v@ == spec_encode(message@)),
            !wire_valid(message@) ==> r is None,
    {
        if message.is_wire_valid() {
            Some(message.encode())
        } else {
            None
        }
    }

    /// Decode wire bytes; agrees with [`spec_decode`].
    pub fn decode(&self, data: &[u8]) -> (r: Result<BinaryMessage, ProtocolError>)
        ensures
            (r is Ok) == (spec_decode(data@) is Ok),
            r matches Ok(m) ==> m@ == spec_decode(data@)->Ok_0,
            r matches Err(e) ==> e == spec_decode(data@)->Err_0,
    {
        BinaryMessage::decode(data)
    }
}

impl Default for BinaryCodec {
    /// Same value as [`BinaryCodec::new`].
    fn default() -> (r: Self) {
        BinaryCodec
    }
}

} // verus!
