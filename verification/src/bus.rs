//! Inter-instance bus: the instance-tagged envelope that carries codec
//! frames between sibling instances, and the channel naming scheme.
//!
//! The envelope is a self-describing binary wrapper: a two-byte big-endian
//! length, the sender's instance identity in UTF-8, then the codec frame
//! bytes untouched. [`lemma_envelope_roundtrip`] shows that decoding an
//! encoded envelope returns the original identity and payload. The broker
//! connection itself lives outside the library; it only carries the bytes
//! built here.

use crate::codec::{
    spec_decode, spec_encode, u16_be, u16_of_be, wire_valid, BinaryMessage, ProtocolError,
};
use vstd::prelude::*;
use vstd::slice::{slice_subrange, slice_to_vec};
use vstd::string::StringExecFns;
use vstd::utf8::{decode_utf8, encode_utf8, valid_utf8};

verus! {

/// Errors of the bus adapter. The broker's own failures reach the library
/// as text; the envelope codec reports malformed envelopes.
#[derive(Debug)]
pub enum RedisError {
    /// The broker connection failed, or an envelope could not be read.
    ConnectionError(String),
    /// The broker URL did not parse.
    UrlParseError(String),
    /// The broker answered a liveness probe incorrectly.
    HealthCheckFailed(String),
}

/// The byte image of an envelope: identity length, identity, payload.
pub open spec fn spec_envelope_encode(instance_id: Seq<char>, payload: Seq<u8>) -> Seq<u8> {
    u16_be(encode_utf8(instance_id).len() as u16) + encode_utf8(instance_id) + payload
}

/// The envelope a byte sequence decodes to, if it is well-formed.
pub open spec fn spec_envelope_decode(bytes: Seq<u8>) -> Option<(Seq<char>, Seq<u8>)> {
    if bytes.len() < 2 {
        None
    } else {
        let n = u16_of_be(bytes[0], bytes[1]) as int;
        if bytes.len() < 2 + n {
            None
        } else {
            let id_bytes = bytes.subrange(2, 2 + n);
            if valid_utf8(id_bytes) {
                Some((decode_utf8(id_bytes), bytes.skip(2 + n)))
            } else {
                None
            }
        }
    }
}

/// Decoding inverts encoding for every identity the length prefix can
/// carry.
pub proof fn lemma_envelope_roundtrip(instance_id: Seq<char>, payload: Seq<u8>)
    requires
        encode_utf8(instance_id).len() <= 65535,
    ensures
        spec_envelope_decode(spec_envelope_encode(instance_id, payload)) == Some(
            (instance_id, payload),
        ),
{
    broadcast use vstd::utf8::encode_utf8_valid_utf8, vstd::utf8::encode_utf8_decode_utf8;

    let idb = encode_utf8(instance_id);
    let bytes = spec_envelope_encode(instance_id, payload);
    crate::codec::lemma_u16_be_roundtrip(idb.len() as u16);
    assert(bytes.len() == 2 + idb.len() + payload.len());
    assert(u16_of_be(bytes[0], bytes[1]) == idb.len() as u16);
    assert(bytes.subrange(2, 2 + idb.len() as int) =~= idb);
    assert(bytes.skip(2 + idb.len() as int) =~= payload);
    assert(valid_utf8(idb));
    assert(decode_utf8(idb) == instance_id);
}

/// The instance-tagged wrapper a codec frame travels in on the bus.
#[derive(Debug, Clone)]
pub struct RedisMessage {
    /// Identity of the instance that published the frame; receivers drop
    /// their own envelopes.
    pub instance_id: String,
    /// The codec frame, byte for byte.
    pub payload: Vec<u8>,
}

impl RedisMessage {
    /// Wrap a frame for publication under this instance's identity.
    pub fn new(instance_id: String, message: &BinaryMessage) -> (r: Self)
        requires
            wire_valid(message@),
        ensures
            r.instance_id@ == instance_id@,
            r.payload@ == spec_encode(message@),
    {
        let payload = message.encode();
        RedisMessage { instance_id, payload }
    }

    /// Serialise the envelope for the broker. Fails only when the identity
    /// does not fit the two-byte length prefix.
    pub fn encode(&self) -> (r: Result<Vec<u8>, RedisError>)
        ensures
            encode_utf8(self.instance_id@).len() <= 65535 ==> (r matches Ok(v) && v@
                == spec_envelope_encode(self.instance_id@, self.payload@)),
            encode_utf8(self.instance_id@).len() > 65535 ==> (r matches Err(e)
                && e is ConnectionError),
    {
        let idb = self.instance_id.as_str().as_bytes();
        if idb.len() > 65535 {
            return Err(RedisError::ConnectionError(String::from_str(
                "instance identity too long for the envelope",
            )));
        }
        let n = idb.len() as u16;
        let mut out: Vec<u8> = Vec::new();
        proof {
            crate::codec::lemma_u16_be_roundtrip(n);
        }
        out.push((n >> 8) as u8);
        out.push((n & 0xff) as u8);
        let mut idv = slice_to_vec(idb);
        out.append(&mut idv);
        let mut pv = slice_to_vec(self.payload.as_slice());
        out.append(&mut pv);
        proof {
            assert(out@ =~= spec_envelope_encode(self.instance_id@, self.payload@));
        }
        Ok(out)
    }

    /// Read an envelope back from broker bytes.
    pub fn decode(data: &[u8]) -> (r: Result<RedisMessage, RedisError>)
        ensures
            (r is Ok) == (spec_envelope_decode(data@) is Some),
            r matches Ok(m) ==> spec_envelope_decode(data@) == Some(
                (m.instance_id@, m.payload@),
            ),
            r matches Err(e) ==> e is ConnectionError,
    {
        let total = data.len();
        if total < 2 {
            return Err(RedisError::ConnectionError(String::from_str("envelope too short")));
        }
        let b0 = data[0];
        let b1 = data[1];
        let n = (((b0 as u16) << 8) | (b1 as u16)) as usize;
        if total - 2 < n {
            return Err(RedisError::ConnectionError(String::from_str("envelope truncated")));
        }
        let id_bytes = slice_subrange(data, 2, 2 + n);
        let payload_slice = slice_subrange(data, 2 + n, total);
        match crate::codec::from_utf8_vec(slice_to_vec(id_bytes)) {
            Some(instance_id) => {
                let payload = slice_to_vec(payload_slice);
                proof {
                    assert(data@.skip(2 + n as int) =~= data@.subrange(
                        2 + n as int,
                        data@.len() as int,
                    ));
                }
                Ok(RedisMessage { instance_id, payload })
            },
            None => Err(
                RedisError::ConnectionError(String::from_str("envelope identity is not UTF-8")),
            ),
        }
    }

    /// Decode the codec frame carried in the payload.
    pub fn get_binary_message(&self) -> (r: Result<BinaryMessage, ProtocolError>)
        ensures
            (r is Ok) == (spec_decode(self.payload@) is Ok),
            r matches Ok(m) ==> m@ == spec_decode(self.payload@)->Ok_0,
            r matches Err(e) ==> e == spec_decode(self.payload@)->Err_0,
    {
        BinaryMessage::decode(self.payload.as_slice())
    }
}

/// The character a decimal digit prints as.
pub open spec fn digit_char(d: int) -> char {
    ((48 + d) as u8) as char
}

/// The decimal digits of a number, most significant first.
pub open spec fn dec_chars(n: int) -> Seq<char>
    recommends
        n >= 0,
    decreases n,
{
    if n < 10 {
        seq![digit_char(if n >= 0 {
            n
        } else {
            0
        })]
    } else {
        dec_chars(n / 10).push(digit_char(n % 10))
    }
}

/// Append one decimal digit.
fn push_digit(s: &mut String, d: u8)
    requires
        d < 10,
    ensures
        final(s)@ == old(s)@ + seq![digit_char(d as int)],
{
    proof {
        reveal_strlit("0");
        reveal_strlit("1");
        reveal_strlit("2");
        reveal_strlit("3");
        reveal_strlit("4");
        reveal_strlit("5");
        reveal_strlit("6");
        reveal_strlit("7");
        reveal_strlit("8");
        reveal_strlit("9");
    }
    match d {
        0 => s.append("0"),
        1 => s.append("1"),
        2 => s.append("2"),
        3 => s.append("3"),
        4 => s.append("4"),
        5 => s.append("5"),
        6 => s.append("6"),
        7 => s.append("7"),
        8 => s.append("8"),
        _ => s.append("9"),
    }
    proof {
        assert(final(s)@ =~= old(s)@ + seq![digit_char(d as int)]);
    }
}

/// Append a number in decimal.
fn push_decimal(s: &mut String, n: u16)
    ensures
        final(s)@ == old(s)@ + dec_chars(n as int),
    decreases n,
{
    if n < 10 {
        push_digit(s, n as u8);
    } else {
        push_decimal(s, n / 10);
        push_digit(s, (n % 10) as u8);
        proof {
            assert(final(s)@ =~= old(s)@ + dec_chars(n as int));
        }
    }
}

/// The bus channel that carries one board's presence traffic.
pub fn board_channel(board_id: u16) -> (r: String)
    ensures
        r@ == "presence:board:"@ + dec_chars(board_id as int),
{
    let mut s = String::from_str("presence:board:");
    push_decimal(&mut s, board_id);
    s
}

/// The bus channel for administrative notices.
pub fn global_channel() -> (r: String)
    ensures
        r@ == "presence:global"@,
{
    String::from_str("presence:global")
}

} // verus!
