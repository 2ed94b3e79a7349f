//! The frame codec: wire frames are `#`-delimited text tokens whose first
//! token is a type tag. Inbound frames are `CONN#<uid>`,
//! `SENSOR#<uid>#<timestamp>#<value>` and `DISCONN#<uid>`; the outbound
//! broadcast frame is `AVG#<timestamp>#<value>`. Decoding checks the exact
//! arity for the tag, the 36-character uid, and the numeric fields; encoding
//! is the inverse join (tokens must not contain `#`, there is no escaping).

use crate::num::{
    i64_str, i64_to_string, i64_token_val, is_float_token, is_i64_token, is_float_str,
    parse_i64,
};
use crate::text::{has_char, split_at_char, split_hash, str_eq};
use vstd::prelude::*;

verus! {

/// The frame type tags a session can see.
#[derive(Clone, Copy, Debug, PartialEq, Eq, Structural)]
pub enum Protocol {
    CONN,
    SENSOR,
    AVG,
    DISCONN,
    INVALID,
}

/// Why a frame was rejected: wrong token count, wrong or unknown tag, a uid
/// of the wrong length, or an unparsable numeric field.
#[derive(Clone, Copy, Debug, PartialEq, Eq, Structural)]
pub enum DecodeError {
    InvalidMessage,
    InvalidProtocol,
    InvalidId,
    InvalidNumber,
}

/// The leading tag token of a frame.
pub open spec fn frame_tag(s: Seq<char>) -> Seq<char> {
    split_at_char(s, '#')[0]
}

/// The frame type a leading tag selects; unknown tags map to `INVALID`.
pub open spec fn protocol_of(s: Seq<char>) -> Protocol {
    if frame_tag(s) == "CONN"@ {
        Protocol::CONN
    } else if frame_tag(s) == "SENSOR"@ {
        Protocol::SENSOR
    } else if frame_tag(s) == "AVG"@ {
        Protocol::AVG
    } else if frame_tag(s) == "DISCONN"@ {
        Protocol::DISCONN
    } else {
        Protocol::INVALID
    }
}

/// Classifies a frame by its leading tag; an unrecognized tag is refused.
pub fn get_protocol(msg: &String) -> (r: Result<Protocol, DecodeError>)
    ensures
        r == (if protocol_of(msg@) is INVALID {
            Err::<Protocol, DecodeError>(DecodeError::InvalidProtocol)
        } else {
            Ok::<Protocol, DecodeError>(protocol_of(msg@))
        }),
{
    let parts = split_hash(msg.as_str());
    proof {
        crate::text::lemma_split_len(msg@, '#');
        assert(parts@.map_values(|t: String| t@)[0] == parts@[0]@);
    }
    let tag = &parts[0];
    if str_eq(tag.as_str(), "CONN") {
        Ok(Protocol::CONN)
    } else if str_eq(tag.as_str(), "SENSOR") {
        Ok(Protocol::SENSOR)
    } else if str_eq(tag.as_str(), "AVG") {
        Ok(Protocol::AVG)
    } else if str_eq(tag.as_str(), "DISCONN") {
        Ok(Protocol::DISCONN)
    } else {
        Err(DecodeError::InvalidProtocol)
    }
}

/// The handshake frame: `CONN#<uid>`.
pub struct ConnMsg {
    pub uid: String,
}

/// What decoding a handshake frame yields: exactly two tokens, the `CONN`
/// tag, and a 36-character uid, each failure with its own error.
pub open spec fn conn_decode(s: Seq<char>) -> Result<Seq<char>, DecodeError> {
    let parts = split_at_char(s, '#');
    if parts.len() != 2 {
        Err(DecodeError::InvalidMessage)
    } else if parts[0] != "CONN"@ {
        Err(DecodeError::InvalidProtocol)
    } else if parts[1].len() != 36 {
        Err(DecodeError::InvalidId)
    } else {
        Ok(parts[1])
    }
}

impl ConnMsg {
    pub fn from_msg(msg: &String) -> (r: Result<ConnMsg, DecodeError>)
        ensures
            match r {
                Ok(m) => conn_decode(msg@) == Ok::<Seq<char>, DecodeError>(m.uid@),
                Err(e) => conn_decode(msg@) == Err::<Seq<char>, DecodeError>(e),
            },
    {
        let parts = split_hash(msg.as_str());
        proof {
            assert(forall|i: int|
                0 <= i < parts@.len() ==> parts@.map_values(|t: String| t@)[i] == #[trigger] parts@[
                    i
                ]@);
        }
        if parts.len() != 2 {
            return Err(DecodeError::InvalidMessage);
        }
        if !str_eq(parts[0].as_str(), "CONN") {
            return Err(DecodeError::InvalidProtocol);
        }
        let uid = parts[1].clone();
        if uid.as_str().unicode_len() != 36 {
            return Err(DecodeError::InvalidId);
        }
        Ok(ConnMsg { uid })
    }
}

/// The graceful-close frame: `DISCONN#<uid>`.
pub struct DisconnMsg {
    pub uid: String,
}

/// What decoding a close frame yields, shaped exactly like the handshake but
/// for the `DISCONN` tag.
pub open spec fn disconn_decode(s: Seq<char>) -> Result<Seq<char>, DecodeError> {
    let parts = split_at_char(s, '#');
    if parts.len() != 2 {
        Err(DecodeError::InvalidMessage)
    } else if parts[0] != "DISCONN"@ {
        Err(DecodeError::InvalidProtocol)
    } else if parts[1].len() != 36 {
        Err(DecodeError::InvalidId)
    } else {
        Ok(parts[1])
    }
}

impl DisconnMsg {
    pub fn from_msg(msg: &String) -> (r: Result<DisconnMsg, DecodeError>)
        ensures
            match r {
                Ok(m) => disconn_decode(msg@) == Ok::<Seq<char>, DecodeError>(m.uid@),
                Err(e) => disconn_decode(msg@) == Err::<Seq<char>, DecodeError>(e),
            },
    {
        let parts = split_hash(msg.as_str());
        proof {
            assert(forall|i: int|
                0 <= i < parts@.len() ==> parts@.map_values(|t: String| t@)[i] == #[trigger] parts@[
                    i
                ]@);
        }
        if parts.len() != 2 {
            return Err(DecodeError::InvalidMessage);
        }
        if !str_eq(parts[0].as_str(), "DISCONN") {
            return Err(DecodeError::InvalidProtocol);
        }
        let uid = parts[1].clone();
        if uid.as_str().unicode_len() != 36 {
            return Err(DecodeError::InvalidId);
        }
        Ok(DisconnMsg { uid })
    }
}

/// The reading frame: `SENSOR#<uid>#<timestamp>#<value>`. The value is kept
/// as its wire token, already checked against the floating-point grammar.
pub struct SensorMsg {
    pub uid: String,
    pub data: String,
    pub timestamp: i64,
}

/// What decoding a reading frame yields: four tokens, the `SENSOR` tag, a
/// 36-character uid, an in-range decimal timestamp and a floating-point value
/// token, failures checked in that order.
pub open spec fn sensor_decode(s: Seq<char>) -> Result<
    (Seq<char>, int, Seq<char>),
    DecodeError,
> {
    let parts = split_at_char(s, '#');
    if parts.len() != 4 {
        Err(DecodeError::InvalidMessage)
    } else if parts[0] != "SENSOR"@ {
        Err(DecodeError::InvalidProtocol)
    } else if parts[1].len() != 36 {
        Err(DecodeError::InvalidId)
    } else if !is_i64_token(parts[2]) {
        Err(DecodeError::InvalidNumber)
    } else if !is_float_token(parts[3]) {
        Err(DecodeError::InvalidNumber)
    } else {
        Ok((parts[1], i64_token_val(parts[2]), parts[3]))
    }
}

impl SensorMsg {
    pub fn from_msg(msg: &String) -> (r: Result<SensorMsg, DecodeError>)
        ensures
            match r {
                Ok(m) => sensor_decode(msg@) == Ok::<(Seq<char>, int, Seq<char>), DecodeError>(
                    (m.uid@, m.timestamp as int, m.data@),
                ),
                Err(e) => sensor_decode(msg@) == Err::<(Seq<char>, int, Seq<char>), DecodeError>(
                    e,
                ),
            },
    {
        let parts = split_hash(msg.as_str());
        proof {
            assert(forall|i: int|
                0 <= i < parts@.len() ==> parts@.map_values(|t: String| t@)[i] == #[trigger] parts@[
                    i
                ]@);
        }
        if parts.len() != 4 {
            return Err(DecodeError::InvalidMessage);
        }
        if !str_eq(parts[0].as_str(), "SENSOR") {
            return Err(DecodeError::InvalidProtocol);
        }
        let uid = parts[1].clone();
        if uid.as_str().unicode_len() != 36 {
            return Err(DecodeError::InvalidId);
        }
        let timestamp = match parse_i64(parts[2].as_str()) {
            Some(v) => v,
            None => {
                return Err(DecodeError::InvalidNumber);
            },
        };
        let data = parts[3].clone();
        if !is_float_str(data.as_str()) {
            return Err(DecodeError::InvalidNumber);
        }
        Ok(SensorMsg { uid, data, timestamp })
    }
}

/// The broadcast frame the aggregator produces: `AVG#<timestamp>#<value>`.
pub struct AvgMsg {
    pub data: String,
    pub timestamp: i64,
}

/// The encoded broadcast frame for a timestamp and a value token.
pub open spec fn avg_encode(ts: int, val: Seq<char>) -> Seq<char> {
    "AVG"@ + seq!['#'] + i64_str(ts) + seq!['#'] + val
}

impl AvgMsg {
    /// Joins the broadcast frame back together: tag, timestamp, value.
    pub fn to_msg(&self) -> (r: String)
        ensures
            r@ == avg_encode(self.timestamp as int, self.data@),
    {
        let mut s = String::from_str("AVG#");
        let ts = i64_to_string(self.timestamp);
        s.append(ts.as_str());
        s.append("#");
        s.append(self.data.as_str());
        proof {
            reveal_strlit("AVG#");
            reveal_strlit("AVG");
            reveal_strlit("#");
            assert("AVG#"@ =~= "AVG"@ + seq!['#']);
            assert("#"@ =~= seq!['#']);
            assert(s@ =~= avg_encode(self.timestamp as int, self.data@));
        }
        s
    }
}

/// The encoded handshake frame for a uid.
pub open spec fn conn_encode(uid: Seq<char>) -> Seq<char> {
    "CONN"@ + seq!['#'] + uid
}

/// The encoded reading frame for a uid, timestamp and value token.
pub open spec fn sensor_encode(uid: Seq<char>, ts: int, val: Seq<char>) -> Seq<char> {
    "SENSOR"@ + seq!['#'] + uid + seq!['#'] + i64_str(ts) + seq!['#'] + val
}

/// A handshake frame built for a separator-free uid decodes to exactly that
/// uid when the uid is 36 characters long, and is refused as `InvalidId` at
/// any other length.
pub proof fn lemma_conn_frame_decode(uid: Seq<char>)
    requires
        !has_char(uid, '#'),
    ensures
        uid.len() == 36 ==> conn_decode(conn_encode(uid)) == Ok::<Seq<char>, DecodeError>(uid),
        uid.len() != 36 ==> conn_decode(conn_encode(uid)) == Err::<Seq<char>, DecodeError>(
            DecodeError::InvalidId,
        ),
{
    reveal_strlit("CONN");
    assert(!has_char("CONN"@, '#'));
    crate::text::lemma_split_step("CONN"@, '#', uid);
    crate::text::lemma_split_no_sep(uid, '#');
    let parts = split_at_char(conn_encode(uid), '#');
    assert(parts =~~= seq!["CONN"@, uid]);
}

/// Decoding a reading frame built from its fields gives those fields back:
/// the uid, the timestamp and the value token all survive the round trip.
pub proof fn lemma_sensor_round_trip(uid: Seq<char>, ts: int, val: Seq<char>)
    requires
        !has_char(uid, '#'),
        !has_char(val, '#'),
        uid.len() == 36,
        i64::MIN <= ts <= i64::MAX,
        is_float_token(val),
    ensures
        sensor_decode(sensor_encode(uid, ts, val)) == Ok::<
            (Seq<char>, int, Seq<char>),
            DecodeError,
        >((uid, ts, val)),
{
    reveal_strlit("SENSOR");
    assert(!has_char("SENSOR"@, '#'));
    crate::num::lemma_i64_str_round_trip(ts);
    let t = i64_str(ts);
    let frame = sensor_encode(uid, ts, val);
    assert(frame =~= "SENSOR"@ + seq!['#'] + (uid + seq!['#'] + (t + seq!['#'] + val)));
    crate::text::lemma_split_step("SENSOR"@, '#', uid + seq!['#'] + (t + seq!['#'] + val));
    assert(uid + seq!['#'] + (t + seq!['#'] + val) =~= uid + seq!['#'] + (t + seq!['#']
        + val));
    crate::text::lemma_split_step(uid, '#', t + seq!['#'] + val);
    crate::text::lemma_split_step(t, '#', val);
    crate::text::lemma_split_no_sep(val, '#');
    let parts = split_at_char(frame, '#');
    assert(parts =~~= seq!["SENSOR"@] + (seq![uid] + (seq![t] + seq![val])));
    assert(parts.len() == 4);
    assert(parts[0] == "SENSOR"@);
    assert(parts[1] == uid);
    assert(parts[2] == t);
    assert(parts[3] == val);
}

} // verus!
