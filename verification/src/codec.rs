//! The wire codec: a frame is one message-kind byte, one exchange-type
//! byte, and length-prefixed UTF-8 string fields (a 32-bit big-endian
//! length, then exactly that many raw bytes).
//!
//! Layout by kind: every frame carries an exchange-or-identifier name field
//! and a queue name field; `'s'` frames carry one more field, the payload
//! data. `'r'` frames leave the exchange-type slot reserved and their name
//! field empty. The codec is symmetric: anything it encodes, it decodes
//! back to an equal frame.

use vstd::prelude::*;
use vstd::utf8::{
    decode_utf8, decode_utf8_encode_utf8, encode_utf8, encode_utf8_decode_utf8,
    encode_utf8_valid_utf8, valid_utf8,
};
use vstd::slice::{slice_subrange, slice_to_vec};
use crate::frame::{ConnPayload, FrameModel, RecvPaylod, RequestType, SendPayload};

verus! {

/// The message-kind tag of a connect frame: the byte `'c'`.
pub const KIND_CONNECT: u8 = 99;

/// The message-kind tag of a send frame: the byte `'s'`.
pub const KIND_SEND: u8 = 115;

/// The message-kind tag of a receive frame: the byte `'r'`.
pub const KIND_RECEIVE: u8 = 114;

/// Why a byte stream failed to decode into a frame.
#[derive(Debug, Clone, Copy, PartialEq, Eq, Structural)]
pub enum ProtocolError {
    /// The stream closed mid-field: fewer bytes than a field declared.
    Truncated,
    /// A string field was not valid UTF-8.
    InvalidUtf8,
    /// The first byte was not one of the known message-kind tags.
    UnknownMessageKind,
}

/// The four big-endian bytes of a 32-bit length.
pub open spec fn be32(n: u32) -> Seq<u8> {
    seq![
        ((n >> 24) & 0xff) as u8,
        ((n >> 16) & 0xff) as u8,
        ((n >> 8) & 0xff) as u8,
        (n & 0xff) as u8,
    ]
}

/// The 32-bit value carried by four big-endian bytes.
pub open spec fn be32_val(b: Seq<u8>) -> u32
    recommends
        b.len() == 4,
{
    ((b[0] as u32) << 24) | ((b[1] as u32) << 16) | ((b[2] as u32) << 8) | (b[3] as u32)
}

proof fn lemma_be32_roundtrip(n: u32)
    ensures
        be32_val(be32(n)) == n,
{
    assert((((((n >> 24) & 0xff) as u8) as u32) << 24) | (((((n >> 16) & 0xff) as u8) as u32)
        << 16) | (((((n >> 8) & 0xff) as u8) as u32) << 8) | (((n & 0xff) as u8) as u32) == n)
        by (bit_vector);
}

/// A string fits on the wire when its UTF-8 byte length fits the 32-bit
/// length prefix.
pub open spec fn field_fits(s: Seq<char>) -> bool {
    encode_utf8(s).len() <= u32::MAX
}

/// The wire form of one string field: length prefix, then the UTF-8 bytes.
pub open spec fn spec_field(s: Seq<char>) -> Seq<u8>
    recommends
        field_fits(s),
{
    be32(encode_utf8(s).len() as u32) + encode_utf8(s)
}

/// The exchange-type tags the protocol understands: fanout and direct.
pub open spec fn tag_valid(c: char) -> bool {
    c == 'f' || c == 'd'
}

/// A frame the codec can put on the wire: every field's byte length fits
/// the length prefix, and the exchange-type tag is a known one where the
/// tag is meaningful.
pub open spec fn frame_valid(m: FrameModel) -> bool {
    match m {
        FrameModel::Connect { x_name, q_name, x_type } => field_fits(x_name) && field_fits(
            q_name,
        ) && tag_valid(x_type),
        FrameModel::Send { x_name, q_name, data, x_type } => field_fits(x_name) && field_fits(
            q_name,
        ) && field_fits(data) && tag_valid(x_type),
        FrameModel::Receive { q_name } => field_fits(q_name),
    }
}

/// The wire form of a whole frame.
pub open spec fn spec_encode(m: FrameModel) -> Seq<u8>
    recommends
        frame_valid(m),
{
    match m {
        FrameModel::Connect { x_name, q_name, x_type } => seq![KIND_CONNECT, (x_type as u32) as u8]
            + spec_field(x_name) + spec_field(q_name),
        FrameModel::Send { x_name, q_name, data, x_type } => seq![KIND_SEND, (x_type as u32) as u8]
            + spec_field(x_name) + spec_field(q_name) + spec_field(data),
        FrameModel::Receive { q_name } => seq![KIND_RECEIVE, 0u8] + spec_field(Seq::<char>::empty())
            + spec_field(q_name),
    }
}

/// Reading one length-prefixed string field at `pos`: the decoded
/// characters and the position after the field, or the error the bytes
/// force.
pub open spec fn spec_take_field(b: Seq<u8>, pos: int) -> Result<(Seq<char>, int), ProtocolError>
    recommends
        0 <= pos <= b.len(),
{
    if pos + 4 > b.len() {
        Err(ProtocolError::Truncated)
    } else {
        let n = be32_val(b.subrange(pos, pos + 4)) as int;
        if pos + 4 + n > b.len() {
            Err(ProtocolError::Truncated)
        } else if !valid_utf8(b.subrange(pos + 4, pos + 4 + n)) {
            Err(ProtocolError::InvalidUtf8)
        } else {
            Ok((decode_utf8(b.subrange(pos + 4, pos + 4 + n)), pos + 4 + n))
        }
    }
}

/// What decoding means: the frame a byte sequence holds, or the error its
/// shape forces. Bytes after the frame are left for the next read.
pub open spec fn spec_decode(b: Seq<u8>) -> Result<FrameModel, ProtocolError> {
    if b.len() < 1 {
        Err(ProtocolError::Truncated)
    } else if b[0] != KIND_CONNECT && b[0] != KIND_SEND && b[0] != KIND_RECEIVE {
        Err(ProtocolError::UnknownMessageKind)
    } else if b.len() < 2 {
        Err(ProtocolError::Truncated)
    } else {
        match spec_take_field(b, 2) {
            Err(e) => Err(e),
            Ok((name1, p1)) => match spec_take_field(b, p1) {
                Err(e) => Err(e),
                Ok((name2, p2)) => {
                    if b[0] == KIND_CONNECT {
                        Ok(
                            FrameModel::Connect {
                                x_name: name1,
                                q_name: name2,
                                x_type: b[1] as char,
                            },
                        )
                    } else if b[0] == KIND_RECEIVE {
                        Ok(FrameModel::Receive { q_name: name2 })
                    } else {
                        match spec_take_field(b, p2) {
                            Err(e) => Err(e),
                            Ok((data, _p3)) => Ok(
                                FrameModel::Send {
                                    x_name: name1,
                                    q_name: name2,
                                    data,
                                    x_type: b[1] as char,
                                },
                            ),
                        }
                    }
                },
            },
        }
    }
}

/// Relies on String::from_utf8: it returns the string whose UTF-8 bytes
/// are exactly the input when the input is valid UTF-8, and fails on any
/// other input.
#[verifier::external_body]
fn string_from_utf8(v: Vec<u8>) -> (r: Option<String>)
    ensures
        r is Some <==> valid_utf8(v@),
        r matches Some(s) ==> encode_utf8(s@) == v@,
{
    String::from_utf8(v).ok()
}

fn push_be32(out: &mut Vec<u8>, n: u32)
    ensures
        final(out)@ == old(out)@ + be32(n),
{
    proof {
        assert((n >> 24) & 0xff < 256 && (n >> 16) & 0xff < 256 && (n >> 8) & 0xff < 256 && n
            & 0xff < 256) by (bit_vector);
    }
    out.push(((n >> 24) & 0xff) as u8);
    out.push(((n >> 16) & 0xff) as u8);
    out.push(((n >> 8) & 0xff) as u8);
    out.push((n & 0xff) as u8);
    proof {
        assert(out@ =~= old(out)@ + be32(n));
    }
}

fn push_field(out: &mut Vec<u8>, s: &str)
    requires
        field_fits(s@),
    ensures
        final(out)@ == old(out)@ + spec_field(s@),
{
    let bytes = s.as_bytes();
    let n = bytes.len();
    push_be32(out, n as u32);
    out.extend_from_slice(bytes);
    proof {
        assert(out@ =~= old(out)@ + spec_field(s@));
    }
}

fn tag_byte(c: char) -> (r: u8)
    requires
        (c as u32) < 256,
    ensures
        r == (c as u32) as u8,
{
    (c as u32) as u8
}

proof fn lemma_take_encoded_field(prefix: Seq<u8>, s: Seq<char>, rest: Seq<u8>)
    requires
        field_fits(s),
    ensures
        ({
            let b = prefix + spec_field(s) + rest;
            let pos = prefix.len() as int;
            spec_take_field(b, pos) matches Ok(t) && t.0 == s && t.1 == pos + 4 + encode_utf8(
                s,
            ).len()
        }),
{
    let b = prefix + spec_field(s) + rest;
    let pos = prefix.len() as int;
    let n = encode_utf8(s).len() as u32;
    lemma_be32_roundtrip(n);
    assert(b.subrange(pos, pos + 4) =~= be32(n));
    assert(b.subrange(pos + 4, pos + 4 + encode_utf8(s).len()) =~= encode_utf8(s));
    encode_utf8_valid_utf8(s);
    encode_utf8_decode_utf8(s);
}

proof fn lemma_tag_codepoint(c: char)
    requires
        tag_valid(c),
    ensures
        (c as u32) < 256,
        (((c as u32) as u8) as char) == c,
{
    vstd::utf8::char_u32_cast(c, c as u32);
    assert((((c as u32) as u8) as u32) == (c as u32));
}

#[verifier::rlimit(100)]
proof fn lemma_round_trip_connect(m: FrameModel)
    requires
        frame_valid(m),
        m is Connect,
    ensures
        spec_decode(spec_encode(m)) matches Ok(m2) && m2 == m,
{
    let b = spec_encode(m);
    let x_name = m->Connect_x_name;
    let q_name = m->Connect_q_name;
    let x_type = m->Connect_x_type;
    lemma_tag_codepoint(x_type);
    let head = seq![KIND_CONNECT, (x_type as u32) as u8];
    assert(b == head + spec_field(x_name) + spec_field(q_name));
    assert(b.len() >= 2 && b[0] == KIND_CONNECT && b[1] == (x_type as u32) as u8);
    lemma_take_encoded_field(head, x_name, spec_field(q_name));
    let p1 = 2 + 4 + encode_utf8(x_name).len() as int;
    assert(spec_take_field(b, 2) matches Ok(t) && t.0 == x_name && t.1 == p1);
    assert(b =~= (head + spec_field(x_name)) + spec_field(q_name) + Seq::<u8>::empty());
    lemma_take_encoded_field(head + spec_field(x_name), q_name, Seq::<u8>::empty());
    assert(spec_take_field(b, p1) matches Ok(t) && t.0 == q_name);
    assert(spec_decode(b)->Ok_0 =~= m);
}

#[verifier::rlimit(100)]
proof fn lemma_send_fields(b: Seq<u8>, x_name: Seq<char>, q_name: Seq<char>, data: Seq<char>, h: Seq<u8>)
    requires
        field_fits(x_name),
        field_fits(q_name),
        field_fits(data),
        h.len() == 2,
        b == h + spec_field(x_name) + spec_field(q_name) + spec_field(data),
    ensures
        spec_take_field(b, 2) matches Ok(t) && t.0 == x_name && t.1 == 2 + 4 + encode_utf8(
            x_name,
        ).len(),
        spec_take_field(b, 2 + 4 + encode_utf8(x_name).len() as int) matches Ok(t) && t.0
            == q_name && t.1 == 2 + 4 + encode_utf8(x_name).len() + 4 + encode_utf8(q_name).len(),
        spec_take_field(
            b,
            2 + 4 + encode_utf8(x_name).len() + 4 + encode_utf8(q_name).len() as int,
        ) matches Ok(t) && t.0 == data,
{
    assert(h =~= seq![h[0], h[1]]);
    let head = seq![h[0], h[1]];
    assert(spec_take_field(b, 2) matches Ok(t) && t.0 == x_name && t.1 == 2 + 4 + encode_utf8(
        x_name,
    ).len()) by {
        assert(b =~= head + spec_field(x_name) + (spec_field(q_name) + spec_field(data)));
        lemma_take_encoded_field(head, x_name, spec_field(q_name) + spec_field(data));
    }
    assert(spec_take_field(b, 2 + 4 + encode_utf8(x_name).len() as int) matches Ok(t) && t.0
        == q_name && t.1 == 2 + 4 + encode_utf8(x_name).len() + 4 + encode_utf8(
        q_name,
    ).len()) by {
        assert(b =~= (head + spec_field(x_name)) + spec_field(q_name) + spec_field(data));
        lemma_take_encoded_field(head + spec_field(x_name), q_name, spec_field(data));
    }
    assert(spec_take_field(
        b,
        2 + 4 + encode_utf8(x_name).len() + 4 + encode_utf8(q_name).len() as int,
    ) matches Ok(t) && t.0 == data) by {
        assert(b =~= ((head + spec_field(x_name)) + spec_field(q_name)) + spec_field(data)
            + Seq::<u8>::empty());
        lemma_take_encoded_field(
            head + spec_field(x_name) + spec_field(q_name),
            data,
            Seq::<u8>::empty(),
        );
    }
}

#[verifier::rlimit(100)]
proof fn lemma_round_trip_send(m: FrameModel)
    requires
        frame_valid(m),
        m is Send,
    ensures
        spec_decode(spec_encode(m)) matches Ok(m2) && m2 == m,
{
    let b = spec_encode(m);
    let x_name = m->Send_x_name;
    let q_name = m->Send_q_name;
    let data = m->Send_data;
    let x_type = m->Send_x_type;
    lemma_tag_codepoint(x_type);
    let head = seq![KIND_SEND, (x_type as u32) as u8];
    lemma_send_fields(b, x_name, q_name, data, head);
    assert(b.len() >= 2 && b[0] == KIND_SEND && b[1] == (x_type as u32) as u8);
    assert(spec_decode(b)->Ok_0 =~= m);
}

#[verifier::rlimit(100)]
proof fn lemma_round_trip_receive(m: FrameModel)
    requires
        frame_valid(m),
        m is Receive,
    ensures
        spec_decode(spec_encode(m)) matches Ok(m2) && m2 == m,
{
    let b = spec_encode(m);
    let q_name = m->Receive_q_name;
    let head = seq![KIND_RECEIVE, 0u8];
    lemma_take_encoded_field(head, Seq::<char>::empty(), spec_field(q_name));
    lemma_take_encoded_field(
        head + spec_field(Seq::<char>::empty()),
        q_name,
        Seq::<u8>::empty(),
    );
    assert(b =~= (head + spec_field(Seq::<char>::empty())) + spec_field(q_name)
        + Seq::<u8>::empty());
    assert(spec_decode(b)->Ok_0 =~= m);
}

/// Round trip: any frame the codec can put on the wire decodes back from
/// its own encoding, unchanged. Stated over the frame model, it carries
/// to `decode(encode(frame))` through the two functions' contracts.
pub proof fn lemma_round_trip(m: FrameModel)
    requires
        frame_valid(m),
    ensures
        spec_decode(spec_encode(m)) matches Ok(m2) && m2 == m,
{
    match m {
        FrameModel::Connect { .. } => lemma_round_trip_connect(m),
        FrameModel::Send { .. } => lemma_round_trip_send(m),
        FrameModel::Receive { .. } => lemma_round_trip_receive(m),
    }
}

fn take_field(bytes: &[u8], pos: usize) -> (r: Result<(String, usize), ProtocolError>)
    requires
        pos <= bytes@.len(),
    ensures
        ({
            let sr = spec_take_field(bytes@, pos as int);
            match r {
                Ok(sp) => sr matches Ok(t) && sp.0@ == t.0 && sp.1 == t.1 && pos < sp.1
                    <= bytes@.len(),
                Err(e) => sr matches Err(e2) && e == e2,
            }
        }),
{
    if bytes.len() - pos < 4 {
        return Err(ProtocolError::Truncated);
    }
    let n: u32 = ((bytes[pos] as u32) << 24) | ((bytes[pos + 1] as u32) << 16) | ((bytes[pos
        + 2] as u32) << 8) | (bytes[pos + 3] as u32);
    proof {
        assert(bytes@.subrange(pos as int, pos as int + 4) =~= seq![
            bytes@[pos as int],
            bytes@[pos as int + 1],
            bytes@[pos as int + 2],
            bytes@[pos as int + 3],
        ]);
        assert(be32_val(bytes@.subrange(pos as int, pos as int + 4)) == n);
    }
    let len = n as usize;
    let rem = bytes.len() - pos - 4;
    if len > rem {
        return Err(ProtocolError::Truncated);
    }
    let field = slice_subrange(bytes, pos + 4, pos + 4 + len);
    let v = slice_to_vec(field);
    match string_from_utf8(v) {
        Some(s) => {
            proof {
                encode_utf8_decode_utf8(s@);
            }
            Ok((s, pos + 4 + len))
        },
        None => Err(ProtocolError::InvalidUtf8),
    }
}

fn byte_to_char(b: u8) -> (r: char)
    ensures
        r == b as char,
{
    b as char
}

/// Decode one frame from the front of a byte stream, or say why the bytes
/// cannot hold one.
pub fn decode(bytes: &[u8]) -> (r: Result<RequestType, ProtocolError>)
    ensures
        ({
            let sr = spec_decode(bytes@);
            match r {
                Ok(f) => sr matches Ok(m) && f@ == m,
                Err(e) => sr matches Err(e2) && e == e2,
            }
        }),
{
    if bytes.len() < 1 {
        return Err(ProtocolError::Truncated);
    }
    let kind = bytes[0];
    if kind != KIND_CONNECT && kind != KIND_SEND && kind != KIND_RECEIVE {
        return Err(ProtocolError::UnknownMessageKind);
    }
    if bytes.len() < 2 {
        return Err(ProtocolError::Truncated);
    }
    let x_type_byte = bytes[1];
    let (name1, p1) = match take_field(bytes, 2) {
        Ok(t) => t,
        Err(e) => {
            return Err(e);
        },
    };
    let (name2, p2) = match take_field(bytes, p1) {
        Ok(t) => t,
        Err(e) => {
            return Err(e);
        },
    };
    if kind == KIND_CONNECT {
        let f = RequestType::Connection(
            ConnPayload { x_name: name1, q_name: name2, x_type: byte_to_char(x_type_byte) },
        );
        proof {
            assert(f@ =~= spec_decode(bytes@)->Ok_0);
        }
        Ok(f)
    } else if kind == KIND_RECEIVE {
        let f = RequestType::Consumer(RecvPaylod { q_name: name2 });
        proof {
            assert(f@ =~= spec_decode(bytes@)->Ok_0);
        }
        Ok(f)
    } else {
        let (data, _p3) = match take_field(bytes, p2) {
            Ok(t) => t,
            Err(e) => {
                return Err(e);
            },
        };
        let f = RequestType::Producer(
            SendPayload {
                x_name: name1,
                q_name: name2,
                data,
                x_type: byte_to_char(x_type_byte),
            },
        );
        proof {
            assert(f@ =~= spec_decode(bytes@)->Ok_0);
        }
        Ok(f)
    }
}

/// Encode one frame into its wire form.
pub fn encode(f: &RequestType) -> (r: Vec<u8>)
    requires
        frame_valid(f@),
    ensures
        r@ == spec_encode(f@),
{
    let mut out: Vec<u8> = Vec::new();
    match f {
        RequestType::Connection(p) => {
            out.push(KIND_CONNECT);
            out.push(tag_byte(p.x_type));
            push_field(&mut out, p.x_name.as_str());
            push_field(&mut out, p.q_name.as_str());
        },
        RequestType::Producer(p) => {
            out.push(KIND_SEND);
            out.push(tag_byte(p.x_type));
            push_field(&mut out, p.x_name.as_str());
            push_field(&mut out, p.q_name.as_str());
            push_field(&mut out, p.data.as_str());
        },
        RequestType::Consumer(p) => {
            out.push(KIND_RECEIVE);
            out.push(0u8);  // the reserved exchange-type slot
            proof {
                reveal_strlit("");
            }
            push_field(&mut out, "");
            push_field(&mut out, p.q_name.as_str());
        },
    }
    proof {
        reveal_strlit("");
        assert(""@ =~= Seq::<char>::empty());
        assert(out@ =~= spec_encode(f@));
    }
    out
}

} // verus!
