use vstd::prelude::*;
use vstd::utf8::{decode_utf8, encode_utf8, valid_utf8};

use crate::kit::string_from_utf8;

verus! {

/// Whether a node accepted a request sent to it.
#[derive(Clone, Copy, PartialEq, Eq, Debug, Hash, Structural)]
pub enum MpcReplyCode {
    OK,
    ERR,
}

impl MpcReplyCode {
    /// The number of the code on the wire.
    pub fn value(&self) -> (v: i32)
        ensures
            v == (match *self {
                MpcReplyCode::OK => 0i32,
                MpcReplyCode::ERR => 1i32,
            }),
    {
        match *self {
            MpcReplyCode::OK => 0,
            MpcReplyCode::ERR => 1,
        }
    }

    /// The code with number `value`, if there is one.
    pub fn from_i32(value: i32) -> (code: Option<MpcReplyCode>)
        ensures
            value == 0 ==> code == Some(MpcReplyCode::OK),
            value == 1 ==> code == Some(MpcReplyCode::ERR),
            value != 0 && value != 1 ==> code.is_none(),
    {
        if value == 0 {
            Some(MpcReplyCode::OK)
        } else if value == 1 {
            Some(MpcReplyCode::ERR)
        } else {
            None
        }
    }
}

impl Default for MpcReplyCode {
    fn default() -> (code: Self)
        ensures
            code == MpcReplyCode::OK,
    {
        MpcReplyCode::OK
    }
}

/// The reply a node gives to a request: a code, a message and a payload,
/// and the bytes of the fields read from the wire that it does not know.
#[derive(Clone, Debug)]
pub struct MpcReply {
    pub code: MpcReplyCode,
    pub msg: String,
    pub context: Vec<u8>,
    pub unknown_fields: Vec<u8>,
}

impl Default for MpcReply {
    /// The empty reply: code `OK`, no message, no payload.
    fn default() -> (r: MpcReply)
        ensures
            r.code == MpcReplyCode::OK,
            r.msg@ == Seq::<char>::empty(),
            r.context@ == Seq::<u8>::empty(),
            r.unknown_fields@ == Seq::<u8>::empty(),
    {
        MpcReply::new()
    }
}

impl MpcReply {
    /// The empty reply: code `OK`, no message, no payload.
    pub fn new() -> (r: MpcReply)
        ensures
            r.code == MpcReplyCode::OK,
            r.msg@ == Seq::<char>::empty(),
            r.context@ == Seq::<u8>::empty(),
            r.unknown_fields@ == Seq::<u8>::empty(),
    {
        MpcReply { code: MpcReplyCode::OK, msg: String::new(), context: Vec::new(), unknown_fields: Vec::new() }
    }

    pub fn get_code(&self) -> (c: MpcReplyCode)
        ensures
            c == self.code,
    {
        self.code
    }

    pub fn clear_code(&mut self)
        ensures
            final(self).code == MpcReplyCode::OK,
            final(self).msg == old(self).msg,
            final(self).context == old(self).context,
            final(self).unknown_fields == old(self).unknown_fields,
    {
        self.code = MpcReplyCode::OK;
    }

    pub fn set_code(&mut self, v: MpcReplyCode)
        ensures
            final(self).code == v,
            final(self).msg == old(self).msg,
            final(self).context == old(self).context,
            final(self).unknown_fields == old(self).unknown_fields,
    {
        self.code = v;
    }

    pub fn get_msg(&self) -> (m: &str)
        ensures
            m@ == self.msg@,
    {
        self.msg.as_str()
    }

    pub fn clear_msg(&mut self)
        ensures
            final(self).code == old(self).code,
            final(self).msg@ == Seq::<char>::empty(),
            final(self).context == old(self).context,
            final(self).unknown_fields == old(self).unknown_fields,
    {
        self.msg = String::new();
    }

    pub fn set_msg(&mut self, v: String)
        ensures
            final(self).code == old(self).code,
            final(self).msg == v,
            final(self).context == old(self).context,
            final(self).unknown_fields == old(self).unknown_fields,
    {
        self.msg = v;
    }

    /// The message, to change in place.
    pub fn mut_msg(&mut self) -> (m: &mut String)
        ensures
            *m == old(self).msg,
            final(self).msg == *final(m),
            final(self).code == old(self).code,
            final(self).context == old(self).context,
            final(self).unknown_fields == old(self).unknown_fields,
    {
        &mut self.msg
    }

    /// Takes the message out, leaving the empty one.
    pub fn take_msg(&mut self) -> (m: String)
        ensures
            m == old(self).msg,
            final(self).msg@ == Seq::<char>::empty(),
            final(self).code == old(self).code,
            final(self).context == old(self).context,
            final(self).unknown_fields == old(self).unknown_fields,
    {
        let mut m = String::new();
        std::mem::swap(&mut m, &mut self.msg);
        m
    }

    pub fn get_context(&self) -> (c: &[u8])
        ensures
            c@ == self.context@,
    {
        self.context.as_slice()
    }

    pub fn clear_context(&mut self)
        ensures
            final(self).code == old(self).code,
            final(self).msg == old(self).msg,
            final(self).context@ == Seq::<u8>::empty(),
            final(self).unknown_fields == old(self).unknown_fields,
    {
        self.context.clear();
    }

    pub fn set_context(&mut self, v: Vec<u8>)
        ensures
            final(self).code == old(self).code,
            final(self).msg == old(self).msg,
            final(self).context == v,
            final(self).unknown_fields == old(self).unknown_fields,
    {
        self.context = v;
    }

    /// The payload, to change in place.
    pub fn mut_context(&mut self) -> (c: &mut Vec<u8>)
        ensures
            *c == old(self).context,
            final(self).context == *final(c),
            final(self).code == old(self).code,
            final(self).msg == old(self).msg,
            final(self).unknown_fields == old(self).unknown_fields,
    {
        &mut self.context
    }

    /// Takes the payload out, leaving the empty one.
    pub fn take_context(&mut self) -> (c: Vec<u8>)
        ensures
            c == old(self).context,
            final(self).context@ == Seq::<u8>::empty(),
            final(self).code == old(self).code,
            final(self).msg == old(self).msg,
            final(self).unknown_fields == old(self).unknown_fields,
    {
        let mut c = Vec::new();
        std::mem::swap(&mut c, &mut self.context);
        c
    }
}

} // verus!

verus! {

/// A reply as values: its code, message, payload and unknown fields.
pub type ReplyFields = (MpcReplyCode, Seq<char>, Seq<u8>, Seq<u8>);

/// The reply's fields as values.
pub open spec fn reply_fields(r: &MpcReply) -> ReplyFields {
    (r.code, r.msg@, r.context@, r.unknown_fields@)
}

/// The fields of the empty reply.
pub open spec fn empty_fields() -> ReplyFields {
    (MpcReplyCode::OK, Seq::empty(), Seq::empty(), Seq::empty())
}

/// The base-128 varint of `v`: seven bits per byte, low bits first, the
/// high bit set on every byte but the last.
pub open spec fn varint_bytes(v: nat) -> Seq<u8>
    decreases v,
{
    if v < 128 {
        seq![v as u8]
    } else {
        seq![(v % 128 + 128) as u8] + varint_bytes(v / 128)
    }
}

/// A length-delimited field: its tag byte, the length of `data` as a
/// varint, then `data`.
pub open spec fn delimited_field(tag: u8, data: Seq<u8>) -> Seq<u8> {
    seq![tag] + varint_bytes(data.len()) + data
}

/// The wire form of a reply, in proto3: field 1 (the code, a varint) only
/// when it is `ERR`, field 2 (the message's UTF-8 bytes) only when there are
/// any, field 3 (the payload) only when it is not empty, then the bytes of
/// the unknown fields.
pub open spec fn reply_encoding(code: MpcReplyCode, msg: Seq<char>, context: Seq<u8>, unknown: Seq<u8>) -> Seq<u8> {
    (if code == MpcReplyCode::ERR { seq![0x08u8, 0x01u8] } else { Seq::empty() })
        + (if encode_utf8(msg).len() > 0 { delimited_field(0x12u8, encode_utf8(msg)) } else { Seq::empty() })
        + (if context.len() > 0 { delimited_field(0x1au8, context) } else { Seq::empty() })
        + unknown
}

/// The low 32 bits of the varint at `p`, read with at most `fuel` bytes,
/// and the position after it; `None` when the input ends inside it or its
/// last allowed byte still says that more follow.
pub open spec fn varint_from(b: Seq<u8>, p: int, fuel: nat) -> Option<(nat, int)>
    decreases fuel,
{
    if fuel == 0 || p < 0 || p >= b.len() {
        None
    } else if b[p] < 128 {
        Some((b[p] as nat, p + 1))
    } else {
        match varint_from(b, p + 1, (fuel - 1) as nat) {
            Some((v, e)) => Some(((((b[p] - 128) + 128 * v) % 0x1_0000_0000int) as nat, e)),
            None => None,
        }
    }
}

/// The varint at `p`, of at most ten bytes.
pub open spec fn varint_at(b: Seq<u8>, p: int) -> Option<(nat, int)> {
    varint_from(b, p, 10)
}

/// The bytes of the length-delimited value at `p` and the position after
/// them: a varint length, then that many bytes, which must all be there.
pub open spec fn delimited_at(b: Seq<u8>, p: int) -> Option<(Seq<u8>, int)> {
    match varint_at(b, p) {
        Some((n, q)) => if q + n <= b.len() {
            Some((b.subrange(q, q + n), q + n))
        } else {
            None
        },
        None => None,
    }
}

/// The position after a value of wire type `wire` at `p`: a varint (0), 8
/// bytes (1), a length-delimited value (2) or 4 bytes (5); the group wire
/// types, and values cut short, give `None`.
pub open spec fn skip_value(b: Seq<u8>, p: int, wire: nat) -> Option<int> {
    if wire == 0 {
        match varint_at(b, p) {
            Some((_, q)) => Some(q),
            None => None,
        }
    } else if wire == 1 {
        if p + 8 <= b.len() { Some(p + 8) } else { None }
    } else if wire == 2 {
        match delimited_at(b, p) {
            Some((_, q)) => Some(q),
            None => None,
        }
    } else if wire == 5 {
        if p + 4 <= b.len() { Some(p + 4) } else { None }
    } else {
        None
    }
}

/// A tag is valid when its wire type is one of the six and its field number
/// is not 0.
pub open spec fn valid_tag(t: nat) -> bool {
    t % 8 <= 5 && t / 8 != 0
}

/// The position after a group whose start tag ends before `p`: the tags and
/// values up to the first end tag, which must come; a group inside it is an
/// error.
pub open spec fn skip_group_at(b: Seq<u8>, p: int) -> Option<int>
    decreases b.len() - p,
{
    match varint_at(b, p) {
        Some((t, q)) => if !valid_tag(t) {
            None
        } else if t % 8 == 4 {
            Some(q)
        } else {
            match skip_value(b, q, t % 8) {
                Some(r) => if p < r <= b.len() {
                    skip_group_at(b, r)
                } else {
                    None
                },
                None => None,
            }
        },
        None => None,
    }
}

/// One field read at `pos` into the fields `acc`, and the position after
/// it. Field 1 (varint) sets the code when its value is 0 or 1, and
/// otherwise is kept among the unknown fields; field 2 (length-delimited)
/// sets the message and must be UTF-8; field 3 (length-delimited) sets the
/// payload; any other field is kept among the unknown fields, its bytes
/// added to theirs, but a group, which is skipped. A wrong wire type is an
/// error.
pub open spec fn field_at(b: Seq<u8>, pos: int, acc: ReplyFields) -> Option<(ReplyFields, int)> {
    match varint_at(b, pos) {
        Some((t, q)) => if !valid_tag(t) {
            None
        } else if t / 8 == 1 {
            if t % 8 != 0 {
                None
            } else {
                match varint_at(b, q) {
                    Some((v, r)) => Some((
                        (
                            if v == 0 {
                                MpcReplyCode::OK
                            } else if v == 1 {
                                MpcReplyCode::ERR
                            } else {
                                acc.0
                            },
                            acc.1,
                            acc.2,
                            if v == 0 || v == 1 {
                                acc.3
                            } else {
                                acc.3 + b.subrange(pos, r)
                            },
                        ),
                        r,
                    )),
                    None => None,
                }
            }
        } else if t / 8 == 2 || t / 8 == 3 {
            if t % 8 != 2 {
                None
            } else {
                match delimited_at(b, q) {
                    Some((data, r)) => if t / 8 == 3 {
                        Some(((acc.0, acc.1, data, acc.3), r))
                    } else if valid_utf8(data) {
                        Some(((acc.0, decode_utf8(data), acc.2, acc.3), r))
                    } else {
                        None
                    },
                    None => None,
                }
            }
        } else if t % 8 == 3 {
            match skip_group_at(b, q) {
                Some(r) => Some((acc, r)),
                None => None,
            }
        } else {
            match skip_value(b, q, t % 8) {
                Some(r) => Some(((acc.0, acc.1, acc.2, acc.3 + b.subrange(pos, r)), r)),
                None => None,
            }
        }
        None => None,
    }
}

/// The fields after reading the fields from `pos` to the end into `acc`.
pub open spec fn fields_from(b: Seq<u8>, pos: int, acc: ReplyFields) -> Option<ReplyFields>
    decreases b.len() - pos,
{
    if pos >= b.len() {
        Some(acc)
    } else {
        match field_at(b, pos, acc) {
            Some((a, q)) => if pos < q <= b.len() {
                fields_from(b, q, a)
            } else {
                None
            },
            None => None,
        }
    }
}

/// The reply that the bytes `b` hold, read field by field into the empty
/// reply; the last value of a field wins. `None` when they are not a reply.
pub open spec fn reply_decoding(b: Seq<u8>) -> Option<ReplyFields> {
    fields_from(b, 0, empty_fields())
}


/// Reads the varint at `p` with at most `fuel` bytes.
fn read_varint_from(b: &[u8], p: usize, fuel: usize) -> (r: Option<(u32, usize)>)
    ensures
        match varint_from(b@, p as int, fuel as nat) {
            Some((v, e)) => p < e <= b@.len() && (r matches Some((v2, e2)) && v2 == v && e2 == e),
            None => r is None,
        },
    decreases fuel,
{
    if fuel == 0 || p >= b.len() {
        return None;
    }
    let byte = b[p];
    if byte < 128 {
        return Some((byte as u32, p + 1));
    }
    match read_varint_from(b, p + 1, fuel - 1) {
        None => None,
        Some((v, e)) => {
            let x: u64 = ((byte - 128) as u64 + 128 * (v as u64)) % 0x1_0000_0000;
            Some((x as u32, e))
        },
    }
}

/// Reads the varint at `p`.
fn read_varint(b: &[u8], p: usize) -> (r: Option<(u32, usize)>)
    ensures
        match varint_at(b@, p as int) {
            Some((v, e)) => p < e <= b@.len() && (r matches Some((v2, e2)) && v2 == v && e2 == e),
            None => r is None,
        },
{
    read_varint_from(b, p, 10)
}

/// Finds the length-delimited value at `p`: where its bytes start and end.
fn read_delimited(b: &[u8], p: usize) -> (r: Option<(usize, usize)>)
    ensures
        match delimited_at(b@, p as int) {
            Some((data, e)) => r matches Some((s, e2)) && e2 == e && p < s <= e2 <= b@.len()
                && b@.subrange(s as int, e2 as int) == data,
            None => r is None,
        },
{
    match read_varint(b, p) {
        None => None,
        Some((n, q)) => {
            if n as usize <= b.len() - q {
                Some((q, q + n as usize))
            } else {
                None
            }
        },
    }
}

/// Skips the value of wire type `wire` at `p`.
fn skip_value_at(b: &[u8], p: usize, wire: u32) -> (r: Option<usize>)
    ensures
        match skip_value(b@, p as int, wire as nat) {
            Some(q) => p < q <= b@.len() && (r matches Some(q2) && q2 == q),
            None => r is None,
        },
{
    if wire == 0 {
        match read_varint(b, p) {
            Some((_, q)) => Some(q),
            None => None,
        }
    } else if wire == 1 {
        if p <= b.len() && 8 <= b.len() - p {
            Some(p + 8)
        } else {
            None
        }
    } else if wire == 2 {
        match read_delimited(b, p) {
            Some((_, q)) => Some(q),
            None => None,
        }
    } else if wire == 5 {
        if p <= b.len() && 4 <= b.len() - p {
            Some(p + 4)
        } else {
            None
        }
    } else {
        None
    }
}

/// Skips a group whose start tag ends before `p`.
fn skip_group(b: &[u8], p: usize) -> (r: Option<usize>)
    requires
        p <= b@.len(),
    ensures
        match skip_group_at(b@, p as int) {
            Some(q) => p < q <= b@.len() && (r matches Some(q2) && q2 == q),
            None => r is None,
        },
{
    let mut pos = p;
    loop
        invariant
            p <= pos <= b@.len(),
            skip_group_at(b@, pos as int) == skip_group_at(b@, p as int),
        decreases b@.len() - pos,
    {
        match read_varint(b, pos) {
            None => {
                return None;
            },
            Some((t, q)) => {
                let ghost tag = t as nat;
                assert(varint_at(b@, pos as int) == Some((tag, q as int)));
                if t % 8 > 5 || t / 8 == 0 {
                    return None;
                }
                if t % 8 == 4 {
                    return Some(q);
                }
                match skip_value_at(b, q, t % 8) {
                    None => {
                        return None;
                    },
                    Some(r) => {
                        pos = r;
                    },
                }
            },
        }
    }
}

/// Reads the field at `pos` into `reply`, and gives the position after it.
fn read_field(b: &[u8], pos: usize, reply: &mut MpcReply) -> (r: Option<usize>)
    ensures
        match field_at(b@, pos as int, reply_fields(old(reply))) {
            Some((a, q)) => pos < q <= b@.len() && (r matches Some(q2) && q2 == q) && reply_fields(final(reply)) == a,
            None => r is None,
        },
{
    match read_varint(b, pos) {
        None => None,
        Some((t, q)) => {
            let ghost tag = t as nat;
            let ghost acc = reply_fields(reply);
            assert(varint_at(b@, pos as int) == Some((tag, q as int)));
            if t % 8 > 5 || t / 8 == 0 {
                return None;
            }
            let field = t / 8;
            let wire = t % 8;
            if field == 1 {
                if wire != 0 {
                    return None;
                }
                match read_varint(b, q) {
                    None => None,
                    Some((v, e)) => {
                        if v == 0 {
                            reply.code = MpcReplyCode::OK;
                        } else if v == 1 {
                            reply.code = MpcReplyCode::ERR;
                        } else {
                            push_bytes(&mut reply.unknown_fields, vstd::slice::slice_subrange(b, pos, e));
                        }
                        Some(e)
                    },
                }
            } else if field == 2 || field == 3 {
                if wire != 2 {
                    return None;
                }
                match read_delimited(b, q) {
                    None => None,
                    Some((s, e)) => {
                        let data = vstd::slice::slice_to_vec(vstd::slice::slice_subrange(b, s, e));
                        assert(delimited_at(b@, q as int) == Some((data@, e as int)));
                        if field == 3 {
                            reply.context = data;
                            Some(e)
                        } else {
                            match string_from_utf8(data) {
                                Some(m) => {
                                    reply.msg = m;
                                    Some(e)
                                },
                                None => None,
                            }
                        }
                    },
                }
            } else if wire == 3 {
                skip_group(b, q)
            } else {
                match skip_value_at(b, q, wire) {
                    None => None,
                    Some(e) => {
                        push_bytes(&mut reply.unknown_fields, vstd::slice::slice_subrange(b, pos, e));
                        Some(e)
                    },
                }
            }
        },
    }
}

/// Reads a reply from its wire form: field by field into the empty reply,
/// the bytes of unknown fields kept, the last value of a field winning. `None` when
/// the bytes are not a reply.
pub fn decode_reply(bytes: &[u8]) -> (r: Option<MpcReply>)
    ensures
        r matches Some(m) ==> reply_decoding(bytes@) == Some(reply_fields(&m)),
        r is None <==> reply_decoding(bytes@) is None,
{
    let mut reply = MpcReply::new();
    let mut pos: usize = 0;
    while pos < bytes.len()
        invariant
            pos <= bytes@.len(),
            fields_from(bytes@, pos as int, reply_fields(&reply)) == reply_decoding(bytes@),
        decreases bytes@.len() - pos,
    {
        match read_field(bytes, pos, &mut reply) {
            None => {
                return None;
            },
            Some(q) => {
                pos = q;
            },
        }
    }
    Some(reply)
}

/// Appends the varint of `v` to `out`.
fn push_varint(out: &mut Vec<u8>, v: u64)
    ensures
        final(out)@ == old(out)@ + varint_bytes(v as nat),
{
    let ghost start = out@;
    let mut x = v;
    while x >= 128
        invariant
            out@ + varint_bytes(x as nat) == start + varint_bytes(v as nat),
        decreases x,
    {
        let byte = (x % 128 + 128) as u8;
        proof {
            assert(varint_bytes(x as nat) == seq![byte] + varint_bytes((x / 128) as nat));
            assert(out@.push(byte) + varint_bytes((x / 128) as nat) =~= out@ + (seq![byte] + varint_bytes(
                (x / 128) as nat,
            )));
        }
        out.push(byte);
        x = x / 128;
    }
    proof {
        assert(out@.push(x as u8) =~= out@ + varint_bytes(x as nat));
    }
    out.push(x as u8);
}

/// Appends the bytes of `data` to `out`.
fn push_bytes(out: &mut Vec<u8>, data: &[u8])
    ensures
        final(out)@ == old(out)@ + data@,
{
    let ghost start = out@;
    let mut i: usize = 0;
    while i < data.len()
        invariant
            i <= data@.len(),
            out@ == start + data@.take(i as int),
        decreases data@.len() - i,
    {
        proof {
            assert(data@.take(i as int + 1) =~= data@.take(i as int).push(data@[i as int]));
        }
        out.push(data[i]);
        i = i + 1;
    }
    proof {
        assert(data@.take(i as int) =~= data@);
    }
}

/// Appends a length-delimited field with tag byte `tag` holding `data`.
fn push_delimited(out: &mut Vec<u8>, tag: u8, data: &[u8])
    ensures
        final(out)@ == old(out)@ + delimited_field(tag, data@),
{
    let ghost start = out@;
    out.push(tag);
    push_varint(out, data.len() as u64);
    push_bytes(out, data);
    proof {
        assert(out@ =~= start + delimited_field(tag, data@));
    }
}

/// The wire form of `reply` (proto3): fields that hold their default value
/// are left out, and the bytes of the unknown fields follow the others.
/// Its length must fit the 32-bit size that protobuf counts a message in.
pub fn encode_reply(reply: &MpcReply) -> (b: Vec<u8>)
    requires
        reply_encoding(reply.code, reply.msg@, reply.context@, reply.unknown_fields@).len() <= u32::MAX,
    ensures
        b@ == reply_encoding(reply.code, reply.msg@, reply.context@, reply.unknown_fields@),
{
    let mut out: Vec<u8> = Vec::new();
    match reply.code {
        MpcReplyCode::ERR => {
            out.push(0x08);
            out.push(0x01);
        },
        MpcReplyCode::OK => {},
    }
    let ghost first = out@;
    let msg = reply.msg.as_str().as_bytes();
    if msg.len() > 0 {
        push_delimited(&mut out, 0x12, msg);
    }
    let ghost second = out@;
    let context = reply.context.as_slice();
    if context.len() > 0 {
        push_delimited(&mut out, 0x1a, context);
    }
    push_bytes(&mut out, reply.unknown_fields.as_slice());
    proof {
        let code_part: Seq<u8> = if reply.code == MpcReplyCode::ERR { seq![0x08u8, 0x01u8] } else { Seq::empty() };
        assert(first =~= code_part);
        assert(out@ =~= reply_encoding(reply.code, reply.msg@, reply.context@, reply.unknown_fields@));
    }
    out
}


/// The bound under which a varint takes at most `k` bytes.
spec fn varint_limit(k: nat) -> nat
    decreases k,
{
    if k <= 1 {
        128
    } else {
        128 * varint_limit((k - 1) as nat)
    }
}

proof fn lemma_varint_len(n: nat, k: nat)
    requires
        k >= 1,
        n < varint_limit(k),
    ensures
        varint_bytes(n).len() <= k,
    decreases k,
{
    if n >= 128 {
        lemma_varint_len(n / 128, (k - 1) as nat);
    }
}

/// A value below 2^32 takes at most five varint bytes.
proof fn lemma_varint_len_u32(n: nat)
    requires
        n < 0x1_0000_0000,
    ensures
        varint_bytes(n).len() <= 5,
{
    reveal_with_fuel(varint_limit, 5);
    assert(varint_limit(5) == 34359738368);
    lemma_varint_len(n, 5);
}

/// The varint of `n`, found at `p`, reads back as `n`.
proof fn lemma_read_varint(b: Seq<u8>, p: int, n: nat, fuel: nat)
    requires
        n < 0x1_0000_0000,
        0 <= p,
        p + varint_bytes(n).len() <= b.len(),
        b.subrange(p, p + varint_bytes(n).len()) == varint_bytes(n),
        varint_bytes(n).len() <= fuel,
    ensures
        varint_from(b, p, fuel) == Some((n, p + varint_bytes(n).len())),
    decreases n,
{
    let vb = varint_bytes(n);
    assert(b[p] == b.subrange(p, p + vb.len())[0]);
    if n >= 128 {
        let rest = varint_bytes(n / 128);
        assert(vb == seq![(n % 128 + 128) as u8] + rest);
        assert(b.subrange(p + 1, p + 1 + rest.len()) =~= rest) by {
            assert forall|i: int| 0 <= i < rest.len() implies b.subrange(p + 1, p + 1 + rest.len())[i] == rest[i] by {
                assert(b.subrange(p, p + vb.len())[i + 1] == vb[i + 1]);
            }
        }
        lemma_read_varint(b, p + 1, n / 128, (fuel - 1) as nat);
        assert(b[p] - 128 == n % 128);
        assert((n % 128) + 128 * (n / 128) == n);
    }
}

/// A length-delimited field found at `pos` reads back: its tag, then its
/// data and the position after it.
proof fn lemma_read_delimited_field(b: Seq<u8>, pos: int, tag: u8, data: Seq<u8>)
    requires
        tag < 128,
        data.len() < 0x1_0000_0000,
        0 <= pos,
        pos + delimited_field(tag, data).len() <= b.len(),
        b.subrange(pos, pos + delimited_field(tag, data).len()) == delimited_field(tag, data),
    ensures
        varint_at(b, pos) == Some((tag as nat, pos + 1)),
        delimited_at(b, pos + 1) == Some((data, pos + delimited_field(tag, data).len())),
{
    let f = delimited_field(tag, data);
    let vb = varint_bytes(data.len());
    assert(b[pos] == f[0]);
    lemma_varint_len_u32(data.len());
    assert(b.subrange(pos + 1, pos + 1 + vb.len()) =~= vb) by {
        assert forall|i: int| 0 <= i < vb.len() implies b.subrange(pos + 1, pos + 1 + vb.len())[i] == vb[i] by {
            assert(b.subrange(pos, pos + f.len())[i + 1] == f[i + 1]);
        }
    }
    lemma_read_varint(b, pos + 1, data.len(), 10);
    let q = pos + 1 + vb.len();
    assert(b.subrange(q, q + data.len()) =~= data) by {
        assert forall|i: int| 0 <= i < data.len() implies b.subrange(q, q + data.len())[i] == data[i] by {
            assert(b.subrange(pos, pos + f.len())[1 + vb.len() + i] == f[1 + vb.len() + i]);
        }
    }
}

/// The field at `i` of `u` is one that reading keeps among the unknown
/// fields, and ends at the position given: field 1 with a varint value
/// other than 0 and 1, or a field past 3 whose value is not a group.
pub open spec fn unknown_field_at(u: Seq<u8>, i: int) -> Option<int> {
    match varint_at(u, i) {
        Some((t, q)) => if !valid_tag(t) {
            None
        } else if t / 8 == 1 {
            if t % 8 != 0 {
                None
            } else {
                match varint_at(u, q) {
                    Some((v, r)) => if v == 0 || v == 1 {
                        None
                    } else {
                        Some(r)
                    },
                    None => None,
                }
            }
        } else if t / 8 == 2 || t / 8 == 3 || t % 8 == 3 {
            None
        } else {
            skip_value(u, q, t % 8)
        },
        None => None,
    }
}

/// `u`, from `i` on, is a run of fields that reading keeps among the
/// unknown fields.
pub open spec fn unknown_run_from(u: Seq<u8>, i: int) -> bool
    decreases u.len() - i,
{
    if i >= u.len() {
        i == u.len()
    } else {
        match unknown_field_at(u, i) {
            Some(r) => if i < r <= u.len() {
                unknown_run_from(u, r)
            } else {
                false
            },
            None => false,
        }
    }
}

/// `u` is a run of fields that reading keeps among the unknown fields.
pub open spec fn unknown_run(u: Seq<u8>) -> bool {
    unknown_run_from(u, 0)
}

/// A varint ends after it starts and within the bytes.
proof fn lemma_varint_bounds(b: Seq<u8>, p: int, fuel: nat)
    ensures
        varint_from(b, p, fuel) matches Some((v, e)) ==> 0 <= p < e <= b.len(),
    decreases fuel,
{
    if fuel > 0 && 0 <= p < b.len() {
        lemma_varint_bounds(b, p + 1, (fuel - 1) as nat);
    }
}

/// A skipped value ends after it starts and within the bytes.
proof fn lemma_skip_value_bounds(b: Seq<u8>, p: int, wire: nat)
    requires
        0 <= p,
    ensures
        skip_value(b, p, wire) matches Some(e) ==> 0 <= p < e <= b.len(),
{
    lemma_varint_bounds(b, p, 10);
}

/// A varint reads the same after a prefix.
proof fn lemma_varint_shift(pre: Seq<u8>, u: Seq<u8>, i: int, fuel: nat)
    requires
        0 <= i,
    ensures
        varint_from(pre + u, pre.len() + i, fuel) == match varint_from(u, i, fuel) {
            Some((v, e)) => Some((v, e + pre.len())),
            None => None,
        },
    decreases fuel,
{
    let b = pre + u;
    if fuel > 0 && i < u.len() {
        assert(b[pre.len() + i] == u[i]);
        lemma_varint_shift(pre, u, i + 1, (fuel - 1) as nat);
        assert(pre.len() + i + 1 == pre.len() + (i + 1));
    }
}

/// A value of a wire type is skipped the same after a prefix.
proof fn lemma_skip_value_shift(pre: Seq<u8>, u: Seq<u8>, i: int, wire: nat)
    requires
        0 <= i,
    ensures
        skip_value(pre + u, pre.len() + i, wire) == match skip_value(u, i, wire) {
            Some(e) => Some(e + pre.len()),
            None => None,
        },
{
    lemma_varint_shift(pre, u, i, 10);
}

/// A field kept among the unknown fields reads the same after a prefix:
/// its bytes are added to the unknown fields.
proof fn lemma_unknown_field_read(pre: Seq<u8>, u: Seq<u8>, i: int, acc: ReplyFields)
    requires
        0 <= i,
        unknown_field_at(u, i) is Some,
    ensures
        ({
            let r = unknown_field_at(u, i)->0;
            field_at(pre + u, pre.len() + i, acc) == Some(
                ((acc.0, acc.1, acc.2, acc.3 + u.subrange(i, r)), pre.len() + r),
            )
        }),
{
    let b = pre + u;
    let off = pre.len() as int;
    let r = unknown_field_at(u, i)->0;
    lemma_varint_shift(pre, u, i, 10);
    lemma_varint_bounds(u, i, 10);
    let (t, q) = varint_at(u, i)->0;
    assert(varint_at(b, off + i) == Some((t, q + off)));
    if t / 8 == 1 {
        lemma_varint_shift(pre, u, q, 10);
        lemma_varint_bounds(u, q, 10);
    } else {
        lemma_skip_value_shift(pre, u, q, t % 8);
        lemma_skip_value_bounds(u, q, t % 8);
    }
    assert(b.subrange(off + i, off + r) =~= u.subrange(i, r));
}

/// Reading a run of unknown fields after a prefix adds their bytes to the
/// unknown fields and changes nothing else.
proof fn lemma_unknown_run_reads(pre: Seq<u8>, u: Seq<u8>, i: int, acc: ReplyFields)
    requires
        0 <= i <= u.len(),
        unknown_run_from(u, i),
    ensures
        fields_from(pre + u, pre.len() + i, acc) == Some((acc.0, acc.1, acc.2, acc.3 + u.skip(i))),
    decreases u.len() - i,
{
    let b = pre + u;
    if i == u.len() {
        assert(u.skip(i) =~= Seq::<u8>::empty());
        assert(acc.3 + u.skip(i) =~= acc.3);
    } else {
        let r = unknown_field_at(u, i)->0;
        lemma_unknown_field_read(pre, u, i, acc);
        let next: ReplyFields = (acc.0, acc.1, acc.2, acc.3 + u.subrange(i, r));
        lemma_unknown_run_reads(pre, u, r, next);
        assert(acc.3 + u.subrange(i, r) + u.skip(r) =~= acc.3 + u.skip(i));
    }
}

/// What was encoded decodes back: the wire form of a reply reads back as
/// the same code, message, payload and unknown fields, when the unknown
/// fields are a run of fields that reading keeps as unknown.
#[verifier::rlimit(60)]
pub proof fn lemma_reply_round_trip(code: MpcReplyCode, msg: Seq<char>, context: Seq<u8>, unknown: Seq<u8>)
    requires
        reply_encoding(code, msg, context, unknown).len() <= u32::MAX,
        unknown_run(unknown),
    ensures
        reply_decoding(reply_encoding(code, msg, context, unknown)) == Some((code, msg, context, unknown)),
{
    let m = encode_utf8(msg);
    let p1: Seq<u8> = if code == MpcReplyCode::ERR { seq![0x08u8, 0x01u8] } else { Seq::empty() };
    let p2: Seq<u8> = if m.len() > 0 { delimited_field(0x12u8, m) } else { Seq::empty() };
    let p3: Seq<u8> = if context.len() > 0 { delimited_field(0x1au8, context) } else { Seq::empty() };
    let known = p1 + p2 + p3;
    let b = reply_encoding(code, msg, context, unknown);
    assert(b == known + unknown);
    let e1 = p1.len() as int;
    let e2 = e1 + p2.len();
    let e3 = known.len() as int;
    let a1: ReplyFields = (code, Seq::empty(), Seq::empty(), Seq::empty());
    let a2: ReplyFields = (code, msg, Seq::empty(), Seq::empty());
    let a3: ReplyFields = (code, msg, context, Seq::empty());
    vstd::utf8::encode_utf8_valid_utf8(msg);
    vstd::utf8::encode_utf8_decode_utf8(msg);
    if code == MpcReplyCode::ERR {
        assert(b[0] == 0x08u8 && b[1] == 0x01u8);
        assert(field_at(b, 0, empty_fields()) == Some((a1, 2int)));
    }
    assert(fields_from(b, 0, empty_fields()) == fields_from(b, e1, a1));
    if m.len() > 0 {
        assert(b.subrange(e1, e1 + p2.len()) =~= p2);
        lemma_read_delimited_field(b, e1, 0x12u8, m);
        assert(field_at(b, e1, a1) == Some((a2, e2)));
    } else {
        assert(m =~= Seq::<u8>::empty());
        assert(msg == decode_utf8(Seq::<u8>::empty()));
        assert(msg =~= Seq::<char>::empty());
    }
    assert(fields_from(b, e1, a1) == fields_from(b, e2, a2));
    if context.len() > 0 {
        assert(b.subrange(e2, e2 + p3.len()) =~= p3);
        lemma_read_delimited_field(b, e2, 0x1au8, context);
        assert(field_at(b, e2, a2) == Some((a3, e3)));
    } else {
        assert(context =~= Seq::<u8>::empty());
    }
    assert(fields_from(b, e2, a2) == fields_from(b, e3, a3));
    lemma_unknown_run_reads(known, unknown, 0, a3);
    assert(Seq::<u8>::empty() + unknown.skip(0) =~= unknown);
}

} // verus!
