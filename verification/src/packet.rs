//! The payload codec. A payload carries three text fields, user id, time
//! stamp and message, separated by a `|` byte. A payload that does not split
//! into exactly three fields decodes leniently to a sentinel packet whose
//! fields are all empty, never to an error: malformed input must not drop a
//! connection.

use vstd::prelude::*;
use vstd::slice::slice_subrange;
use vstd::utf8::*;

use crate::bytebuf::{bytes_content, bytes_from_vec};
use crate::wire::frame_encode;

verus! {

/// The byte that separates the three payload fields: `|`.
pub const DELIM: u8 = 124;

/// The mathematical value of a packet: its three fields as character
/// sequences.
#[verifier::ext_equal]
pub struct PacketModel {
    pub user_id: Seq<char>,
    pub time_stamp: Seq<char>,
    pub message: Seq<char>,
}

impl PacketModel {
    /// The bytes this packet puts on the wire as a frame payload.
    pub open spec fn wire_payload(self) -> Seq<u8> {
        payload_encode(self.user_id, self.time_stamp, self.message)
    }
}

/// The empty-fields packet that a malformed payload decodes to.
pub open spec fn sentinel() -> PacketModel {
    PacketModel { user_id: seq![], time_stamp: seq![], message: seq![] }
}

/// How many field separators a payload holds.
pub open spec fn delim_count(s: Seq<u8>) -> nat
    decreases s.len(),
{
    if s.len() == 0 {
        0
    } else {
        delim_count(s.drop_last()) + if s.last() == DELIM {
            1nat
        } else {
            0nat
        }
    }
}

/// The fields of a payload: the byte runs between separators, in order.
/// There is always one more field than there are separators.
pub open spec fn split_fields(s: Seq<u8>) -> Seq<Seq<u8>>
    decreases s.len(),
{
    if s.len() == 0 {
        seq![seq![]]
    } else {
        let prev = split_fields(s.drop_last());
        if s.last() == DELIM {
            prev.push(seq![])
        } else {
            prev.update(prev.len() - 1, prev.last().push(s.last()))
        }
    }
}

/// What `String::from_utf8_lossy` returns for the given bytes: a function of
/// the bytes alone.
pub uninterp spec fn lossy_decode(bytes: Seq<u8>) -> Seq<char>;

/// The characters a field's bytes decode to: exact UTF-8 decoding where the
/// bytes are valid, the lossy replacement reading otherwise.
pub open spec fn field_chars(b: Seq<u8>) -> Seq<char> {
    if valid_utf8(b) {
        decode_utf8(b)
    } else {
        lossy_decode(b)
    }
}

/// The packet a frame payload decodes to: its three fields where the payload
/// splits into exactly three, the sentinel otherwise.
pub open spec fn packet_decode(payload: Seq<u8>) -> PacketModel {
    let fields = split_fields(payload);
    if fields.len() == 3 {
        PacketModel {
            user_id: field_chars(fields[0]),
            time_stamp: field_chars(fields[1]),
            message: field_chars(fields[2]),
        }
    } else {
        sentinel()
    }
}

/// The frame payload that carries the three given fields.
pub open spec fn payload_encode(u: Seq<char>, t: Seq<char>, m: Seq<char>) -> Seq<u8> {
    encode_utf8(u) + seq![DELIM] + encode_utf8(t) + seq![DELIM] + encode_utf8(m)
}

/// Relies on `String::from_utf8_lossy`: the result is a function of the bytes
/// alone, and bytes that are valid UTF-8 decode to exactly the character
/// sequence they encode.
#[verifier::external_body]
fn bytes_to_string_lossy(v: &[u8]) -> (r: String)
    ensures
        r@ == lossy_decode(v@),
        valid_utf8(v@) ==> r@ == decode_utf8(v@),
{
    String::from_utf8_lossy(v).into_owned()
}

/// One relayed message: who sent it, when, and what it says. The fields are
/// opaque text; none may itself contain the separator byte, or the payload
/// will not split back into the same fields (a documented limitation of the
/// wire format, not checked here).
#[derive(Debug, Clone)]
pub struct Packet {
    pub user_id: String,
    pub time_stamp: String,
    pub message: String,
}

impl View for Packet {
    type V = PacketModel;

    open spec fn view(&self) -> PacketModel {
        PacketModel {
            user_id: self.user_id@,
            time_stamp: self.time_stamp@,
            message: self.message@,
        }
    }
}

impl Packet {
    /// Encodes the packet as one complete wire frame: a four-byte big-endian
    /// length followed by the `|`-separated payload.
    pub fn serialize(&self) -> (r: bytes::Bytes)
        requires
            self@.wire_payload().len() <= u32::MAX,
        ensures
            bytes_content(r) == frame_encode(self@.wire_payload()),
    {
        let u = self.user_id.as_str().as_bytes();
        let t = self.time_stamp.as_str().as_bytes();
        let m = self.message.as_str().as_bytes();
        let total: u64 = (u.len() as u64) + (t.len() as u64) + (m.len() as u64) + 2;
        let len32: u32 = total as u32;
        proof {
            assert((len32 >> 24) & 0xff < 256 && (len32 >> 16) & 0xff < 256 && (len32 >> 8) & 0xff
                < 256 && len32 & 0xff < 256) by (bit_vector);
        }
        let mut out: Vec<u8> = Vec::new();
        out.push(((len32 >> 24) & 0xff) as u8);
        out.push(((len32 >> 16) & 0xff) as u8);
        out.push(((len32 >> 8) & 0xff) as u8);
        out.push((len32 & 0xff) as u8);
        append_bytes(&mut out, u);
        out.push(DELIM);
        append_bytes(&mut out, t);
        out.push(DELIM);
        append_bytes(&mut out, m);
        proof {
            assert(out@ =~= frame_encode(self@.wire_payload()));
        }
        bytes_from_vec(out)
    }

    /// Decodes one frame payload. Splits the bytes on the separator: exactly
    /// three fields give a packet with those fields, anything else gives the
    /// empty-fields sentinel.
    pub fn deserialize(buf: &[u8]) -> (r: Self)
        ensures
            r@ == packet_decode(buf@),
    {
        let n = buf.len();
        let mut i: usize = 0;
        let mut count: usize = 0;
        let mut p1: usize = 0;
        let mut p2: usize = 0;
        while i < n
            invariant
                n == buf@.len(),
                i <= n,
                count <= i,
                count == delim_count(buf@.take(i as int)),
                count >= 1 ==> p1 < i && buf@[p1 as int] == DELIM && delim_count(
                    buf@.take(p1 as int),
                ) == 0,
                count >= 2 ==> p2 < i && p1 < p2 && buf@[p2 as int] == DELIM && delim_count(
                    buf@.take(p2 as int),
                ) == 1,
            decreases n - i,
        {
            proof {
                lemma_delim_count_step(buf@, i as int);
            }
            if buf[i] == DELIM {
                if count == 0 {
                    p1 = i;
                } else if count == 1 {
                    p2 = i;
                }
                count = count + 1;
            }
            i = i + 1;
        }
        proof {
            assert(buf@.take(n as int) =~= buf@);
        }
        if count == 2 {
            let f0 = slice_subrange(buf, 0, p1);
            let f1 = slice_subrange(buf, p1 + 1, p2);
            let f2 = slice_subrange(buf, p2 + 1, n);
            proof {
                lemma_three_fields(buf@, p1 as int, p2 as int);
            }
            let user_id = bytes_to_string_lossy(f0);
            let time_stamp = bytes_to_string_lossy(f1);
            let message = bytes_to_string_lossy(f2);
            let r = Packet { user_id, time_stamp, message };
            proof {
                assert(r@ =~= packet_decode(buf@));
            }
            r
        } else {
            proof {
                lemma_split_len(buf@);
            }
            let r = Packet { user_id: String::new(), time_stamp: String::new(), message: String::new() };
            proof {
                assert(r@ =~= packet_decode(buf@));
            }
            r
        }
    }
}

/// Appends a byte slice to a vector.
fn append_bytes(dst: &mut Vec<u8>, src: &[u8])
    ensures
        final(dst)@ == old(dst)@ + src@,
{
    proof {
        assert(old(dst)@ + src@.take(0) =~= old(dst)@);
    }
    let mut i: usize = 0;
    while i < src.len()
        invariant
            i <= src@.len(),
            dst@ == old(dst)@ + src@.take(i as int),
        decreases src@.len() - i,
    {
        proof {
            assert((old(dst)@ + src@.take(i as int)).push(src@[i as int]) =~= old(dst)@
                + src@.take(i as int + 1));
        }
        dst.push(src[i]);
        i = i + 1;
    }
    proof {
        assert(src@.take(src@.len() as int) =~= src@);
    }
}

/// Counting separators in one more byte of a prefix adds one exactly when
/// that byte is the separator.
proof fn lemma_delim_count_step(s: Seq<u8>, i: int)
    requires
        0 <= i < s.len(),
    ensures
        delim_count(s.take(i + 1)) == delim_count(s.take(i)) + if s[i] == DELIM {
            1nat
        } else {
            0nat
        },
{
    assert(s.take(i + 1).drop_last() =~= s.take(i));
    assert(s.take(i + 1).last() == s[i]);
}

/// Separator counting is additive over concatenation.
proof fn lemma_delim_count_add(a: Seq<u8>, b: Seq<u8>)
    ensures
        delim_count(a + b) == delim_count(a) + delim_count(b),
    decreases b.len(),
{
    if b.len() == 0 {
        assert(a + b =~= a);
    } else {
        lemma_delim_count_add(a, b.drop_last());
        assert((a + b).drop_last() =~= a + b.drop_last());
        assert((a + b).last() == b.last());
    }
}

/// A sequence none of whose bytes is the separator has separator count zero.
proof fn lemma_delim_count_zero(s: Seq<u8>)
    requires
        forall|i: int| 0 <= i < s.len() ==> s[i] != DELIM,
    ensures
        delim_count(s) == 0,
    decreases s.len(),
{
    if s.len() > 0 {
        lemma_delim_count_zero(s.drop_last());
    }
}

/// A payload always splits into one more field than it has separators.
pub proof fn lemma_split_len(s: Seq<u8>)
    ensures
        split_fields(s).len() == delim_count(s) + 1,
    decreases s.len(),
{
    if s.len() > 0 {
        lemma_split_len(s.drop_last());
    }
}

/// A payload without separators is a single field: itself.
proof fn lemma_split_no_delim(s: Seq<u8>)
    requires
        delim_count(s) == 0,
    ensures
        split_fields(s) == seq![s],
    decreases s.len(),
{
    if s.len() == 0 {
        assert(s =~= Seq::<u8>::empty());
        assert(split_fields(s) =~= seq![s]);
    } else {
        lemma_split_no_delim(s.drop_last());
        lemma_split_len(s.drop_last());
        assert(s.drop_last().push(s.last()) =~= s);
        assert(split_fields(s) =~= seq![s]);
    }
}

/// Splitting distributes over a separator: the fields of `a | b` are the
/// fields of `a` followed by the fields of `b`.
proof fn lemma_split_concat(a: Seq<u8>, b: Seq<u8>)
    ensures
        split_fields(a + seq![DELIM] + b) == split_fields(a) + split_fields(b),
    decreases b.len(),
{
    lemma_split_len(a);
    if b.len() == 0 {
        let s = a + seq![DELIM] + b;
        assert(s =~= a + seq![DELIM]);
        assert((a + seq![DELIM]).drop_last() =~= a);
        assert((a + seq![DELIM]).last() == DELIM);
        assert(split_fields(s) == split_fields(a).push(seq![]));
        assert(split_fields(a).push(seq![]) =~= split_fields(a) + split_fields(b));
    } else {
        let s = a + seq![DELIM] + b;
        lemma_split_concat(a, b.drop_last());
        lemma_split_len(b.drop_last());
        assert(s.drop_last() =~= a + seq![DELIM] + b.drop_last());
        assert(s.last() == b.last());
        let pa = split_fields(a);
        let pb = split_fields(b.drop_last());
        if b.last() == DELIM {
            assert(split_fields(s) == (pa + pb).push(seq![]));
            assert((pa + pb).push(seq![]) =~= pa + pb.push(seq![]));
        } else {
            assert(split_fields(s) == (pa + pb).update(pa.len() + pb.len() - 1, (pa + pb).last().push(b.last())));
            assert((pa + pb).last() == pb.last());
            assert((pa + pb).update(pa.len() + pb.len() - 1, pb.last().push(b.last())) =~= pa
                + pb.update(pb.len() - 1, pb.last().push(b.last())));
        }
    }
}

/// A payload whose separators stand exactly at `p1` and `p2` splits into the
/// three byte runs around them.
proof fn lemma_three_fields(b: Seq<u8>, p1: int, p2: int)
    requires
        0 <= p1 < p2 < b.len(),
        b[p1] == DELIM,
        b[p2] == DELIM,
        delim_count(b) == 2,
        delim_count(b.take(p1)) == 0,
        delim_count(b.take(p2)) == 1,
    ensures
        split_fields(b) == seq![
            b.subrange(0, p1),
            b.subrange(p1 + 1, p2),
            b.subrange(p2 + 1, b.len() as int),
        ],
{
    let f0 = b.subrange(0, p1);
    let f1 = b.subrange(p1 + 1, p2);
    let f2 = b.subrange(p2 + 1, b.len() as int);
    assert(b.take(p2) =~= b.take(p1 + 1) + f1);
    assert(b.take(p1 + 1) =~= f0 + seq![DELIM]);
    lemma_delim_count_add(f0 + seq![DELIM], f1);
    lemma_delim_count_add(f0, seq![DELIM]);
    assert(delim_count(seq![DELIM]) == 1) by {
        assert(seq![DELIM].drop_last() =~= Seq::<u8>::empty());
    }
    assert(b =~= b.take(p2 + 1) + f2);
    assert(b.take(p2 + 1) =~= b.take(p2) + seq![DELIM]);
    lemma_delim_count_add(b.take(p2), seq![DELIM]);
    lemma_delim_count_add(b.take(p2 + 1), f2);
    assert(delim_count(f1) == 0);
    assert(delim_count(f2) == 0);
    lemma_split_no_delim(f0);
    lemma_split_no_delim(f1);
    lemma_split_no_delim(f2);
    lemma_split_concat(f1, f2);
    assert(f1 + seq![DELIM] + f2 =~= b.subrange(p1 + 1, b.len() as int));
    lemma_split_concat(f0, b.subrange(p1 + 1, b.len() as int));
    assert(f0 + seq![DELIM] + b.subrange(p1 + 1, b.len() as int) =~= b);
    assert(split_fields(b) =~= seq![f0, f1, f2]);
}

/// No byte of the UTF-8 encoding of a single character other than `|` is the
/// separator byte.
proof fn lemma_encode_scalar_no_delim(c: char)
    requires
        c != '|',
    ensures
        delim_count(encode_scalar(c as u32)) == 0,
{
    char_is_scalar(c);
    let v = c as u32;
    let s = encode_scalar(v);
    assert forall|i: int| 0 <= i < s.len() implies s[i] != DELIM by {
        if has_width_1_encoding(v) {
            assert(s[i] == leading_byte_width_1(v));
            if leading_byte_width_1(v) == DELIM {
                assert(v == 124) by (bit_vector)
                    requires
                        v <= 0x7f && ((v & 0x7f) as u8) == 124u8,
                ;
                char_u32_cast(c, v);
                assert(('|' as u32) == 124);
                char_u32_cast('|', 124u32);
                assert(false);
            }
        } else {
            assert(forall|x: u8| (0x80u8 | x) != 124u8) by (bit_vector);
            assert(forall|x: u8| (0xc0u8 | x) != 124u8) by (bit_vector);
            assert(forall|x: u8| (0xe0u8 | x) != 124u8) by (bit_vector);
            assert(forall|x: u8| (0xf0u8 | x) != 124u8) by (bit_vector);
        }
    }
    lemma_delim_count_zero(s);
}

/// The UTF-8 encoding of a field that does not contain `|` never contains the
/// separator byte.
proof fn lemma_encode_no_delim(cs: Seq<char>)
    requires
        !cs.contains('|'),
    ensures
        delim_count(encode_utf8(cs)) == 0,
    decreases cs.len(),
{
    if cs.len() > 0 {
        if cs[0] == '|' {
            assert(cs.contains('|'));
        }
        lemma_encode_scalar_no_delim(cs[0]);
        assert(!cs.drop_first().contains('|')) by {
            if cs.drop_first().contains('|') {
                let i = choose|i: int|
                    0 <= i < cs.drop_first().len() && cs.drop_first()[i] == '|';
                assert(cs[i + 1] == '|');
                assert(cs.contains('|'));
            }
        }
        lemma_encode_no_delim(cs.drop_first());
        lemma_delim_count_add(encode_scalar(cs[0] as u32), encode_utf8(cs.drop_first()));
    }
}

/// Framing round-trip: any three fields that avoid the reserved separator
/// come back from their own encoding unchanged.
pub proof fn lemma_round_trip(u: Seq<char>, t: Seq<char>, m: Seq<char>)
    requires
        !u.contains('|'),
        !t.contains('|'),
        !m.contains('|'),
    ensures
        packet_decode(payload_encode(u, t, m)) == (PacketModel {
            user_id: u,
            time_stamp: t,
            message: m,
        }),
{
    let eu = encode_utf8(u);
    let et = encode_utf8(t);
    let em = encode_utf8(m);
    lemma_encode_no_delim(u);
    lemma_encode_no_delim(t);
    lemma_encode_no_delim(m);
    lemma_split_no_delim(eu);
    lemma_split_no_delim(et);
    lemma_split_no_delim(em);
    lemma_split_concat(et, em);
    lemma_split_concat(eu, et + seq![DELIM] + em);
    assert(payload_encode(u, t, m) =~= eu + seq![DELIM] + (et + seq![DELIM] + em));
    assert(split_fields(payload_encode(u, t, m)) =~= seq![eu, et, em]);
    encode_utf8_valid_utf8(u);
    encode_utf8_valid_utf8(t);
    encode_utf8_valid_utf8(m);
    encode_utf8_decode_utf8(u);
    encode_utf8_decode_utf8(t);
    encode_utf8_decode_utf8(m);
    assert(packet_decode(payload_encode(u, t, m)) =~= PacketModel {
        user_id: u,
        time_stamp: t,
        message: m,
    });
}

/// Lenient decode: a payload with any number of separators other than two
/// decodes to the empty-fields sentinel.
pub proof fn lemma_lenient_decode(payload: Seq<u8>)
    requires
        delim_count(payload) != 2,
    ensures
        packet_decode(payload) == sentinel(),
{
    lemma_split_len(payload);
}

} // verus!
