//! The byte layout of a MessagePack-serialized object: the payload's length as
//! eight little-endian bytes, one reserved byte, the payload, then the bytes of
//! a nested serialized object.

use vstd::prelude::*;

verus! {

/// Where the MessagePack payload starts.
pub const MESSAGE_PACK_OFFSET: usize = 9;

/// The eight little-endian bytes of `x`.
pub open spec fn le_bytes(x: u64) -> Seq<u8> {
    seq![
        x as u8,
        (x >> 8u64) as u8,
        (x >> 16u64) as u8,
        (x >> 24u64) as u8,
        (x >> 32u64) as u8,
        (x >> 40u64) as u8,
        (x >> 48u64) as u8,
        (x >> 56u64) as u8,
    ]
}

/// The number whose little-endian bytes are the first eight of `b`.
pub open spec fn le_value(b: Seq<u8>) -> u64 {
    (b[0] as u64) | ((b[1] as u64) << 8u64) | ((b[2] as u64) << 16u64) | ((b[3] as u64) << 24u64) | ((
    b[4] as u64) << 32u64) | ((b[5] as u64) << 40u64) | ((b[6] as u64) << 48u64) | ((b[7] as u64)
        << 56u64)
}

/// Reading back the little-endian bytes of a number gives the number.
pub proof fn lemma_le_roundtrip(x: u64)
    ensures
        le_value(le_bytes(x)) == x,
{
    let b = le_bytes(x);
    assert(b[0] == x as u8);
    assert(b[1] == (x >> 8u64) as u8);
    assert(b[2] == (x >> 16u64) as u8);
    assert(b[3] == (x >> 24u64) as u8);
    assert(b[4] == (x >> 32u64) as u8);
    assert(b[5] == (x >> 40u64) as u8);
    assert(b[6] == (x >> 48u64) as u8);
    assert(b[7] == (x >> 56u64) as u8);
    assert(((x as u8) as u64) | ((((x >> 8u64) as u8) as u64) << 8u64) | ((((x >> 16u64) as u8) as u64)
        << 16u64) | ((((x >> 24u64) as u8) as u64) << 24u64) | ((((x >> 32u64) as u8) as u64) << 32u64)
        | ((((x >> 40u64) as u8) as u64) << 40u64) | ((((x >> 48u64) as u8) as u64) << 48u64) | ((((x
        >> 56u64) as u8) as u64) << 56u64) == x) by (bit_vector);
}

/// The serialized bytes of a MessagePack payload and a nested object.
pub open spec fn message_pack_layout(msgpack: Seq<u8>, nested: Seq<u8>) -> Seq<u8> {
    le_bytes(msgpack.len() as u64) + seq![0u8] + msgpack + nested
}

/// The payload and the nested bytes read from a buffer: empty where the
/// buffer is shorter than the header; a length that does not fit in `usize`
/// counts as zero; the payload stops at the buffer's end.
pub open spec fn split_buffer_spec(data: Seq<u8>) -> (Seq<u8>, Seq<u8>) {
    if data.len() < MESSAGE_PACK_OFFSET {
        (Seq::empty(), Seq::empty())
    } else {
        let len = le_value(data);
        let len: int = if len <= usize::MAX {
            len as int
        } else {
            0
        };
        let end = if MESSAGE_PACK_OFFSET + len < data.len() {
            MESSAGE_PACK_OFFSET + len
        } else {
            data.len() as int
        };
        (data.subrange(MESSAGE_PACK_OFFSET as int, end), data.subrange(end, data.len() as int))
    }
}

/// The bytes of `v` from `from` up to `to`.
fn copy_range(v: &[u8], from: usize, to: usize) -> (r: Vec<u8>)
    requires
        from <= to <= v@.len(),
    ensures
        r@ == v@.subrange(from as int, to as int),
{
    let mut r: Vec<u8> = Vec::new();
    let mut i = from;
    while i < to
        invariant
            from <= i <= to,
            to <= v@.len(),
            r@ == v@.subrange(from as int, i as int),
        decreases to - i,
    {
        r.push(v[i]);
        proof {
            assert(v@.subrange(from as int, i + 1) =~= v@.subrange(from as int, i as int).push(v@[i as int]));
        }
        i = i + 1;
    }
    r
}

/// Appends the bytes of `src` to `dst`.
fn append_bytes(dst: &mut Vec<u8>, src: &Vec<u8>)
    ensures
        final(dst)@ == old(dst)@ + src@,
{
    let mut i: usize = 0;
    while i < src.len()
        invariant
            i <= src@.len(),
            dst@ == old(dst)@ + src@.subrange(0, i as int),
        decreases src@.len() - i,
    {
        dst.push(src[i]);
        proof {
            assert(src@.subrange(0, i + 1) =~= src@.subrange(0, i as int).push(src@[i as int]));
            assert(dst@ =~= old(dst)@ + src@.subrange(0, i + 1));
        }
        i = i + 1;
    }
    assert(src@.subrange(0, src@.len() as int) =~= src@);
}

/// Splits a serialized buffer into its MessagePack payload and the nested
/// bytes that follow it.
pub fn split_buffer(data: &[u8]) -> (r: (Vec<u8>, Vec<u8>))
    ensures
        (r.0@, r.1@) == split_buffer_spec(data@),
{
    if data.len() < MESSAGE_PACK_OFFSET {
        return (Vec::new(), Vec::new());
    }
    let len: u64 = (data[0] as u64) | ((data[1] as u64) << 8u64) | ((data[2] as u64) << 16u64) | ((
    data[3] as u64) << 24u64) | ((data[4] as u64) << 32u64) | ((data[5] as u64) << 40u64) | ((
    data[6] as u64) << 48u64) | ((data[7] as u64) << 56u64);
    let len: usize = if len <= usize::MAX as u64 {
        len as usize
    } else {
        0
    };
    let end = if len < data.len() - MESSAGE_PACK_OFFSET {
        MESSAGE_PACK_OFFSET + len
    } else {
        data.len()
    };
    (copy_range(data, MESSAGE_PACK_OFFSET, end), copy_range(data, end, data.len()))
}

/// A MessagePack payload together with the bytes of a nested serialized
/// object, if any.
pub struct MessagePackSerializedObject {
    pub msgpack_data: Vec<u8>,
    pub nested_bytes: Option<Vec<u8>>,
}

impl MessagePackSerializedObject {
    /// The nested bytes, empty where there are none.
    pub open spec fn nested_view(&self) -> Seq<u8> {
        match self.nested_bytes {
            Some(n) => n@,
            None => Seq::empty(),
        }
    }

    /// The length of the serialized form: header, payload and nested bytes.
    pub fn total_bytes(&self) -> (n: usize)
        requires
            MESSAGE_PACK_OFFSET + self.msgpack_data@.len() + self.nested_view().len() <= usize::MAX,
        ensures
            n == MESSAGE_PACK_OFFSET + self.msgpack_data@.len() + self.nested_view().len(),
    {
        let nested = match &self.nested_bytes {
            Some(n) => n.len(),
            None => 0,
        };
        MESSAGE_PACK_OFFSET + self.msgpack_data.len() + nested
    }

    /// The serialized form: the payload's length as eight little-endian bytes,
    /// a zero byte, the payload, then the nested bytes.
    pub fn to_bytes(&self) -> (out: Vec<u8>)
        requires
            MESSAGE_PACK_OFFSET + self.msgpack_data@.len() + self.nested_view().len() <= usize::MAX,
        ensures
            out@ == message_pack_layout(self.msgpack_data@, self.nested_view()),
    {
        let len = self.msgpack_data.len() as u64;
        let mut out: Vec<u8> = Vec::new();
        out.push(len as u8);
        out.push((len >> 8u64) as u8);
        out.push((len >> 16u64) as u8);
        out.push((len >> 24u64) as u8);
        out.push((len >> 32u64) as u8);
        out.push((len >> 40u64) as u8);
        out.push((len >> 48u64) as u8);
        out.push((len >> 56u64) as u8);
        out.push(0u8);
        assert(out@ =~= le_bytes(len) + seq![0u8]);
        append_bytes(&mut out, &self.msgpack_data);
        match &self.nested_bytes {
            Some(n) => {
                append_bytes(&mut out, n);
            },
            None => {
                assert(out@ + Seq::<u8>::empty() =~= out@);
            },
        }
        out
    }
}

/// Splitting the serialized form of a payload and nested bytes gives back
/// the payload and the nested bytes, where the payload's length fits in
/// `usize` (as that of any payload in memory does).
pub proof fn law_split_buffer_undoes_to_bytes(msgpack: Seq<u8>, nested: Seq<u8>)
    requires
        msgpack.len() <= usize::MAX,
    ensures
        split_buffer_spec(message_pack_layout(msgpack, nested)) == (msgpack, nested),
{
    let data = message_pack_layout(msgpack, nested);
    let l = msgpack.len() as u64;
    lemma_le_roundtrip(l);
    assert(data.subrange(0, 8) =~= le_bytes(l));
    assert forall|i: int| 0 <= i < 8 implies data[i] == le_bytes(l)[i] by {}
    assert(le_value(data) == le_value(le_bytes(l)));
    assert(data.subrange(9, 9 + msgpack.len() as int) =~= msgpack);
    assert(data.subrange(9 + msgpack.len() as int, data.len() as int) =~= nested);
}

/// A buffer shorter than the header splits into an empty payload and empty
/// nested bytes.
pub proof fn law_short_buffer_splits_into_nothing(data: Seq<u8>)
    requires
        data.len() < MESSAGE_PACK_OFFSET,
    ensures
        split_buffer_spec(data) == (Seq::<u8>::empty(), Seq::<u8>::empty()),
{
}

} // verus!
