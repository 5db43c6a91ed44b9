use crate::block::{be16, get_be16, push_be16, read_be16};
use crate::block::builder::{extend_bytes, MAX_U16};
use crate::lex::equal;
use vstd::prelude::*;
use vstd::slice::{slice_subrange, slice_to_vec};
use vstd::std_specs::cmp::PartialEqSpecImpl;

verus! {

/// The four bytes of a 32-bit number, most significant first.
pub open spec fn be32(x: u32) -> Seq<u8> {
    seq![
        (x / 0x100_0000) as u8,
        (x / 0x1_0000 % 256) as u8,
        (x / 0x100 % 256) as u8,
        (x % 256) as u8,
    ]
}

/// The 32-bit big-endian number at position `at` of `data`.
pub open spec fn read_be32(data: Seq<u8>, at: int) -> u32 {
    (data[at] * 0x100_0000 + data[at + 1] * 0x1_0000 + data[at + 2] * 0x100 + data[at + 3]) as u32
}

/// Four bytes read back as a 32-bit number give the number they were written
/// from.
pub proof fn lemma_be32_roundtrip(x: u32)
    ensures
        be32(x).len() == 4,
        read_be32(be32(x), 0) == x,
{
}

/// Appends the four big-endian bytes of `x` to `out`.
pub fn push_be32(out: &mut Vec<u8>, x: u32)
    ensures
        final(out)@ == old(out)@ + be32(x),
{
    out.push((x / 0x100_0000) as u8);
    out.push((x / 0x1_0000 % 256) as u8);
    out.push((x / 0x100 % 256) as u8);
    out.push((x % 256) as u8);
    assert(out@ =~= old(out)@ + be32(x));
}

/// Reads the 32-bit big-endian number at position `at` of `data`.
pub fn get_be32(data: &[u8], at: usize) -> (x: u32)
    requires
        at + 4 <= data@.len(),
    ensures
        x == read_be32(data@, at as int),
{
    let a: u32 = data[at] as u32;
    let b: u32 = data[at + 1] as u32;
    let c: u32 = data[at + 2] as u32;
    let d: u32 = data[at + 3] as u32;
    a * 0x100_0000 + b * 0x1_0000 + c * 0x100 + d
}

/// What a metadata record holds: where its block starts in the file, and the
/// first and last key of the block.
pub struct MetaView {
    pub offset: u32,
    pub first_key: Seq<u8>,
    pub last_key: Seq<u8>,
}

/// Whether a record can be serialized: the lengths of its keys fit in 16
/// bits.
pub open spec fn encodable(m: MetaView) -> bool {
    m.first_key.len() <= MAX_U16 && m.last_key.len() <= MAX_U16
}

/// The serialized form of a record: offset, then each key after its length.
pub open spec fn encode_meta(m: MetaView) -> Seq<u8> {
    be32(m.offset) + be16(m.first_key.len() as u16) + m.first_key + be16(m.last_key.len() as u16)
        + m.last_key
}

/// The record serialized at position `at` of `bytes`, with the position that
/// follows it; `None` where `bytes` is too short.
pub open spec fn parse_meta(bytes: Seq<u8>, at: int) -> Option<(MetaView, int)> {
    if at < 0 || at + 6 > bytes.len() {
        None
    } else {
        let offset = read_be32(bytes, at);
        let flen = read_be16(bytes, at + 4) as int;
        let fs = at + 6;
        if fs + flen + 2 > bytes.len() {
            None
        } else {
            let llen = read_be16(bytes, fs + flen) as int;
            let ls = fs + flen + 2;
            if ls + llen > bytes.len() {
                None
            } else {
                Some(
                    (
                        MetaView {
                            offset,
                            first_key: bytes.subrange(fs, fs + flen),
                            last_key: bytes.subrange(ls, ls + llen),
                        },
                        ls + llen,
                    ),
                )
            }
        }
    }
}

/// The serialized form of a list of records: one after the other.
pub open spec fn encode_meta_list(ms: Seq<MetaView>) -> Seq<u8>
    decreases ms.len(),
{
    if ms.len() == 0 {
        Seq::empty()
    } else {
        encode_meta(ms[0]) + encode_meta_list(ms.drop_first())
    }
}

/// The records serialized one after the other from position `at` to the end
/// of `bytes`; `None` where the bytes do not end with a record.
pub open spec fn parse_meta_list(bytes: Seq<u8>, at: int) -> Option<Seq<MetaView>>
    decreases bytes.len() - at,
{
    if at < 0 || at >= bytes.len() {
        Some(Seq::empty())
    } else {
        match parse_meta(bytes, at) {
            None => None,
            Some((m, next)) => match parse_meta_list(bytes, next) {
                None => None,
                Some(rest) => Some(seq![m] + rest),
            },
        }
    }
}

/// A serialized record reads back as the record, wherever it stands.
pub proof fn lemma_parse_encoded_meta(before: Seq<u8>, m: MetaView, after: Seq<u8>)
    requires
        encodable(m),
    ensures
        parse_meta(before + encode_meta(m) + after, before.len() as int) == Some(
            (m, (before.len() + encode_meta(m).len()) as int),
        ),
        encode_meta(m).len() == 8 + m.first_key.len() + m.last_key.len(),
{
    let e = encode_meta(m);
    let bytes = before + e + after;
    let at = before.len() as int;
    let flen = m.first_key.len() as int;
    let llen = m.last_key.len() as int;
    let fs = at + 6;
    let ls = fs + flen + 2;
    assert(e.len() == 8 + flen + llen);
    assert(bytes[at] == be32(m.offset)[0]);
    assert(bytes[at + 1] == be32(m.offset)[1]);
    assert(bytes[at + 2] == be32(m.offset)[2]);
    assert(bytes[at + 3] == be32(m.offset)[3]);
    lemma_be32_roundtrip(m.offset);
    assert(read_be32(bytes, at) == m.offset);
    assert(bytes[at + 4] == be16(flen as u16)[0]);
    assert(bytes[at + 5] == be16(flen as u16)[1]);
    assert(read_be16(bytes, at + 4) == flen);
    assert(bytes[fs + flen] == be16(llen as u16)[0]);
    assert(bytes[fs + flen + 1] == be16(llen as u16)[1]);
    assert(read_be16(bytes, fs + flen) == llen);
    assert(bytes.subrange(fs, fs + flen) =~= m.first_key);
    assert(bytes.subrange(ls, ls + llen) =~= m.last_key);
}

/// A serialized list of records reads back as the list.
pub proof fn lemma_parse_encoded_meta_list(before: Seq<u8>, ms: Seq<MetaView>)
    requires
        forall|i: int| 0 <= i < ms.len() ==> encodable(#[trigger] ms[i]),
    ensures
        parse_meta_list(before + encode_meta_list(ms), before.len() as int) == Some(ms),
    decreases ms.len(),
{
    let bytes = before + encode_meta_list(ms);
    if ms.len() == 0 {
        assert(parse_meta_list(bytes, before.len() as int) == Some(Seq::<MetaView>::empty()));
        assert(ms =~= Seq::<MetaView>::empty());
    } else {
        let m = ms[0];
        let rest = ms.drop_first();
        let e = encode_meta(m);
        lemma_parse_encoded_meta(before, m, encode_meta_list(rest));
        assert(bytes =~= before + e + encode_meta_list(rest));
        assert forall|i: int| 0 <= i < rest.len() implies encodable(#[trigger] rest[i]) by {
            assert(rest[i] == ms[i + 1]);
        }
        lemma_parse_encoded_meta_list(before + e, rest);
        assert(bytes =~= (before + e) + encode_meta_list(rest));
        assert(seq![m] + rest =~= ms);
    }
}

/// The serialized form of a list with one more record is that of the list
/// followed by that of the record.
pub proof fn lemma_encode_meta_list_push(ms: Seq<MetaView>, m: MetaView)
    ensures
        encode_meta_list(ms.push(m)) == encode_meta_list(ms) + encode_meta(m),
    decreases ms.len(),
{
    if ms.len() == 0 {
        assert(ms.push(m).drop_first() =~= Seq::<MetaView>::empty());
        assert(ms.push(m)[0] == m);
        assert(encode_meta_list(Seq::<MetaView>::empty()) =~= Seq::<u8>::empty());
        assert(encode_meta_list(ms.push(m)) =~= encode_meta(m) + Seq::<u8>::empty());
        assert(encode_meta_list(ms) + encode_meta(m) =~= encode_meta(m));
    } else {
        lemma_encode_meta_list_push(ms.drop_first(), m);
        assert(ms.push(m).drop_first() =~= ms.drop_first().push(m));
        assert(encode_meta_list(ms.push(m)) =~= encode_meta_list(ms) + encode_meta(m));
    }
}

/// The index record of one block of a sorted table.
#[derive(Debug, Eq)]
pub struct BlockMetadata {
    offset: u32,
    first_key: Vec<u8>,
    last_key: Vec<u8>,
}

impl View for BlockMetadata {
    type V = MetaView;

    closed spec fn view(&self) -> MetaView {
        MetaView { offset: self.offset, first_key: self.first_key@, last_key: self.last_key@ }
    }
}

/// The views of a list of records.
pub open spec fn meta_views(ms: Seq<BlockMetadata>) -> Seq<MetaView> {
    Seq::new(ms.len(), |i: int| ms[i]@)
}

impl BlockMetadata {
    /// A record of the given parts.
    pub fn new(offset: u32, first_key: Vec<u8>, last_key: Vec<u8>) -> (m: Self)
        ensures
            m@ == (MetaView { offset, first_key: first_key@, last_key: last_key@ }),
    {
        Self { offset, first_key, last_key }
    }

    /// The serialized form of the record.
    pub fn encode(&self) -> (encoded: Vec<u8>)
        requires
            encodable(self@),
        ensures
            encoded@ == encode_meta(self@),
    {
        let mut encoded: Vec<u8> = Vec::new();
        push_be32(&mut encoded, self.offset);
        push_be16(&mut encoded, self.first_key.len() as u16);
        extend_bytes(&mut encoded, self.first_key.as_slice());
        push_be16(&mut encoded, self.last_key.len() as u16);
        extend_bytes(&mut encoded, self.last_key.as_slice());
        assert(encoded@ =~= encode_meta(self@));
        encoded
    }

    /// Reads the record serialized at `start_index`, where there is one,
    /// with the position that follows it.
    pub fn try_decode(encoded_block_meta: &[u8], start_index: usize) -> (r: Option<(Self, usize)>)
        ensures
            match r {
                Some((m, next)) => parse_meta(encoded_block_meta@, start_index as int) == Some(
                    (m@, next as int),
                ),
                None => parse_meta(encoded_block_meta@, start_index as int) is None,
            },
    {
        let n = encoded_block_meta.len();
        if start_index > n || n - start_index < 6 {
            return None;
        }
        let offset = get_be32(encoded_block_meta, start_index);
        let flen = get_be16(encoded_block_meta, start_index + 4) as usize;
        let fs = start_index + 6;
        if n - fs < flen || n - fs - flen < 2 {
            return None;
        }
        let llen = get_be16(encoded_block_meta, fs + flen) as usize;
        let ls = fs + flen + 2;
        if n - ls < llen {
            return None;
        }
        let first_key = slice_to_vec(slice_subrange(encoded_block_meta, fs, fs + flen));
        let last_key = slice_to_vec(slice_subrange(encoded_block_meta, ls, ls + llen));
        Some((Self { offset, first_key, last_key }, ls + llen))
    }

    /// Reads the record serialized at `start_index`, with the position that
    /// follows it.
    pub fn decode(encoded_block_meta: &[u8], start_index: usize) -> (r: (Self, usize))
        requires
            parse_meta(encoded_block_meta@, start_index as int) is Some,
        ensures
            parse_meta(encoded_block_meta@, start_index as int) == Some((r.0@, r.1 as int)),
    {
        match Self::try_decode(encoded_block_meta, start_index) {
            Some(r) => r,
            None => {
                proof {
                    assert(false);
                }
                (Self { offset: 0, first_key: Vec::new(), last_key: Vec::new() }, start_index)
            },
        }
    }

    /// Reads the records serialized one after the other in the whole of
    /// `encoded_block_meta`, where it holds nothing else.
    pub fn try_decode_to_list(encoded_block_meta: &[u8]) -> (r: Option<Vec<Self>>)
        ensures
            match r {
                Some(list) => parse_meta_list(encoded_block_meta@, 0) == Some(meta_views(list@)),
                None => parse_meta_list(encoded_block_meta@, 0) is None,
            },
    {
        let n = encoded_block_meta.len();
        let mut current_index: usize = 0;
        let mut res: Vec<Self> = Vec::new();
        while current_index < n
            invariant
                n == encoded_block_meta@.len(),
                current_index <= n,
                match parse_meta_list(encoded_block_meta@, current_index as int) {
                    Some(rest) => parse_meta_list(encoded_block_meta@, 0) == Some(
                        meta_views(res@) + rest,
                    ),
                    None => parse_meta_list(encoded_block_meta@, 0) is None,
                },
            decreases n - current_index,
        {
            match Self::try_decode(encoded_block_meta, current_index) {
                None => {
                    return None;
                },
                Some((m, next)) => {
                    proof {
                        let ghost before = meta_views(res@);
                        match parse_meta_list(encoded_block_meta@, next as int) {
                            Some(rest) => {
                                assert(meta_views(res@.push(m)) + rest =~= before + (seq![m@]
                                    + rest));
                            },
                            None => {},
                        }
                    }
                    res.push(m);
                    current_index = next;
                },
            }
        }
        assert(meta_views(res@) + Seq::<MetaView>::empty() =~= meta_views(res@));
        Some(res)
    }

    /// Reads the records serialized one after the other in the whole of
    /// `encoded_block_meta`.
    pub fn decode_to_list(encoded_block_meta: &[u8]) -> (list: Vec<Self>)
        requires
            parse_meta_list(encoded_block_meta@, 0) is Some,
        ensures
            parse_meta_list(encoded_block_meta@, 0) == Some(meta_views(list@)),
    {
        match Self::try_decode_to_list(encoded_block_meta) {
            Some(list) => list,
            None => {
                proof {
                    assert(false);
                }
                Vec::new()
            },
        }
    }

    /// Where the block starts in the file.
    pub fn get_offset(&self) -> (r: u32)
        ensures
            r == self@.offset,
    {
        self.offset
    }

    /// The first key of the block.
    pub fn get_first_key(&self) -> (r: &Vec<u8>)
        ensures
            r@ == self@.first_key,
    {
        &self.first_key
    }

    /// The last key of the block.
    pub fn get_last_key(&self) -> (r: &Vec<u8>)
        ensures
            r@ == self@.last_key,
    {
        &self.last_key
    }
}

impl PartialEq for BlockMetadata {
    fn eq(&self, other: &Self) -> (r: bool) {
        self.offset == other.offset && equal(self.first_key.as_slice(), other.first_key.as_slice())
            && equal(self.last_key.as_slice(), other.last_key.as_slice())
    }
}

impl PartialEqSpecImpl for BlockMetadata {
    open spec fn obeys_eq_spec() -> bool {
        true
    }

    open spec fn eq_spec(&self, other: &Self) -> bool {
        self@ == other@
    }
}

} // verus!
