//! The frames of the floodsub control channel: a flag, a string, an optional list of
//! strings and optional data, each length written as four little-endian bytes.

use vstd::prelude::*;
use vstd::bytes::{spec_u32_from_le_bytes, spec_u32_to_le_bytes, u32_from_le_bytes, u32_to_le_bytes};
use vstd::slice::{slice_subrange, slice_to_vec};
use vstd::bytes::lemma_auto_spec_u32_to_from_le_bytes;
use vstd::utf8::{decode_utf8, encode_utf8, encode_utf8_decode_utf8, encode_utf8_valid_utf8, valid_utf8};

verus! {

/// What a frame on the floodsub control channel asks for.
#[derive(Debug, Clone, Copy, PartialEq, Eq, Structural)]
pub enum SubAPIMpscFlag {
    Unsubscribe,
    DeadPeers,
    Publish,
}

/// The string, the list of strings and the data of a control frame.
pub type FloodsubPayload = (Option<String>, Option<Vec<String>>, Option<Vec<u8>>);

/// A control frame that cannot be read.
#[derive(Debug, Clone, Copy, PartialEq, Eq, Structural)]
pub enum FloodsubFrameError {
    Malformed,
}

/// The wire number of a control flag.
pub open spec fn sub_flag_tag(flag: SubAPIMpscFlag) -> u8 {
    match flag {
        SubAPIMpscFlag::Unsubscribe => 1,
        SubAPIMpscFlag::DeadPeers => 2,
        SubAPIMpscFlag::Publish => 3,
    }
}

/// The control flag a wire number stands for.
pub open spec fn sub_flag_from_tag(tag: u8) -> Option<SubAPIMpscFlag> {
    if tag == 1 {
        Some(SubAPIMpscFlag::Unsubscribe)
    } else if tag == 2 {
        Some(SubAPIMpscFlag::DeadPeers)
    } else if tag == 3 {
        Some(SubAPIMpscFlag::Publish)
    } else {
        None
    }
}

impl SubAPIMpscFlag {
    /// The flag's wire number.
    pub fn tag(&self) -> (r: u8)
        ensures
            r == sub_flag_tag(*self),
    {
        match *self {
            Self::Unsubscribe => 1,
            Self::DeadPeers => 2,
            Self::Publish => 3,
        }
    }

    /// The flag a wire number stands for; `None` outside one to three.
    pub fn from_tag(tag: u8) -> (r: Option<Self>)
        ensures
            r == sub_flag_from_tag(tag),
    {
        match tag {
            1 => Some(Self::Unsubscribe),
            2 => Some(Self::DeadPeers),
            3 => Some(Self::Publish),
            _ => None,
        }
    }
}

/// A flag's number reads back as the flag; the numbers are one to three.
pub proof fn lemma_sub_flag_tag_roundtrip(flag: SubAPIMpscFlag, tag: u8)
    ensures
        sub_flag_from_tag(sub_flag_tag(flag)) == Some(flag),
        sub_flag_from_tag(tag) matches Some(f) ==> sub_flag_tag(f) == tag,
        sub_flag_from_tag(tag) is Some <==> 1 <= tag <= 3,
{
}

/// A length as four little-endian bytes (lengths from 2^32 on keep their low 32 bits).
pub open spec fn le32(n: nat) -> Seq<u8> {
    spec_u32_to_le_bytes(n as u32)
}

/// Bytes preceded by their length.
pub open spec fn field(b: Seq<u8>) -> Seq<u8> {
    le32(b.len()) + b
}

/// The UTF-8 fields of the strings, one after the other.
pub open spec fn item_fields(items: Seq<Seq<char>>) -> Seq<u8>
    decreases items.len(),
{
    if items.len() == 0 {
        Seq::empty()
    } else {
        item_fields(items.drop_last()) + field(encode_utf8(items.last()))
    }
}

/// The bytes of a control frame with the string `s`.
pub open spec fn api_frame(
    flag: SubAPIMpscFlag,
    s: Seq<char>,
    items: Option<Seq<Seq<char>>>,
    data: Option<Seq<u8>>,
) -> Seq<u8> {
    seq![sub_flag_tag(flag)] + field(encode_utf8(s)) + vec_part(items) + data_part(data)
}

/// A zero byte for no list; else a one byte, the count and the string fields.
pub open spec fn vec_part(items: Option<Seq<Seq<char>>>) -> Seq<u8> {
    match items {
        None => seq![0u8],
        Some(v) => seq![1u8] + le32(v.len()) + item_fields(v),
    }
}

/// A zero byte for no data; else a one byte and the data field.
pub open spec fn data_part(data: Option<Seq<u8>>) -> Seq<u8> {
    match data {
        None => seq![0u8],
        Some(d) => seq![1u8] + field(d),
    }
}

/// The string a frame carries when the caller gives none.
pub open spec fn none_marker() -> Seq<char> {
    seq!['n', 'o', 'n', 'e']
}

/// Four little-endian bytes at `idx`.
pub open spec fn read_u32(b: Seq<u8>, idx: int) -> Option<nat> {
    if 0 <= idx && idx + 4 <= b.len() {
        Some(spec_u32_from_le_bytes(b.subrange(idx, idx + 4)) as nat)
    } else {
        None
    }
}

/// A length-prefixed UTF-8 string at `idx`, and the index past it.
pub open spec fn read_str(b: Seq<u8>, idx: int) -> Option<(Seq<char>, int)> {
    match read_u32(b, idx) {
        None => None,
        Some(len) => {
            let start = idx + 4;
            if start + len <= b.len() && valid_utf8(b.subrange(start, start + len)) {
                Some((decode_utf8(b.subrange(start, start + len)), start + len))
            } else {
                None
            }
        },
    }
}

/// `count` length-prefixed UTF-8 strings from `idx` on, and the index past them.
pub open spec fn read_items(b: Seq<u8>, idx: int, count: nat) -> Option<(Seq<Seq<char>>, int)>
    decreases count,
{
    if count == 0 {
        Some((Seq::empty(), idx))
    } else {
        match read_str(b, idx) {
            None => None,
            Some((s, next)) => match read_items(b, next, (count - 1) as nat) {
                None => None,
                Some((rest, end)) => Some((seq![s] + rest, end)),
            },
        }
    }
}

/// The optional list of strings at `i`: a zero byte for none, else a one byte, the count and
/// the strings; and the index past it.
pub open spec fn read_vec_part(b: Seq<u8>, i: int) -> Option<(Option<Seq<Seq<char>>>, int)> {
    if i >= b.len() {
        None
    } else if b[i] == 0 {
        Some((None, i + 1))
    } else {
        match read_u32(b, i + 1) {
            None => None,
            Some(count) => match read_items(b, i + 5, count) {
                None => None,
                Some((items, end)) => Some((Some(items), end)),
            },
        }
    }
}

/// The optional data at `i`: a zero byte for none, else a one byte, the length and the bytes.
pub open spec fn read_data_part(b: Seq<u8>, i: int) -> Option<Option<Seq<u8>>> {
    if i >= b.len() {
        None
    } else if b[i] == 0 {
        Some(None)
    } else {
        match read_u32(b, i + 1) {
            None => None,
            Some(len) => {
                let start = i + 5;
                if start + len <= b.len() {
                    Some(Some(b.subrange(start, start + len)))
                } else {
                    None
                }
            },
        }
    }
}

/// What a control frame reads as; `None` when it is cut short, names no flag, or holds a
/// string that is not UTF-8. The string "none" reads as no string. Bytes after the data are
/// ignored.
pub open spec fn parse_api_frame(b: Seq<u8>) -> Option<
    (SubAPIMpscFlag, Option<Seq<char>>, Option<Seq<Seq<char>>>, Option<Seq<u8>>),
> {
    if b.len() < 1 {
        None
    } else {
        match sub_flag_from_tag(b[0]) {
            None => None,
            Some(flag) => match read_str(b, 1) {
                None => None,
                Some((s, i1)) => match read_vec_part(b, i1) {
                    None => None,
                    Some((items, i2)) => match read_data_part(b, i2) {
                        None => None,
                        Some(data) => Some(
                            (
                                flag,
                                if s == none_marker() {
                                    None
                                } else {
                                    Some(s)
                                },
                                items,
                                data,
                            ),
                        ),
                    },
                },
            },
        }
    }
}

/// `String::from_utf8`: succeeds exactly on valid UTF-8, with the characters the bytes encode.
#[verifier::external_body]
pub(crate) fn string_from_utf8(bytes: Vec<u8>) -> (r: Option<String>)
    ensures
        r is Some <==> valid_utf8(bytes@),
        r matches Some(s) ==> s@ == decode_utf8(bytes@),
{
    String::from_utf8(bytes).ok()
}

fn push_field(buf: &mut Vec<u8>, b: &[u8])
    ensures
        final(buf)@ == old(buf)@ + field(b@),
{
    let mut len = u32_to_le_bytes(b.len() as u32);
    buf.append(&mut len);
    buf.extend_from_slice(b);
}

/// Writes a control frame. A missing string is written as "none".
pub fn build_floodsub_api_frame(
    flag: SubAPIMpscFlag,
    payload_string: Option<String>,
    opt_vec: Option<Vec<String>>,
    opt_data: Option<Vec<u8>>,
) -> (buf: Vec<u8>)
    ensures
        buf@ == api_frame(
            flag,
            match payload_string {
                Some(s) => s@,
                None => none_marker(),
            },
            opt_vec.deep_view(),
            match opt_data {
                Some(d) => Some(d@),
                None => None,
            },
        ),
{
    let mut buf: Vec<u8> = Vec::new();
    buf.push(flag.tag());
    let binding = match payload_string {
        Some(s) => s,
        None => {
            let none = "none".to_owned();
            proof {
                reveal_strlit("none");
                assert(none@ =~= none_marker());
            }
            none
        },
    };
    push_field(&mut buf, binding.as_str().as_bytes());
    let ghost after_string = buf@;
    assert(after_string =~= seq![sub_flag_tag(flag)] + field(encode_utf8(binding@)));
    let ghost vec_bytes: Seq<u8> = match opt_vec.deep_view() {
        None => seq![0u8],
        Some(v) => seq![1u8] + le32(v.len()) + item_fields(v),
    };
    match opt_vec {
        None => {
            buf.push(0);
        },
        Some(v) => {
            buf.push(1);
            let mut count = u32_to_le_bytes(v.len() as u32);
            buf.append(&mut count);
            let ghost head = buf@;
            let mut j: usize = 0;
            while j < v.len()
                invariant
                    j <= v@.len(),
                    buf@ == head + item_fields(v.deep_view().take(j as int)),
                decreases v@.len() - j,
            {
                push_field(&mut buf, v[j].as_str().as_bytes());
                assert(v.deep_view().take(j + 1).drop_last() =~= v.deep_view().take(j as int));
                j += 1;
            }
            assert(v.deep_view().take(v@.len() as int) =~= v.deep_view());
            assert(buf@ =~= after_string + vec_bytes);
        },
    }
    assert(buf@ =~= after_string + vec_bytes);
    let ghost after_vec = buf@;
    match opt_data {
        None => {
            buf.push(0);
        },
        Some(data) => {
            buf.push(1);
            push_field(&mut buf, data.as_slice());
        },
    }
    assert(binding@ == match payload_string {
        Some(s) => s@,
        None => none_marker(),
    });
    assert(buf@ =~= after_vec + match opt_data {
        None => seq![0u8],
        Some(d) => seq![1u8] + field(d@),
    });
    buf
}

/// A read control frame, as views.
pub open spec fn frame_view(x: (SubAPIMpscFlag, FloodsubPayload)) -> (
    SubAPIMpscFlag,
    Option<Seq<char>>,
    Option<Seq<Seq<char>>>,
    Option<Seq<u8>>,
) {
    (
        x.0,
        match x.1.0 {
            Some(s) => Some(s@),
            None => None,
        },
        x.1.1.deep_view(),
        match x.1.2 {
            Some(d) => Some(d@),
            None => None,
        },
    )
}

fn read_u32_at(b: &[u8], idx: usize) -> (r: Option<u32>)
    ensures
        match read_u32(b@, idx as int) {
            Some(v) => r == Some(v as u32) && v < 0x1_0000_0000 && idx + 4 <= b@.len(),
            None => r is None,
        },
{
    if idx <= b.len() && b.len() - idx >= 4 {
        let v = u32_from_le_bytes(slice_subrange(b, idx, idx + 4));
        Some(v)
    } else {
        None
    }
}

fn read_str_at(b: &[u8], idx: usize) -> (r: Option<(String, usize)>)
    ensures
        match read_str(b@, idx as int) {
            Some((s, next)) => r matches Some((x, n)) && x@ == s && n == next,
            None => r is None,
        },
{
    let len = match read_u32_at(b, idx) {
        Some(v) => v as usize,
        None => {
            return None;
        },
    };
    if idx > b.len() || b.len() - idx < 4 {
        return None;
    }
    let start = idx + 4;
    if b.len() - start >= len {
        let bytes = slice_to_vec(slice_subrange(b, start, start + len));
        match string_from_utf8(bytes) {
            Some(s) => Some((s, start + len)),
            None => None,
        }
    } else {
        None
    }
}

/// Reads a control frame; `None` exactly when `parse_api_frame` finds none.
pub fn parse_floodsub_api_frame(payload: &Vec<u8>) -> (r: Option<(SubAPIMpscFlag, FloodsubPayload)>)
    ensures
        match parse_api_frame(payload@) {
            Some(p) => r matches Some(x) && frame_view(x) == p,
            None => r is None,
        },
{
    let b = payload.as_slice();
    if b.len() < 1 {
        return None;
    }
    let flag = match SubAPIMpscFlag::from_tag(b[0]) {
        Some(f) => f,
        None => {
            return None;
        },
    };
    let (s, mut idx) = match read_str_at(b, 1) {
        Some(x) => x,
        None => {
            return None;
        },
    };
    let none = "none".to_owned();
    proof {
        reveal_strlit("none");
        assert(none@ =~= none_marker());
    }
    let is_none = s == none;
    let s_payload = if is_none {
        None
    } else {
        Some(s)
    };
    if idx >= b.len() {
        return None;
    }
    let has_vec = b[idx];
    idx += 1;
    let opt_vec = if has_vec == 0 {
        None
    } else {
        let count = match read_u32_at(b, idx) {
            Some(c) => c,
            None => {
                return None;
            },
        };
        idx += 4;
        let ghost start = idx;
        let mut v: Vec<String> = Vec::new();
        let mut j: u32 = 0;
        assert(read_items(b@, start as int, count as nat) is None ==> parse_api_frame(payload@) is None);
        while j < count
            invariant
                j <= count,
                read_items(b@, start as int, count as nat) is None ==> parse_api_frame(payload@) is None,
                b@ == payload@,
                read_items(b@, start as int, count as nat) == match read_items(
                    b@,
                    idx as int,
                    (count - j) as nat,
                ) {
                    None => None,
                    Some((rest, end)) => Some((v.deep_view() + rest, end)),
                },
                v@.len() == j,
            decreases count - j,
        {
            let (item, next) = match read_str_at(b, idx) {
                Some(x) => x,
                None => {
                    return None;
                },
            };
            let ghost before = v.deep_view();
            v.push(item);
            assert(v.deep_view() =~= before.push(item@));
            assert forall|rest: Seq<Seq<char>>| v.deep_view() + rest =~= before + (seq![item@] + rest) by {}
            idx = next;
            j += 1;
        }
        assert(v.deep_view() + Seq::<Seq<char>>::empty() =~= v.deep_view());
        Some(v)
    };
    if idx >= b.len() {
        return None;
    }
    let has_data = b[idx];
    let opt_data = if has_data == 0 {
        None
    } else {
        let len = match read_u32_at(b, idx + 1) {
            Some(l) => l as usize,
            None => {
                return None;
            },
        };
        let start = idx + 5;
        if b.len() - start >= len {
            Some(slice_to_vec(slice_subrange(b, start, start + len)))
        } else {
            return None;
        }
    };
    let r = Some((flag, (s_payload, opt_vec, opt_data)));
    proof {
        let p = parse_api_frame(payload@);
        assert(read_str(b@, 1) is Some);
        assert(p is Some);
        assert(p.unwrap().0 == flag);
        assert(p.unwrap().1 == frame_view(r.unwrap()).1);
        assert(p.unwrap().2 == frame_view(r.unwrap()).2);
        assert(p.unwrap().3 == frame_view(r.unwrap()).3);
    }
    r
}

/// Reads a well-formed control frame.
pub fn process_floodsub_api_frame(payload: Vec<u8>) -> (r: Result<(SubAPIMpscFlag, FloodsubPayload), FloodsubFrameError>)
    requires
        parse_api_frame(payload@) is Some,
    ensures
        r matches Ok(x) && Some(frame_view(x)) == parse_api_frame(payload@),
{
    match parse_floodsub_api_frame(&payload) {
        Some(x) => Ok(x),
        None => Err(FloodsubFrameError::Malformed),
    }
}

/// A field reads back as its length and bytes.
proof fn lemma_read_field(pre: Seq<u8>, x: Seq<u8>, rest: Seq<u8>)
    requires
        x.len() < 0x1_0000_0000,
    ensures
        field(x).len() == x.len() + 4,
        read_u32(pre + field(x) + rest, pre.len() as int) == Some(x.len()),
        (pre + field(x) + rest).subrange((pre.len() + 4) as int, (pre.len() + 4 + x.len()) as int) == x,
{
    lemma_auto_spec_u32_to_from_le_bytes();
    let b = pre + field(x) + rest;
    let i = pre.len() as int;
    assert(b.subrange(i, i + 4) =~= le32(x.len()));
    assert(b.subrange(i + 4, i + 4 + x.len()) =~= x);
}

/// A string field reads back as the string.
proof fn lemma_read_str(pre: Seq<u8>, c: Seq<char>, rest: Seq<u8>)
    requires
        encode_utf8(c).len() < 0x1_0000_0000,
    ensures
        read_str(pre + field(encode_utf8(c)) + rest, pre.len() as int) == Some(
            (c, (pre.len() + 4 + encode_utf8(c).len()) as int),
        ),
{
    let x = encode_utf8(c);
    let b = pre + field(x) + rest;
    let i = pre.len() as int;
    lemma_read_field(pre, x, rest);
    encode_utf8_valid_utf8(c);
    encode_utf8_decode_utf8(c);
    assert(read_u32(b, i) == Some(x.len()));
    assert(b.subrange(i + 4, i + 4 + x.len()) == x);
    assert(i + 4 + x.len() <= b.len());
    assert(valid_utf8(b.subrange(i + 4, i + 4 + x.len())));
}

proof fn lemma_item_fields_front(items: Seq<Seq<char>>)
    requires
        items.len() > 0,
    ensures
        item_fields(items) == field(encode_utf8(items[0])) + item_fields(items.drop_first()),
    decreases items.len(),
{
    if items.len() == 1 {
        assert(items.drop_last() =~= Seq::<Seq<char>>::empty());
        assert(items.drop_first() =~= Seq::<Seq<char>>::empty());
        assert(item_fields(items.drop_last()) =~= Seq::<u8>::empty());
        assert(item_fields(items.drop_first()) =~= Seq::<u8>::empty());
        assert(item_fields(items) =~= field(encode_utf8(items[0])));
    } else {
        lemma_item_fields_front(items.drop_last());
        assert(items.drop_last().drop_first() =~= items.drop_first().drop_last());
        assert(items.drop_first().last() == items.last());
        assert(item_fields(items) =~= field(encode_utf8(items[0])) + item_fields(
            items.drop_first(),
        ));
    }
}

/// Fields of strings read back as the strings.
proof fn lemma_read_items(pre: Seq<u8>, items: Seq<Seq<char>>, rest: Seq<u8>)
    requires
        forall|i: int| 0 <= i < items.len() ==> #[trigger] encode_utf8(items[i]).len() < 0x1_0000_0000,
    ensures
        read_items(pre + item_fields(items) + rest, pre.len() as int, items.len()) == Some(
            (items, (pre.len() + item_fields(items).len()) as int),
        ),
    decreases items.len(),
{
    if items.len() == 0 {
        assert(items =~= Seq::<Seq<char>>::empty());
    } else {
        let b = pre + item_fields(items) + rest;
        let f0 = field(encode_utf8(items[0]));
        let tail = items.drop_first();
        lemma_item_fields_front(items);
        lemma_auto_spec_u32_to_from_le_bytes();
        assert(f0.len() == encode_utf8(items[0]).len() + 4);
        assert(encode_utf8(items[0]).len() < 0x1_0000_0000);
        assert(b =~= pre + f0 + (item_fields(tail) + rest));
        lemma_read_str(pre, items[0], item_fields(tail) + rest);
        assert(b =~= (pre + f0) + item_fields(tail) + rest);
        assert forall|i: int| 0 <= i < tail.len() implies #[trigger] encode_utf8(tail[i]).len()
            < 0x1_0000_0000 by {
            assert(tail[i] == items[i + 1]);
        }
        lemma_read_items(pre + f0, tail, rest);
        assert(seq![items[0]] + tail =~= items);
    }
}

proof fn lemma_read_vec_part(pre: Seq<u8>, items: Option<Seq<Seq<char>>>, rest: Seq<u8>)
    requires
        items matches Some(v) ==> v.len() < 0x1_0000_0000 && forall|i: int|
            0 <= i < v.len() ==> #[trigger] encode_utf8(v[i]).len() < 0x1_0000_0000,
    ensures
        read_vec_part(pre + vec_part(items) + rest, pre.len() as int) == Some(
            (items, (pre.len() + vec_part(items).len()) as int),
        ),
{
    let b = pre + vec_part(items) + rest;
    let i = pre.len() as int;
    match items {
        None => {
            assert(b[i] == 0u8);
        },
        Some(v) => {
            assert(b[i] == 1u8);
            lemma_auto_spec_u32_to_from_le_bytes();
            assert(b.subrange(i + 1, i + 5) =~= le32(v.len()));
            assert(b =~= (pre + seq![1u8] + le32(v.len())) + item_fields(v) + rest);
            lemma_read_items(pre + seq![1u8] + le32(v.len()), v, rest);
        },
    }
}

proof fn lemma_read_data_part(pre: Seq<u8>, data: Option<Seq<u8>>)
    requires
        data matches Some(d) ==> d.len() < 0x1_0000_0000,
    ensures
        read_data_part(pre + data_part(data), pre.len() as int) == Some(data),
{
    let b = pre + data_part(data);
    let i = pre.len() as int;
    match data {
        None => {
            assert(b[i] == 0u8);
        },
        Some(d) => {
            assert(b[i] == 1u8);
            assert(b =~= (pre + seq![1u8]) + field(d) + Seq::<u8>::empty());
            lemma_read_field(pre + seq![1u8], d, Seq::<u8>::empty());
        },
    }
}

/// A control frame reads back as the flag, the string (the string "none" reading as no
/// string), the strings and the data it was written with, when each length fits in 32 bits.
pub proof fn lemma_api_frame_roundtrip(
    flag: SubAPIMpscFlag,
    s: Seq<char>,
    items: Option<Seq<Seq<char>>>,
    data: Option<Seq<u8>>,
)
    requires
        encode_utf8(s).len() < 0x1_0000_0000,
        items matches Some(v) ==> v.len() < 0x1_0000_0000 && forall|i: int|
            0 <= i < v.len() ==> #[trigger] encode_utf8(v[i]).len() < 0x1_0000_0000,
        data matches Some(d) ==> d.len() < 0x1_0000_0000,
    ensures
        parse_api_frame(api_frame(flag, s, items, data)) == Some(
            (
                flag,
                if s == none_marker() {
                    None
                } else {
                    Some(s)
                },
                items,
                data,
            ),
        ),
{
    let b = api_frame(flag, s, items, data);
    let head = seq![sub_flag_tag(flag)];
    let sf = field(encode_utf8(s));
    assert(b =~= head + sf + (vec_part(items) + data_part(data)));
    lemma_read_str(head, s, vec_part(items) + data_part(data));
    lemma_auto_spec_u32_to_from_le_bytes();
    assert(b =~= (head + sf) + vec_part(items) + data_part(data));
    lemma_read_vec_part(head + sf, items, data_part(data));
    assert(b =~= (head + sf + vec_part(items)) + data_part(data));
    lemma_read_data_part(head + sf + vec_part(items), data);
}


/// A length read from a cut frame lies within the cut and reads the same in the whole frame.
proof fn lemma_cut_read_u32(b: Seq<u8>, k: int, idx: int)
    requires
        0 <= k <= b.len(),
        read_u32(b.take(k), idx) is Some,
    ensures
        idx + 4 <= k,
        read_u32(b, idx) == read_u32(b.take(k), idx),
{
    assert(b.take(k).subrange(idx, idx + 4) =~= b.subrange(idx, idx + 4));
}

/// A string read from a cut frame ends within the cut and reads the same in the whole frame.
proof fn lemma_cut_read_str(b: Seq<u8>, k: int, idx: int)
    requires
        0 <= k <= b.len(),
        read_str(b.take(k), idx) is Some,
    ensures
        read_str(b.take(k), idx).unwrap().1 <= k,
        read_str(b, idx) == read_str(b.take(k), idx),
{
    let t = b.take(k);
    lemma_cut_read_u32(b, k, idx);
    let len = read_u32(t, idx).unwrap();
    assert(t.subrange(idx + 4, idx + 4 + len) =~= b.subrange(idx + 4, idx + 4 + len));
}

/// Strings read from a cut frame end within the cut and read the same in the whole frame.
proof fn lemma_cut_read_items(b: Seq<u8>, k: int, idx: int, count: nat)
    requires
        0 <= k <= b.len(),
        0 <= idx <= k,
        read_items(b.take(k), idx, count) is Some,
    ensures
        read_items(b.take(k), idx, count).unwrap().1 <= k,
        read_items(b, idx, count) == read_items(b.take(k), idx, count),
    decreases count,
{
    if count > 0 {
        lemma_cut_read_str(b, k, idx);
        let next = read_str(b.take(k), idx).unwrap().1;
        assert(next >= idx);
        lemma_cut_read_items(b, k, next, (count - 1) as nat);
    }
}

/// The list part read from a cut frame ends within the cut and reads the same in the whole
/// frame.
proof fn lemma_cut_read_vec_part(b: Seq<u8>, k: int, i: int)
    requires
        0 <= k <= b.len(),
        0 <= i,
        read_vec_part(b.take(k), i) is Some,
    ensures
        read_vec_part(b.take(k), i).unwrap().1 <= k,
        read_vec_part(b, i) == read_vec_part(b.take(k), i),
{
    let t = b.take(k);
    assert(t[i] == b[i]);
    if t[i] != 0 {
        lemma_cut_read_u32(b, k, i + 1);
        let count = read_u32(t, i + 1).unwrap();
        lemma_cut_read_items(b, k, i + 5, count);
    }
}

/// A frame cut short is refused. Every length-prefixed field and every marker of a frame is
/// read in full, so no strict prefix of a frame reads as a frame (for lengths that fit in 32
/// bits): `parse_floodsub_api_frame` gives `None` on it, and it is not a frame that
/// `process_floodsub_api_frame` takes.
pub proof fn lemma_cut_frame_is_refused(
    flag: SubAPIMpscFlag,
    s: Seq<char>,
    items: Option<Seq<Seq<char>>>,
    data: Option<Seq<u8>>,
    k: int,
)
    requires
        encode_utf8(s).len() < 0x1_0000_0000,
        items matches Some(v) ==> v.len() < 0x1_0000_0000 && forall|i: int|
            0 <= i < v.len() ==> #[trigger] encode_utf8(v[i]).len() < 0x1_0000_0000,
        data matches Some(d) ==> d.len() < 0x1_0000_0000,
        0 <= k < api_frame(flag, s, items, data).len(),
    ensures
        parse_api_frame(api_frame(flag, s, items, data).take(k)) is None,
{
    let b = api_frame(flag, s, items, data);
    let t = b.take(k);
    let head = seq![sub_flag_tag(flag)];
    let sf = field(encode_utf8(s));
    // the positions at which the whole frame's parts start
    assert(b =~= head + sf + (vec_part(items) + data_part(data)));
    lemma_read_str(head, s, vec_part(items) + data_part(data));
    lemma_auto_spec_u32_to_from_le_bytes();
    assert(b =~= (head + sf) + vec_part(items) + data_part(data));
    lemma_read_vec_part(head + sf, items, data_part(data));
    let i2 = (head + sf + vec_part(items)).len() as int;
    assert(b =~= (head + sf + vec_part(items)) + data_part(data));
    if parse_api_frame(t) is Some {
        assert(t.len() >= 1);
        lemma_cut_read_str(b, k, 1);
        let i1 = read_str(t, 1).unwrap().1;
        lemma_cut_read_vec_part(b, k, i1);
        assert(read_vec_part(t, i1).unwrap().1 == i2);
        assert(read_data_part(t, i2) is Some);
        assert(t[i2] == b[i2]);
        match data {
            None => {
                assert(b.len() == i2 + 1);
            },
            Some(d) => {
                assert(b[i2] == 1u8);
                lemma_cut_read_u32(b, k, i2 + 1);
                assert(b.subrange(i2 + 1, i2 + 5) =~= le32(d.len()));
                assert(read_u32(b, i2 + 1) == Some(d.len()));
                assert(b.len() == i2 + 5 + d.len());
            },
        }
    }
}

} // verus!
