use vstd::prelude::*;
use crate::nbt::{
    lemma_view_entries, lemma_view_items, tag_id, view_entries, view_items, NbtTag, Tag, MAX_DEPTH, TAG_BYTE,
    TAG_BYTE_ARRAY, TAG_COMPOUND, TAG_DOUBLE, TAG_END, TAG_FLOAT, TAG_INT, TAG_INT_ARRAY, TAG_LIST,
    TAG_LONG, TAG_LONG_ARRAY, TAG_SHORT, TAG_STRING,
};

verus! {

/// An unsigned 16-bit integer read at `p`, in either byte order.
pub open spec fn rd16(s: Seq<u8>, p: int, le: bool) -> u16 {
    if le {
        ((s[p + 1] as u16) << 8u16) | (s[p] as u16)
    } else {
        ((s[p] as u16) << 8u16) | (s[p + 1] as u16)
    }
}

pub open spec fn rd32(s: Seq<u8>, p: int, le: bool) -> u32 {
    if le {
        ((rd16(s, p + 2, le) as u32) << 16u32) | (rd16(s, p, le) as u32)
    } else {
        ((rd16(s, p, le) as u32) << 16u32) | (rd16(s, p + 2, le) as u32)
    }
}

pub open spec fn rd64(s: Seq<u8>, p: int, le: bool) -> u64 {
    if le {
        ((rd32(s, p + 4, le) as u64) << 32u64) | (rd32(s, p, le) as u64)
    } else {
        ((rd32(s, p, le) as u64) << 32u64) | (rd32(s, p + 4, le) as u64)
    }
}

/// The payload of a tag of type `ty` that starts at `p`, with the position
/// just past it; lists and compounds may nest `depth` levels below this one.
pub open spec fn parse_payload(s: Seq<u8>, p: int, ty: u8, le: bool, depth: nat) -> Option<(Tag, int)>
    decreases depth, 0nat, 0int,
{
    if p < 0 || p > s.len() {
        None
    } else if ty == TAG_BYTE {
        if p + 1 <= s.len() { Some((Tag::Byte(s[p] as i8), p + 1)) } else { None }
    } else if ty == TAG_SHORT {
        if p + 2 <= s.len() { Some((Tag::Short(rd16(s, p, le) as i16), p + 2)) } else { None }
    } else if ty == TAG_INT {
        if p + 4 <= s.len() { Some((Tag::Int(rd32(s, p, le) as i32), p + 4)) } else { None }
    } else if ty == TAG_LONG {
        if p + 8 <= s.len() { Some((Tag::Long(rd64(s, p, le) as i64), p + 8)) } else { None }
    } else if ty == TAG_FLOAT {
        if p + 4 <= s.len() { Some((Tag::Float(rd32(s, p, le)), p + 4)) } else { None }
    } else if ty == TAG_DOUBLE {
        if p + 8 <= s.len() { Some((Tag::Double(rd64(s, p, le)), p + 8)) } else { None }
    } else if ty == TAG_BYTE_ARRAY {
        if p + 4 > s.len() {
            None
        } else {
            let n = rd32(s, p, le) as i32;
            if n < 0 || p + 4 + n > s.len() {
                None
            } else {
                Some((Tag::ByteArray(s.subrange(p + 4, p + 4 + n)), p + 4 + n))
            }
        }
    } else if ty == TAG_STRING {
        if p + 2 > s.len() {
            None
        } else {
            let n = rd16(s, p, le) as int;
            if p + 2 + n > s.len() {
                None
            } else {
                Some((Tag::String(s.subrange(p + 2, p + 2 + n)), p + 2 + n))
            }
        }
    } else if ty == TAG_LIST {
        if depth == 0 || p + 5 > s.len() {
            None
        } else {
            let e = s[p];
            let n = rd32(s, p + 1, le) as i32;
            if n < 0 {
                None
            } else {
                match parse_items(s, p + 5, e, n as nat, le, (depth - 1) as nat) {
                    Some((ts, q)) => Some((Tag::List(e, ts), q)),
                    None => None,
                }
            }
        }
    } else if ty == TAG_COMPOUND {
        if depth == 0 {
            None
        } else {
            match parse_entries(s, p, le, (depth - 1) as nat) {
                Some((es, q)) => Some((Tag::Compound(es), q)),
                None => None,
            }
        }
    } else if ty == TAG_INT_ARRAY {
        if p + 4 > s.len() {
            None
        } else {
            let n = rd32(s, p, le) as i32;
            if n < 0 || p + 4 + 4 * n > s.len() {
                None
            } else {
                Some((Tag::IntArray(Seq::new(n as nat, |i: int| rd32(s, p + 4 + 4 * i, le) as i32)), p + 4 + 4 * n))
            }
        }
    } else if ty == TAG_LONG_ARRAY {
        if p + 4 > s.len() {
            None
        } else {
            let n = rd32(s, p, le) as i32;
            if n < 0 || p + 4 + 8 * n > s.len() {
                None
            } else {
                Some((Tag::LongArray(Seq::new(n as nat, |i: int| rd64(s, p + 4 + 8 * i, le) as i64)), p + 4 + 8 * n))
            }
        }
    } else {
        None
    }
}

/// `n` payloads of type `e` one after another from `p`.
pub open spec fn parse_items(s: Seq<u8>, p: int, e: u8, n: nat, le: bool, depth: nat) -> Option<(Seq<Tag>, int)>
    decreases depth, 1nat, n,
{
    if n == 0 {
        Some((Seq::empty(), p))
    } else {
        match parse_payload(s, p, e, le, depth) {
            Some((t, q)) => match parse_items(s, q, e, (n - 1) as nat, le, depth) {
                Some((ts, r)) => Some((seq![t] + ts, r)),
                None => None,
            },
            None => None,
        }
    }
}

/// Named tags from `p` up to and including the end tag that closes a compound.
pub open spec fn parse_entries(s: Seq<u8>, p: int, le: bool, depth: nat) -> Option<(Seq<(Seq<u8>, Tag)>, int)>
    decreases depth, 1nat, s.len() - p,
{
    if p < 0 || p >= s.len() {
        None
    } else if s[p] == TAG_END {
        Some((Seq::empty(), p + 1))
    } else if p + 3 > s.len() {
        None
    } else {
        let start = p + 3 + rd16(s, p + 1, le) as int;
        if start > s.len() {
            None
        } else {
            match parse_payload(s, start, s[p], le, depth) {
                Some((t, q)) => if q <= p || q > s.len() {
                    None
                } else {
                    match parse_entries(s, q, le, depth) {
                        Some((es, r)) => Some((seq![(s.subrange(p + 3, start), t)] + es, r)),
                        None => None,
                    }
                },
                None => None,
            }
        }
    }
}

/// A whole file from `off` on: the root's type id, its name, its payload, and
/// nothing after it. The root's name is not kept.
pub open spec fn parse_file_at(s: Seq<u8>, off: int, le: bool) -> Option<Tag> {
    if off < 0 || off + 3 > s.len() {
        None
    } else {
        let start = off + 3 + rd16(s, off + 1, le) as int;
        if start > s.len() {
            None
        } else {
            match parse_payload(s, start, s[off], le, MAX_DEPTH as nat) {
                Some((t, q)) => if q == s.len() { Some(t) } else { None },
                None => None,
            }
        }
    }
}

/// The document of a big-endian file, if the bytes are one.
pub open spec fn be_file(s: Seq<u8>) -> Option<Tag> {
    parse_file_at(s, 0, false)
}

/// The eight-byte little-endian header: a version, then the length of the rest.
pub open spec fn has_le_header(s: Seq<u8>) -> bool {
    s.len() >= 8 && rd32(s, 4, true) as int == s.len() - 8
}

/// The document of a little-endian file, and whether it carries the header.
/// The reading without a header is preferred: a headed file written here
/// never reads that way (its version 10 opens an empty compound that ends
/// after four bytes), so neither form is taken for the other.
pub open spec fn le_file(s: Seq<u8>) -> Option<(Tag, bool)> {
    match parse_file_at(s, 0, true) {
        Some(t) => Some((t, false)),
        None => if has_le_header(s) && parse_file_at(s, 8, true) is Some {
            Some((parse_file_at(s, 8, true)->0, true))
        } else {
            None
        },
    }
}

fn read_u16(s: &[u8], p: usize, le: bool) -> (r: u16)
    requires
        p + 2 <= s@.len(),
    ensures
        r == rd16(s@, p as int, le),
{
    let _len = s.len();
    if le {
        ((s[p + 1] as u16) << 8u16) | (s[p] as u16)
    } else {
        ((s[p] as u16) << 8u16) | (s[p + 1] as u16)
    }
}

pub(crate) fn read_u32(s: &[u8], p: usize, le: bool) -> (r: u32)
    requires
        p + 4 <= s@.len(),
    ensures
        r == rd32(s@, p as int, le),
{
    let _len = s.len();
    if le {
        ((read_u16(s, p + 2, le) as u32) << 16u32) | (read_u16(s, p, le) as u32)
    } else {
        ((read_u16(s, p, le) as u32) << 16u32) | (read_u16(s, p + 2, le) as u32)
    }
}

fn read_u64(s: &[u8], p: usize, le: bool) -> (r: u64)
    requires
        p + 8 <= s@.len(),
    ensures
        r == rd64(s@, p as int, le),
{
    let _len = s.len();
    if le {
        ((read_u32(s, p + 4, le) as u64) << 32u64) | (read_u32(s, p, le) as u64)
    } else {
        ((read_u32(s, p, le) as u64) << 32u64) | (read_u32(s, p + 4, le) as u64)
    }
}

/// The bytes of `s` from `a` up to `b`.
pub fn copy_range(s: &[u8], a: usize, b: usize) -> (r: Vec<u8>)
    requires
        a <= b <= s@.len(),
    ensures
        r@ == s@.subrange(a as int, b as int),
{
    let mut v: Vec<u8> = Vec::new();
    let mut i: usize = a;
    while i < b
        invariant
            a <= i <= b <= s@.len(),
            v@ == s@.subrange(a as int, i as int),
        decreases b - i,
    {
        v.push(s[i]);
        assert(v@ =~= s@.subrange(a as int, i + 1));
        i = i + 1;
    }
    v
}

/// Reads the payload of a tag of type `ty` at `p`.
pub fn read_payload(s: &[u8], p: usize, ty: u8, le: bool, depth: u32) -> (r: Option<(NbtTag, usize)>)
    requires
        p <= s@.len(),
    ensures
        match r {
            Some((t, q)) => parse_payload(s@, p as int, ty, le, depth as nat) == Some((t.view(), q as int))
                && p <= q <= s@.len(),
            None => parse_payload(s@, p as int, ty, le, depth as nat) is None,
        },
    decreases depth,
{
    let len = s.len();
    let avail = len - p;
    if ty == TAG_BYTE {
        if avail >= 1 { Some((NbtTag::Byte(#[verifier::truncate] (s[p] as i8)), p + 1)) } else { None }
    } else if ty == TAG_SHORT {
        if avail >= 2 { Some((NbtTag::Short(#[verifier::truncate] (read_u16(s, p, le) as i16)), p + 2)) } else { None }
    } else if ty == TAG_INT {
        if avail >= 4 { Some((NbtTag::Int(#[verifier::truncate] (read_u32(s, p, le) as i32)), p + 4)) } else { None }
    } else if ty == TAG_LONG {
        if avail >= 8 { Some((NbtTag::Long(#[verifier::truncate] (read_u64(s, p, le) as i64)), p + 8)) } else { None }
    } else if ty == TAG_FLOAT {
        if avail >= 4 { Some((NbtTag::Float(read_u32(s, p, le)), p + 4)) } else { None }
    } else if ty == TAG_DOUBLE {
        if avail >= 8 { Some((NbtTag::Double(read_u64(s, p, le)), p + 8)) } else { None }
    } else if ty == TAG_BYTE_ARRAY {
        if avail < 4 {
            return None;
        }
        let n = #[verifier::truncate] (read_u32(s, p, le) as i32);
        if n < 0 || (p as u128) + 4 + (n as u128) > (len as u128) {
            return None;
        }
        let end = p + 4 + n as usize;
        Some((NbtTag::ByteArray(copy_range(s, p + 4, end)), end))
    } else if ty == TAG_STRING {
        if avail < 2 {
            return None;
        }
        let n = read_u16(s, p, le) as usize;
        if avail - 2 < n {
            return None;
        }
        Some((NbtTag::String(copy_range(s, p + 2, p + 2 + n)), p + 2 + n))
    } else if ty == TAG_LIST {
        if depth == 0 || avail < 5 {
            return None;
        }
        let e = s[p];
        let n = #[verifier::truncate] (read_u32(s, p + 1, le) as i32);
        if n < 0 {
            return None;
        }
        let ghost d = (depth - 1) as nat;
        let mut items: Vec<NbtTag> = Vec::new();
        let ghost mut acc: Seq<Tag> = Seq::empty();
        let mut cur: usize = p + 5;
        let mut i: i32 = 0;
        while i < n
            invariant
                0 <= i <= n,
                p + 5 <= cur <= s@.len(),
                ty == TAG_LIST,
                e == s@[p as int],
                n == rd32(s@, p + 1, le) as i32,
                depth > 0,
                d == depth - 1,
                len == s@.len(),
                items@.len() == i,
                acc.len() == i,
                forall|k: int| 0 <= k < i ==> #[trigger] items@[k].view() == acc[k],
                parse_items(s@, p + 5, e, n as nat, le, d) == match parse_items(s@, cur as int, e, (n - i) as nat, le, d) {
                    Some((ts, q)) => Some((acc + ts, q)),
                    None => None,
                },
            decreases n - i,
        {
            match read_payload(s, cur, e, le, depth - 1) {
                Some((t, q)) => {
                    proof {
                        let rest = parse_items(s@, q as int, e, (n - i - 1) as nat, le, d);
                        match rest {
                            Some((ts, r)) => {
                                assert((acc + seq![t.view()]) + ts =~= acc + (seq![t.view()] + ts));
                            },
                            None => {},
                        }
                        acc = acc + seq![t.view()];
                    }
                    items.push(t);
                    cur = q;
                    i = i + 1;
                },
                None => {
                    assert(parse_items(s@, cur as int, e, (n - i) as nat, le, d) is None);
                    return None;
                },
            }
        }
        proof {
            lemma_view_items(items@);
            assert(view_items(items@) =~= acc);
            assert(acc + Seq::<Tag>::empty() =~= acc);
        }
        Some((NbtTag::List(e, items), cur))
    } else if ty == TAG_COMPOUND {
        if depth == 0 {
            return None;
        }
        let ghost d = (depth - 1) as nat;
        let mut entries: Vec<(Vec<u8>, NbtTag)> = Vec::new();
        let ghost mut acc: Seq<(Seq<u8>, Tag)> = Seq::empty();
        let mut cur: usize = p;
        loop
            invariant
                p <= cur <= s@.len(),
                ty == TAG_COMPOUND,
                depth > 0,
                d == depth - 1,
                len == s@.len(),
                entries@.len() == acc.len(),
                forall|k: int| 0 <= k < acc.len() ==> #[trigger] acc[k] == (entries@[k].0@, entries@[k].1.view()),
                parse_entries(s@, p as int, le, d) == match parse_entries(s@, cur as int, le, d) {
                    Some((es, q)) => Some((acc + es, q)),
                    None => None,
                },
            decreases s@.len() - cur,
        {
            if cur >= len {
                assert(parse_entries(s@, cur as int, le, d) is None);
                return None;
            }
            let ety = s[cur];
            if ety == TAG_END {
                proof {
                    lemma_view_entries(entries@);
                    assert(view_entries(entries@) =~= acc);
                    assert(acc + Seq::<(Seq<u8>, Tag)>::empty() =~= acc);
                }
                return Some((NbtTag::Compound(entries), cur + 1));
            }
            if len - cur < 3 {
                return None;
            }
            let name_len = read_u16(s, cur + 1, le) as usize;
            if len - cur - 3 < name_len {
                return None;
            }
            let start = cur + 3 + name_len;
            match read_payload(s, start, ety, le, depth - 1) {
                Some((t, q)) => {
                    if q <= cur || q > len {
                        return None;
                    }
                    let name = copy_range(s, cur + 3, start);
                    proof {
                        let head = (name@, t.view());
                        let rest = parse_entries(s@, q as int, le, d);
                        match rest {
                            Some((es, r)) => {
                                assert((acc + seq![head]) + es =~= acc + (seq![head] + es));
                            },
                            None => {},
                        }
                        acc = acc + seq![head];
                    }
                    entries.push((name, t));
                    cur = q;
                },
                None => {
                    return None;
                },
            }
        }
    } else if ty == TAG_INT_ARRAY {
        if avail < 4 {
            return None;
        }
        let n = #[verifier::truncate] (read_u32(s, p, le) as i32);
        if n < 0 || (p as u128) + 4 + 4 * (n as u128) > (len as u128) {
            return None;
        }
        let mut v: Vec<i32> = Vec::new();
        let mut i: usize = 0;
        while i < n as usize
            invariant
                0 <= n,
                i <= n,
                len == s@.len(),
                p + 4 + 4 * n <= s@.len(),
                v@ == Seq::new(i as nat, |k: int| rd32(s@, p + 4 + 4 * k, le) as i32),
            decreases n - i,
        {
            v.push(#[verifier::truncate] (read_u32(s, p + 4 + 4 * i, le) as i32));
            assert(v@ =~= Seq::new((i + 1) as nat, |k: int| rd32(s@, p + 4 + 4 * k, le) as i32));
            i = i + 1;
        }
        Some((NbtTag::IntArray(v), p + 4 + 4 * (n as usize)))
    } else if ty == TAG_LONG_ARRAY {
        if avail < 4 {
            return None;
        }
        let n = #[verifier::truncate] (read_u32(s, p, le) as i32);
        if n < 0 || (p as u128) + 4 + 8 * (n as u128) > (len as u128) {
            return None;
        }
        let mut v: Vec<i64> = Vec::new();
        let mut i: usize = 0;
        while i < n as usize
            invariant
                0 <= n,
                i <= n,
                len == s@.len(),
                p + 4 + 8 * n <= s@.len(),
                v@ == Seq::new(i as nat, |k: int| rd64(s@, p + 4 + 8 * k, le) as i64),
            decreases n - i,
        {
            v.push(#[verifier::truncate] (read_u64(s, p + 4 + 8 * i, le) as i64));
            assert(v@ =~= Seq::new((i + 1) as nat, |k: int| rd64(s@, p + 4 + 8 * k, le) as i64));
            i = i + 1;
        }
        Some((NbtTag::LongArray(v), p + 4 + 8 * (n as usize)))
    } else {
        None
    }
}

} // verus!

verus! {

/// The outcome of a binary read that did not match the grammar.
#[derive(Copy, Clone, Debug, PartialEq, Eq, Structural)]
pub struct StructuralError;

/// Reads a whole file that starts at `off`.
fn read_file_at(s: &[u8], off: usize, le: bool) -> (r: Option<NbtTag>)
    requires
        off <= s@.len(),
    ensures
        match r {
            Some(t) => parse_file_at(s@, off as int, le) == Some(t.view()),
            None => parse_file_at(s@, off as int, le) is None,
        },
{
    let len = s.len();
    if len - off < 3 {
        return None;
    }
    let name_len = read_u16(s, off + 1, le) as usize;
    if len - off - 3 < name_len {
        return None;
    }
    match read_payload(s, off + 3 + name_len, s[off], le, MAX_DEPTH) {
        Some((t, q)) => if q == len { Some(t) } else { None },
        None => None,
    }
}

/// Decodes a big-endian binary file.
pub fn decode_be(s: &[u8]) -> (r: Result<NbtTag, StructuralError>)
    ensures
        r is Ok <==> be_file(s@) is Some,
        r is Ok ==> be_file(s@) == Some(r->Ok_0.view()),
{
    match read_file_at(s, 0, false) {
        Some(t) => Ok(t),
        None => Err(StructuralError),
    }
}

/// Decodes a little-endian binary file, telling whether it carried the
/// eight-byte header.
pub fn decode_le(s: &[u8]) -> (r: Result<(NbtTag, bool), StructuralError>)
    ensures
        r is Ok <==> le_file(s@) is Some,
        r is Ok ==> le_file(s@) == Some((r->Ok_0.0.view(), r->Ok_0.1)),
{
    if let Some(t) = read_file_at(s, 0, true) {
        return Ok((t, false));
    }
    let len = s.len();
    if len >= 8 && read_u32(s, 4, true) as usize == len - 8 {
        if let Some(t) = read_file_at(s, 8, true) {
            return Ok((t, true));
        }
    }
    Err(StructuralError)
}

pub open spec fn wr16(v: u16, le: bool) -> Seq<u8> {
    if le {
        seq![v as u8, (v >> 8u16) as u8]
    } else {
        seq![(v >> 8u16) as u8, v as u8]
    }
}

pub open spec fn wr32(v: u32, le: bool) -> Seq<u8> {
    if le {
        wr16(v as u16, le) + wr16((v >> 16u32) as u16, le)
    } else {
        wr16((v >> 16u32) as u16, le) + wr16(v as u16, le)
    }
}

pub open spec fn wr64(v: u64, le: bool) -> Seq<u8> {
    if le {
        wr32(v as u32, le) + wr32((v >> 32u64) as u32, le)
    } else {
        wr32((v >> 32u64) as u32, le) + wr32(v as u32, le)
    }
}

pub open spec fn enc_i32s(xs: Seq<i32>, le: bool) -> Seq<u8>
    decreases xs.len(),
{
    if xs.len() == 0 {
        Seq::empty()
    } else {
        wr32(xs[0] as u32, le) + enc_i32s(xs.subrange(1, xs.len() as int), le)
    }
}

pub open spec fn enc_i64s(xs: Seq<i64>, le: bool) -> Seq<u8>
    decreases xs.len(),
{
    if xs.len() == 0 {
        Seq::empty()
    } else {
        wr64(xs[0] as u64, le) + enc_i64s(xs.subrange(1, xs.len() as int), le)
    }
}

/// The binary form of a tag's payload.
pub open spec fn enc(t: Tag, le: bool) -> Seq<u8>
    decreases t,
{
    match t {
        Tag::Byte(v) => seq![v as u8],
        Tag::Short(v) => wr16(v as u16, le),
        Tag::Int(v) => wr32(v as u32, le),
        Tag::Long(v) => wr64(v as u64, le),
        Tag::Float(v) => wr32(v, le),
        Tag::Double(v) => wr64(v, le),
        Tag::ByteArray(b) => wr32(b.len() as u32, le) + b,
        Tag::String(b) => wr16(b.len() as u16, le) + b,
        Tag::List(e, ts) => seq![e] + wr32(ts.len() as u32, le) + enc_items(ts, le),
        Tag::Compound(es) => enc_entries(es, le) + seq![TAG_END],
        Tag::IntArray(xs) => wr32(xs.len() as u32, le) + enc_i32s(xs, le),
        Tag::LongArray(xs) => wr32(xs.len() as u32, le) + enc_i64s(xs, le),
    }
}

pub open spec fn enc_items(ts: Seq<Tag>, le: bool) -> Seq<u8>
    decreases ts,
{
    if ts.len() == 0 {
        Seq::empty()
    } else {
        enc(ts[0], le) + enc_items(ts.subrange(1, ts.len() as int), le)
    }
}

pub open spec fn enc_entries(es: Seq<(Seq<u8>, Tag)>, le: bool) -> Seq<u8>
    decreases es,
{
    if es.len() == 0 {
        Seq::empty()
    } else {
        seq![tag_id(es[0].1)] + wr16(es[0].0.len() as u16, le) + es[0].0 + enc(es[0].1, le)
            + enc_entries(es.subrange(1, es.len() as int), le)
    }
}

/// The binary form of a whole file whose root has an empty name.
pub open spec fn enc_file(t: Tag, le: bool) -> Seq<u8> {
    seq![tag_id(t)] + wr16(0, le) + enc(t, le)
}

/// The little-endian form with the eight-byte header in front.
pub open spec fn enc_le_header_file(t: Tag) -> Seq<u8> {
    wr32(LE_HEADER_VERSION, true) + wr32(enc_file(t, true).len() as u32, true) + enc_file(t, true)
}

/// The version written into the little-endian header.
pub const LE_HEADER_VERSION: u32 = 10;

} // verus!

verus! {

broadcast use vstd::std_specs::vec::axiom_vec_decreases_to_view, vstd::seq::axiom_seq_index_decreases;

pub proof fn lemma_rd16_wr16(s: Seq<u8>, p: int, v: u16, le: bool)
    requires
        0 <= p,
        p + 2 <= s.len(),
        s.subrange(p, p + 2) == wr16(v, le),
    ensures
        rd16(s, p, le) == v,
{
    assert(s[p] == s.subrange(p, p + 2)[0]);
    assert(s[p + 1] == s.subrange(p, p + 2)[1]);
    assert(((((v >> 8u16) as u8) as u16) << 8u16) | ((v as u8) as u16) == v) by (bit_vector);
}

pub proof fn lemma_rd32_wr32(s: Seq<u8>, p: int, v: u32, le: bool)
    requires
        0 <= p,
        p + 4 <= s.len(),
        s.subrange(p, p + 4) == wr32(v, le),
    ensures
        rd32(s, p, le) == v,
{
    let hi = (v >> 16u32) as u16;
    let lo = v as u16;
    let w = s.subrange(p, p + 4);
    assert(s.subrange(p, p + 2) =~= w.subrange(0, 2));
    assert(s.subrange(p + 2, p + 4) =~= w.subrange(2, 4));
    if le {
        assert(w.subrange(0, 2) =~= wr16(lo, le));
        assert(w.subrange(2, 4) =~= wr16(hi, le));
        lemma_rd16_wr16(s, p, lo, le);
        lemma_rd16_wr16(s, p + 2, hi, le);
    } else {
        assert(w.subrange(0, 2) =~= wr16(hi, le));
        assert(w.subrange(2, 4) =~= wr16(lo, le));
        lemma_rd16_wr16(s, p, hi, le);
        lemma_rd16_wr16(s, p + 2, lo, le);
    }
    assert(((((v >> 16u32) as u16) as u32) << 16u32) | ((v as u16) as u32) == v) by (bit_vector);
}

pub proof fn lemma_rd64_wr64(s: Seq<u8>, p: int, v: u64, le: bool)
    requires
        0 <= p,
        p + 8 <= s.len(),
        s.subrange(p, p + 8) == wr64(v, le),
    ensures
        rd64(s, p, le) == v,
{
    let hi = (v >> 32u64) as u32;
    let lo = v as u32;
    let w = s.subrange(p, p + 8);
    assert(s.subrange(p, p + 4) =~= w.subrange(0, 4));
    assert(s.subrange(p + 4, p + 8) =~= w.subrange(4, 8));
    if le {
        assert(w.subrange(0, 4) =~= wr32(lo, le));
        assert(w.subrange(4, 8) =~= wr32(hi, le));
        lemma_rd32_wr32(s, p, lo, le);
        lemma_rd32_wr32(s, p + 4, hi, le);
    } else {
        assert(w.subrange(0, 4) =~= wr32(hi, le));
        assert(w.subrange(4, 8) =~= wr32(lo, le));
        lemma_rd32_wr32(s, p, hi, le);
        lemma_rd32_wr32(s, p + 4, lo, le);
    }
    assert(((((v >> 32u64) as u32) as u64) << 32u64) | ((v as u32) as u64) == v) by (bit_vector);
}

proof fn lemma_enc_items_snoc(ts: Seq<Tag>, le: bool)
    requires
        ts.len() > 0,
    ensures
        enc_items(ts, le) == enc_items(ts.drop_last(), le) + enc(ts.last(), le),
    decreases ts.len(),
{
    let tail = ts.subrange(1, ts.len() as int);
    if ts.len() == 1 {
        assert(tail =~= Seq::<Tag>::empty());
        assert(ts.drop_last() =~= Seq::<Tag>::empty());
        assert(enc_items(tail, le) =~= Seq::<u8>::empty());
        assert(enc_items(ts, le) =~= enc(ts[0], le) + Seq::<u8>::empty());
        assert(enc_items(ts.drop_last(), le) + enc(ts.last(), le) =~= Seq::<u8>::empty() + enc(ts.last(), le));
    } else {
        lemma_enc_items_snoc(tail, le);
        assert(ts.drop_last().subrange(1, ts.len() - 1) =~= tail.drop_last());
        assert(ts.drop_last()[0] == ts[0]);
        assert(enc_items(ts, le) =~= enc(ts[0], le) + enc_items(tail.drop_last(), le) + enc(tail.last(), le));
    }
}

proof fn lemma_enc_entries_snoc(es: Seq<(Seq<u8>, Tag)>, le: bool)
    requires
        es.len() > 0,
    ensures
        enc_entries(es, le) == enc_entries(es.drop_last(), le) + enc_entries(seq![es.last()], le),
    decreases es.len(),
{
    let tail = es.subrange(1, es.len() as int);
    let one = seq![es.last()];
    assert(one.subrange(1, 1) =~= Seq::<(Seq<u8>, Tag)>::empty());
    if es.len() == 1 {
        assert(es.drop_last() =~= Seq::<(Seq<u8>, Tag)>::empty());
        assert(one =~= es);
        assert(enc_entries(es.drop_last(), le) + enc_entries(one, le) =~= enc_entries(one, le));
    } else {
        lemma_enc_entries_snoc(tail, le);
        assert(es.drop_last().subrange(1, es.len() - 1) =~= tail.drop_last());
        assert(es.drop_last()[0] == es[0]);
        assert(seq![tail.last()] =~= one);
        let h = seq![tag_id(es[0].1)] + wr16(es[0].0.len() as u16, le) + es[0].0 + enc(es[0].1, le);
        assert(enc_entries(es, le) =~= h + enc_entries(tail.drop_last(), le) + enc_entries(one, le));
    }
}

proof fn lemma_enc_i32s_snoc(xs: Seq<i32>, le: bool)
    requires
        xs.len() > 0,
    ensures
        enc_i32s(xs, le) == enc_i32s(xs.drop_last(), le) + wr32(xs.last() as u32, le),
    decreases xs.len(),
{
    let tail = xs.subrange(1, xs.len() as int);
    if xs.len() == 1 {
        assert(tail =~= Seq::<i32>::empty());
        assert(xs.drop_last() =~= Seq::<i32>::empty());
        assert(enc_i32s(tail, le) =~= Seq::<u8>::empty());
        assert(enc_i32s(xs, le) =~= wr32(xs[0] as u32, le) + Seq::<u8>::empty());
        assert(enc_i32s(xs.drop_last(), le) + wr32(xs.last() as u32, le) =~= Seq::<u8>::empty() + wr32(xs.last() as u32, le));
    } else {
        lemma_enc_i32s_snoc(tail, le);
        assert(xs.drop_last().subrange(1, xs.len() - 1) =~= tail.drop_last());
        assert(xs.drop_last()[0] == xs[0]);
        assert(enc_i32s(xs, le) =~= wr32(xs[0] as u32, le) + enc_i32s(tail.drop_last(), le) + wr32(tail.last() as u32, le));
    }
}

proof fn lemma_enc_i64s_snoc(xs: Seq<i64>, le: bool)
    requires
        xs.len() > 0,
    ensures
        enc_i64s(xs, le) == enc_i64s(xs.drop_last(), le) + wr64(xs.last() as u64, le),
    decreases xs.len(),
{
    let tail = xs.subrange(1, xs.len() as int);
    if xs.len() == 1 {
        assert(tail =~= Seq::<i64>::empty());
        assert(xs.drop_last() =~= Seq::<i64>::empty());
        assert(enc_i64s(tail, le) =~= Seq::<u8>::empty());
        assert(enc_i64s(xs, le) =~= wr64(xs[0] as u64, le) + Seq::<u8>::empty());
        assert(enc_i64s(xs.drop_last(), le) + wr64(xs.last() as u64, le) =~= Seq::<u8>::empty() + wr64(xs.last() as u64, le));
    } else {
        lemma_enc_i64s_snoc(tail, le);
        assert(xs.drop_last().subrange(1, xs.len() - 1) =~= tail.drop_last());
        assert(xs.drop_last()[0] == xs[0]);
        assert(enc_i64s(xs, le) =~= wr64(xs[0] as u64, le) + enc_i64s(tail.drop_last(), le) + wr64(tail.last() as u64, le));
    }
}

pub(crate) fn write_u16(out: &mut Vec<u8>, v: u16, le: bool)
    ensures
        final(out)@ == old(out)@ + wr16(v, le),
{
    let lo = #[verifier::truncate] (v as u8);
    let hi = #[verifier::truncate] ((v >> 8u16) as u8);
    if le {
        out.push(lo);
        out.push(hi);
    } else {
        out.push(hi);
        out.push(lo);
    }
    assert(out@ =~= old(out)@ + wr16(v, le));
}

pub(crate) fn write_u32(out: &mut Vec<u8>, v: u32, le: bool)
    ensures
        final(out)@ == old(out)@ + wr32(v, le),
{
    let lo = #[verifier::truncate] (v as u16);
    let hi = #[verifier::truncate] ((v >> 16u32) as u16);
    if le {
        write_u16(out, lo, le);
        write_u16(out, hi, le);
    } else {
        write_u16(out, hi, le);
        write_u16(out, lo, le);
    }
    assert(out@ =~= old(out)@ + wr32(v, le));
}

fn write_u64(out: &mut Vec<u8>, v: u64, le: bool)
    ensures
        final(out)@ == old(out)@ + wr64(v, le),
{
    let lo = #[verifier::truncate] (v as u32);
    let hi = #[verifier::truncate] ((v >> 32u64) as u32);
    if le {
        write_u32(out, lo, le);
        write_u32(out, hi, le);
    } else {
        write_u32(out, hi, le);
        write_u32(out, lo, le);
    }
    assert(out@ =~= old(out)@ + wr64(v, le));
}

pub(crate) fn write_bytes(out: &mut Vec<u8>, b: &Vec<u8>)
    ensures
        final(out)@ == old(out)@ + b@,
{
    let mut i: usize = 0;
    while i < b.len()
        invariant
            i <= b@.len(),
            out@ == old(out)@ + b@.subrange(0, i as int),
        decreases b@.len() - i,
    {
        out.push(b[i]);
        assert(b@.subrange(0, i + 1) =~= b@.subrange(0, i as int).push(b@[i as int]));
        assert(out@ =~= old(out)@ + b@.subrange(0, i + 1));
        i = i + 1;
    }
    assert(b@.subrange(0, b@.len() as int) =~= b@);
}

/// Appends the binary form of `t`'s payload.
pub fn write_payload(t: &NbtTag, le: bool, out: &mut Vec<u8>)
    ensures
        final(out)@ == old(out)@ + enc(t.view(), le),
    decreases t,
{
    let ghost pre = out@;
    match t {
        NbtTag::Byte(v) => {
            out.push(#[verifier::truncate] (*v as u8));
            assert(out@ =~= pre + enc(t.view(), le));
        },
        NbtTag::Short(v) => write_u16(out, #[verifier::truncate] (*v as u16), le),
        NbtTag::Int(v) => write_u32(out, #[verifier::truncate] (*v as u32), le),
        NbtTag::Long(v) => write_u64(out, #[verifier::truncate] (*v as u64), le),
        NbtTag::Float(v) => write_u32(out, *v, le),
        NbtTag::Double(v) => write_u64(out, *v, le),
        NbtTag::ByteArray(b) => {
            write_u32(out, #[verifier::truncate] (b.len() as u32), le);
            write_bytes(out, b);
            assert(out@ =~= pre + enc(t.view(), le));
        },
        NbtTag::String(b) => {
            write_u16(out, #[verifier::truncate] (b.len() as u16), le);
            write_bytes(out, b);
            assert(out@ =~= pre + enc(t.view(), le));
        },
        NbtTag::List(e, items) => {
            out.push(*e);
            write_u32(out, #[verifier::truncate] (items.len() as u32), le);
            let ghost mid = out@;
            let ghost ts = view_items(items@);
            proof {
                lemma_view_items(items@);
                assert(ts.subrange(0, 0) =~= Seq::<Tag>::empty());
                assert(mid =~= mid + enc_items(ts.subrange(0, 0), le));
            }
            let mut i: usize = 0;
            while i < items.len()
                invariant
                    i <= items@.len(),
                    ts == view_items(items@),
                    *t == NbtTag::List(*e, *items),
                    ts.len() == items@.len(),
                    forall|k: int| 0 <= k < items@.len() ==> #[trigger] ts[k] == items@[k].view(),
                    out@ == mid + enc_items(ts.subrange(0, i as int), le),
                decreases items@.len() - i,
            {
                proof {
                    assert(decreases_to!(*t => (*t)->List_1));
                    assert((*t)->List_1 == *items);
                    assert(decreases_to!(*items => items@));
                    assert(decreases_to!(items@ => items@[i as int]));
                    assert(decreases_to!(*t => items@[i as int]));
                }
                write_payload(&items[i], le, out);
                proof {
                    let next = ts.subrange(0, i + 1);
                    assert(next.drop_last() =~= ts.subrange(0, i as int));
                    lemma_enc_items_snoc(next, le);
                }
                i = i + 1;
            }
            proof {
                assert(ts.subrange(0, ts.len() as int) =~= ts);
                assert(out@ =~= pre + enc(t.view(), le));
            }
        },
        NbtTag::Compound(entries) => {
            let ghost es = view_entries(entries@);
            proof {
                lemma_view_entries(entries@);
                assert(es.subrange(0, 0) =~= Seq::<(Seq<u8>, Tag)>::empty());
                assert(pre =~= pre + enc_entries(es.subrange(0, 0), le));
            }
            let mut i: usize = 0;
            while i < entries.len()
                invariant
                    i <= entries@.len(),
                    es == view_entries(entries@),
                    *t == NbtTag::Compound(*entries),
                    es.len() == entries@.len(),
                    forall|k: int| 0 <= k < entries@.len() ==> #[trigger] es[k] == (entries@[k].0@, entries@[k].1.view()),
                    out@ == pre + enc_entries(es.subrange(0, i as int), le),
                decreases entries@.len() - i,
            {
                let ghost before = out@;
                let (name, value) = &entries[i];
                out.push(value.id());
                write_u16(out, #[verifier::truncate] (name.len() as u16), le);
                write_bytes(out, name);
                proof {
                    assert(decreases_to!(*t => (*t)->Compound_0));
                    assert((*t)->Compound_0 == *entries);
                    assert(decreases_to!(*entries => entries@));
                    assert(decreases_to!(entries@ => entries@[i as int]));
                    assert(decreases_to!(entries@[i as int] => entries@[i as int].1));
                    assert(decreases_to!(*t => entries@[i as int].1));
                }
                write_payload(value, le, out);
                proof {
                    let next = es.subrange(0, i + 1);
                    assert(next.drop_last() =~= es.subrange(0, i as int));
                    lemma_enc_entries_snoc(next, le);
                    let one = seq![next.last()];
                    assert(one.subrange(1, 1) =~= Seq::<(Seq<u8>, Tag)>::empty());
                    assert(enc_entries(one.subrange(1, 1), le) =~= Seq::<u8>::empty());
                    assert(one[0] == (name@, value.view()));
                    assert(enc_entries(one, le) =~= seq![tag_id(value.view())] + wr16(name@.len() as u16, le) + name@ + enc(value.view(), le));
                    assert(out@ =~= before + enc_entries(one, le));
                }
                i = i + 1;
            }
            out.push(TAG_END);
            proof {
                assert(es.subrange(0, es.len() as int) =~= es);
                assert(out@ =~= pre + enc(t.view(), le));
            }
        },
        NbtTag::IntArray(xs) => {
            write_u32(out, #[verifier::truncate] (xs.len() as u32), le);
            let ghost mid = out@;
            proof {
                assert(xs@.subrange(0, 0) =~= Seq::<i32>::empty());
                assert(mid =~= mid + enc_i32s(xs@.subrange(0, 0), le));
            }
            let mut i: usize = 0;
            while i < xs.len()
                invariant
                    i <= xs@.len(),
                    out@ == mid + enc_i32s(xs@.subrange(0, i as int), le),
                decreases xs@.len() - i,
            {
                write_u32(out, #[verifier::truncate] (xs[i] as u32), le);
                proof {
                    let next = xs@.subrange(0, i + 1);
                    assert(next.drop_last() =~= xs@.subrange(0, i as int));
                    lemma_enc_i32s_snoc(next, le);
                }
                i = i + 1;
            }
            proof {
                assert(xs@.subrange(0, xs@.len() as int) =~= xs@);
                assert(out@ =~= pre + enc(t.view(), le));
            }
        },
        NbtTag::LongArray(xs) => {
            write_u32(out, #[verifier::truncate] (xs.len() as u32), le);
            let ghost mid = out@;
            proof {
                assert(xs@.subrange(0, 0) =~= Seq::<i64>::empty());
                assert(mid =~= mid + enc_i64s(xs@.subrange(0, 0), le));
            }
            let mut i: usize = 0;
            while i < xs.len()
                invariant
                    i <= xs@.len(),
                    out@ == mid + enc_i64s(xs@.subrange(0, i as int), le),
                decreases xs@.len() - i,
            {
                write_u64(out, #[verifier::truncate] (xs[i] as u64), le);
                proof {
                    let next = xs@.subrange(0, i + 1);
                    assert(next.drop_last() =~= xs@.subrange(0, i as int));
                    lemma_enc_i64s_snoc(next, le);
                }
                i = i + 1;
            }
            proof {
                assert(xs@.subrange(0, xs@.len() as int) =~= xs@);
                assert(out@ =~= pre + enc(t.view(), le));
            }
        },
    }
}

/// The big-endian binary file of a document, with an empty root name.
pub fn encode_be(t: &NbtTag) -> (r: Vec<u8>)
    ensures
        r@ == enc_file(t.view(), false),
{
    let mut out: Vec<u8> = Vec::new();
    out.push(t.id());
    write_u16(&mut out, 0, false);
    write_payload(t, false, &mut out);
    assert(out@ =~= enc_file(t.view(), false));
    out
}

/// The little-endian binary file of a document, with or without the
/// eight-byte header.
pub fn encode_le(t: &NbtTag, header: bool) -> (r: Vec<u8>)
    ensures
        header ==> r@ == enc_le_header_file(t.view()),
        !header ==> r@ == enc_file(t.view(), true),
{
    let mut body: Vec<u8> = Vec::new();
    body.push(t.id());
    write_u16(&mut body, 0, true);
    write_payload(t, true, &mut body);
    assert(body@ =~= enc_file(t.view(), true));
    if !header {
        return body;
    }
    let mut out: Vec<u8> = Vec::new();
    write_u32(&mut out, LE_HEADER_VERSION, true);
    write_u32(&mut out, #[verifier::truncate] (body.len() as u32), true);
    write_bytes(&mut out, &body);
    assert(out@ =~= enc_le_header_file(t.view()));
    out
}

} // verus!

verus! {

/// A tag tree that the binary form can carry and read back: lists hold tags
/// of their declared type, lengths fit their length fields, and lists and
/// compounds nest at most `depth` levels.
pub open spec fn wf_tag(t: Tag, depth: nat) -> bool
    decreases t,
{
    match t {
        Tag::ByteArray(b) => b.len() <= i32::MAX,
        Tag::String(b) => b.len() <= u16::MAX,
        Tag::IntArray(xs) => xs.len() <= i32::MAX,
        Tag::LongArray(xs) => xs.len() <= i32::MAX,
        Tag::List(e, ts) => depth > 0 && ts.len() <= i32::MAX && wf_items(ts, e, (depth - 1) as nat),
        Tag::Compound(es) => depth > 0 && wf_entries(es, (depth - 1) as nat),
        _ => true,
    }
}

pub open spec fn wf_items(ts: Seq<Tag>, e: u8, depth: nat) -> bool
    decreases ts,
{
    ts.len() == 0 || (tag_id(ts[0]) == e && wf_tag(ts[0], depth) && wf_items(ts.subrange(1, ts.len() as int), e, depth))
}

pub open spec fn wf_entries(es: Seq<(Seq<u8>, Tag)>, depth: nat) -> bool
    decreases es,
{
    es.len() == 0 || (es[0].0.len() <= u16::MAX && wf_tag(es[0].1, depth) && wf_entries(es.subrange(1, es.len() as int), depth))
}

proof fn lemma_casts(a: i8, b: i16, c: i32, d: i64)
    ensures
        (a as u8) as i8 == a,
        (b as u16) as i16 == b,
        (c as u32) as i32 == c,
        (d as u64) as i64 == d,
{
    assert((a as u8) as i8 == a) by (bit_vector);
    assert((b as u16) as i16 == b) by (bit_vector);
    assert((c as u32) as i32 == c) by (bit_vector);
    assert((d as u64) as i64 == d) by (bit_vector);
}

/// A window of a window is a window.
pub proof fn lemma_sub(s: Seq<u8>, p: int, w: Seq<u8>, a: int, b: int)
    requires
        0 <= p,
        p + w.len() <= s.len(),
        s.subrange(p, p + w.len()) == w,
        0 <= a <= b <= w.len(),
    ensures
        s.subrange(p + a, p + b) == w.subrange(a, b),
        forall|j: int| a <= j < b ==> s[p + j] == #[trigger] w[j],
{
    assert forall|j: int| a <= j < b implies s[p + j] == #[trigger] w[j] by {
        assert(s.subrange(p, p + w.len())[j] == s[p + j]);
    }
    assert(s.subrange(p + a, p + b) =~= w.subrange(a, b));
}

proof fn lemma_i32s(xs: Seq<i32>, le: bool, s: Seq<u8>, q: int)
    requires
        0 <= q,
        q + enc_i32s(xs, le).len() <= s.len(),
        s.subrange(q, q + enc_i32s(xs, le).len()) == enc_i32s(xs, le),
    ensures
        enc_i32s(xs, le).len() == 4 * xs.len(),
        forall|i: int| 0 <= i < xs.len() ==> #[trigger] rd32(s, q + 4 * i, le) as i32 == xs[i],
    decreases xs.len(),
{
    if xs.len() > 0 {
        let tail = xs.subrange(1, xs.len() as int);
        let w = enc_i32s(xs, le);
        let rest = enc_i32s(tail, le);
        assert(w == wr32(xs[0] as u32, le) + rest);
        lemma_sub(s, q, w, 0, 4);
        assert(w.subrange(0, 4) =~= wr32(xs[0] as u32, le));
        lemma_rd32_wr32(s, q, xs[0] as u32, le);
        lemma_casts(0, 0, xs[0], 0);
        lemma_sub(s, q, w, 4, w.len() as int);
        assert(w.subrange(4, w.len() as int) =~= rest);
        lemma_i32s(tail, le, s, q + 4);
        assert forall|i: int| 0 <= i < xs.len() implies #[trigger] rd32(s, q + 4 * i, le) as i32 == xs[i] by {
            if i > 0 {
                assert(rd32(s, (q + 4) + 4 * (i - 1), le) as i32 == tail[i - 1]);
                assert(q + 4 * i == (q + 4) + 4 * (i - 1));
            }
        }
    }
}

proof fn lemma_i64s(xs: Seq<i64>, le: bool, s: Seq<u8>, q: int)
    requires
        0 <= q,
        q + enc_i64s(xs, le).len() <= s.len(),
        s.subrange(q, q + enc_i64s(xs, le).len()) == enc_i64s(xs, le),
    ensures
        enc_i64s(xs, le).len() == 8 * xs.len(),
        forall|i: int| 0 <= i < xs.len() ==> #[trigger] rd64(s, q + 8 * i, le) as i64 == xs[i],
    decreases xs.len(),
{
    if xs.len() > 0 {
        let tail = xs.subrange(1, xs.len() as int);
        let w = enc_i64s(xs, le);
        let rest = enc_i64s(tail, le);
        assert(w == wr64(xs[0] as u64, le) + rest);
        lemma_sub(s, q, w, 0, 8);
        assert(w.subrange(0, 8) =~= wr64(xs[0] as u64, le));
        lemma_rd64_wr64(s, q, xs[0] as u64, le);
        lemma_casts(0, 0, 0, xs[0]);
        lemma_sub(s, q, w, 8, w.len() as int);
        assert(w.subrange(8, w.len() as int) =~= rest);
        lemma_i64s(tail, le, s, q + 8);
        assert forall|i: int| 0 <= i < xs.len() implies #[trigger] rd64(s, q + 8 * i, le) as i64 == xs[i] by {
            if i > 0 {
                assert(rd64(s, (q + 8) + 8 * (i - 1), le) as i64 == tail[i - 1]);
                assert(q + 8 * i == (q + 8) + 8 * (i - 1));
            }
        }
    }
}

/// Reading back the payload of a well-formed tag, wherever it stands.
#[verifier::rlimit(100)]
#[verifier::spinoff_prover]
proof fn lemma_payload_round_trip(t: Tag, le: bool, depth: nat, s: Seq<u8>, p: int)
    requires
        wf_tag(t, depth),
        0 <= p,
        p + enc(t, le).len() <= s.len(),
        s.subrange(p, p + enc(t, le).len()) == enc(t, le),
    ensures
        parse_payload(s, p, tag_id(t), le, depth) == Some((t, p + enc(t, le).len())),
    decreases t,
{
    let w = enc(t, le);
    match t {
        Tag::Byte(v) => {
            lemma_sub(s, p, w, 0, 1);
            assert(s[p] == w[0]);
            assert(w[0] == v as u8);
            lemma_casts(v, 0, 0, 0);
        },
        Tag::Short(v) => {
            lemma_rd16_wr16(s, p, v as u16, le);
            lemma_casts(0, v, 0, 0);
        },
        Tag::Int(v) => {
            lemma_rd32_wr32(s, p, v as u32, le);
            lemma_casts(0, 0, v, 0);
        },
        Tag::Long(v) => {
            lemma_rd64_wr64(s, p, v as u64, le);
            lemma_casts(0, 0, 0, v);
        },
        Tag::Float(v) => {
            lemma_rd32_wr32(s, p, v, le);
        },
        Tag::Double(v) => {
            lemma_rd64_wr64(s, p, v, le);
        },
        Tag::ByteArray(b) => {
            lemma_sub(s, p, w, 0, 4);
            assert(w.subrange(0, 4) =~= wr32(b.len() as u32, le));
            lemma_rd32_wr32(s, p, b.len() as u32, le);
            lemma_sub(s, p, w, 4, w.len() as int);
            assert(w.subrange(4, w.len() as int) =~= b);
        },
        Tag::String(b) => {
            lemma_sub(s, p, w, 0, 2);
            assert(w.subrange(0, 2) =~= wr16(b.len() as u16, le));
            lemma_rd16_wr16(s, p, b.len() as u16, le);
            lemma_sub(s, p, w, 2, w.len() as int);
            assert(w.subrange(2, w.len() as int) =~= b);
        },
        Tag::List(e, ts) => {
            let items = enc_items(ts, le);
            lemma_sub(s, p, w, 0, 1);
            assert(s[p] == w[0]);
            assert(w[0] == e);
            lemma_sub(s, p, w, 1, 5);
            assert(w.subrange(1, 5) =~= wr32(ts.len() as u32, le));
            lemma_rd32_wr32(s, p + 1, ts.len() as u32, le);
            lemma_sub(s, p, w, 5, w.len() as int);
            assert(w.subrange(5, w.len() as int) =~= items);
            lemma_items_round_trip(ts, e, le, (depth - 1) as nat, s, p + 5);
        },
        Tag::Compound(es) => {
            let entries = enc_entries(es, le);
            lemma_sub(s, p, w, 0, entries.len() as int);
            assert(w.subrange(0, entries.len() as int) =~= entries);
            lemma_sub(s, p, w, entries.len() as int, w.len() as int);
            assert(w[entries.len() as int] == TAG_END);
            lemma_entries_round_trip(es, le, (depth - 1) as nat, s, p);
        },
        Tag::IntArray(xs) => {
            lemma_sub(s, p, w, 0, 4);
            assert(w.subrange(0, 4) =~= wr32(xs.len() as u32, le));
            lemma_rd32_wr32(s, p, xs.len() as u32, le);
            lemma_sub(s, p, w, 4, w.len() as int);
            assert(w.subrange(4, w.len() as int) =~= enc_i32s(xs, le));
            lemma_i32s(xs, le, s, p + 4);
            assert(Seq::new(xs.len(), |i: int| rd32(s, p + 4 + 4 * i, le) as i32) =~= xs);
        },
        Tag::LongArray(xs) => {
            lemma_sub(s, p, w, 0, 4);
            assert(w.subrange(0, 4) =~= wr32(xs.len() as u32, le));
            lemma_rd32_wr32(s, p, xs.len() as u32, le);
            lemma_sub(s, p, w, 4, w.len() as int);
            assert(w.subrange(4, w.len() as int) =~= enc_i64s(xs, le));
            lemma_i64s(xs, le, s, p + 4);
            assert(Seq::new(xs.len(), |i: int| rd64(s, p + 4 + 8 * i, le) as i64) =~= xs);
        },
    }
}

proof fn lemma_items_round_trip(ts: Seq<Tag>, e: u8, le: bool, depth: nat, s: Seq<u8>, p: int)
    requires
        wf_items(ts, e, depth),
        0 <= p,
        p + enc_items(ts, le).len() <= s.len(),
        s.subrange(p, p + enc_items(ts, le).len()) == enc_items(ts, le),
    ensures
        parse_items(s, p, e, ts.len(), le, depth) == Some((ts, p + enc_items(ts, le).len())),
    decreases ts,
{
    if ts.len() > 0 {
        let tail = ts.subrange(1, ts.len() as int);
        let w = enc_items(ts, le);
        let head = enc(ts[0], le);
        let rest = enc_items(tail, le);
        assert(w == head + rest);
        lemma_sub(s, p, w, 0, head.len() as int);
        assert(w.subrange(0, head.len() as int) =~= head);
        lemma_payload_round_trip(ts[0], le, depth, s, p);
        lemma_sub(s, p, w, head.len() as int, w.len() as int);
        assert(w.subrange(head.len() as int, w.len() as int) =~= rest);
        lemma_items_round_trip(tail, e, le, depth, s, p + head.len());
        assert(seq![ts[0]] + tail =~= ts);
    } else {
        assert(ts =~= Seq::<Tag>::empty());
    }
}

#[verifier::rlimit(100)]
#[verifier::spinoff_prover]
proof fn lemma_entries_round_trip(es: Seq<(Seq<u8>, Tag)>, le: bool, depth: nat, s: Seq<u8>, p: int)
    requires
        wf_entries(es, depth),
        0 <= p,
        p + enc_entries(es, le).len() < s.len(),
        s.subrange(p, p + enc_entries(es, le).len()) == enc_entries(es, le),
        s[p + enc_entries(es, le).len()] == TAG_END,
    ensures
        parse_entries(s, p, le, depth) == Some((es, p + enc_entries(es, le).len() + 1)),
    decreases es,
{
    if es.len() > 0 {
        let (name, t) = es[0];
        let tail = es.subrange(1, es.len() as int);
        let w = enc_entries(es, le);
        let body = enc(t, le);
        let rest = enc_entries(tail, le);
        let nl = name.len() as int;
        assert(w == seq![tag_id(t)] + wr16(name.len() as u16, le) + name + body + rest);
        lemma_sub(s, p, w, 0, 1);
        assert(s[p] == w[0]);
        assert(w[0] == tag_id(t));
        lemma_sub(s, p, w, 1, 3);
        assert(w.subrange(1, 3) =~= wr16(name.len() as u16, le));
        lemma_rd16_wr16(s, p + 1, name.len() as u16, le);
        lemma_sub(s, p, w, 3, 3 + nl);
        assert(w.subrange(3, 3 + nl) =~= name);
        let start = p + 3 + nl;
        lemma_sub(s, p, w, 3 + nl, 3 + nl + body.len());
        assert(w.subrange(3 + nl, 3 + nl + body.len()) =~= body);
        lemma_payload_round_trip(t, le, depth, s, start);
        let q = start + body.len();
        lemma_sub(s, p, w, q - p, w.len() as int);
        assert(w.subrange(q - p, w.len() as int) =~= rest);
        lemma_entries_round_trip(tail, le, depth, s, q);
        assert(seq![(name, t)] + tail =~= es);
    } else {
        assert(es =~= Seq::<(Seq<u8>, Tag)>::empty());
        assert(enc_entries(es, le) =~= Seq::<u8>::empty());
    }
}

/// Decoding the binary file of a well-formed tree gives the tree back, in
/// either byte order.
pub proof fn lemma_file_round_trip(t: Tag, le: bool)
    requires
        wf_tag(t, MAX_DEPTH as nat),
    ensures
        parse_file_at(enc_file(t, le), 0, le) == Some(t),
{
    let s = enc_file(t, le);
    assert(s.subrange(1, 3) =~= wr16(0, le));
    lemma_rd16_wr16(s, 1, 0, le);
    assert(s.subrange(3, s.len() as int) =~= enc(t, le));
    lemma_payload_round_trip(t, le, MAX_DEPTH as nat, s, 3);
}

/// The same with the eight-byte header in front: the header is recognised
/// and the tree comes back.
#[verifier::rlimit(100)]
#[verifier::spinoff_prover]
pub proof fn lemma_le_header_round_trip(t: Tag)
    requires
        wf_tag(t, MAX_DEPTH as nat),
        enc_file(t, true).len() <= u32::MAX,
    ensures
        le_file(enc_le_header_file(t)) == Some((t, true)),
{
    let body = enc_file(t, true);
    let s = enc_le_header_file(t);
    assert(s.subrange(0, 4) =~= wr32(LE_HEADER_VERSION, true));
    assert(s[0] == 10 && s[1] == 0 && s[2] == 0 && s[3] == 0) by {
        assert((10u32 as u16) == 10u16 && ((10u32 >> 16u32) as u16) == 0u16) by (bit_vector);
        assert((10u16 as u8) == 10u8 && ((10u16 >> 8u16) as u8) == 0u8) by (bit_vector);
        assert((0u16 as u8) == 0u8 && ((0u16 >> 8u16) as u8) == 0u8) by (bit_vector);
        assert(wr32(10u32, true) =~= seq![10u8, 0u8, 0u8, 0u8]);
        assert(s[0] == s.subrange(0, 4)[0]);
        assert(s[1] == s.subrange(0, 4)[1]);
        assert(s[2] == s.subrange(0, 4)[2]);
        assert(s[3] == s.subrange(0, 4)[3]);
    }
    assert(rd16(s, 1, true) == 0) by {
        assert(((0u8 as u16) << 8u16) | (0u8 as u16) == 0u16) by (bit_vector);
    }
    assert(parse_entries(s, 3, true, (MAX_DEPTH - 1) as nat) == Some((Seq::<(Seq<u8>, Tag)>::empty(), 4int)));
    assert(parse_file_at(s, 0, true) is None);
    assert(s.subrange(4, 8) =~= wr32(body.len() as u32, true));
    lemma_rd32_wr32(s, 4, body.len() as u32, true);
    lemma_file_round_trip(t, true);
    let s2 = s.subrange(8, s.len() as int);
    assert(s2 =~= body);
    assert(s.subrange(9, 11) =~= wr16(0, true));
    lemma_rd16_wr16(s, 9, 0, true);
    assert(s.subrange(11, s.len() as int) =~= enc(t, true));
    lemma_payload_round_trip(t, true, MAX_DEPTH as nat, s, 11);
}

} // verus!
