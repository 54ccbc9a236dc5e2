use vstd::prelude::*;
use crate::binary::copy_range;
use crate::nbt::{lemma_view_entries, lemma_view_items, tag_id, view_entries, view_items, NbtTag, Tag, MAX_DEPTH};

verus! {

broadcast use vstd::std_specs::vec::axiom_vec_decreases_to_view, vstd::seq::axiom_seq_index_decreases, vstd::seq::axiom_seq_subrange_decreases;

/// The decimal digits of a natural number.
pub open spec fn digits(n: nat) -> Seq<u8>
    decreases n,
{
    if n < 10 {
        seq![(48 + n) as u8]
    } else {
        digits(n / 10) + seq![(48 + n % 10) as u8]
    }
}

/// An integer in decimal, with a leading minus sign where it is negative.
pub open spec fn decimal(i: int) -> Seq<u8> {
    if i < 0 { seq![45u8] + digits((-i) as nat) } else { digits(i as nat) }
}

/// A byte string in double quotes, with `"` and `\` escaped by a backslash.
pub open spec fn quoted(b: Seq<u8>) -> Seq<u8> {
    seq![34u8] + escaped(b) + seq![34u8]
}

pub open spec fn escaped(b: Seq<u8>) -> Seq<u8>
    decreases b.len(),
{
    if b.len() == 0 {
        Seq::empty()
    } else {
        let c = b.last();
        let tail = if c == 34 || c == 92 { seq![92u8, c] } else { seq![c] };
        escaped(b.drop_last()) + tail
    }
}

pub open spec fn join_i32s(xs: Seq<i32>) -> Seq<u8>
    decreases xs.len(),
{
    if xs.len() == 0 {
        Seq::empty()
    } else if xs.len() == 1 {
        decimal(xs[0] as int)
    } else {
        join_i32s(xs.drop_last()) + seq![44u8] + decimal(xs.last() as int)
    }
}

pub open spec fn join_i64s(xs: Seq<i64>, suffix: Seq<u8>) -> Seq<u8>
    decreases xs.len(),
{
    if xs.len() == 0 {
        Seq::empty()
    } else if xs.len() == 1 {
        decimal(xs[0] as int) + suffix
    } else {
        join_i64s(xs.drop_last(), suffix) + seq![44u8] + decimal(xs.last() as int) + suffix
    }
}

pub open spec fn join_bytes(xs: Seq<u8>) -> Seq<u8>
    decreases xs.len(),
{
    if xs.len() == 0 {
        Seq::empty()
    } else if xs.len() == 1 {
        decimal(xs[0] as i8 as int) + seq![98u8]
    } else {
        join_bytes(xs.drop_last()) + seq![44u8] + decimal(xs.last() as i8 as int) + seq![98u8]
    }
}

/// Whether a tag tree holds no floating-point value: the text form here
/// covers every other kind of tag.
pub open spec fn float_free(t: Tag) -> bool
    decreases t,
{
    match t {
        Tag::Float(_) => false,
        Tag::Double(_) => false,
        Tag::List(_, ts) => items_float_free(ts),
        Tag::Compound(es) => entries_float_free(es),
        _ => true,
    }
}

pub open spec fn items_float_free(ts: Seq<Tag>) -> bool
    decreases ts,
{
    ts.len() == 0 || (items_float_free(ts.subrange(0, ts.len() - 1)) && float_free(ts[ts.len() - 1]))
}

pub open spec fn entries_float_free(es: Seq<(Seq<u8>, Tag)>) -> bool
    decreases es,
{
    es.len() == 0 || (entries_float_free(es.subrange(0, es.len() - 1)) && float_free(es[es.len() - 1].1))
}

proof fn lemma_items_float_free(ts: Seq<Tag>)
    ensures
        items_float_free(ts) <==> forall|k: int| 0 <= k < ts.len() ==> float_free(#[trigger] ts[k]),
    decreases ts.len(),
{
    if ts.len() > 0 {
        let init = ts.subrange(0, ts.len() - 1);
        lemma_items_float_free(init);
        if items_float_free(ts) {
            assert forall|k: int| 0 <= k < ts.len() implies float_free(#[trigger] ts[k]) by {
                if k < ts.len() - 1 {
                    assert(init[k] == ts[k]);
                }
            }
        }
        if forall|k: int| 0 <= k < ts.len() ==> float_free(#[trigger] ts[k]) {
            assert forall|k: int| 0 <= k < init.len() implies float_free(#[trigger] init[k]) by {
                assert(init[k] == ts[k]);
            }
        }
    }
}

proof fn lemma_entries_float_free(es: Seq<(Seq<u8>, Tag)>)
    ensures
        entries_float_free(es) <==> forall|k: int| 0 <= k < es.len() ==> float_free(#[trigger] es[k].1),
    decreases es.len(),
{
    if es.len() > 0 {
        let init = es.subrange(0, es.len() - 1);
        lemma_entries_float_free(init);
        if entries_float_free(es) {
            assert forall|k: int| 0 <= k < es.len() implies float_free(#[trigger] es[k].1) by {
                if k < es.len() - 1 {
                    assert(init[k] == es[k]);
                }
            }
        }
        if forall|k: int| 0 <= k < es.len() ==> float_free(#[trigger] es[k].1) {
            assert forall|k: int| 0 <= k < init.len() implies float_free(#[trigger] init[k].1) by {
                assert(init[k] == es[k]);
            }
        }
    }
}

/// The text form of a float-free tag. Compound keys are always quoted.
pub open spec fn text_of(t: Tag) -> Seq<u8>
    decreases t,
{
    match t {
        Tag::Byte(v) => decimal(v as int) + seq![98u8],
        Tag::Short(v) => decimal(v as int) + seq![115u8],
        Tag::Int(v) => decimal(v as int),
        Tag::Long(v) => decimal(v as int) + seq![76u8],
        Tag::Float(_) => Seq::empty(),
        Tag::Double(_) => Seq::empty(),
        Tag::ByteArray(b) => seq![91u8, 66u8, 59u8] + join_bytes(b) + seq![93u8],
        Tag::String(b) => quoted(b),
        Tag::List(_, ts) => seq![91u8] + text_items(ts) + seq![93u8],
        Tag::Compound(es) => seq![123u8] + text_entries(es) + seq![125u8],
        Tag::IntArray(xs) => seq![91u8, 73u8, 59u8] + join_i32s(xs) + seq![93u8],
        Tag::LongArray(xs) => seq![91u8, 76u8, 59u8] + join_i64s(xs, seq![76u8]) + seq![93u8],
    }
}

pub open spec fn text_items(ts: Seq<Tag>) -> Seq<u8>
    decreases ts,
{
    if ts.len() == 0 {
        Seq::empty()
    } else if ts.len() == 1 {
        text_of(ts[0])
    } else {
        text_items(ts.subrange(0, ts.len() - 1)) + seq![44u8] + text_of(ts[ts.len() - 1])
    }
}

pub open spec fn text_entries(es: Seq<(Seq<u8>, Tag)>) -> Seq<u8>
    decreases es,
{
    if es.len() == 0 {
        Seq::empty()
    } else if es.len() == 1 {
        quoted(es[0].0) + seq![58u8] + text_of(es[0].1)
    } else {
        text_entries(es.subrange(0, es.len() - 1)) + seq![44u8] + quoted(es[es.len() - 1].0) + seq![58u8]
            + text_of(es[es.len() - 1].1)
    }
}

fn write_digits(out: &mut Vec<u8>, n: u128)
    ensures
        final(out)@ == old(out)@ + digits(n as nat),
    decreases n,
{
    if n < 10 {
        out.push((48 + n) as u8);
        assert(out@ =~= old(out)@ + digits(n as nat));
    } else {
        write_digits(out, n / 10);
        out.push((48 + n % 10) as u8);
        assert(out@ =~= old(out)@ + digits(n as nat));
    }
}

fn write_decimal(out: &mut Vec<u8>, v: i64)
    ensures
        final(out)@ == old(out)@ + decimal(v as int),
{
    if v < 0 {
        out.push(45u8);
        write_digits(out, (-(v as i128)) as u128);
        assert(out@ =~= old(out)@ + decimal(v as int));
    } else {
        write_digits(out, v as u128);
    }
}

fn write_quoted(out: &mut Vec<u8>, b: &Vec<u8>)
    ensures
        final(out)@ == old(out)@ + quoted(b@),
{
    out.push(34u8);
    let ghost open = out@;
    let mut i: usize = 0;
    while i < b.len()
        invariant
            i <= b@.len(),
            out@ == open + escaped(b@.subrange(0, i as int)),
        decreases b@.len() - i,
    {
        let c = b[i];
        if c == 34u8 || c == 92u8 {
            out.push(92u8);
        }
        out.push(c);
        assert(b@.subrange(0, i + 1).drop_last() =~= b@.subrange(0, i as int));
        assert(out@ =~= open + escaped(b@.subrange(0, i + 1)));
        i = i + 1;
    }
    out.push(34u8);
    assert(b@.subrange(0, b@.len() as int) =~= b@);
    assert(out@ =~= old(out)@ + quoted(b@));
}

/// Appends the text form of a float-free tag.
#[verifier::rlimit(50)]
pub fn write_text(t: &NbtTag, out: &mut Vec<u8>)
    requires
        float_free(t.view()),
    ensures
        final(out)@ == old(out)@ + text_of(t.view()),
    decreases t,
{
    let ghost pre = out@;
    match t {
        NbtTag::Byte(v) => {
            write_decimal(out, *v as i64);
            out.push(98u8);
            assert(out@ =~= pre + text_of(t.view()));
        },
        NbtTag::Short(v) => {
            write_decimal(out, *v as i64);
            out.push(115u8);
            assert(out@ =~= pre + text_of(t.view()));
        },
        NbtTag::Int(v) => {
            write_decimal(out, *v as i64);
        },
        NbtTag::Long(v) => {
            write_decimal(out, *v);
            out.push(76u8);
            assert(out@ =~= pre + text_of(t.view()));
        },
        NbtTag::Float(_) => {},
        NbtTag::Double(_) => {},
        NbtTag::ByteArray(b) => {
            out.push(91u8);
            out.push(66u8);
            out.push(59u8);
            let ghost open = out@;
            let mut i: usize = 0;
            while i < b.len()
                invariant
                    i <= b@.len(),
                    out@ == open + join_bytes(b@.subrange(0, i as int)),
                decreases b@.len() - i,
            {
                if i > 0 {
                    out.push(44u8);
                }
                write_decimal(out, (#[verifier::truncate] (b[i] as i8)) as i64);
                out.push(98u8);
                assert(b@.subrange(0, i + 1).drop_last() =~= b@.subrange(0, i as int));
                assert(out@ =~= open + join_bytes(b@.subrange(0, i + 1)));
                i = i + 1;
            }
            out.push(93u8);
            assert(b@.subrange(0, b@.len() as int) =~= b@);
            assert(out@ =~= pre + text_of(t.view()));
        },
        NbtTag::String(b) => {
            write_quoted(out, b);
        },
        NbtTag::List(_, items) => {
            out.push(91u8);
            let ghost open = out@;
            let ghost ts = view_items(items@);
            proof {
                lemma_view_items(items@);
            }
            let mut i: usize = 0;
            while i < items.len()
                invariant
                    i <= items@.len(),
                    ts == view_items(items@),
                    ts.len() == items@.len(),
                    *t == NbtTag::List(t->List_0, *items),
                    float_free(t.view()),
                    forall|k: int| 0 <= k < items@.len() ==> #[trigger] ts[k] == items@[k].view(),
                    out@ == open + text_items(ts.subrange(0, i as int)),
                decreases items@.len() - i,
            {
                if i > 0 {
                    out.push(44u8);
                }
                proof {
                    assert(decreases_to!(*t => (*t)->List_1));
                    assert((*t)->List_1 == *items);
                    assert(decreases_to!(*items => items@));
                    assert(decreases_to!(items@ => items@[i as int]));
                    assert(t.view() == Tag::List(t->List_0, ts));
                    lemma_items_float_free(ts);
                    assert(float_free(ts[i as int]));
                }
                write_text(&items[i], out);
                proof {
                    assert(ts.subrange(0, i + 1).subrange(0, i as int) =~= ts.subrange(0, i as int));
                    assert(out@ =~= open + text_items(ts.subrange(0, i + 1)));
                }
                i = i + 1;
            }
            out.push(93u8);
            assert(ts.subrange(0, ts.len() as int) =~= ts);
            assert(out@ =~= pre + text_of(t.view()));
        },
        NbtTag::Compound(entries) => {
            out.push(123u8);
            let ghost open = out@;
            let ghost es = view_entries(entries@);
            proof {
                lemma_view_entries(entries@);
            }
            let mut i: usize = 0;
            while i < entries.len()
                invariant
                    i <= entries@.len(),
                    es == view_entries(entries@),
                    es.len() == entries@.len(),
                    *t == NbtTag::Compound(*entries),
                    float_free(t.view()),
                    forall|k: int| 0 <= k < entries@.len() ==> #[trigger] es[k] == (entries@[k].0@, entries@[k].1.view()),
                    out@ == open + text_entries(es.subrange(0, i as int)),
                decreases entries@.len() - i,
            {
                if i > 0 {
                    out.push(44u8);
                }
                let (name, value) = &entries[i];
                write_quoted(out, name);
                out.push(58u8);
                proof {
                    assert(decreases_to!(*t => (*t)->Compound_0));
                    assert((*t)->Compound_0 == *entries);
                    assert(decreases_to!(*entries => entries@));
                    assert(decreases_to!(entries@ => entries@[i as int]));
                    assert(decreases_to!(entries@[i as int] => entries@[i as int].1));
                    assert(t.view() == Tag::Compound(es));
                    lemma_entries_float_free(es);
                    assert(float_free(es[i as int].1));
                }
                write_text(value, out);
                proof {
                    assert(es.subrange(0, i + 1).subrange(0, i as int) =~= es.subrange(0, i as int));
                    assert(out@ =~= open + text_entries(es.subrange(0, i + 1)));
                }
                i = i + 1;
            }
            out.push(125u8);
            assert(es.subrange(0, es.len() as int) =~= es);
            assert(out@ =~= pre + text_of(t.view()));
        },
        NbtTag::IntArray(xs) => {
            out.push(91u8);
            out.push(73u8);
            out.push(59u8);
            let ghost open = out@;
            let mut i: usize = 0;
            while i < xs.len()
                invariant
                    i <= xs@.len(),
                    out@ == open + join_i32s(xs@.subrange(0, i as int)),
                decreases xs@.len() - i,
            {
                if i > 0 {
                    out.push(44u8);
                }
                write_decimal(out, xs[i] as i64);
                assert(xs@.subrange(0, i + 1).drop_last() =~= xs@.subrange(0, i as int));
                assert(out@ =~= open + join_i32s(xs@.subrange(0, i + 1)));
                i = i + 1;
            }
            out.push(93u8);
            assert(xs@.subrange(0, xs@.len() as int) =~= xs@);
            assert(out@ =~= pre + text_of(t.view()));
        },
        NbtTag::LongArray(xs) => {
            out.push(91u8);
            out.push(76u8);
            out.push(59u8);
            let ghost open = out@;
            let mut i: usize = 0;
            while i < xs.len()
                invariant
                    i <= xs@.len(),
                    out@ == open + join_i64s(xs@.subrange(0, i as int), seq![76u8]),
                decreases xs@.len() - i,
            {
                if i > 0 {
                    out.push(44u8);
                }
                write_decimal(out, xs[i]);
                out.push(76u8);
                assert(xs@.subrange(0, i + 1).drop_last() =~= xs@.subrange(0, i as int));
                assert(out@ =~= open + join_i64s(xs@.subrange(0, i + 1), seq![76u8]));
                i = i + 1;
            }
            out.push(93u8);
            assert(xs@.subrange(0, xs@.len() as int) =~= xs@);
            assert(out@ =~= pre + text_of(t.view()));
        },
    }
}

/// Whether a tag tree holds no floating-point value.
pub fn is_float_free(t: &NbtTag) -> (r: bool)
    ensures
        r == float_free(t.view()),
    decreases t,
{
    match t {
        NbtTag::Float(_) => false,
        NbtTag::Double(_) => false,
        NbtTag::List(_, items) => {
            let ghost ts = view_items(items@);
            proof {
                lemma_view_items(items@);
            }
            let mut i: usize = 0;
            while i < items.len()
                invariant
                    i <= items@.len(),
                    ts == view_items(items@),
                    ts.len() == items@.len(),
                    *t == NbtTag::List(t->List_0, *items),
                    forall|k: int| 0 <= k < items@.len() ==> #[trigger] ts[k] == items@[k].view(),
                    forall|k: int| 0 <= k < i ==> float_free(#[trigger] ts[k]),
                decreases items@.len() - i,
            {
                proof {
                    assert(decreases_to!(*t => (*t)->List_1));
                    assert((*t)->List_1 == *items);
                    assert(decreases_to!(*items => items@));
                    assert(decreases_to!(items@ => items@[i as int]));
                }
                if !is_float_free(&items[i]) {
                    assert(t.view() == Tag::List(t->List_0, ts));
                    assert(!float_free(ts[i as int]));
                    proof {
                        lemma_items_float_free(ts);
                    }
                    return false;
                }
                i = i + 1;
            }
            assert(t.view() == Tag::List(t->List_0, ts));
            proof {
                lemma_items_float_free(ts);
            }
            true
        },
        NbtTag::Compound(entries) => {
            let ghost es = view_entries(entries@);
            proof {
                lemma_view_entries(entries@);
            }
            let mut i: usize = 0;
            while i < entries.len()
                invariant
                    i <= entries@.len(),
                    es == view_entries(entries@),
                    es.len() == entries@.len(),
                    *t == NbtTag::Compound(*entries),
                    forall|k: int| 0 <= k < entries@.len() ==> #[trigger] es[k] == (entries@[k].0@, entries@[k].1.view()),
                    forall|k: int| 0 <= k < i ==> float_free(#[trigger] es[k].1),
                decreases entries@.len() - i,
            {
                proof {
                    assert(decreases_to!(*t => (*t)->Compound_0));
                    assert((*t)->Compound_0 == *entries);
                    assert(decreases_to!(*entries => entries@));
                    assert(decreases_to!(entries@ => entries@[i as int]));
                    assert(decreases_to!(entries@[i as int] => entries@[i as int].1));
                }
                if !is_float_free(&entries[i].1) {
                    assert(t.view() == Tag::Compound(es));
                    assert(!float_free(es[i as int].1));
                    proof {
                        lemma_entries_float_free(es);
                    }
                    return false;
                }
                i = i + 1;
            }
            assert(t.view() == Tag::Compound(es));
            proof {
                lemma_entries_float_free(es);
            }
            true
        },
        _ => true,
    }
}

/// The text form of a document, or `None` where it holds a floating-point
/// value, which the text form here does not cover.
pub fn to_snbt(t: &NbtTag) -> (r: Option<Vec<u8>>)
    ensures
        float_free(t.view()) ==> r is Some && r->0@ == text_of(t.view()),
        !float_free(t.view()) ==> r is None,
{
    if !is_float_free(t) {
        return None;
    }
    let mut out: Vec<u8> = Vec::new();
    write_text(t, &mut out);
    assert(out@ =~= text_of(t.view()));
    Some(out)
}

} // verus!

verus! {

pub open spec fn ws_char(c: u8) -> bool {
    c == 32 || c == 9 || c == 10 || c == 13
}

/// Characters of an unquoted word: letters, digits and `_ - . +`.
pub open spec fn word_char(c: u8) -> bool {
    (48 <= c <= 57) || (65 <= c <= 90) || (97 <= c <= 122) || c == 95 || c == 45 || c == 46 || c == 43
}

/// The first position at or after `p` that is not white space.
pub open spec fn ws_end(s: Seq<u8>, p: int) -> int
    decreases s.len() - p,
{
    if 0 <= p < s.len() && ws_char(s[p]) { ws_end(s, p + 1) } else { p }
}

/// The end of the run of word characters from `p`.
pub open spec fn word_end(s: Seq<u8>, p: int) -> int
    decreases s.len() - p,
{
    if 0 <= p < s.len() && word_char(s[p]) { word_end(s, p + 1) } else { p }
}

/// The rest of a quoted string from `i` (after its opening quote), with
/// backslash escapes undone: its bytes and the position after the closing quote.
pub open spec fn quoted_from(s: Seq<u8>, i: int, acc: Seq<u8>) -> Option<(Seq<u8>, int)>
    decreases s.len() - i,
{
    if i < 0 || i >= s.len() {
        None
    } else if s[i] == 34 {
        Some((acc, i + 1))
    } else if s[i] == 92 {
        if i + 1 >= s.len() { None } else { quoted_from(s, i + 2, acc.push(s[i + 1])) }
    } else {
        quoted_from(s, i + 1, acc.push(s[i]))
    }
}

/// The value of the decimal digits `s[i..b]` after `acc`, refused past 2^64.
pub open spec fn digits_from(s: Seq<u8>, i: int, b: int, acc: int) -> Option<int>
    decreases b - i,
{
    if i >= b {
        Some(acc)
    } else if s[i] < 48 || s[i] > 57 {
        None
    } else if acc * 10 + (s[i] - 48) > 0x1_0000_0000_0000_0000 {
        None
    } else {
        digits_from(s, i + 1, b, acc * 10 + (s[i] - 48))
    }
}

/// An integer literal `-?[0-9]+` on `s[a..b]` that fits in an i64.
pub open spec fn integer_at(s: Seq<u8>, a: int, b: int) -> Option<i64> {
    let neg = a < b && s[a] == 45;
    let start = if neg { a + 1 } else { a };
    if start >= b {
        None
    } else {
        match digits_from(s, start, b, 0) {
            Some(v) => if neg {
                if v > 0x8000_0000_0000_0000 { None } else { Some((-v) as i64) }
            } else {
                if v > 0x7fff_ffff_ffff_ffff { None } else { Some(v as i64) }
            },
            None => None,
        }
    }
}

pub open spec fn has_dot(s: Seq<u8>, a: int, b: int) -> bool {
    exists|i: int| a <= i < b && s[i] == 46
}

pub open spec fn is_suffix(c: u8) -> bool {
    c == 98 || c == 66 || c == 115 || c == 83 || c == 108 || c == 76
}

/// The tag of a suffixed integer on `s[a..b]` (last byte the suffix), if it
/// is one whose value fits.
pub open spec fn suffixed_at(s: Seq<u8>, a: int, b: int) -> Option<Tag> {
    let last = s[b - 1];
    if !is_suffix(last) {
        None
    } else {
        match integer_at(s, a, b - 1) {
            Some(v) => if (last == 98 || last == 66) && -128 <= v <= 127 {
                Some(Tag::Byte(v as i8))
            } else if (last == 115 || last == 83) && -32768 <= v <= 32767 {
                Some(Tag::Short(v as i16))
            } else if last == 108 || last == 76 {
                Some(Tag::Long(v))
            } else {
                None
            },
            None => None,
        }
    }
}

/// An unquoted word `s[a..b]`: `true`, `false`, a suffixed integer, an
/// integer that fits an int, or a bare string that looks like no number.
pub open spec fn word_tag(s: Seq<u8>, a: int, b: int) -> Option<Tag> {
    if s.subrange(a, b) == seq![116u8, 114u8, 117u8, 101u8] {
        Some(Tag::Byte(1))
    } else if s.subrange(a, b) == seq![102u8, 97u8, 108u8, 115u8, 101u8] {
        Some(Tag::Byte(0))
    } else if suffixed_at(s, a, b) is Some {
        suffixed_at(s, a, b)
    } else {
        match integer_at(s, a, b) {
            Some(v) => if -2147483648 <= v <= 2147483647 { Some(Tag::Int(v as i32)) } else { None },
            None => if has_dot(s, a, b) || (48 <= s[a] <= 57) || s[a] == 45 || s[a] == 43 {
                None
            } else {
                Some(Tag::String(s.subrange(a, b)))
            },
        }
    }
}

/// The number that a word gives as an element of a typed array of `kind`
/// (`B`, `I` or `L`).
pub open spec fn array_element(t: Tag, kind: u8) -> Option<i64> {
    match t {
        Tag::Byte(v) => if kind == 66 { Some(v as i64) } else { None },
        Tag::Int(v) => if kind == 73 || kind == 76 { Some(v as i64) } else { None },
        Tag::Long(v) => if kind == 76 { Some(v) } else { None },
        _ => None,
    }
}

pub open spec fn array_tag(kind: u8, xs: Seq<i64>) -> Tag {
    if kind == 66 {
        Tag::ByteArray(xs.map_values(|v: i64| v as u8))
    } else if kind == 73 {
        Tag::IntArray(xs.map_values(|v: i64| v as i32))
    } else {
        Tag::LongArray(xs)
    }
}

/// Elements of a typed array from `cur` on, up to its closing bracket.
pub open spec fn array_from(s: Seq<u8>, cur: int, kind: u8, acc: Seq<i64>) -> Option<(Tag, int)>
    decreases s.len() - cur,
{
    if cur < 0 || cur >= s.len() {
        None
    } else {
        let end = word_end(s, cur);
        if end <= cur {
            None
        } else {
            match word_tag(s, cur, end) {
                Some(w) => match array_element(w, kind) {
                    Some(v) => {
                        let sep = ws_end(s, end);
                        if sep < s.len() && s[sep] == 44 {
                            let next = ws_end(s, sep + 1);
                            if next <= cur || next > s.len() { None } else { array_from(s, next, kind, acc.push(v)) }
                        } else if sep < s.len() && s[sep] == 93 {
                            Some((array_tag(kind, acc.push(v)), sep + 1))
                        } else {
                            None
                        }
                    },
                    None => None,
                },
                None => None,
            }
        }
    }
}

/// One value of the text form at or after `from`, with the position after it;
/// lists and compounds may nest `depth` levels below it.
pub open spec fn value_at(s: Seq<u8>, from: int, depth: nat) -> Option<(Tag, int)>
    decreases depth, 0nat, 0int,
{
    let p = ws_end(s, from);
    if p < 0 || p >= s.len() {
        None
    } else if s[p] == 123 {
        if depth == 0 {
            None
        } else {
            let cur = ws_end(s, p + 1);
            if cur < s.len() && s[cur] == 125 {
                Some((Tag::Compound(Seq::empty()), cur + 1))
            } else {
                match entries_from(s, cur, (depth - 1) as nat, Seq::empty()) {
                    Some((es, q)) => Some((Tag::Compound(es), q)),
                    None => None,
                }
            }
        }
    } else if s[p] == 91 {
        if depth == 0 {
            None
        } else if p + 2 < s.len() && s[p + 2] == 59 && (s[p + 1] == 66 || s[p + 1] == 73 || s[p + 1] == 76) {
            let cur = ws_end(s, p + 3);
            if cur < s.len() && s[cur] == 93 {
                Some((array_tag(s[p + 1], Seq::empty()), cur + 1))
            } else {
                array_from(s, cur, s[p + 1], Seq::empty())
            }
        } else {
            let cur = ws_end(s, p + 1);
            if cur < s.len() && s[cur] == 93 {
                Some((Tag::List(0, Seq::empty()), cur + 1))
            } else {
                match items_from(s, cur, (depth - 1) as nat, 0, Seq::empty()) {
                    Some((e, ts, q)) => Some((Tag::List(e, ts), q)),
                    None => None,
                }
            }
        }
    } else if s[p] == 34 {
        match quoted_from(s, p + 1, Seq::empty()) {
            Some((b, q)) => Some((Tag::String(b), q)),
            None => None,
        }
    } else {
        let end = word_end(s, p);
        if end <= p {
            None
        } else {
            match word_tag(s, p, end) {
                Some(t) => Some((t, end)),
                None => None,
            }
        }
    }
}

/// The key of a compound entry at `cur`: quoted, or a bare word.
pub open spec fn key_at(s: Seq<u8>, cur: int) -> Option<(Seq<u8>, int)> {
    if s[cur] == 34 {
        quoted_from(s, cur + 1, Seq::empty())
    } else {
        let end = word_end(s, cur);
        if end <= cur { None } else { Some((s.subrange(cur, end), end)) }
    }
}

/// Entries of a compound from `cur` on, up to its closing brace.
pub open spec fn entries_from(s: Seq<u8>, cur: int, depth: nat, acc: Seq<(Seq<u8>, Tag)>) -> Option<(Seq<(Seq<u8>, Tag)>, int)>
    decreases depth, 1nat, s.len() - cur,
{
    if cur < 0 || cur >= s.len() {
        None
    } else {
        match key_at(s, cur) {
            Some((key, after)) => {
                let colon = ws_end(s, after);
                if colon < 0 || colon >= s.len() || s[colon] != 58 {
                    None
                } else {
                    match value_at(s, colon + 1, depth) {
                        Some((v, q)) => {
                            let sep = ws_end(s, q);
                            if sep < 0 || sep >= s.len() {
                                None
                            } else if s[sep] == 44 {
                                let next = ws_end(s, sep + 1);
                                if next <= cur || next > s.len() { None } else { entries_from(s, next, depth, acc.push((key, v))) }
                            } else if s[sep] == 125 {
                                Some((acc.push((key, v)), sep + 1))
                            } else {
                                None
                            }
                        },
                        None => None,
                    }
                }
            },
            None => None,
        }
    }
}

/// Items of a list from `cur` on, up to its closing bracket, all of the type
/// of the first; with that type.
pub open spec fn items_from(s: Seq<u8>, cur: int, depth: nat, elem: u8, acc: Seq<Tag>) -> Option<(u8, Seq<Tag>, int)>
    decreases depth, 1nat, s.len() - cur,
{
    if cur < 0 || cur > s.len() {
        None
    } else {
        match value_at(s, cur, depth) {
            Some((v, q)) => {
                if acc.len() > 0 && tag_id(v) != elem {
                    None
                } else {
                    let e = if acc.len() == 0 { tag_id(v) } else { elem };
                    let sep = ws_end(s, q);
                    if sep < 0 || sep >= s.len() {
                        None
                    } else if s[sep] == 44 {
                        let next = ws_end(s, sep + 1);
                        if next <= cur || next > s.len() { None } else { items_from(s, next, depth, e, acc.push(v)) }
                    } else if s[sep] == 93 {
                        Some((e, acc.push(v), sep + 1))
                    } else {
                        None
                    }
                }
            },
            None => None,
        }
    }
}

/// The document of a whole text: one value with only white space around it.
pub open spec fn snbt_value(s: Seq<u8>) -> Option<Tag> {
    match value_at(s, 0, MAX_DEPTH as nat) {
        Some((t, q)) => if 0 <= q <= s.len() && ws_end(s, q) == s.len() { Some(t) } else { None },
        None => None,
    }
}

} // verus!

verus! {

/// Reads the text form. Floating-point literals are refused, as the text
/// form here does not cover them.
pub fn parse_snbt(s: &[u8]) -> (r: Option<NbtTag>)
    ensures
        r is Some <==> snbt_value(s@) is Some,
        r is Some ==> snbt_value(s@) == Some(r->0.view()),
{
    match parse_value(s, 0, MAX_DEPTH) {
        Some((t, q)) => {
            if skip_ws(s, q) == s.len() { Some(t) } else { None }
        },
        None => None,
    }
}

fn skip_ws(s: &[u8], p: usize) -> (r: usize)
    requires
        p <= s@.len(),
    ensures
        r == ws_end(s@, p as int),
        p <= r <= s@.len(),
{
    let mut i = p;
    while i < s.len() && (s[i] == 32 || s[i] == 9 || s[i] == 10 || s[i] == 13)
        invariant
            p <= i <= s@.len(),
            ws_end(s@, p as int) == ws_end(s@, i as int),
        decreases s@.len() - i,
    {
        i = i + 1;
    }
    i
}

fn word_end_at(s: &[u8], p: usize) -> (r: usize)
    requires
        p <= s@.len(),
    ensures
        r == word_end(s@, p as int),
        p <= r <= s@.len(),
{
    let mut i = p;
    while i < s.len() && ((48 <= s[i] && s[i] <= 57) || (65 <= s[i] && s[i] <= 90) || (97 <= s[i] && s[i] <= 122)
        || s[i] == 95 || s[i] == 45 || s[i] == 46 || s[i] == 43)
        invariant
            p <= i <= s@.len(),
            word_end(s@, p as int) == word_end(s@, i as int),
        decreases s@.len() - i,
    {
        i = i + 1;
    }
    i
}

/// A double-quoted string whose body starts at `p`, just after the opening quote.
fn parse_quoted(s: &[u8], p: usize) -> (r: Option<(Vec<u8>, usize)>)
    requires
        p <= s@.len(),
    ensures
        match r {
            Some((b, q)) => quoted_from(s@, p as int, Seq::empty()) == Some((b@, q as int)) && p < q <= s@.len(),
            None => quoted_from(s@, p as int, Seq::empty()) is None,
        },
{
    let mut out: Vec<u8> = Vec::new();
    let mut i = p;
    while i < s.len()
        invariant
            p <= i <= s@.len(),
            quoted_from(s@, p as int, Seq::empty()) == quoted_from(s@, i as int, out@),
        decreases s@.len() - i,
    {
        let c = s[i];
        if c == 34u8 {
            return Some((out, i + 1));
        }
        if c == 92u8 {
            if i + 1 >= s.len() {
                return None;
            }
            out.push(s[i + 1]);
            i = i + 2;
        } else {
            out.push(c);
            i = i + 1;
        }
    }
    None
}

fn parse_integer(s: &[u8], a: usize, b: usize) -> (r: Option<i64>)
    requires
        a <= b <= s@.len(),
    ensures
        r == integer_at(s@, a as int, b as int),
{
    let neg = a < b && s[a] == 45u8;
    let start = if neg { a + 1 } else { a };
    if start >= b {
        return None;
    }
    let mut acc: u128 = 0;
    let mut i = start;
    while i < b
        invariant
            start <= i <= b <= s@.len(),
            neg == (a < b && s@[a as int] == 45),
            start == (if neg { a + 1 } else { a as int }),
            acc <= 0x1_0000_0000_0000_0000u128,
            digits_from(s@, start as int, b as int, 0) == digits_from(s@, i as int, b as int, acc as int),
        decreases b - i,
    {
        let c = s[i];
        if c < 48u8 || c > 57u8 {
            return None;
        }
        let next = acc * 10 + (c - 48u8) as u128;
        if next > 0x1_0000_0000_0000_0000u128 {
            return None;
        }
        acc = next;
        i = i + 1;
    }
    if neg {
        if acc > 0x8000_0000_0000_0000u128 { None } else { Some((-(acc as i128)) as i64) }
    } else {
        if acc > 0x7fff_ffff_ffff_ffffu128 { None } else { Some(acc as i64) }
    }
}

fn find_dot(s: &[u8], a: usize, b: usize) -> (r: bool)
    requires
        a <= b <= s@.len(),
    ensures
        r == has_dot(s@, a as int, b as int),
{
    let mut i = a;
    while i < b
        invariant
            a <= i <= b <= s@.len(),
            forall|k: int| a <= k < i ==> s@[k] != 46,
        decreases b - i,
    {
        if s[i] == 46u8 {
            return true;
        }
        i = i + 1;
    }
    false
}

fn parse_suffixed(s: &[u8], a: usize, b: usize) -> (r: Option<NbtTag>)
    requires
        a < b <= s@.len(),
    ensures
        match r {
            Some(t) => suffixed_at(s@, a as int, b as int) == Some(t.view()),
            None => suffixed_at(s@, a as int, b as int) is None,
        },
{
    let last = s[b - 1];
    if !(last == 98u8 || last == 66u8 || last == 115u8 || last == 83u8 || last == 108u8 || last == 76u8) {
        return None;
    }
    match parse_integer(s, a, b - 1) {
        Some(v) => {
            if (last == 98u8 || last == 66u8) && -128 <= v && v <= 127 {
                Some(NbtTag::Byte(v as i8))
            } else if (last == 115u8 || last == 83u8) && -32768 <= v && v <= 32767 {
                Some(NbtTag::Short(v as i16))
            } else if last == 108u8 || last == 76u8 {
                Some(NbtTag::Long(v))
            } else {
                None
            }
        },
        None => None,
    }
}

fn parse_word(s: &[u8], a: usize, b: usize) -> (r: Option<NbtTag>)
    requires
        a < b <= s@.len(),
    ensures
        match r {
            Some(t) => word_tag(s@, a as int, b as int) == Some(t.view()),
            None => word_tag(s@, a as int, b as int) is None,
        },
{
    let ghost w = s@.subrange(a as int, b as int);
    proof {
        if w.len() > 0 {
            assert(w[0] == s@[a as int]);
        }
        if w.len() > 3 {
            assert(w[1] == s@[a + 1]);
            assert(w[2] == s@[a + 2]);
            assert(w[3] == s@[a + 3]);
        }
        if w.len() > 4 {
            assert(w[4] == s@[a + 4]);
        }
    }
    if b - a == 4 && s[a] == 116u8 && s[a + 1] == 114u8 && s[a + 2] == 117u8 && s[a + 3] == 101u8 {
        assert(w =~= seq![116u8, 114u8, 117u8, 101u8]);
        return Some(NbtTag::Byte(1));
    }
    if b - a == 5 && s[a] == 102u8 && s[a + 1] == 97u8 && s[a + 2] == 108u8 && s[a + 3] == 115u8 && s[a + 4] == 101u8 {
        assert(w =~= seq![102u8, 97u8, 108u8, 115u8, 101u8]);
        return Some(NbtTag::Byte(0));
    }
    if let Some(t) = parse_suffixed(s, a, b) {
        return Some(t);
    }
    match parse_integer(s, a, b) {
        Some(v) => {
            if -2147483648 <= v && v <= 2147483647 {
                Some(NbtTag::Int(v as i32))
            } else {
                None
            }
        },
        None => {
            let first = s[a];
            if find_dot(s, a, b) || (48 <= first && first <= 57) || first == 45u8 || first == 43u8 {
                None
            } else {
                Some(NbtTag::String(copy_range(s, a, b)))
            }
        },
    }
}

/// A typed array of `kind` whose elements start at or after `p`.
fn parse_array(s: &[u8], p: usize, kind: u8) -> (r: Option<(NbtTag, usize)>)
    requires
        p <= s@.len(),
    ensures
        ({
            let cur = ws_end(s@, p as int);
            let expected = if cur < s@.len() && s@[cur] == 93 {
                Some((array_tag(kind, Seq::empty()), cur + 1))
            } else {
                array_from(s@, cur, kind, Seq::empty())
            };
            match r {
                Some((t, q)) => expected == Some((t.view(), q as int)) && p < q <= s@.len(),
                None => expected is None,
            }
        }),
{
    let mut bytes: Vec<u8> = Vec::new();
    let mut ints: Vec<i32> = Vec::new();
    let mut longs: Vec<i64> = Vec::new();
    let mut cur = skip_ws(s, p);
    if cur < s.len() && s[cur] == 93u8 {
        let t = if kind == 66u8 {
            NbtTag::ByteArray(bytes)
        } else if kind == 73u8 {
            NbtTag::IntArray(ints)
        } else {
            NbtTag::LongArray(longs)
        };
        proof {
            assert(Seq::<i64>::empty().map_values(|v: i64| v as u8) =~= Seq::<u8>::empty());
            assert(Seq::<i64>::empty().map_values(|v: i64| v as i32) =~= Seq::<i32>::empty());
        }
        return Some((t, cur + 1));
    }
    let ghost start: int = cur as int;
    let ghost mut acc: Seq<i64> = Seq::empty();
    loop
        invariant
            p <= start <= cur <= s@.len(),
            start == ws_end(s@, p as int),
            !(start < s@.len() && s@[start] == 93),
            array_from(s@, start, kind, Seq::empty()) == array_from(s@, cur as int, kind, acc),
            bytes@ == acc.map_values(|v: i64| v as u8),
            ints@ == acc.map_values(|v: i64| v as i32),
            longs@ == acc,
        decreases s@.len() - cur,
    {
        if cur >= s.len() {
            return None;
        }
        let end = word_end_at(s, cur);
        if end <= cur {
            return None;
        }
        let w = match parse_word(s, cur, end) {
            Some(w) => w,
            None => return None,
        };
        let v: i64 = match w {
            NbtTag::Byte(v) => {
                if kind != 66u8 {
                    return None;
                }
                v as i64
            },
            NbtTag::Int(v) => {
                if kind != 73u8 && kind != 76u8 {
                    return None;
                }
                v as i64
            },
            NbtTag::Long(v) => {
                if kind != 76u8 {
                    return None;
                }
                v
            },
            _ => {
                return None;
            },
        };
        bytes.push(#[verifier::truncate] (v as u8));
        ints.push(#[verifier::truncate] (v as i32));
        longs.push(v);
        proof {
            acc = acc.push(v);
            assert(bytes@ =~= acc.map_values(|v: i64| v as u8));
            assert(ints@ =~= acc.map_values(|v: i64| v as i32));
        }
        let sep = skip_ws(s, end);
        if sep < s.len() && s[sep] == 44u8 {
            let next = skip_ws(s, sep + 1);
            if next <= cur {
                return None;
            }
            cur = next;
        } else if sep < s.len() && s[sep] == 93u8 {
            let t = if kind == 66u8 {
                NbtTag::ByteArray(bytes)
            } else if kind == 73u8 {
                NbtTag::IntArray(ints)
            } else {
                NbtTag::LongArray(longs)
            };
            return Some((t, sep + 1));
        } else {
            return None;
        }
    }
}

/// One value of the text form starting at or after `from`.
fn parse_value(s: &[u8], from: usize, depth: u32) -> (r: Option<(NbtTag, usize)>)
    requires
        from <= s@.len(),
    ensures
        match r {
            Some((t, q)) => value_at(s@, from as int, depth as nat) == Some((t.view(), q as int)) && from < q <= s@.len(),
            None => value_at(s@, from as int, depth as nat) is None,
        },
    decreases depth,
{
    let p = skip_ws(s, from);
    if p >= s.len() {
        return None;
    }
    let c = s[p];
    if c == 123u8 {
        if depth == 0 {
            return None;
        }
        let ghost d = (depth - 1) as nat;
        let mut entries: Vec<(Vec<u8>, NbtTag)> = Vec::new();
        let mut cur = skip_ws(s, p + 1);
        if cur < s.len() && s[cur] == 125u8 {
            proof {
                lemma_view_entries(entries@);
                assert(view_entries(entries@) =~= Seq::empty());
            }
            return Some((NbtTag::Compound(entries), cur + 1));
        }
        let ghost start: int = cur as int;
        let ghost mut acc: Seq<(Seq<u8>, Tag)> = Seq::empty();
        loop
            invariant
                from <= p < start <= cur <= s@.len(),
                p == ws_end(s@, from as int),
                s@[p as int] == 123,
                depth > 0,
                d == depth - 1,
                start == ws_end(s@, p + 1),
                !(start < s@.len() && s@[start] == 125),
                entries_from(s@, start, d, Seq::empty()) == entries_from(s@, cur as int, d, acc),
                entries@.len() == acc.len(),
                forall|k: int| 0 <= k < acc.len() ==> #[trigger] acc[k] == (entries@[k].0@, entries@[k].1.view()),
            decreases s@.len() - cur,
        {
            if cur >= s.len() {
                return None;
            }
            let (key, after) = if s[cur] == 34u8 {
                match parse_quoted(s, cur + 1) {
                    Some(kq) => kq,
                    None => return None,
                }
            } else {
                let end = word_end_at(s, cur);
                if end <= cur {
                    return None;
                }
                (copy_range(s, cur, end), end)
            };
            let colon = skip_ws(s, after);
            if colon >= s.len() || s[colon] != 58u8 {
                return None;
            }
            let (value, next) = match parse_value(s, colon + 1, depth - 1) {
                Some(vq) => vq,
                None => return None,
            };
            let ghost entry = (key@, value.view());
            entries.push((key, value));
            proof {
                acc = acc.push(entry);
            }
            let sep = skip_ws(s, next);
            if sep >= s.len() {
                return None;
            }
            if s[sep] == 44u8 {
                let n = skip_ws(s, sep + 1);
                if n <= cur {
                    return None;
                }
                cur = n;
            } else if s[sep] == 125u8 {
                proof {
                    lemma_view_entries(entries@);
                    assert(view_entries(entries@) =~= acc);
                }
                return Some((NbtTag::Compound(entries), sep + 1));
            } else {
                return None;
            }
        }
    } else if c == 91u8 {
        if depth == 0 {
            return None;
        }
        if s.len() - p > 2 && s[p + 2] == 59u8 && (s[p + 1] == 66u8 || s[p + 1] == 73u8 || s[p + 1] == 76u8) {
            return parse_array(s, p + 3, s[p + 1]);
        }
        let ghost d = (depth - 1) as nat;
        let mut items: Vec<NbtTag> = Vec::new();
        let mut elem: u8 = 0;
        let mut cur = skip_ws(s, p + 1);
        if cur < s.len() && s[cur] == 93u8 {
            proof {
                lemma_view_items(items@);
                assert(view_items(items@) =~= Seq::empty());
            }
            return Some((NbtTag::List(0, items), cur + 1));
        }
        let ghost start: int = cur as int;
        let ghost mut acc: Seq<Tag> = Seq::empty();
        loop
            invariant
                from <= p < start <= cur <= s@.len(),
                p == ws_end(s@, from as int),
                s@[p as int] == 91,
                !(s@.len() - p > 2 && s@[p + 2] == 59 && (s@[p + 1] == 66 || s@[p + 1] == 73 || s@[p + 1] == 76)),
                depth > 0,
                d == depth - 1,
                start == ws_end(s@, p + 1),
                !(start < s@.len() && s@[start] == 93),
                items_from(s@, start, d, 0, Seq::empty()) == items_from(s@, cur as int, d, elem, acc),
                items@.len() == acc.len(),
                forall|k: int| 0 <= k < acc.len() ==> #[trigger] acc[k] == items@[k].view(),
            decreases s@.len() - cur,
        {
            let (value, next) = match parse_value(s, cur, depth - 1) {
                Some(vq) => vq,
                None => return None,
            };
            let id = value.id();
            if items.len() > 0 && id != elem {
                return None;
            }
            if items.len() == 0 {
                elem = id;
            }
            let ghost v = value.view();
            items.push(value);
            proof {
                acc = acc.push(v);
            }
            let sep = skip_ws(s, next);
            if sep >= s.len() {
                return None;
            }
            if s[sep] == 44u8 {
                let n = skip_ws(s, sep + 1);
                if n <= cur {
                    return None;
                }
                cur = n;
            } else if s[sep] == 93u8 {
                proof {
                    lemma_view_items(items@);
                    assert(view_items(items@) =~= acc);
                }
                return Some((NbtTag::List(elem, items), sep + 1));
            } else {
                return None;
            }
        }
    } else if c == 34u8 {
        match parse_quoted(s, p + 1) {
            Some((b, q)) => Some((NbtTag::String(b), q)),
            None => None,
        }
    } else {
        let end = word_end_at(s, p);
        if end <= p {
            return None;
        }
        match parse_word(s, p, end) {
            Some(t) => Some((t, end)),
            None => None,
        }
    }
}

} // verus!
