use vstd::prelude::*;

verus! {

broadcast use vstd::std_specs::vec::axiom_vec_decreases_to_view, vstd::seq::axiom_seq_index_decreases, vstd::seq::axiom_seq_subrange_decreases;

pub const TAG_END: u8 = 0;
pub const TAG_BYTE: u8 = 1;
pub const TAG_SHORT: u8 = 2;
pub const TAG_INT: u8 = 3;
pub const TAG_LONG: u8 = 4;
pub const TAG_FLOAT: u8 = 5;
pub const TAG_DOUBLE: u8 = 6;
pub const TAG_BYTE_ARRAY: u8 = 7;
pub const TAG_STRING: u8 = 8;
pub const TAG_LIST: u8 = 9;
pub const TAG_COMPOUND: u8 = 10;
pub const TAG_INT_ARRAY: u8 = 11;
pub const TAG_LONG_ARRAY: u8 = 12;

/// The deepest nesting of lists and compounds that the codecs accept.
pub const MAX_DEPTH: u32 = 512;

/// The mathematical value of a tag. Floating-point payloads are held as their
/// IEEE-754 bit patterns; strings and names as their raw bytes.
pub enum Tag {
    Byte(i8),
    Short(i16),
    Int(i32),
    Long(i64),
    Float(u32),
    Double(u64),
    ByteArray(Seq<u8>),
    String(Seq<u8>),
    List(u8, Seq<Tag>),
    Compound(Seq<(Seq<u8>, Tag)>),
    IntArray(Seq<i32>),
    LongArray(Seq<i64>),
}

pub open spec fn tag_id(t: Tag) -> u8 {
    match t {
        Tag::Byte(_) => TAG_BYTE,
        Tag::Short(_) => TAG_SHORT,
        Tag::Int(_) => TAG_INT,
        Tag::Long(_) => TAG_LONG,
        Tag::Float(_) => TAG_FLOAT,
        Tag::Double(_) => TAG_DOUBLE,
        Tag::ByteArray(_) => TAG_BYTE_ARRAY,
        Tag::String(_) => TAG_STRING,
        Tag::List(_, _) => TAG_LIST,
        Tag::Compound(_) => TAG_COMPOUND,
        Tag::IntArray(_) => TAG_INT_ARRAY,
        Tag::LongArray(_) => TAG_LONG_ARRAY,
    }
}

/// A document root must be a compound or a list.
pub open spec fn is_container(t: Tag) -> bool {
    t is Compound || t is List
}

/// A tag tree as it is held in memory.
#[derive(Debug, PartialEq, Eq)]
pub enum NbtTag {
    Byte(i8),
    Short(i16),
    Int(i32),
    Long(i64),
    Float(u32),
    Double(u64),
    ByteArray(Vec<u8>),
    String(Vec<u8>),
    List(u8, Vec<NbtTag>),
    Compound(Vec<(Vec<u8>, NbtTag)>),
    IntArray(Vec<i32>),
    LongArray(Vec<i64>),
}

pub open spec fn view_items(v: Seq<NbtTag>) -> Seq<Tag>
    decreases v,
{
    if v.len() == 0 {
        Seq::empty()
    } else {
        seq![v[0].view()] + view_items(v.subrange(1, v.len() as int))
    }
}

pub open spec fn view_entries(v: Seq<(Vec<u8>, NbtTag)>) -> Seq<(Seq<u8>, Tag)>
    decreases v,
{
    if v.len() == 0 {
        Seq::empty()
    } else {
        seq![(v[0].0@, v[0].1.view())] + view_entries(v.subrange(1, v.len() as int))
    }
}

impl NbtTag {
    pub open spec fn view(&self) -> Tag
        decreases self,
    {
        match self {
            NbtTag::Byte(v) => Tag::Byte(*v),
            NbtTag::Short(v) => Tag::Short(*v),
            NbtTag::Int(v) => Tag::Int(*v),
            NbtTag::Long(v) => Tag::Long(*v),
            NbtTag::Float(v) => Tag::Float(*v),
            NbtTag::Double(v) => Tag::Double(*v),
            NbtTag::ByteArray(v) => Tag::ByteArray(v@),
            NbtTag::String(v) => Tag::String(v@),
            NbtTag::List(e, v) => Tag::List(*e, view_items(v@)),
            NbtTag::Compound(v) => Tag::Compound(view_entries(v@)),
            NbtTag::IntArray(v) => Tag::IntArray(v@),
            NbtTag::LongArray(v) => Tag::LongArray(v@),
        }
    }

    pub fn is_compound(&self) -> (r: bool)
        ensures
            r == (self.view() is Compound),
    {
        match self {
            NbtTag::Compound(_) => true,
            _ => false,
        }
    }

    pub fn is_list(&self) -> (r: bool)
        ensures
            r == (self.view() is List),
    {
        match self {
            NbtTag::List(_, _) => true,
            _ => false,
        }
    }

    /// The type id that this tag carries in the binary form.
    pub fn id(&self) -> (r: u8)
        ensures
            r == tag_id(self.view()),
    {
        match self {
            NbtTag::Byte(_) => TAG_BYTE,
            NbtTag::Short(_) => TAG_SHORT,
            NbtTag::Int(_) => TAG_INT,
            NbtTag::Long(_) => TAG_LONG,
            NbtTag::Float(_) => TAG_FLOAT,
            NbtTag::Double(_) => TAG_DOUBLE,
            NbtTag::ByteArray(_) => TAG_BYTE_ARRAY,
            NbtTag::String(_) => TAG_STRING,
            NbtTag::List(_, _) => TAG_LIST,
            NbtTag::Compound(_) => TAG_COMPOUND,
            NbtTag::IntArray(_) => TAG_INT_ARRAY,
            NbtTag::LongArray(_) => TAG_LONG_ARRAY,
        }
    }
}

pub proof fn lemma_view_items(v: Seq<NbtTag>)
    ensures
        view_items(v).len() == v.len(),
        forall|i: int| 0 <= i < v.len() ==> #[trigger] view_items(v)[i] == v[i].view(),
    decreases v.len(),
{
    if v.len() > 0 {
        lemma_view_items(v.subrange(1, v.len() as int));
    }
}

pub proof fn lemma_view_entries(v: Seq<(Vec<u8>, NbtTag)>)
    ensures
        view_entries(v).len() == v.len(),
        forall|i: int|
            0 <= i < v.len() ==> #[trigger] view_entries(v)[i] == (v[i].0@, v[i].1.view()),
    decreases v.len(),
{
    if v.len() > 0 {
        lemma_view_entries(v.subrange(1, v.len() as int));
    }
}

} // verus!
