use vstd::prelude::*;
use vstd::string::StringSliceAdditionalSpecFns;

use crate::utils::bytes_eq;

verus! {

broadcast use vstd::std_specs::vec::group_vec_axioms;

#[derive(Debug, Clone, PartialEq, PartialOrd, Hash)]
pub enum Either<L, R> {
    Left(L),
    Right(R),
}

/// The parsed PDF file.
#[derive(Debug)]
pub struct PDF<'a> {
    pub header: Header,
    pub body: Vec<Object<'a>>,
    pub cross_reference_tables: Vec<CrossReferenceTable>,
    pub trailer: Trailer<'a>,
}

/// The PDF header.
#[derive(Debug, PartialEq, Eq, PartialOrd, Ord, Hash, Clone, Copy)]
pub struct Header {
    /// The major version, usually 1.
    pub major: u32,
    /// The minor version, usually from 0 to 7.
    pub minor: u32,
}

/// One subsection of a cross-reference table.
#[derive(Debug, PartialEq, Eq, PartialOrd, Ord, Hash, Clone)]
pub struct CrossReferenceTable {
    /// The first object number of the subsection.
    pub id: u32,
    /// The declared number of entries.
    pub count: u32,
    pub entries: Vec<CrossReferenceEntry>,
}

/// Represents a cross reference entry.
#[derive(Debug, PartialEq, Eq, PartialOrd, Ord, Hash, Clone, Copy)]
pub struct CrossReferenceEntry {
    /// 10-digit byte offset in the decoded stream.
    pub offset: u32,
    /// 5-digit generation number.
    pub generation: u32,
    /// Whether the entry is free.
    pub free: bool,
}

/// The PDF trailer.
#[derive(Debug, Hash)]
pub struct Trailer<'a> {
    pub dictionary: Object<'a>,
    pub startxref: u32,
}

/// An indirect object reference.
/// Represented in PDFs like "12 0 R"
#[derive(Debug, PartialEq, Eq, PartialOrd, Ord, Hash, Clone, Copy)]
pub struct IndirectReference {
    pub id: u32,
    pub generation: u32,
}

/// A name object.
#[derive(Debug, PartialEq, Eq, PartialOrd, Ord, Hash, Clone, Copy)]
pub struct NameObject<'a>(pub &'a str);

/// A PDF dictionary: its entries in the order their keys first appeared,
/// each key at most once (a repeated key keeps the value written last).
pub type DictionaryObject<'a> = Vec<(NameObject<'a>, Object<'a>)>;

pub type HexString<'a> = &'a str;

/// A PDF object. Text payloads borrow from the parsed input; a real number
/// keeps its literal text, so that no precision is decided here.
#[derive(Debug, Hash)]
pub enum Object<'a> {
    Boolean(bool),
    Integer(i32),
    Real(&'a str),
    LiteralString(&'a str),
    HexadecimalString(HexString<'a>),
    Name(NameObject<'a>),
    Array(Vec<Object<'a>>),
    /// A dictionary with the raw payload of the stream that follows it
    /// (empty when there is none).
    Dictionary(DictionaryObject<'a>, &'a str),
    Null,
    Comment(&'a str),
    IndirectReference { id: u32, generation: u32 },
    /// An indirect object definition.
    IndirectObject { id: u32, generation: u32, dictionary: Box<Object<'a>> },
}

/// The mathematical value of an object: text payloads as the bytes they were
/// read from, numbers as integers.
pub enum ObjectView {
    Boolean(bool),
    Integer(int),
    Real(Seq<u8>),
    LiteralString(Seq<u8>),
    HexadecimalString(Seq<u8>),
    Name(Seq<u8>),
    Array(Seq<ObjectView>),
    Dictionary(Seq<(Seq<u8>, ObjectView)>, Seq<u8>),
    Null,
    Comment(Seq<u8>),
    IndirectReference { id: nat, generation: nat },
    IndirectObject { id: nat, generation: nat, dictionary: Box<ObjectView> },
}

/// The bytes of a name.
pub open spec fn name_view(n: NameObject) -> Seq<u8> {
    n.0.spec_bytes()
}

pub open spec fn object_view(o: Object) -> ObjectView
    decreases o,
{
    match o {
        Object::Boolean(b) => ObjectView::Boolean(b),
        Object::Integer(i) => ObjectView::Integer(i as int),
        Object::Real(t) => ObjectView::Real(t.spec_bytes()),
        Object::LiteralString(t) => ObjectView::LiteralString(t.spec_bytes()),
        Object::HexadecimalString(t) => ObjectView::HexadecimalString(t.spec_bytes()),
        Object::Name(n) => ObjectView::Name(name_view(n)),
        Object::Array(v) => ObjectView::Array(objects_view(v@)),
        Object::Dictionary(d, s) => ObjectView::Dictionary(entries_view(d@), s.spec_bytes()),
        Object::Null => ObjectView::Null,
        Object::Comment(t) => ObjectView::Comment(t.spec_bytes()),
        Object::IndirectReference { id, generation } => ObjectView::IndirectReference {
            id: id as nat,
            generation: generation as nat,
        },
        Object::IndirectObject { id, generation, dictionary } => ObjectView::IndirectObject {
            id: id as nat,
            generation: generation as nat,
            dictionary: Box::new(object_view(*dictionary)),
        },
    }
}

pub open spec fn objects_view(s: Seq<Object>) -> Seq<ObjectView>
    decreases s,
{
    if s.len() == 0 {
        Seq::empty()
    } else {
        objects_view(s.drop_last()).push(object_view(s.last()))
    }
}

pub open spec fn entries_view(s: Seq<(NameObject, Object)>) -> Seq<(Seq<u8>, ObjectView)>
    decreases s,
{
    if s.len() == 0 {
        Seq::empty()
    } else {
        entries_view(s.drop_last()).push((name_view(s.last().0), object_view(s.last().1)))
    }
}

impl<'a> View for Object<'a> {
    type V = ObjectView;

    open spec fn view(&self) -> ObjectView {
        object_view(*self)
    }
}

impl View for Header {
    type V = Header;

    open spec fn view(&self) -> Header {
        *self
    }
}

impl View for CrossReferenceEntry {
    type V = CrossReferenceEntry;

    open spec fn view(&self) -> CrossReferenceEntry {
        *self
    }
}

/// The mathematical value of a cross-reference table.
pub struct CrossReferenceTableView {
    pub id: u32,
    pub count: u32,
    pub entries: Seq<CrossReferenceEntry>,
}

impl View for CrossReferenceTable {
    type V = CrossReferenceTableView;

    open spec fn view(&self) -> CrossReferenceTableView {
        CrossReferenceTableView { id: self.id, count: self.count, entries: self.entries@ }
    }
}

/// The mathematical value of a trailer.
pub struct TrailerView {
    pub dictionary: ObjectView,
    pub startxref: u32,
}

impl<'a> View for Trailer<'a> {
    type V = TrailerView;

    open spec fn view(&self) -> TrailerView {
        TrailerView { dictionary: self.dictionary@, startxref: self.startxref }
    }
}

/// The mathematical value of a whole document.
pub struct PDFView {
    pub header: Header,
    pub body: Seq<ObjectView>,
    pub cross_reference_tables: Seq<CrossReferenceTableView>,
    pub trailer: TrailerView,
}

impl<'a> View for PDF<'a> {
    type V = PDFView;

    open spec fn view(&self) -> PDFView {
        PDFView {
            header: self.header,
            body: objects_view(self.body@),
            cross_reference_tables: self.cross_reference_tables@.map_values(
                |t: CrossReferenceTable| t@,
            ),
            trailer: self.trailer@,
        }
    }
}

/// The view of a sequence of objects is taken element by element.
pub proof fn lemma_objects_view(s: Seq<Object>)
    ensures
        objects_view(s).len() == s.len(),
        forall|i: int| 0 <= i < s.len() ==> #[trigger] objects_view(s)[i] == object_view(s[i]),
    decreases s.len(),
{
    if s.len() > 0 {
        lemma_objects_view(s.drop_last());
    }
}

/// The view of a dictionary's entries is taken entry by entry.
pub proof fn lemma_entries_view(s: Seq<(NameObject, Object)>)
    ensures
        entries_view(s).len() == s.len(),
        forall|i: int|
            0 <= i < s.len() ==> #[trigger] entries_view(s)[i] == (
                name_view(s[i].0),
                object_view(s[i].1),
            ),
    decreases s.len(),
{
    if s.len() > 0 {
        lemma_entries_view(s.drop_last());
    }
}

/// No key occurs twice among the entries.
pub open spec fn keys_unique(d: Seq<(Seq<u8>, ObjectView)>) -> bool {
    forall|i: int, j: int| 0 <= i < j < d.len() ==> #[trigger] d[i].0 != #[trigger] d[j].0
}

/// Some entry has key `k`.
pub open spec fn has_key(d: Seq<(Seq<u8>, ObjectView)>, k: Seq<u8>) -> bool {
    exists|i: int| 0 <= i < d.len() && #[trigger] d[i].0 == k
}

/// Sets key `k` to `v`: the value of an entry with that key is replaced in
/// place (the last write wins), else the entry is added at the end.
pub open spec fn dict_insert(d: Seq<(Seq<u8>, ObjectView)>, k: Seq<u8>, v: ObjectView) -> Seq<
    (Seq<u8>, ObjectView),
> {
    if has_key(d, k) {
        let i = choose|i: int| 0 <= i < d.len() && #[trigger] d[i].0 == k;
        d.update(i, (k, v))
    } else {
        d.push((k, v))
    }
}

/// Inserting keeps the keys unique.
pub proof fn lemma_dict_insert_unique(d: Seq<(Seq<u8>, ObjectView)>, k: Seq<u8>, v: ObjectView)
    requires
        keys_unique(d),
    ensures
        keys_unique(dict_insert(d, k, v)),
{
    let r = dict_insert(d, k, v);
    if has_key(d, k) {
        let i = choose|i: int| 0 <= i < d.len() && #[trigger] d[i].0 == k;
        assert forall|a: int, b: int| 0 <= a < b < r.len() implies #[trigger] r[a].0 != #[trigger] r[b].0 by {
            assert(d[a].0 != d[b].0);
        }
    } else {
        assert forall|a: int, b: int| 0 <= a < b < r.len() implies #[trigger] r[a].0 != #[trigger] r[b].0 by {
            if b < d.len() {
                assert(d[a].0 != d[b].0);
            } else {
                assert(d[a].0 != k);
            }
        }
    }
}

/// Sets the entry for `key` to `value`, in place when the key is present.
pub fn insert_entry<'a>(entries: &mut DictionaryObject<'a>, key: NameObject<'a>, value: Object<'a>)
    requires
        keys_unique(entries_view(old(entries)@)),
    ensures
        entries_view(final(entries)@) == dict_insert(
            entries_view(old(entries)@),
            name_view(key),
            object_view(value),
        ),
        keys_unique(entries_view(final(entries)@)),
{
    let ghost d = entries_view(entries@);
    let ghost k = name_view(key);
    let ghost v = object_view(value);
    proof {
        lemma_entries_view(entries@);
        lemma_dict_insert_unique(d, k, v);
    }
    let mut i: usize = 0;
    while i < entries.len()
        invariant
            d == entries_view(entries@),
            d == entries_view(old(entries)@),
            d.len() == entries@.len(),
            keys_unique(d),
            k == name_view(key),
            v == object_view(value),
            i <= entries@.len(),
            forall|j: int| 0 <= j < i ==> #[trigger] d[j].0 != k,
            forall|j: int|
                0 <= j < entries@.len() ==> #[trigger] d[j] == (
                    name_view(entries@[j].0),
                    object_view(entries@[j].1),
                ),
        decreases entries@.len() - i,
    {
        if bytes_eq(entries[i].0.0.as_bytes(), key.0.as_bytes()) {
            proof {
                assert(d[i as int].0 == k);
                assert(has_key(d, k));
                let c = choose|c: int| 0 <= c < d.len() && #[trigger] d[c].0 == k;
                assert(keys_unique(d));
                assert(c == i) by {
                    if c < i {
                        assert(d[c].0 != k);
                    } else if c > i {
                        assert(d[i as int].0 != d[c].0);
                    }
                }
                assert(dict_insert(d, k, v) == d.update(i as int, (k, v)));
            }
            let ghost before = entries@;
            entries[i] = (key, value);
            proof {
                assert(entries@ == before.update(i as int, (key, value)));
                lemma_entries_view(entries@);
                assert(entries_view(entries@) =~= d.update(i as int, (k, v)));
            }
            return;
        }
        i += 1;
    }
    proof {
        assert(!has_key(d, k));
    }
    entries.push((key, value));
    proof {
        lemma_entries_view(entries@);
        assert(entries_view(entries@) =~= d.push((k, v)));
    }
}

} // verus!
