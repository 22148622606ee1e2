//! The TOML boundary: a parsed file as the plain values that settings are read from.
//!
//! The `toml` crate parses the text and keeps its own values. They are taken
//! over level by level, only as deep as a configuration goes.
use toml::de::{DeArray, DeTable, DeValue};
use vstd::prelude::*;

verus! {

/// The table type of the `toml` crate.
#[verifier::external_type_specification]
#[verifier::external_body]
#[verifier::reject_recursive_types(K)]
#[verifier::reject_recursive_types(V)]
pub struct ExMap<K, V>(toml::map::Map<K, V>);

/// A value of the `toml` crate with its place in the text.
#[verifier::external_type_specification]
#[verifier::external_body]
#[verifier::reject_recursive_types(T)]
pub struct ExSpanned<T>(toml::Spanned<T>);

/// A value of the `toml` crate.
#[verifier::external_type_specification]
#[verifier::external_body]
pub struct ExDeValue<'i>(toml::de::DeValue<'i>);

/// An array of the `toml` crate.
#[verifier::external_type_specification]
#[verifier::external_body]
pub struct ExDeArray<'i>(toml::de::DeArray<'i>);

/// A syntax error of the `toml` crate.
#[verifier::external_type_specification]
#[verifier::external_body]
pub struct ExError(toml::de::Error);

/// A key and where it stands in the text.
pub struct KeyView {
    pub name: Seq<char>,
    pub start: usize,
    pub end: usize,
}

/// A key and where it stands in the text.
#[derive(Debug)]
pub struct Key {
    pub name: String,
    pub start: usize,
    pub end: usize,
}

impl View for Key {
    type V = KeyView;

    open spec fn view(&self) -> KeyView {
        KeyView { name: self.name@, start: self.start, end: self.end }
    }
}

impl Clone for Key {
    fn clone(&self) -> (r: Self)
        ensures
            r@ == self@,
    {
        Key { name: self.name.clone(), start: self.start, end: self.end }
    }
}

/// What a value of the `toml` crate is, as far as a configuration needs it.
pub enum KindView {
    Text(Seq<char>),
    List(DeArray<'static>),
    Table(DeTable<'static>),
    Other,
}

enum Kind<'a, 'i> {
    Text(&'a str),
    List(&'a DeArray<'i>),
    Table(&'a DeTable<'i>),
    Other,
}

/// The table that the `toml` crate reads a text as, or its error about a text that
/// is no TOML document.
pub uninterp spec fn toml_root(text: Seq<char>) -> Result<DeTable<'static>, toml::de::Error>;

/// The keys and values of a table, in its own order.
pub uninterp spec fn table_entries(table: DeTable<'_>) -> Seq<(KeyView, DeValue<'static>)>;

/// The values of an array, in order.
pub uninterp spec fn array_items(array: DeArray<'_>) -> Seq<DeValue<'static>>;

/// Which kind of value a value is, and what it holds.
pub uninterp spec fn value_kind(value: DeValue<'_>) -> KindView;

/// `DeTable::parse` reads a text as a TOML document or gives a syntax error. Both
/// depend on the text alone; what it accepts, what it reads and what it complains of
/// is only named here.
#[verifier::external_body]
fn parse_table<'i>(text: &'i str) -> (r: Result<DeTable<'i>, toml::de::Error>)
    ensures
        match r {
            Ok(table) => toml_root(text@) == Ok::<DeTable<'i>, toml::de::Error>(table),
            Err(error) => toml_root(text@) == Err::<DeTable<'i>, toml::de::Error>(error),
        },
{
    DeTable::parse(text).map(|table| table.into_inner())
}

/// `Map::iter` visits the entries of a table in the table's own order. Each key
/// is handed out with its text and its place, each value as it is.
#[verifier::external_body]
fn entries<'a, 'i>(table: &'a DeTable<'i>) -> (r: Vec<(Key, &'a DeValue<'i>)>)
    ensures
        table_entries(*table) == r@.map_values(|entry: (Key, &DeValue<'i>)| (entry.0@, *entry.1)),
{
    table.iter().map(|(key, value)| (
        Key {
            name: key.get_ref().to_string(),
            start: key.span().start,
            end: key.span().end,
        },
        value.get_ref(),
    )).collect()
}

/// `DeArray` is a slice of its values, in order.
#[verifier::external_body]
fn items<'a, 'i>(array: &'a DeArray<'i>) -> (r: Vec<&'a DeValue<'i>>)
    ensures
        array_items(*array) == r@.map_values(|item: &DeValue<'i>| *item),
{
    array.iter().map(|item| item.get_ref()).collect()
}

/// `DeValue` is a string, an array, a table or another scalar. A string is told by
/// its text, an array and a table by themselves; the other scalars are not looked
/// into.
#[verifier::external_body]
fn kind<'a, 'i>(value: &'a DeValue<'i>) -> (r: Kind<'a, 'i>)
    ensures
        match (value_kind(*value), r) {
            (KindView::Text(text), Kind::Text(held)) => held@ == text,
            (KindView::List(array), Kind::List(held)) => *held == array,
            (KindView::Table(table), Kind::Table(held)) => *held == table,
            (KindView::Other, Kind::Other) => true,
            _ => false,
        },
{
    match value {
        DeValue::String(text) => Kind::Text(text.as_ref()),
        DeValue::Array(array) => Kind::List(array),
        DeValue::Table(table) => Kind::Table(table),
        DeValue::Integer(_) => Kind::Other,
        DeValue::Float(_) => Kind::Other,
        DeValue::Boolean(_) => Kind::Other,
        DeValue::Datetime(_) => Kind::Other,
    }
}

/// An element of a list of settings.
pub enum LeafView {
    Text(Seq<char>),
    Other,
}

/// A value inside a table of settings.
pub enum FieldView {
    Text(Seq<char>),
    List(Seq<LeafView>),
    Other,
}

/// A value at the top of a file; of an array, only its tables are kept.
pub enum BlockView {
    Text(Seq<char>),
    Table(Seq<(KeyView, FieldView)>),
    Sections(Seq<Option<Seq<(KeyView, FieldView)>>>),
    Other,
}

/// An element of a list of settings.
#[derive(Debug)]
pub enum Leaf {
    Text(String),
    Other,
}

impl View for Leaf {
    type V = LeafView;

    open spec fn view(&self) -> LeafView {
        match self {
            Leaf::Text(text) => LeafView::Text(text@),
            Leaf::Other => LeafView::Other,
        }
    }
}

/// A value inside a table of settings.
#[derive(Debug)]
pub enum Field {
    Text(String),
    List(Vec<Leaf>),
    Other,
}

impl View for Field {
    type V = FieldView;

    open spec fn view(&self) -> FieldView {
        match self {
            Field::Text(text) => FieldView::Text(text@),
            Field::List(leaves) => FieldView::List(leaves@.map_values(|leaf: Leaf| leaf@)),
            Field::Other => FieldView::Other,
        }
    }
}

/// A table of settings, in the order of its entries.
#[derive(Debug)]
pub struct Section {
    pub entries: Vec<(Key, Field)>,
}

impl View for Section {
    type V = Seq<(KeyView, FieldView)>;

    open spec fn view(&self) -> Seq<(KeyView, FieldView)> {
        self.entries@.map_values(|entry: (Key, Field)| (entry.0@, entry.1@))
    }
}

/// A value at the top of a file; of an array, only its tables are kept.
#[derive(Debug)]
pub enum Block {
    Text(String),
    Table(Section),
    Sections(Vec<Option<Section>>),
    Other,
}

/// The table that an element of an array may be.
pub open spec fn section_view(section: Option<Section>) -> Option<Seq<(KeyView, FieldView)>> {
    match section {
        Some(section) => Some(section@),
        None => None,
    }
}

impl View for Block {
    type V = BlockView;

    open spec fn view(&self) -> BlockView {
        match self {
            Block::Text(text) => BlockView::Text(text@),
            Block::Table(section) => BlockView::Table(section@),
            Block::Sections(sections) => BlockView::Sections(
                sections@.map_values(|section: Option<Section>| section_view(section)),
            ),
            Block::Other => BlockView::Other,
        }
    }
}

/// A file of settings, in the order of its entries.
#[derive(Debug)]
pub struct Document {
    pub entries: Vec<(Key, Block)>,
}

impl View for Document {
    type V = Seq<(KeyView, BlockView)>;

    open spec fn view(&self) -> Seq<(KeyView, BlockView)> {
        self.entries@.map_values(|entry: (Key, Block)| (entry.0@, entry.1@))
    }
}

pub open spec fn leaf_of(value: DeValue<'_>) -> LeafView {
    match value_kind(value) {
        KindView::Text(text) => LeafView::Text(text),
        _ => LeafView::Other,
    }
}

pub open spec fn field_of(value: DeValue<'_>) -> FieldView {
    match value_kind(value) {
        KindView::Text(text) => FieldView::Text(text),
        KindView::List(array) => FieldView::List(
            array_items(array).map_values(|item: DeValue<'static>| leaf_of(item)),
        ),
        _ => FieldView::Other,
    }
}

pub open spec fn section_of(table: DeTable<'_>) -> Seq<(KeyView, FieldView)> {
    table_entries(table).map_values(
        |entry: (KeyView, DeValue<'static>)| (entry.0, field_of(entry.1)),
    )
}

pub open spec fn element_of(value: DeValue<'_>) -> Option<Seq<(KeyView, FieldView)>> {
    match value_kind(value) {
        KindView::Table(table) => Some(section_of(table)),
        _ => None,
    }
}

pub open spec fn block_of(value: DeValue<'_>) -> BlockView {
    match value_kind(value) {
        KindView::Text(text) => BlockView::Text(text),
        KindView::Table(table) => BlockView::Table(section_of(table)),
        KindView::List(array) => BlockView::Sections(
            array_items(array).map_values(|item: DeValue<'static>| element_of(item)),
        ),
        KindView::Other => BlockView::Other,
    }
}

/// The settings in a table that the `toml` crate read.
pub open spec fn document_of(table: DeTable<'_>) -> Seq<(KeyView, BlockView)> {
    table_entries(table).map_values(
        |entry: (KeyView, DeValue<'static>)| (entry.0, block_of(entry.1)),
    )
}

fn read_leaf(value: &DeValue<'_>) -> (r: Leaf)
    ensures
        r@ == leaf_of(*value),
{
    match kind(value) {
        Kind::Text(text) => Leaf::Text(String::from_str(text)),
        _ => Leaf::Other,
    }
}

fn read_field(value: &DeValue<'_>) -> (r: Field)
    ensures
        r@ == field_of(*value),
{
    match kind(value) {
        Kind::Text(text) => Field::Text(String::from_str(text)),
        Kind::List(array) => {
            let held = items(array);
            let ghost source = array_items(*array);
            let mut leaves: Vec<Leaf> = Vec::new();
            let mut i: usize = 0;
            while i < held.len()
                invariant
                    i <= held@.len() == source.len(),
                    forall|k: int| 0 <= k < held@.len() ==> *held@[k] == source[k],
                    leaves@.len() == i,
                    forall|k: int| 0 <= k < i ==> (#[trigger] leaves@[k])@ == leaf_of(source[k]),
                decreases held@.len() - i,
            {
                assert(*held@[i as int] == source[i as int]);
                leaves.push(read_leaf(held[i]));
                i += 1;
            }
            assert(leaves@.map_values(|leaf: Leaf| leaf@) =~= source.map_values(
                |item: DeValue<'static>| leaf_of(item),
            ));
            Field::List(leaves)
        },
        _ => Field::Other,
    }
}

fn read_section(table: &DeTable<'_>) -> (r: Section)
    ensures
        r@ == section_of(*table),
{
    let held = entries(table);
    let ghost source = table_entries(*table);
    let mut out: Vec<(Key, Field)> = Vec::new();
    let mut i: usize = 0;
    while i < held.len()
        invariant
            i <= held@.len() == source.len(),
            forall|k: int|
                0 <= k < held@.len() ==> (#[trigger] held@[k]).0@ == source[k].0 && *held@[k].1
                    == source[k].1,
            out@.len() == i,
            forall|k: int|
                0 <= k < i ==> (#[trigger] out@[k]).0@ == source[k].0 && out@[k].1@ == field_of(
                    source[k].1,
                ),
        decreases held@.len() - i,
    {
        let key = held[i].0.clone();
        out.push((key, read_field(held[i].1)));
        i += 1;
    }
    let section = Section { entries: out };
    assert(section@ =~= section_of(*table));
    section
}

fn read_element(value: &DeValue<'_>) -> (r: Option<Section>)
    ensures
        section_view(r) == element_of(*value),
{
    match kind(value) {
        Kind::Table(table) => Some(read_section(table)),
        _ => None,
    }
}

fn read_block(value: &DeValue<'_>) -> (r: Block)
    ensures
        r@ == block_of(*value),
{
    match kind(value) {
        Kind::Text(text) => Block::Text(String::from_str(text)),
        Kind::Table(table) => Block::Table(read_section(table)),
        Kind::List(array) => {
            let held = items(array);
            let ghost source = array_items(*array);
            let mut sections: Vec<Option<Section>> = Vec::new();
            let mut i: usize = 0;
            while i < held.len()
                invariant
                    i <= held@.len() == source.len(),
                    forall|k: int| 0 <= k < held@.len() ==> *held@[k] == source[k],
                    sections@.len() == i,
                    forall|k: int|
                        0 <= k < i ==> section_view(#[trigger] sections@[k]) == element_of(
                            source[k],
                        ),
                decreases held@.len() - i,
            {
                assert(*held@[i as int] == source[i as int]);
                sections.push(read_element(held[i]));
                i += 1;
            }
            assert(sections@.map_values(|section: Option<Section>| section_view(section))
                =~= source.map_values(|item: DeValue<'static>| element_of(item)));
            Block::Sections(sections)
        },
        Kind::Other => Block::Other,
    }
}

/// Reads a text as a TOML document and takes over its settings.
pub fn read_document(text: &str) -> (r: Result<Document, toml::de::Error>)
    ensures
        match toml_root(text@) {
            Ok(table) => r is Ok && r->Ok_0@ == document_of(table),
            Err(error) => r == Err::<Document, toml::de::Error>(error),
        },
{
    let table = match parse_table(text) {
        Ok(table) => table,
        Err(error) => {
            return Err(error);
        },
    };
    let held = entries(&table);
    let ghost source = table_entries(table);
    let mut out: Vec<(Key, Block)> = Vec::new();
    let mut i: usize = 0;
    while i < held.len()
        invariant
            i <= held@.len() == source.len(),
            forall|k: int|
                0 <= k < held@.len() ==> (#[trigger] held@[k]).0@ == source[k].0 && *held@[k].1
                    == source[k].1,
            out@.len() == i,
            forall|k: int|
                0 <= k < i ==> (#[trigger] out@[k]).0@ == source[k].0 && out@[k].1@ == block_of(
                    source[k].1,
                ),
        decreases held@.len() - i,
    {
        let key = held[i].0.clone();
        out.push((key, read_block(held[i].1)));
        i += 1;
    }
    let document = Document { entries: out };
    assert(document@ =~= document_of(table));
    Ok(document)
}

/// What a value of a table is taken over as: a text as it is, a list of texts as them, and
/// anything else as something else.
pub proof fn settings_are_taken_over(table: DeTable<'static>, i: int)
    requires
        0 <= i < table_entries(table).len(),
    ensures
        ({
            let (key, value) = table_entries(table)[i];
            let block = document_of(table)[i];
            let field = section_of(table)[i];
            &&& document_of(table).len() == table_entries(table).len()
            &&& section_of(table).len() == table_entries(table).len()
            &&& block.0 == key && field.0 == key
            &&& match value_kind(value) {
                KindView::Text(text) => block.1 == BlockView::Text(text) && field.1
                    == FieldView::Text(text),
                KindView::Other => block.1 is Other && field.1 is Other,
                KindView::Table(inner) => block.1 == BlockView::Table(section_of(inner)) && field.1
                    is Other,
                KindView::List(array) => {
                    &&& block.1 matches BlockView::Sections(elements) && elements.len()
                        == array_items(array).len() && forall|k: int|
                        0 <= k < elements.len() ==> (match value_kind(array_items(array)[k]) {
                            KindView::Table(inner) => #[trigger] elements[k] == Some(
                                section_of(inner),
                            ),
                            _ => elements[k] is None,
                        })
                    &&& field.1 matches FieldView::List(leaves) && leaves.len() == array_items(
                        array,
                    ).len() && forall|k: int|
                        0 <= k < leaves.len() ==> (match value_kind(array_items(array)[k]) {
                            KindView::Text(text) => #[trigger] leaves[k] == LeafView::Text(text),
                            _ => leaves[k] is Other,
                        })
                },
            }
        }),
{
}

} // verus!
