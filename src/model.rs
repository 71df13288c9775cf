//! The document model: typed variables, entries forming a tree, and the
//! whole document; together with their mathematical views.
use vstd::prelude::*;

verus! {

/// The 2-bit type tag of a parameter.
#[derive(Debug, Clone, Copy, PartialEq, Eq, Structural)]
pub enum VarType {
    String,
    Int,
    Float,
    Unknown,
}

/// The value of a parameter. A float is held as its IEEE-754 bit pattern,
/// so that it is carried through unchanged.
#[derive(Debug, Clone)]
pub enum VarValue {
    String(Option<String>),
    Int(i32),
    Float(u32),
    Unknown(i32),
}

#[derive(Debug, Clone)]
pub struct Variable {
    pub var_type: VarType,
    pub value: VarValue,
}

/// One record with the records nested in it.
#[derive(Debug)]
pub struct Entry {
    pub name: String,
    pub variables: Vec<Variable>,
    pub children: Vec<Entry>,
    pub end_terminator: bool,
}

#[derive(Debug, Clone, Copy, PartialEq, Eq, Structural)]
pub enum CfgBinEncoding {
    Utf8,
    ShiftJis,
}

/// A whole document.
#[derive(Debug)]
pub struct CfgBin {
    pub encoding: CfgBinEncoding,
    /// The raw footer encoding word; non-zero values select UTF-8 and are
    /// written back as they were.
    pub footer_encoding: u16,
    pub entries: Vec<Entry>,
}

/// One text field, numbered in document order.
#[derive(Debug, Clone)]
pub struct TextEntry {
    pub index: usize,
    pub entry: String,
    pub variable_index: usize,
    pub value: String,
}

/// Why a document or an input could not be used.
#[derive(Debug, Clone, PartialEq, Eq)]
pub enum CfgBinError {
    /// A header, table offset or record runs outside the buffer.
    MalformedHeader,
    /// A record names a CRC that the key table does not hold.
    UnknownKey(u32),
    /// A line-oriented update has the wrong number of lines.
    LineCountMismatch { expected: usize, actual: usize, timestamp_header: bool },
    /// An in-place text does not fit the bytes of the text it replaces.
    LengthExceeded { address: usize, available: usize, needed: usize },
    /// An in-place text names an address outside the string table.
    AddressOutOfRange(usize),
}

pub ghost enum ValueView {
    Str(Option<Seq<char>>),
    Int(i32),
    Float(u32),
    Unknown(i32),
}

pub ghost struct VariableView {
    pub var_type: VarType,
    pub value: ValueView,
}

pub ghost struct EntryView {
    pub name: Seq<char>,
    pub variables: Seq<VariableView>,
    pub children: Seq<EntryView>,
    pub end_terminator: bool,
}

pub open spec fn value_view(v: VarValue) -> ValueView {
    match v {
        VarValue::String(None) => ValueView::Str(None),
        VarValue::String(Some(s)) => ValueView::Str(Some(s@)),
        VarValue::Int(i) => ValueView::Int(i),
        VarValue::Float(f) => ValueView::Float(f),
        VarValue::Unknown(u) => ValueView::Unknown(u),
    }
}

impl View for Variable {
    type V = VariableView;

    open spec fn view(&self) -> VariableView {
        VariableView { var_type: self.var_type, value: value_view(self.value) }
    }
}

pub open spec fn vars_view(vs: Seq<Variable>) -> Seq<VariableView> {
    vs.map_values(|v: Variable| v@)
}

pub open spec fn entry_view(e: Entry) -> EntryView
    decreases e,
{
    EntryView {
        name: e.name@,
        variables: vars_view(e.variables@),
        children: Seq::new(
            e.children@.len(),
            |i: int|
                if 0 <= i < e.children@.len() {
                    entry_view(e.children@[i])
                } else {
                    arbitrary()
                },
        ),
        end_terminator: e.end_terminator,
    }
}

pub open spec fn entries_view(es: Seq<Entry>) -> Seq<EntryView> {
    es.map_values(|e: Entry| entry_view(e))
}

impl View for Entry {
    type V = EntryView;

    open spec fn view(&self) -> EntryView {
        entry_view(*self)
    }
}

} // verus!
