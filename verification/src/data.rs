//! Typed data values, indices and records.

use vstd::prelude::*;
use crate::text::{
    dec_text, float_text_ok, int_text, int_to_text, is_float_text, nat_to_text, parse_i64,
    parse_u32, spec_parse_i64, spec_parse_u32, string_chars, text_to_string,
};

verus! {

/// The type of a column.
#[derive(Clone, Copy, Debug, PartialEq, Eq, Structural, Hash)]
pub enum FlexDataType {
    Str,
    Uint,
    Int,
    Dbl,
}

impl View for FlexDataType {
    type V = FlexDataType;

    open spec fn view(&self) -> FlexDataType {
        *self
    }
}

/// The index of a data point or record.
#[derive(Clone, Copy, Debug, PartialEq, Eq, Structural, Hash)]
pub enum FlexIndex {
    Uint(usize),
}

/// A typed value. A decimal number (`Dbl`) is held as the text it was read
/// from; `NA` stands for a value that its text does not give.
#[derive(Debug)]
pub enum FlexData {
    NA,
    Str(String),
    Uint(u32),
    Int(i64),
    Dbl(String),
}

/// What a `FlexData` holds.
pub enum DataView {
    NA,
    Str(Seq<char>),
    Uint(u32),
    Int(i64),
    Dbl(Seq<char>),
}

impl View for FlexData {
    type V = DataView;

    open spec fn view(&self) -> DataView {
        match self {
            FlexData::NA => DataView::NA,
            FlexData::Str(s) => DataView::Str(s@),
            FlexData::Uint(n) => DataView::Uint(*n),
            FlexData::Int(n) => DataView::Int(*n),
            FlexData::Dbl(s) => DataView::Dbl(s@),
        }
    }
}

/// The text of a value: a string as it is, a number in decimal, `NA` as the
/// empty text.
pub open spec fn data_text(d: DataView) -> Seq<char> {
    match d {
        DataView::NA => Seq::empty(),
        DataView::Str(s) => s,
        DataView::Uint(n) => dec_text(n as nat),
        DataView::Int(n) => int_text(n as int),
        DataView::Dbl(s) => s,
    }
}

/// The value that a token gives in a column of type `t`: the text itself for
/// strings; the number for `Int` and `Uint` when the token is one; the token
/// for `Dbl` when it is a decimal number; `NA` otherwise.
pub open spec fn data_from_token(token: Seq<char>, t: FlexDataType) -> DataView {
    match t {
        FlexDataType::Str => DataView::Str(token),
        FlexDataType::Int => match spec_parse_i64(token) {
            Some(v) => DataView::Int(v as i64),
            None => DataView::NA,
        },
        FlexDataType::Uint => match spec_parse_u32(token) {
            Some(v) => DataView::Uint(v as u32),
            None => DataView::NA,
        },
        FlexDataType::Dbl => if is_float_text(token) {
            DataView::Dbl(token)
        } else {
            DataView::NA
        },
    }
}

/// Whether a value already has type `t`.
pub open spec fn has_type(d: DataView, t: FlexDataType) -> bool {
    match d {
        DataView::NA => true,
        DataView::Str(_) => t == FlexDataType::Str,
        DataView::Uint(_) => t == FlexDataType::Uint,
        DataView::Int(_) => t == FlexDataType::Int,
        DataView::Dbl(_) => t == FlexDataType::Dbl,
    }
}

/// A value converted to type `t`: unchanged when it has that type, else read
/// again from its text.
pub open spec fn convert_data(d: DataView, t: FlexDataType) -> DataView {
    if has_type(d, t) {
        d
    } else {
        data_from_token(data_text(d), t)
    }
}

/// Builds the value of a token in a column of the given type.
pub fn generate_flexdata_from_str(token: &String, datatype: &FlexDataType) -> (r: FlexData)
    ensures
        r@ == data_from_token(token@, *datatype),
{
    match datatype {
        FlexDataType::Str => FlexData::Str(token.clone()),
        FlexDataType::Int => {
            let cs = string_chars(token);
            match parse_i64(&cs) {
                Some(v) => FlexData::Int(v),
                None => FlexData::NA,
            }
        },
        FlexDataType::Uint => {
            let cs = string_chars(token);
            match parse_u32(&cs) {
                Some(v) => FlexData::Uint(v),
                None => FlexData::NA,
            }
        },
        FlexDataType::Dbl => {
            let cs = string_chars(token);
            if float_text_ok(&cs) {
                FlexData::Dbl(token.clone())
            } else {
                FlexData::NA
            }
        },
    }
}

impl FlexData {
    /// A copy of the value.
    pub fn duplicate(&self) -> (r: FlexData)
        ensures
            r@ == self@,
    {
        match self {
            FlexData::NA => FlexData::NA,
            FlexData::Str(s) => FlexData::Str(s.clone()),
            FlexData::Uint(n) => FlexData::Uint(*n),
            FlexData::Int(n) => FlexData::Int(*n),
            FlexData::Dbl(s) => FlexData::Dbl(s.clone()),
        }
    }

    /// The text of the value (see `data_text`).
    pub fn to_text(&self) -> (r: Vec<char>)
        ensures
            r@ == data_text(self@),
    {
        match self {
            FlexData::NA => Vec::new(),
            FlexData::Str(s) => string_chars(s),
            FlexData::Uint(n) => nat_to_text(*n as u64),
            FlexData::Int(n) => int_to_text(*n),
            FlexData::Dbl(s) => string_chars(s),
        }
    }

    /// The value as a `u32`, when it is a `Uint`.
    pub fn as_u32(&self) -> (r: Option<u32>)
        ensures
            r == (match self@ {
                DataView::Uint(n) => Some(n),
                _ => None::<u32>,
            }),
    {
        match self {
            FlexData::Uint(n) => Some(*n),
            _ => None,
        }
    }

    /// The value as an `i64`, when it is an `Int`.
    pub fn as_i64(&self) -> (r: Option<i64>)
        ensures
            r == (match self@ {
                DataView::Int(n) => Some(n),
                _ => None::<i64>,
            }),
    {
        match self {
            FlexData::Int(n) => Some(*n),
            _ => None,
        }
    }

    /// The value as a string, when it is a `Str`.
    pub fn as_string(&self) -> (r: Option<String>)
        ensures
            r is Some <==> self@ is Str,
            r matches Some(s) ==> self@ == DataView::Str(s@),
    {
        match self {
            FlexData::Str(s) => Some(s.clone()),
            _ => None,
        }
    }

    /// The value converted to type `t` (see `convert_data`).
    pub fn as_type(&self, t: FlexDataType) -> (r: FlexData)
        ensures
            r@ == convert_data(self@, t),
    {
        let same = match self {
            FlexData::NA => true,
            FlexData::Str(_) => t == FlexDataType::Str,
            FlexData::Uint(_) => t == FlexDataType::Uint,
            FlexData::Int(_) => t == FlexDataType::Int,
            FlexData::Dbl(_) => t == FlexDataType::Dbl,
        };
        if same {
            self.duplicate()
        } else {
            let txt = self.to_text();
            let s = text_to_string(&txt);
            generate_flexdata_from_str(&s, &t)
        }
    }
}

/// The views of a list of values.
pub open spec fn data_views(v: Seq<FlexData>) -> Seq<DataView> {
    v.map_values(|d: FlexData| d@)
}

/// A copy of a list of values.
pub fn duplicate_data(v: &Vec<FlexData>) -> (r: Vec<FlexData>)
    ensures
        data_views(r@) == data_views(v@),
{
    let mut r: Vec<FlexData> = Vec::new();
    let mut i: usize = 0;
    while i < v.len()
        invariant
            i <= v@.len(),
            r@.len() == i,
            forall|k: int| 0 <= k < i ==> (#[trigger] r@[k])@ == v@[k]@,
        decreases v@.len() - i,
    {
        r.push(v[i].duplicate());
        i = i + 1;
    }
    assert(data_views(r@) =~= data_views(v@));
    r
}

/// A record: an index and one value per column.
#[derive(Debug)]
pub struct FlexDataVector {
    pub index: FlexIndex,
    pub data: Vec<FlexData>,
}

/// What a record holds.
pub struct RowView {
    pub index: usize,
    pub data: Seq<DataView>,
}

impl View for FlexDataVector {
    type V = RowView;

    open spec fn view(&self) -> RowView {
        RowView {
            index: match self.index {
                FlexIndex::Uint(i) => i,
            },
            data: data_views(self.data@),
        }
    }
}

impl FlexDataVector {
    pub fn new(index: FlexIndex, data: Vec<FlexData>) -> (r: FlexDataVector)
        ensures
            r@ == (RowView { index: match index {
                FlexIndex::Uint(i) => i,
            }, data: data_views(data@) }),
    {
        FlexDataVector { index, data }
    }

    pub fn get_data(&self) -> (r: &Vec<FlexData>)
        ensures
            data_views(r@) == self@.data,
    {
        &self.data
    }

    pub fn set_index(&mut self, index: FlexIndex)
        ensures
            final(self)@ == (RowView { index: match index {
                FlexIndex::Uint(i) => i,
            }, data: old(self)@.data }),
    {
        self.index = index;
    }

    /// A copy of the record.
    pub fn duplicate(&self) -> (r: FlexDataVector)
        ensures
            r@ == self@,
    {
        FlexDataVector { index: self.index, data: duplicate_data(&self.data) }
    }

    /// The record with each value converted to the type of its column; the
    /// values past the end of `types` are kept.
    pub fn as_types(&self, types: &Vec<FlexDataType>) -> (r: FlexDataVector)
        ensures
            r@.index == self@.index,
            r@.data.len() == self@.data.len(),
            forall|j: int|
                0 <= j < self@.data.len() ==> #[trigger] r@.data[j] == if j < types@.len() {
                    convert_data(self@.data[j], types@[j])
                } else {
                    self@.data[j]
                },
    {
        let mut out: Vec<FlexData> = Vec::new();
        let mut j: usize = 0;
        while j < self.data.len()
            invariant
                j <= self.data@.len(),
                out@.len() == j,
                forall|k: int|
                    0 <= k < j ==> (#[trigger] out@[k])@ == if k < types@.len() {
                        convert_data(self.data@[k]@, types@[k])
                    } else {
                        self.data@[k]@
                    },
            decreases self.data@.len() - j,
        {
            if j < types.len() {
                out.push(self.data[j].as_type(types[j]));
            } else {
                out.push(self.data[j].duplicate());
            }
            j = j + 1;
        }
        FlexDataVector { index: self.index, data: out }
    }
}

} // verus!
