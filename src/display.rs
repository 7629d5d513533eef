//! The display tree of a decoded value: integers as numbers, byte strings as
//! text, lists as arrays and dictionaries as objects with text keys.
use vstd::prelude::*;
use vstd::utf8::{decode_utf8, valid_utf8};
use crate::bencode::{
    copy_range, decode_spec, encode_value, order_view, sorted_order, text_from_utf8, value_round_trip,
    well_formed, SValue, Value,
};

verus! {

/// Model of a display tree.
pub enum SDisplay {
    Number { negative: bool, digits: Seq<u8> },
    Text(Seq<char>),
    Array(Seq<SDisplay>),
    Object(Seq<(Seq<char>, SDisplay)>),
}

/// A value as it is shown: a number (sign and decimal digits), a text, an
/// array, or an object whose keys are texts in ascending byte order.
#[derive(Debug, PartialEq, Eq)]
pub enum DisplayValue {
    Number { negative: bool, digits: Vec<u8> },
    Text(String),
    Array(Vec<DisplayValue>),
    Object(Vec<(String, DisplayValue)>),
}

/// A byte string, or a dictionary key, that is not valid UTF-8 text.
#[derive(Debug, Clone, Copy, PartialEq, Eq)]
pub struct EncodingError;

impl DisplayValue {
    pub open spec fn view(&self) -> SDisplay
        decreases self,
    {
        match self {
            DisplayValue::Number { negative, digits } => SDisplay::Number { negative: *negative, digits: digits@ },
            DisplayValue::Text(s) => SDisplay::Text(s@),
            DisplayValue::Array(items) => SDisplay::Array(
                Seq::new(items@.len(), |i: int| if 0 <= i < items@.len() { items@[i].view() } else { SDisplay::Text(Seq::empty()) }),
            ),
            DisplayValue::Object(es) => SDisplay::Object(
                Seq::new(es@.len(), |i: int| if 0 <= i < es@.len() { (es@[i].0@, es@[i].1.view()) } else { (Seq::empty(), SDisplay::Text(Seq::empty())) }),
            ),
        }
    }
}

/// How a value is shown, or `None` where a byte string or a key is not text.
pub open spec fn display_of(v: SValue) -> Option<SDisplay>
    decreases v,
{
    match v {
        SValue::Int { negative, digits } => Some(SDisplay::Number { negative, digits }),
        SValue::Bytes(b) => if valid_utf8(b) {
            Some(SDisplay::Text(decode_utf8(b)))
        } else {
            None
        },
        SValue::List(items) => match display_items(items) {
            Some(d) => Some(SDisplay::Array(d)),
            None => None,
        },
        SValue::Dict(es) => match display_entries(es) {
            Some(d) => Some(SDisplay::Object(d)),
            None => None,
        },
    }
}

/// How the items of a list are shown, where every one of them can be.
pub open spec fn display_items(items: Seq<SValue>) -> Option<Seq<SDisplay>>
    decreases items,
{
    if items.len() == 0 {
        Some(Seq::empty())
    } else {
        match (display_items(items.drop_last()), display_of(items.last())) {
            (Some(front), Some(d)) => Some(front.push(d)),
            _ => None,
        }
    }
}

/// How the entries of a dictionary are shown, where every key is text and
/// every value can be shown.
pub open spec fn display_entries(es: Seq<(Seq<u8>, SValue)>) -> Option<Seq<(Seq<char>, SDisplay)>>
    decreases es,
{
    if es.len() == 0 {
        Some(Seq::empty())
    } else {
        match (display_entries(es.drop_last()), display_of(es.last().1)) {
            (Some(front), Some(d)) => if valid_utf8(es.last().0) {
                Some(front.push((decode_utf8(es.last().0), d)))
            } else {
                None
            },
            _ => None,
        }
    }
}

/// Once a prefix cannot be shown, no longer run can be.
proof fn lemma_items_none(items: Seq<SValue>, i: int)
    requires
        0 <= i <= items.len(),
        display_items(items.subrange(0, i)) is None,
    ensures
        display_items(items) is None,
    decreases items.len() - i,
{
    if i < items.len() {
        assert(items.subrange(0, i + 1).drop_last() =~= items.subrange(0, i));
        lemma_items_none(items, i + 1);
    } else {
        assert(items.subrange(0, i) =~= items);
    }
}

proof fn lemma_entries_none(es: Seq<(Seq<u8>, SValue)>, i: int)
    requires
        0 <= i <= es.len(),
        display_entries(es.subrange(0, i)) is None,
    ensures
        display_entries(es) is None,
    decreases es.len() - i,
{
    if i < es.len() {
        assert(es.subrange(0, i + 1).drop_last() =~= es.subrange(0, i));
        lemma_entries_none(es, i + 1);
    } else {
        assert(es.subrange(0, i) =~= es);
    }
}

fn text_of(b: &[u8]) -> (r: Result<String, EncodingError>)
    ensures
        valid_utf8(b@) ==> (r matches Ok(s) && s@ == decode_utf8(b@)),
        !valid_utf8(b@) ==> r is Err,
{
    let bytes = copy_range(b, 0, b.len());
    assert(bytes@ =~= b@);
    match text_from_utf8(bytes) {
        Some(s) => Ok(s),
        None => Err(EncodingError),
    }
}

impl Value {
    /// The display tree of this value; fails where a byte string or a
    /// dictionary key is not valid UTF-8.
    pub fn to_display(&self) -> (r: Result<DisplayValue, EncodingError>)
        ensures
            match display_of(self@) {
                Some(d) => r matches Ok(x) && x@ == d,
                None => r is Err,
            },
        decreases self@,
    {
        match self {
            Value::Integer(n) => {
                let d = n.digits();
                let digits = copy_range(d, 0, d.len());
                assert(digits@ =~= d@);
                Ok(DisplayValue::Number { negative: n.is_negative(), digits })
            },
            Value::Bytes(b) => match text_of(b.as_slice()) {
                Ok(s) => Ok(DisplayValue::Text(s)),
                Err(e) => Err(e),
            },
            Value::List(items) => {
                let ghost model = self@->List_0;
                let mut out: Vec<DisplayValue> = Vec::new();
                let mut i: usize = 0;
                assert(DisplayValue::Array(out)@->Array_0 =~= Seq::<SDisplay>::empty());
                while i < items.len()
                    invariant
                        0 <= i <= items@.len(),
                        self@ == SValue::List(model),
                        model.len() == items@.len(),
                        forall|j: int| 0 <= j < items@.len() ==> model[j] == #[trigger] items@[j]@,
                        display_items(model.subrange(0, i as int)) == Some(DisplayValue::Array(out)@->Array_0),
                    decreases items@.len() - i,
                {
                    proof {
                        assert(decreases_to!(self@ => self@->List_0));
                        assert(decreases_to!(model => model[i as int]));
                        assert(model.subrange(0, i + 1).drop_last() =~= model.subrange(0, i as int));
                    }
                    match items[i].to_display() {
                        Ok(d) => {
                            let ghost before = DisplayValue::Array(out)@->Array_0;
                            out.push(d);
                            assert(DisplayValue::Array(out)@->Array_0 =~= before.push(d@));
                        },
                        Err(e) => {
                            proof {
                                lemma_items_none(model, i + 1);
                            }
                            return Err(e);
                        },
                    }
                    i = i + 1;
                }
                assert(model.subrange(0, items@.len() as int) =~= model);
                Ok(DisplayValue::Array(out))
            },
            Value::Dict(entries) => {
                let ghost model = self@->Dict_0;
                let order = sorted_order(entries);
                assert(self.dict_entries() =~= crate::bencode::entries_view(entries@));
                let mut out: Vec<(String, DisplayValue)> = Vec::new();
                assert(DisplayValue::Object(out)@->Object_0 =~= Seq::<(Seq<char>, SDisplay)>::empty());
                let mut j: usize = 0;
                while j < order.len()
                    invariant
                        0 <= j <= order@.len(),
                        self@ == SValue::Dict(model),
                        model == order_view(entries@, order@),
                        forall|k: int| 0 <= k < order@.len() ==> #[trigger] order@[k] < entries@.len(),
                        display_entries(model.subrange(0, j as int)) == Some(DisplayValue::Object(out)@->Object_0),
                    decreases order@.len() - j,
                {
                    let idx = order[j];
                    proof {
                        assert(decreases_to!(self@ => self@->Dict_0));
                        assert(decreases_to!(model => model[j as int]));
                        assert(decreases_to!(model[j as int] => model[j as int].1));
                        assert(model.subrange(0, j + 1).drop_last() =~= model.subrange(0, j as int));
                    }
                    let key = match text_of(entries[idx].0.as_slice()) {
                        Ok(s) => s,
                        Err(e) => {
                            proof {
                                lemma_entries_none(model, j + 1);
                            }
                            return Err(e);
                        },
                    };
                    match entries[idx].1.to_display() {
                        Ok(d) => {
                            let ghost before = DisplayValue::Object(out)@->Object_0;
                            out.push((key, d));
                            assert(DisplayValue::Object(out)@->Object_0 =~= before.push((key@, d@)));
                        },
                        Err(e) => {
                            proof {
                                lemma_entries_none(model, j + 1);
                            }
                            return Err(e);
                        },
                    }
                    j = j + 1;
                }
                assert(model.subrange(0, order@.len() as int) =~= model);
                Ok(DisplayValue::Object(out))
            },
        }
    }
}

/// Decoding the wire form of a well-formed value (every library value is
/// one, as `Value::encode` shows) and showing the result shows the value
/// itself: integers as numbers, byte strings as text, lists in order and
/// dictionaries with exactly their keys, at every depth.
pub proof fn decode_then_display(v: SValue)
    requires
        well_formed(v),
    ensures
        decode_spec(encode_value(v)) == Some(v),
        display_of(decode_spec(encode_value(v))->Some_0) == display_of(v),
{
    value_round_trip(v);
}

} // verus!
