use vstd::prelude::*;

verus! {

/// A JSON document, as the flattener reads it.
///
/// Objects keep their fields in iteration order, arrays keep their elements
/// in index order. A number is carried as its canonical decimal text: the
/// flattener only ever renders a number, never computes with it, so the text
/// is all it needs.
pub enum JsonValue {
    Obj(Vec<(String, JsonValue)>),
    Arr(Vec<JsonValue>),
    Str(String),
    Num(String),
    Bool(bool),
    Null,
}

/// One flattened output record: the colon-joined path, the leaf rendered as
/// text, and the slot flag (always set by this version of the classifier).
pub struct FlatEntry {
    pub name: String,
    pub value: String,
    pub slot_setting: bool,
}

/// The mathematical shadow of a `FlatEntry`: both strings as character
/// sequences.
pub ghost struct EntryModel {
    pub name: Seq<char>,
    pub value: Seq<char>,
    pub slot_setting: bool,
}

impl View for FlatEntry {
    type V = EntryModel;

    open spec fn view(&self) -> EntryModel {
        EntryModel { name: self.name@, value: self.value@, slot_setting: self.slot_setting }
    }
}

/// The sequence of entry models behind a vector of entries.
pub open spec fn entries_view(s: Seq<FlatEntry>) -> Seq<EntryModel> {
    s.map_values(|e: FlatEntry| e@)
}

} // verus!
