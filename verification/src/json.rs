//! JSON values: an owned tree, its mathematical model, and the readers and
//! builders that the translation layers use.

use crate::text::str_eq;
use vstd::prelude::*;

verus! {

/// A JSON value.
///
/// An object is a list of entries; where a key occurs more than once, the last
/// entry with it counts. Integers are kept apart from other numbers, which are
/// carried by their decimal text.
#[derive(Debug)]
pub enum Json {
    Null,
    Bool(bool),
    Unsigned(u64),
    Negative(i64),
    Decimal(String),
    Text(String),
    Array(Vec<Json>),
    Object(Vec<(String, Json)>),
}

/// What a JSON value is, free of representation: an integer is an integer
/// whatever its sign, and an object is a finite map.
pub enum JsonView {
    Null,
    Bool(bool),
    Integer(int),
    Decimal(Seq<char>),
    Text(Seq<char>),
    Array(Seq<JsonView>),
    Object(Map<Seq<char>, JsonView>),
}

/// The map that the first `n` entries of an object stand for.
pub open spec fn entries_view(entries: Seq<(String, Json)>, n: nat) -> Map<Seq<char>, JsonView>
    decreases entries, n,
{
    if n == 0 || n > entries.len() {
        Map::empty()
    } else {
        let entry = entries[n - 1];
        entries_view(entries, (n - 1) as nat).insert(entry.0@, json_view(entry.1))
    }
}

/// The model of a JSON value.
pub open spec fn json_view(json: Json) -> JsonView
    decreases json, 0nat,
{
    match json {
        Json::Null => JsonView::Null,
        Json::Bool(b) => JsonView::Bool(b),
        Json::Unsigned(n) => JsonView::Integer(n as int),
        Json::Negative(n) => JsonView::Integer(n as int),
        Json::Decimal(digits) => JsonView::Decimal(digits@),
        Json::Text(s) => JsonView::Text(s@),
        Json::Array(items) => JsonView::Array(
            Seq::new(
                items@.len(),
                |i: int|
                    if 0 <= i < items@.len() {
                        json_view(items@[i])
                    } else {
                        JsonView::Null
                    },
            ),
        ),
        Json::Object(entries) => JsonView::Object(entries_view(entries@, entries@.len())),
    }
}

impl View for Json {
    type V = JsonView;

    open spec fn view(&self) -> JsonView {
        json_view(*self)
    }
}

/// The models of a list of JSON values.
pub open spec fn json_views(items: Seq<Json>) -> Seq<JsonView> {
    items.map_values(|item: Json| item@)
}

/// The map that a list of object entries stands for.
pub open spec fn object_view(entries: Seq<(String, Json)>) -> Map<Seq<char>, JsonView> {
    entries_view(entries, entries.len())
}

impl JsonView {
    /// The value under `key`, if this is an object that has one.
    pub open spec fn field(self, key: Seq<char>) -> Option<JsonView> {
        match self {
            JsonView::Object(fields) => if fields.contains_key(key) {
                Some(fields[key])
            } else {
                None
            },
            _ => None,
        }
    }

    /// The element at `index`, if this is an array that long.
    pub open spec fn item(self, index: int) -> Option<JsonView> {
        match self {
            JsonView::Array(items) => if 0 <= index < items.len() {
                Some(items[index])
            } else {
                None
            },
            _ => None,
        }
    }

    /// The characters, if this is a string.
    pub open spec fn text(self) -> Option<Seq<char>> {
        match self {
            JsonView::Text(s) => Some(s),
            _ => None,
        }
    }

    /// The elements, if this is an array.
    pub open spec fn array(self) -> Option<Seq<JsonView>> {
        match self {
            JsonView::Array(items) => Some(items),
            _ => None,
        }
    }

    /// The truth value, if this is one.
    pub open spec fn boolean(self) -> Option<bool> {
        match self {
            JsonView::Bool(b) => Some(b),
            _ => None,
        }
    }

    /// The integer, if this is one that fits in 64 bits without a sign.
    pub open spec fn unsigned(self) -> Option<u64> {
        match self {
            JsonView::Integer(n) => if 0 <= n <= u64::MAX {
                Some(n as u64)
            } else {
                None
            },
            _ => None,
        }
    }

    /// The integer, if this is one that fits in 64 bits with a sign.
    pub open spec fn signed(self) -> Option<i64> {
        match self {
            JsonView::Integer(n) => if i64::MIN <= n <= i64::MAX {
                Some(n as i64)
            } else {
                None
            },
            _ => None,
        }
    }

    /// The string under `key`, if this is an object that has one there.
    pub open spec fn field_text(self, key: Seq<char>) -> Option<Seq<char>> {
        match self.field(key) {
            Some(value) => value.text(),
            None => None,
        }
    }

    /// The array under `key`, if this is an object that has one there.
    pub open spec fn field_array(self, key: Seq<char>) -> Option<Seq<JsonView>> {
        match self.field(key) {
            Some(value) => value.array(),
            None => None,
        }
    }

    /// The string under `key`, or `default`.
    pub open spec fn text_or(self, key: Seq<char>, default: Seq<char>) -> Seq<char> {
        match self.field_text(key) {
            Some(s) => s,
            None => default,
        }
    }

    /// The truth value under `key`; an absent one counts as false.
    pub open spec fn flag(self, key: Seq<char>) -> bool {
        match self.field(key) {
            Some(value) => value.boolean() == Some(true),
            None => false,
        }
    }

    /// The value under `key`, or null.
    pub open spec fn at(self, key: Seq<char>) -> JsonView {
        match self.field(key) {
            Some(value) => value,
            None => JsonView::Null,
        }
    }

    /// The element at `index`, or null.
    pub open spec fn nth(self, index: int) -> JsonView {
        match self.item(index) {
            Some(value) => value,
            None => JsonView::Null,
        }
    }
}

/// The JSON string that holds the given characters.
pub open spec fn text_view(s: Seq<char>) -> JsonView {
    JsonView::Text(s)
}

/// Entries beyond the first `n` leave the map of the first `n` as it is.
proof fn lemma_entries_prefix(a: Seq<(String, Json)>, b: Seq<(String, Json)>, n: nat)
    requires
        n <= a.len(),
        n <= b.len(),
        forall|i: int| 0 <= i < n ==> a[i] == b[i],
    ensures
        entries_view(a, n) == entries_view(b, n),
    decreases n,
{
    if n > 0 {
        lemma_entries_prefix(a, b, (n - 1) as nat);
    }
}

/// Appends an entry; it counts from now on, in place of any earlier one with
/// the same key.
pub fn put(entries: &mut Vec<(String, Json)>, key: &str, value: Json)
    ensures
        object_view(final(entries)@) == object_view(old(entries)@).insert(key@, value@),
{
    let ghost before = entries@;
    let name = key.to_owned();
    entries.push((name, value));
    proof {
        lemma_entries_prefix(before, entries@, before.len());
    }
}

/// An object's list of entries, with nothing in it yet.
pub fn no_entries() -> (entries: Vec<(String, Json)>)
    ensures
        object_view(entries@) == Map::<Seq<char>, JsonView>::empty(),
{
    Vec::new()
}

/// The JSON string that holds the characters of `s`.
pub fn text(s: &str) -> (json: Json)
    ensures
        json@ == text_view(s@),
{
    Json::Text(s.to_owned())
}

/// Turns a list of values into a JSON array.
pub fn array_of(items: Vec<Json>) -> (json: Json)
    ensures
        json@ == JsonView::Array(json_views(items@)),
{
    let json = Json::Array(items);
    assert(json@->Array_0 =~= json_views(items@));
    json
}

impl Json {
    /// The value under `key`, if this is an object that has one.
    pub fn get(&self, key: &str) -> (value: Option<&Json>)
        ensures
            match value {
                Some(value) => self@.field(key@) == Some(value@),
                None => self@.field(key@) is None,
            },
    {
        match self {
            Json::Object(entries) => {
                let mut n: usize = entries.len();
                while n > 0
                    invariant
                        *self == Json::Object(*entries),
                        n <= entries@.len(),
                        entries_view(entries@, entries@.len()).contains_key(key@)
                            == entries_view(entries@, n as nat).contains_key(key@),
                        entries_view(entries@, entries@.len())[key@]
                            == entries_view(entries@, n as nat)[key@],
                    decreases n,
                {
                    let entry = &entries[n - 1];
                    if str_eq(entry.0.as_str(), key) {
                        return Some(&entry.1);
                    }
                    n -= 1;
                }
                None
            },
            _ => None,
        }
    }

    /// The element at `index`, if this is an array that long.
    pub fn get_index(&self, index: usize) -> (value: Option<&Json>)
        ensures
            match value {
                Some(value) => self@.item(index as int) == Some(value@),
                None => self@.item(index as int) is None,
            },
    {
        match self {
            Json::Array(items) => if index < items.len() {
                Some(&items[index])
            } else {
                None
            },
            _ => None,
        }
    }

    /// The characters, if this is a string.
    pub fn as_str(&self) -> (s: Option<&str>)
        ensures
            match s {
                Some(s) => self@.text() == Some(s@),
                None => self@.text() is None,
            },
    {
        match self {
            Json::Text(s) => Some(s.as_str()),
            _ => None,
        }
    }

    /// The elements, if this is an array.
    pub fn as_array(&self) -> (items: Option<&Vec<Json>>)
        ensures
            match items {
                Some(items) => self@.array() == Some(json_views(items@)),
                None => self@.array() is None,
            },
    {
        match self {
            Json::Array(items) => {
                assert(self@->Array_0 =~= json_views(items@));
                Some(items)
            },
            _ => None,
        }
    }

    /// The truth value, if this is one.
    pub fn as_bool(&self) -> (b: Option<bool>)
        ensures
            b == self@.boolean(),
    {
        match self {
            Json::Bool(b) => Some(*b),
            _ => None,
        }
    }

    /// The integer, if this is one that fits in 64 bits without a sign.
    pub fn as_u64(&self) -> (n: Option<u64>)
        ensures
            n == self@.unsigned(),
    {
        match self {
            Json::Unsigned(n) => Some(*n),
            Json::Negative(n) => if *n >= 0 {
                Some(*n as u64)
            } else {
                None
            },
            _ => None,
        }
    }

    /// The integer, if this is one that fits in 64 bits with a sign.
    pub fn as_i64(&self) -> (n: Option<i64>)
        ensures
            n == self@.signed(),
    {
        match self {
            Json::Unsigned(n) => if *n <= i64::MAX as u64 {
                Some(*n as i64)
            } else {
                None
            },
            Json::Negative(n) => Some(*n),
            _ => None,
        }
    }

    /// The string under `key`, if this is an object that has one there.
    pub fn get_str(&self, key: &str) -> (s: Option<&str>)
        ensures
            match s {
                Some(s) => self@.field_text(key@) == Some(s@),
                None => self@.field_text(key@) is None,
            },
    {
        match self.get(key) {
            Some(value) => value.as_str(),
            None => None,
        }
    }

    /// The array under `key`, if this is an object that has one there.
    pub fn get_array(&self, key: &str) -> (items: Option<&Vec<Json>>)
        ensures
            match items {
                Some(items) => self@.field_array(key@) == Some(json_views(items@)),
                None => self@.field_array(key@) is None,
            },
    {
        match self.get(key) {
            Some(value) => value.as_array(),
            None => None,
        }
    }

    /// The string under `key`, or `default`.
    pub fn get_str_or(&self, key: &str, default: &str) -> (s: String)
        ensures
            s@ == self@.text_or(key@, default@),
    {
        match self.get_str(key) {
            Some(s) => s.to_owned(),
            None => default.to_owned(),
        }
    }

    /// The truth value under `key`; an absent one counts as false.
    pub fn get_flag(&self, key: &str) -> (b: bool)
        ensures
            b == self@.flag(key@),
    {
        match self.get(key) {
            Some(value) => match value.as_bool() {
                Some(b) => b,
                None => false,
            },
            None => false,
        }
    }

    /// A copy of the whole tree.
    pub fn duplicate(&self) -> (copy: Json)
        ensures
            copy@ == self@,
        decreases self,
    {
        match self {
            Json::Null => Json::Null,
            Json::Bool(b) => Json::Bool(*b),
            Json::Unsigned(n) => Json::Unsigned(*n),
            Json::Negative(n) => Json::Negative(*n),
            Json::Decimal(digits) => Json::Decimal(digits.clone()),
            Json::Text(s) => Json::Text(s.clone()),
            Json::Array(items) => {
                let mut copies: Vec<Json> = Vec::new();
                let mut i: usize = 0;
                while i < items.len()
                    invariant
                        *self == Json::Array(*items),
                        i <= items@.len(),
                        copies@.len() == i,
                        forall|j: int| 0 <= j < i ==> (#[trigger] copies@[j])@ == items@[j]@,
                    decreases items@.len() - i,
                {
                    assert(decreases_to!(*self => self->Array_0));
                    assert(decreases_to!(items => items@[i as int]));
                    copies.push(items[i].duplicate());
                    i += 1;
                }
                let copy = Json::Array(copies);
                assert(copy@->Array_0 =~= self@->Array_0);
                copy
            },
            Json::Object(entries) => {
                let mut copies: Vec<(String, Json)> = Vec::new();
                let mut i: usize = 0;
                while i < entries.len()
                    invariant
                        *self == Json::Object(*entries),
                        i <= entries@.len(),
                        copies@.len() == i,
                        entries_view(copies@, i as nat) == entries_view(entries@, i as nat),
                    decreases entries@.len() - i,
                {
                    let entry = &entries[i];
                    let ghost before = copies@;
                    assert(decreases_to!(*self => self->Object_0));
                    assert(decreases_to!(entries => entries@[i as int]));
                    assert(decreases_to!(entries@[i as int] => entries@[i as int].1));
                    copies.push((entry.0.clone(), entry.1.duplicate()));
                    proof {
                        lemma_entries_prefix(before, copies@, before.len());
                    }
                    i += 1;
                }
                Json::Object(copies)
            },
        }
    }
}

/// A field is read from an object that has it, and from nothing else; it is read as a
/// text, a list or a truth value exactly where it is one.
pub proof fn law_fields_are_read_as_what_they_are(
    fields: Map<Seq<char>, JsonView>,
    key: Seq<char>,
    other: JsonView,
    default: Seq<char>,
)
    requires
        !(other is Object),
    ensures
        ({
            let json = JsonView::Object(fields);
            let held = fields[key];
            &&& !fields.contains_key(key) ==> {
                &&& json.field(key) is None
                &&& json.field_text(key) is None
                &&& json.field_array(key) is None
                &&& json.text_or(key, default) == default
                &&& !json.flag(key)
                &&& json.at(key) == JsonView::Null
            }
            &&& fields.contains_key(key) ==> {
                &&& json.field(key) == Some(held)
                &&& json.at(key) == held
                &&& json.flag(key) <==> held == JsonView::Bool(true)
                &&& held matches JsonView::Text(s) ==> {
                    &&& json.field_text(key) == Some(s)
                    &&& json.text_or(key, default) == s
                }
                &&& !(held is Text) ==> {
                    &&& json.field_text(key) is None
                    &&& json.text_or(key, default) == default
                }
                &&& held matches JsonView::Array(items) ==> json.field_array(key) == Some(items)
                &&& !(held is Array) ==> json.field_array(key) is None
            }
        }),
        other.field(key) is None,
        other.field_text(key) is None,
        other.field_array(key) is None,
        other.text_or(key, default) == default,
        !other.flag(key),
        other.at(key) == JsonView::Null,
{
}

/// An element is read from a list that is long enough, and a number from an integer that
/// fits, and from nothing else.
pub proof fn law_elements_and_numbers_are_read_as_what_they_are(
    items: Seq<JsonView>,
    index: int,
    n: int,
    other: JsonView,
)
    requires
        !(other is Array) && !(other is Integer),
    ensures
        0 <= index < items.len() ==> JsonView::Array(items).nth(index) == items[index],
        !(0 <= index < items.len()) ==> JsonView::Array(items).nth(index) == JsonView::Null,
        other.nth(index) == JsonView::Null,
        JsonView::Integer(n).unsigned() is Some <==> 0 <= n <= u64::MAX,
        JsonView::Integer(n).unsigned() matches Some(m) ==> m == n,
        JsonView::Integer(n).signed() is Some <==> i64::MIN <= n <= i64::MAX,
        JsonView::Integer(n).signed() matches Some(m) ==> m == n,
        other.unsigned() is None,
        other.signed() is None,
{
}

} // verus!
