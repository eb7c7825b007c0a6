//! Parsed values, their model, and access to their parts.
use vstd::prelude::*;
use vstd::string::StringExecFns;
use crate::error::{decimal, decimal_text};

verus! {

/// A parsed value: a tree whose leaves are null, booleans, numbers and
/// strings, and whose inner nodes are arrays and objects.
///
/// A number keeps the text of its literal; an object keeps its entries in
/// the order their keys first appeared, each key once.
///
/// An object is a vector of entries rather than a hash map: the contracts
/// speak of its entries as a sequence, which a `Vec` gives exactly, while
/// what a `HashMap` keyed by `String` holds after an insertion is not
/// something Verus can state; keeping each key once is the parser's
/// invariant instead (see `parser::obj_insert`).
#[derive(Debug)]
pub enum JsonValue {
    Null,
    Bool(bool),
    Number(String),
    String(String),
    Array(Vec<JsonValue>),
    Object(Vec<(String, JsonValue)>),
}

/// The model of a [`JsonValue`].
pub enum JValue {
    Null,
    Bool(bool),
    Number(Seq<char>),
    Str(Seq<char>),
    Array(Seq<JValue>),
    Object(Seq<(Seq<char>, JValue)>),
}

impl JsonValue {
    pub open spec fn view(&self) -> JValue
        decreases self,
    {
        match self {
            JsonValue::Null => JValue::Null,
            JsonValue::Bool(b) => JValue::Bool(*b),
            JsonValue::Number(s) => JValue::Number(s@),
            JsonValue::String(s) => JValue::Str(s@),
            JsonValue::Array(v) => JValue::Array(
                Seq::new(
                    v@.len(),
                    |i: int|
                        if 0 <= i < v@.len() {
                            v@[i].view()
                        } else {
                            JValue::Null
                        },
                ),
            ),
            JsonValue::Object(v) => JValue::Object(
                Seq::new(
                    v@.len(),
                    |i: int|
                        if 0 <= i < v@.len() {
                            (v@[i].0@, v@[i].1.view())
                        } else {
                            (Seq::empty(), JValue::Null)
                        },
                ),
            ),
        }
    }
}

/// `i` is the first index of an entry of `e` with key `k`.
pub open spec fn first_entry_with_key(e: Seq<(Seq<char>, JValue)>, k: Seq<char>, i: int) -> bool {
    &&& 0 <= i < e.len()
    &&& e[i].0 == k
    &&& forall|j: int| 0 <= j < i ==> e[j].0 != k
}

impl JsonValue {
    pub fn is_null(&self) -> (r: bool)
        ensures
            r == (self@ is Null),
    {
        match self {
            JsonValue::Null => true,
            _ => false,
        }
    }

    pub fn is_array(&self) -> (r: bool)
        ensures
            r == (self@ is Array),
    {
        match self {
            JsonValue::Array(_) => true,
            _ => false,
        }
    }

    pub fn is_object(&self) -> (r: bool)
        ensures
            r == (self@ is Object),
    {
        match self {
            JsonValue::Object(_) => true,
            _ => false,
        }
    }

    pub fn as_bool(&self) -> (r: Option<bool>)
        ensures
            r == (match self@ {
                JValue::Bool(b) => Some(b),
                _ => None,
            }),
    {
        match self {
            JsonValue::Bool(b) => Some(*b),
            _ => None,
        }
    }

    /// The text of a string value.
    pub fn as_str(&self) -> (r: Option<&str>)
        ensures
            match self@ {
                JValue::Str(s) => r is Some && r->Some_0@ == s,
                _ => r is None,
            },
    {
        match self {
            JsonValue::String(s) => Some(s.as_str()),
            _ => None,
        }
    }

    /// The literal text of a number value.
    pub fn as_number_text(&self) -> (r: Option<&str>)
        ensures
            match self@ {
                JValue::Number(s) => r is Some && r->Some_0@ == s,
                _ => r is None,
            },
    {
        match self {
            JsonValue::Number(s) => Some(s.as_str()),
            _ => None,
        }
    }

    /// The items of an array value.
    pub fn as_array(&self) -> (r: Option<&Vec<JsonValue>>)
        ensures
            match self@ {
                JValue::Array(items) => r is Some && r->Some_0@.len() == items.len() && forall|i: int|
                    0 <= i < items.len() ==> (#[trigger] r->Some_0@[i])@ == items[i],
                _ => r is None,
            },
    {
        match self {
            JsonValue::Array(v) => Some(v),
            _ => None,
        }
    }

    /// The entries of an object value, in the order their keys first
    /// appeared.
    pub fn as_object(&self) -> (r: Option<&Vec<(String, JsonValue)>>)
        ensures
            match self@ {
                JValue::Object(e) => r is Some && r->Some_0@.len() == e.len() && forall|i: int|
                    0 <= i < e.len() ==> (#[trigger] r->Some_0@[i]).0@ == e[i].0 && r->Some_0@[i].1@
                        == e[i].1,
                _ => r is None,
            },
    {
        match self {
            JsonValue::Object(e) => Some(e),
            _ => None,
        }
    }

    /// The value stored under `key` in an object value.
    pub fn get(&self, key: &str) -> (r: Option<&JsonValue>)
        ensures
            match self@ {
                JValue::Object(e) => {
                    &&& r is Some <==> exists|i: int| first_entry_with_key(e, key@, i)
                    &&& r is Some ==> exists|i: int|
                        first_entry_with_key(e, key@, i) && (r->Some_0)@ == e[i].1
                },
                _ => r is None,
            },
    {
        match self {
            JsonValue::Object(entries) => {
                let k = key.to_owned();
                let ghost e = self@->Object_0;
                let mut i: usize = 0;
                while i < entries.len()
                    invariant
                        i <= entries@.len(),
                        self@ == JValue::Object(e),
                        *self == JsonValue::Object(*entries),
                        k@ == key@,
                        forall|j: int| 0 <= j < i ==> e[j].0 != key@,
                    decreases entries@.len() - i,
                {
                    assert(e[i as int] == (entries@[i as int].0@, entries@[i as int].1@));
                    if entries[i].0 == k {
                        let found = &entries[i].1;
                        assert(first_entry_with_key(e, key@, i as int) && found@ == e[i as int].1);
                        let r = Some(found);
                        assert(match self@ {
                            JValue::Object(e) => {
                                &&& r is Some <==> exists|i: int| first_entry_with_key(e, key@, i)
                                &&& r is Some ==> exists|i: int|
                                    first_entry_with_key(e, key@, i) && (r->Some_0)@ == e[i].1
                            },
                            _ => r is None,
                        });
                        return r;
                    }
                    i = i + 1;
                }
                None
            },
            _ => None,
        }
    }
}

/// The decimal text of `v`, with a minus sign when it is negative.
pub open spec fn int_text(v: int) -> Seq<char> {
    if v < 0 {
        "-"@ + decimal((-v) as nat)
    } else {
        decimal(v as nat)
    }
}

impl JsonValue {
    /// The number value whose text is the decimal text of `v`.
    pub fn from_int(v: i32) -> (r: JsonValue)
        ensures
            r@ == JValue::Number(int_text(v as int)),
    {
        if v < 0 {
            let m = (-(v as i64)) as usize;
            JsonValue::Number(String::from_str("-").concat(decimal_text(m).as_str()))
        } else {
            JsonValue::Number(decimal_text(v as usize))
        }
    }

    /// The string value holding `s`.
    pub fn from_text(s: &str) -> (r: JsonValue)
        ensures
            r@ == JValue::Str(s@),
    {
        JsonValue::String(String::from_str(s))
    }
}

impl From<bool> for JsonValue {
    fn from(b: bool) -> (r: JsonValue) {
        JsonValue::Bool(b)
    }
}

impl vstd::std_specs::convert::FromSpecImpl<bool> for JsonValue {
    open spec fn obeys_from_spec() -> bool {
        true
    }

    open spec fn from_spec(b: bool) -> JsonValue {
        JsonValue::Bool(b)
    }
}

/// Calls [`JsonValue::from_int`], whose contract states the result: what
/// `From` promises is an equation between values built in specifications,
/// and a `String` cannot be built there.
impl From<i32> for JsonValue {
    fn from(v: i32) -> (r: JsonValue) {
        JsonValue::from_int(v)
    }
}

impl vstd::std_specs::convert::FromSpecImpl<i32> for JsonValue {
    open spec fn obeys_from_spec() -> bool {
        false
    }

    open spec fn from_spec(v: i32) -> JsonValue {
        JsonValue::Null
    }
}

/// Calls [`JsonValue::from_text`], whose contract states the result, for
/// the reason given at `From<i32>`.
impl<'a> From<&'a str> for JsonValue {
    fn from(s: &'a str) -> (r: JsonValue) {
        JsonValue::from_text(s)
    }
}

impl<'a> vstd::std_specs::convert::FromSpecImpl<&'a str> for JsonValue {
    open spec fn obeys_from_spec() -> bool {
        false
    }

    open spec fn from_spec(s: &'a str) -> JsonValue {
        JsonValue::Null
    }
}

} // verus!
