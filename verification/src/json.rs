//! A JSON document model: values as the language server sends and receives
//! them, the lookups that the client makes in them (`v.get(key)`, `v[key]`,
//! `as_u64`, `as_str`, `as_array`), and their compact text form (what
//! `Display` writes for a `serde_json::Value`).
use vstd::prelude::*;
use serde_json::Value;
use crate::text::{chars_of, decimal, digit_char, push_chars, push_decimal, same_text, string_from_chars};

verus! {

/// A JSON number. Integers are held exactly; any other number is held as
/// the text that `serde_json` writes for it.
pub enum JsonNumber {
    PosInt(u64),
    NegInt(i64),
    Float(String),
}

/// A JSON value. An object holds its members in the order in which its map
/// yields them.
pub enum Json {
    Null,
    Bool(bool),
    Number(JsonNumber),
    Str(String),
    Array(Vec<Json>),
    Object(Vec<(String, Json)>),
}

/// The mathematical form of a [`JsonNumber`].
pub enum NumberView {
    PosInt(u64),
    NegInt(i64),
    Float(Seq<char>),
}

/// The mathematical form of a [`Json`] value.
pub enum JsonView {
    Null,
    Bool(bool),
    Number(NumberView),
    Str(Seq<char>),
    Array(Seq<JsonView>),
    Object(Seq<(Seq<char>, JsonView)>),
}

impl View for JsonNumber {
    type V = NumberView;

    open spec fn view(&self) -> NumberView {
        match self {
            JsonNumber::PosInt(n) => NumberView::PosInt(*n),
            JsonNumber::NegInt(n) => NumberView::NegInt(*n),
            JsonNumber::Float(t) => NumberView::Float(t@),
        }
    }
}

impl View for Json {
    type V = JsonView;

    open spec fn view(&self) -> JsonView {
        json_view(*self)
    }
}

/// The mathematical form of a value.
pub open spec fn json_view(j: Json) -> JsonView
    decreases j,
{
    match j {
        Json::Null => JsonView::Null,
        Json::Bool(b) => JsonView::Bool(b),
        Json::Number(n) => JsonView::Number(n@),
        Json::Str(s) => JsonView::Str(s@),
        Json::Array(v) => {
            proof {
                assert(decreases_to!(v => v@));
            }
            JsonView::Array(items_view(v@))
        },
        Json::Object(v) => {
            proof {
                assert(decreases_to!(v => v@));
            }
            JsonView::Object(members_view(v@))
        },
    }
}

/// The views of a sequence of values.
pub open spec fn items_view(v: Seq<Json>) -> Seq<JsonView>
    decreases v,
{
    if v.len() == 0 {
        Seq::empty()
    } else {
        proof {
            assert(decreases_to!(v => v.drop_last()));
            assert(decreases_to!(v => v[v.len() - 1]));
        }
        items_view(v.drop_last()).push(json_view(v.last()))
    }
}

/// The views of a sequence of object members.
pub open spec fn members_view(v: Seq<(String, Json)>) -> Seq<(Seq<char>, JsonView)>
    decreases v,
{
    if v.len() == 0 {
        Seq::empty()
    } else {
        proof {
            assert(decreases_to!(v => v.drop_last()));
            assert(decreases_to!(v => v[v.len() - 1]));
        }
        members_view(v.drop_last()).push((v.last().0@, json_view(v.last().1)))
    }
}

/// The view of a sequence of values holds the view of each of them.
pub proof fn lemma_items_view(v: Seq<Json>)
    ensures
        items_view(v).len() == v.len(),
        forall|i: int| 0 <= i < v.len() ==> #[trigger] items_view(v)[i] == v[i]@,
    decreases v.len(),
{
    if v.len() > 0 {
        lemma_items_view(v.drop_last());
    }
}

/// The view of a sequence of members holds the view of each of them.
pub proof fn lemma_members_view(v: Seq<(String, Json)>)
    ensures
        members_view(v).len() == v.len(),
        forall|i: int| 0 <= i < v.len() ==> #[trigger] members_view(v)[i] == (v[i].0@, v[i].1@),
    decreases v.len(),
{
    if v.len() > 0 {
        lemma_members_view(v.drop_last());
    }
}

/// The view of an array is the sequence of the views of its items.
pub proof fn lemma_array_view(v: Vec<Json>)
    ensures
        Json::Array(v)@ == JsonView::Array(items_view(v@)),
        items_view(v@).len() == v@.len(),
        forall|i: int| 0 <= i < v@.len() ==> #[trigger] items_view(v@)[i] == v@[i]@,
{
    lemma_items_view(v@);
}

/// The view of an object is the sequence of the views of its members.
pub proof fn lemma_object_view(v: Vec<(String, Json)>)
    ensures
        Json::Object(v)@ == JsonView::Object(members_view(v@)),
        members_view(v@).len() == v@.len(),
        forall|i: int|
            0 <= i < v@.len() ==> #[trigger] members_view(v@)[i] == (v@[i].0@, v@[i].1@),
{
    lemma_members_view(v@);
}

// ---------------------------------------------------------------------
// Lookups
// ---------------------------------------------------------------------

/// Member `i` is the first one named `key`.
pub open spec fn is_first_key(members: Seq<(Seq<char>, JsonView)>, key: Seq<char>, i: int) -> bool {
    &&& 0 <= i < members.len()
    &&& members[i].0 == key
    &&& forall|j: int| 0 <= j < i ==> members[j].0 != key
}

/// `v.get(key)`: the member of an object named `key`; `None` for other
/// values and absent keys.
pub open spec fn json_get(v: JsonView, key: Seq<char>) -> Option<JsonView> {
    match v {
        JsonView::Object(members) => if exists|i: int| is_first_key(members, key, i) {
            Some(members[choose|i: int| is_first_key(members, key, i)].1)
        } else {
            None
        },
        _ => None,
    }
}

/// `v[key]`: the member named `key`, and `null` where there is none.
pub open spec fn json_field(v: JsonView, key: Seq<char>) -> JsonView {
    match json_get(v, key) {
        Some(x) => x,
        None => JsonView::Null,
    }
}

/// `v.as_u64()`.
pub open spec fn json_u64(v: JsonView) -> Option<u64> {
    match v {
        JsonView::Number(NumberView::PosInt(n)) => Some(n),
        JsonView::Number(NumberView::NegInt(n)) => if n >= 0 {
            Some(n as u64)
        } else {
            None
        },
        _ => None,
    }
}

/// `v.as_str()`.
pub open spec fn json_str(v: JsonView) -> Option<Seq<char>> {
    match v {
        JsonView::Str(s) => Some(s),
        _ => None,
    }
}

/// `v.as_array()`.
pub open spec fn json_array(v: JsonView) -> Option<Seq<JsonView>> {
    match v {
        JsonView::Array(items) => Some(items),
        _ => None,
    }
}

/// `v.get(i)` for an index: item `i` of an array.
pub open spec fn json_item(v: JsonView, i: int) -> Option<JsonView> {
    match v {
        JsonView::Array(items) => if 0 <= i < items.len() {
            Some(items[i])
        } else {
            None
        },
        _ => None,
    }
}

proof fn lemma_first_key_unique(members: Seq<(Seq<char>, JsonView)>, key: Seq<char>, i: int)
    requires
        is_first_key(members, key, i),
    ensures
        (choose|j: int| is_first_key(members, key, j)) == i,
{
    let j = choose|j: int| is_first_key(members, key, j);
    assert(is_first_key(members, key, j));
    if j < i {
        assert(members[j].0 != key);
    }
    if i < j {
        assert(members[i].0 != key);
    }
}

impl Json {
    /// The member named `key` of an object (`Value::get` with a string).
    pub fn get(&self, key: &str) -> (r: Option<&Json>)
        ensures
            match r {
                Some(x) => json_get(self@, key@) == Some(x@),
                None => json_get(self@, key@).is_none(),
            },
    {
        match self {
            Json::Object(members) => {
                let ghost mv = members_view(members@);
                proof {
                    lemma_object_view(*members);
                }
                let mut i: usize = 0;
                while i < members.len()
                    invariant
                        i <= members@.len(),
                        self@ == JsonView::Object(mv),
                        mv == members_view(members@),
                        mv.len() == members@.len(),
                        forall|k: int|
                            0 <= k < members@.len() ==> #[trigger] mv[k] == (
                                members@[k].0@,
                                members@[k].1@,
                            ),
                        forall|j: int| 0 <= j < i ==> mv[j].0 != key@,
                    decreases members@.len() - i,
                {
                    if same_text(members[i].0.as_str(), key) {
                        proof {
                            assert(is_first_key(mv, key@, i as int));
                            lemma_first_key_unique(mv, key@, i as int);
                        }
                        return Some(&members[i].1);
                    }
                    i = i + 1;
                }
                proof {
                    assert forall|j: int| !is_first_key(mv, key@, j) by {
                        if 0 <= j < mv.len() {
                            assert(mv[j].0 != key@);
                        }
                    }
                }
                None
            },
            _ => None,
        }
    }

    /// A copy of the member named `key`, `Null` where there is none
    /// (`value[key]`).
    pub fn field(&self, key: &str) -> (r: Json)
        ensures
            r@ == json_field(self@, key@),
    {
        match self.get(key) {
            Some(x) => x.deep_clone(),
            None => Json::Null,
        }
    }

    /// The value as an unsigned integer, where it is one (`Value::as_u64`).
    pub fn as_u64(&self) -> (r: Option<u64>)
        ensures
            r == json_u64(self@),
    {
        match self {
            Json::Number(JsonNumber::PosInt(n)) => Some(*n),
            Json::Number(JsonNumber::NegInt(n)) => if *n >= 0 {
                Some(*n as u64)
            } else {
                None
            },
            _ => None,
        }
    }

    /// The value as a string, where it is one (`Value::as_str`).
    pub fn as_str(&self) -> (r: Option<&str>)
        ensures
            match r {
                Some(s) => json_str(self@) == Some(s@),
                None => json_str(self@).is_none(),
            },
    {
        match self {
            Json::Str(s) => Some(s.as_str()),
            _ => None,
        }
    }

    /// The items of an array (`Value::as_array`).
    pub fn as_array(&self) -> (r: Option<&Vec<Json>>)
        ensures
            match r {
                Some(items) => json_array(self@) == Some(items_view(items@)),
                None => json_array(self@).is_none(),
            },
    {
        match self {
            Json::Array(items) => {
                proof {
                    lemma_array_view(*items);
                }
                Some(items)
            },
            _ => None,
        }
    }

    /// Whether the value is an array (`Value::is_array`).
    pub fn is_array(&self) -> (r: bool)
        ensures
            r == json_array(self@).is_some(),
    {
        match self {
            Json::Array(_) => true,
            _ => false,
        }
    }

    /// Item `i` of an array (`Value::get` with an index).
    pub fn item(&self, i: usize) -> (r: Option<&Json>)
        ensures
            match r {
                Some(x) => json_item(self@, i as int) == Some(x@),
                None => json_item(self@, i as int).is_none(),
            },
    {
        match self {
            Json::Array(items) => {
                proof {
                    lemma_array_view(*items);
                }
                if i < items.len() {
                    Some(&items[i])
                } else {
                    None
                }
            },
            _ => None,
        }
    }

    /// A copy of the value.
    pub fn deep_clone(&self) -> (r: Json)
        ensures
            r@ == self@,
        decreases self@,
    {
        match self {
            Json::Null => Json::Null,
            Json::Bool(b) => Json::Bool(*b),
            Json::Number(JsonNumber::PosInt(n)) => Json::Number(JsonNumber::PosInt(*n)),
            Json::Number(JsonNumber::NegInt(n)) => Json::Number(JsonNumber::NegInt(*n)),
            Json::Number(JsonNumber::Float(t)) => Json::Number(JsonNumber::Float(t.clone())),
            Json::Str(s) => Json::Str(s.clone()),
            Json::Array(items) => {
                let mut out: Vec<Json> = Vec::new();
                let mut i: usize = 0;
                while i < items.len()
                    invariant
                        i <= items@.len(),
                        self@ == JsonView::Array(items_view(items@)),
                        out@.len() == i,
                        forall|j: int| 0 <= j < i ==> (#[trigger] out@[j])@ == items@[j]@,
                    decreases items@.len() - i,
                {
                    proof {
                        lemma_array_view(*items);
                        assert(self@->Array_0 == items_view(items@));
                        assert(decreases_to!(self@ => self@->Array_0));
                        assert(decreases_to!(items_view(items@) => items_view(items@)[i as int]));
                    }
                    let c = items[i].deep_clone();
                    out.push(c);
                    i = i + 1;
                }
                proof {
                    lemma_array_view(*items);
                    lemma_array_view(out);
                    assert(items_view(out@) =~= items_view(items@));
                }
                Json::Array(out)
            },
            Json::Object(members) => {
                let mut out: Vec<(String, Json)> = Vec::new();
                let mut i: usize = 0;
                while i < members.len()
                    invariant
                        i <= members@.len(),
                        self@ == JsonView::Object(members_view(members@)),
                        out@.len() == i,
                        forall|j: int|
                            0 <= j < i ==> (#[trigger] out@[j]).0@ == members@[j].0@ && out@[j].1@
                                == members@[j].1@,
                    decreases members@.len() - i,
                {
                    let k = members[i].0.clone();
                    proof {
                        lemma_object_view(*members);
                        let ghost mv = members_view(members@);
                        assert(self@->Object_0 == mv);
                        assert(decreases_to!(self@ => self@->Object_0));
                        assert(decreases_to!(mv => mv[i as int]));
                        assert(decreases_to!(mv[i as int] => mv[i as int].1));
                    }
                    let c = members[i].1.deep_clone();
                    out.push((k, c));
                    i = i + 1;
                }
                proof {
                    lemma_object_view(*members);
                    lemma_object_view(out);
                    assert(members_view(out@) =~= members_view(members@));
                }
                Json::Object(out)
            },
        }
    }
}

// ---------------------------------------------------------------------
// Building values
// ---------------------------------------------------------------------

/// A JSON string holding `s`.
pub fn json_string(s: &str) -> (j: Json)
    ensures
        j@ == JsonView::Str(s@),
{
    Json::Str(s.to_owned())
}

/// A JSON number holding `n`.
pub fn json_uint(n: u64) -> (j: Json)
    ensures
        j@ == JsonView::Number(NumberView::PosInt(n)),
{
    Json::Number(JsonNumber::PosInt(n))
}

/// An object member named `key`.
pub fn member(key: &str, value: Json) -> (m: (String, Json))
    ensures
        m.0@ == key@,
        m.1@ == value@,
{
    (key.to_owned(), value)
}

/// An object with one member.
pub fn object1(m1: (String, Json)) -> (j: Json)
    ensures
        j@ == JsonView::Object(seq![(m1.0@, m1.1@)]),
{
    let mut v: Vec<(String, Json)> = Vec::new();
    let ghost g1 = (m1.0@, m1.1@);
    v.push(m1);
    proof {
        lemma_object_view(v);
        assert(members_view(v@) =~= seq![g1]);
    }
    Json::Object(v)
}

/// An object with two members, in this order.
pub fn object2(m1: (String, Json), m2: (String, Json)) -> (j: Json)
    ensures
        j@ == JsonView::Object(seq![(m1.0@, m1.1@), (m2.0@, m2.1@)]),
{
    let mut v: Vec<(String, Json)> = Vec::new();
    let ghost g1 = (m1.0@, m1.1@);
    let ghost g2 = (m2.0@, m2.1@);
    v.push(m1);
    v.push(m2);
    proof {
        lemma_object_view(v);
        assert(members_view(v@) =~= seq![g1, g2]);
    }
    Json::Object(v)
}

/// An object with three members, in this order.
pub fn object3(m1: (String, Json), m2: (String, Json), m3: (String, Json)) -> (j: Json)
    ensures
        j@ == JsonView::Object(seq![(m1.0@, m1.1@), (m2.0@, m2.1@), (m3.0@, m3.1@)]),
{
    let mut v: Vec<(String, Json)> = Vec::new();
    let ghost g1 = (m1.0@, m1.1@);
    let ghost g2 = (m2.0@, m2.1@);
    let ghost g3 = (m3.0@, m3.1@);
    v.push(m1);
    v.push(m2);
    v.push(m3);
    proof {
        lemma_object_view(v);
        assert(members_view(v@) =~= seq![g1, g2, g3]);
    }
    Json::Object(v)
}

/// An object with four members, in this order.
pub fn object4(m1: (String, Json), m2: (String, Json), m3: (String, Json), m4: (String, Json)) -> (j:
    Json)
    ensures
        j@ == JsonView::Object(
            seq![(m1.0@, m1.1@), (m2.0@, m2.1@), (m3.0@, m3.1@), (m4.0@, m4.1@)],
        ),
{
    let mut v: Vec<(String, Json)> = Vec::new();
    let ghost g1 = (m1.0@, m1.1@);
    let ghost g2 = (m2.0@, m2.1@);
    let ghost g3 = (m3.0@, m3.1@);
    let ghost g4 = (m4.0@, m4.1@);
    v.push(m1);
    v.push(m2);
    v.push(m3);
    v.push(m4);
    proof {
        lemma_object_view(v);
        assert(members_view(v@) =~= seq![g1, g2, g3, g4]);
    }
    Json::Object(v)
}

// ---------------------------------------------------------------------
// Text form
// ---------------------------------------------------------------------

/// The lowercase hexadecimal digit for `d` (< 16).
pub open spec fn hex_digit(d: nat) -> char {
    if d < 10 {
        digit_char(d)
    } else if d == 10 {
        'a'
    } else if d == 11 {
        'b'
    } else if d == 12 {
        'c'
    } else if d == 13 {
        'd'
    } else if d == 14 {
        'e'
    } else {
        'f'
    }
}

/// How one character is written inside a JSON string.
pub open spec fn json_escape_char(c: char) -> Seq<char> {
    let u = c as u32;
    if c == '"' {
        seq!['\\', '"']
    } else if c == '\\' {
        seq!['\\', '\\']
    } else if u == 0x08 {
        seq!['\\', 'b']
    } else if u == 0x0c {
        seq!['\\', 'f']
    } else if c == '\n' {
        seq!['\\', 'n']
    } else if c == '\r' {
        seq!['\\', 'r']
    } else if c == '\t' {
        seq!['\\', 't']
    } else if u < 0x20 {
        seq!['\\', 'u', '0', '0', hex_digit((u / 16) as nat), hex_digit((u % 16) as nat)]
    } else {
        seq![c]
    }
}

/// The characters of `s` as they are written inside a JSON string.
pub open spec fn json_escaped(s: Seq<char>) -> Seq<char>
    decreases s.len(),
{
    if s.len() == 0 {
        Seq::empty()
    } else {
        json_escaped(s.drop_last()) + json_escape_char(s.last())
    }
}

/// A JSON string literal holding `s`.
pub open spec fn json_quoted(s: Seq<char>) -> Seq<char> {
    seq!['"'] + json_escaped(s) + seq!['"']
}

/// `serde_json`'s text for a string value (`Value::String(..).to_string()`):
/// the characters between double quotes, `"` and `\` written with a
/// backslash before them, backspace, form feed, line feed, carriage return
/// and tab written as `\b`, `\f`, `\n`, `\r`, `\t`, the other characters
/// below U+0020 as `\u00` and two lowercase hexadecimal digits, and every
/// other character as it is.
#[verifier::external_body]
fn json_quote(s: &str) -> (r: String)
    ensures
        r@ == json_quoted(s@),
{
    serde_json::Value::String(s.to_string()).to_string()
}

// ---------------------------------------------------------------------
// Reading a message body
// ---------------------------------------------------------------------

/// `serde_json::Value`, a parsed JSON document.
#[verifier::external_type_specification]
#[verifier::external_body]
pub struct ExValue(serde_json::Value);

/// The JSON value of a message body as `serde_json` reads it
/// (`serde_json::from_slice::<Value>(body).unwrap_or_default()`): the
/// document the bytes hold, and `null` where they hold none.
pub uninterp spec fn parsed_body(body: Seq<u8>) -> JsonView;

/// The library's form of a `serde_json::Value`, one variant for each of
/// its variants: integers that fit `u64` (or else `i64`) are kept exactly,
/// other numbers as the text `serde_json` writes for them, and object
/// members in the order in which its map yields them. Nothing is stated of
/// the result, whose argument Verus cannot look into.
#[verifier::external_body]
fn json_of_value(v: &Value) -> Json {
    match v {
        Value::Null => Json::Null,
        Value::Bool(b) => Json::Bool(*b),
        Value::Number(n) => Json::Number(match (n.as_u64(), n.as_i64()) {
            (Some(u), _) => JsonNumber::PosInt(u),
            (None, Some(i)) => JsonNumber::NegInt(i),
            _ => JsonNumber::Float(n.to_string()),
        }),
        Value::String(t) => Json::Str(t.clone()),
        Value::Array(a) => Json::Array(a.iter().map(json_of_value).collect()),
        Value::Object(m) => Json::Object(m.iter().map(|(k, x)| (k.clone(), json_of_value(x))).collect()),
    }
}

/// `serde_json::from_slice::<Value>(body).unwrap_or_default()`: the result
/// is named `parsed_body`, a function of the bytes alone (a parse is
/// deterministic, `Default` for `Value` is `Null`, and the map without
/// `preserve_order` yields its keys sorted). What it is on given bytes is
/// not stated.
#[verifier::external_body]
pub(crate) fn parse_body(body: &[u8]) -> (j: Json)
    ensures
        j@ == parsed_body(body@),
{
    let value: Value = serde_json::from_slice(body).unwrap_or_default();
    json_of_value(&value)
}

/// The parts joined with `sep` between each two.
pub open spec fn join_with(parts: Seq<Seq<char>>, sep: Seq<char>) -> Seq<char>
    decreases parts.len(),
{
    if parts.len() == 0 {
        Seq::empty()
    } else if parts.len() == 1 {
        parts[0]
    } else {
        join_with(parts.drop_last(), sep) + sep + parts.last()
    }
}

proof fn lemma_join_step(parts: Seq<Seq<char>>, sep: Seq<char>, i: int)
    requires
        0 <= i < parts.len(),
    ensures
        join_with(parts.take(i + 1), sep) == join_with(parts.take(i), sep) + (if i > 0 {
            sep
        } else {
            Seq::empty()
        }) + parts[i],
{
    assert(parts.take(i + 1).drop_last() =~= parts.take(i));
    if i == 0 {
        assert(join_with(parts.take(0), sep) =~= Seq::<char>::empty());
        assert(Seq::<char>::empty() + Seq::<char>::empty() + parts[0] =~= parts[0]);
    }
}

/// The text of a number.
pub open spec fn number_text(n: NumberView) -> Seq<char> {
    match n {
        NumberView::PosInt(u) => decimal(u as nat),
        NumberView::NegInt(i) => if i < 0 {
            seq!['-'] + decimal((-i) as nat)
        } else {
            decimal(i as nat)
        },
        NumberView::Float(t) => t,
    }
}

/// The compact JSON text of a value: no white space, members as
/// `"key":value`, items and members separated by commas.
pub open spec fn json_text(v: JsonView) -> Seq<char>
    decreases v,
{
    match v {
        JsonView::Null => seq!['n', 'u', 'l', 'l'],
        JsonView::Bool(b) => if b {
            seq!['t', 'r', 'u', 'e']
        } else {
            seq!['f', 'a', 'l', 's', 'e']
        },
        JsonView::Number(n) => number_text(n),
        JsonView::Str(s) => json_quoted(s),
        JsonView::Array(items) => {
            proof {
                assert(decreases_to!(v => v->Array_0));
            }
            seq!['['] + join_with(items_texts(items), seq![',']) + seq![']']
        },
        JsonView::Object(members) => {
            proof {
                assert(decreases_to!(v => v->Object_0));
            }
            seq!['{'] + join_with(members_texts(members), seq![',']) + seq!['}']
        },
    }
}

/// The texts of the items of an array.
pub open spec fn items_texts(items: Seq<JsonView>) -> Seq<Seq<char>>
    decreases items,
{
    if items.len() == 0 {
        Seq::empty()
    } else {
        proof {
            assert(decreases_to!(items => items.drop_last()));
            assert(decreases_to!(items => items[items.len() - 1]));
        }
        items_texts(items.drop_last()).push(json_text(items.last()))
    }
}

/// The texts of the members of an object, each as `"key":value`.
pub open spec fn members_texts(members: Seq<(Seq<char>, JsonView)>) -> Seq<Seq<char>>
    decreases members,
{
    if members.len() == 0 {
        Seq::empty()
    } else {
        proof {
            assert(decreases_to!(members => members.drop_last()));
            assert(decreases_to!(members => members[members.len() - 1]));
            assert(decreases_to!(members[members.len() - 1] => members[members.len() - 1].1));
        }
        members_texts(members.drop_last()).push(
            json_quoted(members.last().0) + seq![':'] + json_text(members.last().1),
        )
    }
}

proof fn lemma_items_texts(items: Seq<JsonView>)
    ensures
        items_texts(items).len() == items.len(),
        forall|i: int| 0 <= i < items.len() ==> #[trigger] items_texts(items)[i] == json_text(items[i]),
    decreases items.len(),
{
    if items.len() > 0 {
        lemma_items_texts(items.drop_last());
    }
}

proof fn lemma_members_texts(members: Seq<(Seq<char>, JsonView)>)
    ensures
        members_texts(members).len() == members.len(),
        forall|i: int|
            0 <= i < members.len() ==> #[trigger] members_texts(members)[i] == json_quoted(
                members[i].0,
            ) + seq![':'] + json_text(members[i].1),
    decreases members.len(),
{
    if members.len() > 0 {
        lemma_members_texts(members.drop_last());
    }
}

/// Appends the text of a number to `out`.
fn write_number(n: &JsonNumber, out: &mut Vec<char>)
    ensures
        final(out)@ == old(out)@ + number_text(n@),
{
    match n {
        JsonNumber::PosInt(u) => push_decimal(out, *u),
        JsonNumber::NegInt(i) => {
            if *i < 0 {
                out.push('-');
                let m: u64 = ((-(*i + 1)) as u64) + 1;
                push_decimal(out, m);
                proof {
                    assert(old(out)@ + number_text(n@) =~= old(out)@.push('-') + decimal(m as nat));
                }
            } else {
                push_decimal(out, *i as u64);
            }
        },
        JsonNumber::Float(t) => {
            let cs = chars_of(t.as_str());
            push_chars(out, cs.as_slice());
        },
    }
}

/// Appends the compact JSON text of `v` to `out`.
pub fn write_json(v: &Json, out: &mut Vec<char>)
    ensures
        final(out)@ == old(out)@ + json_text(v@),
    decreases v@,
{
    match v {
        Json::Null => {
            out.push('n');
            out.push('u');
            out.push('l');
            out.push('l');
            proof {
                assert(final(out)@ =~= old(out)@ + json_text(v@));
            }
        },
        Json::Bool(b) => {
            if *b {
                out.push('t');
                out.push('r');
                out.push('u');
                out.push('e');
            } else {
                out.push('f');
                out.push('a');
                out.push('l');
                out.push('s');
                out.push('e');
            }
            proof {
                assert(final(out)@ =~= old(out)@ + json_text(v@));
            }
        },
        Json::Number(n) => write_number(n, out),
        Json::Str(s) => {
            let q = json_quote(s.as_str());
            let cs = chars_of(q.as_str());
            push_chars(out, cs.as_slice());
        },
        Json::Array(items) => {
            let ghost start = out@;
            proof {
                lemma_array_view(*items);
                lemma_items_texts(items_view(items@));
            }
            let ghost texts = items_texts(items_view(items@));
            out.push('[');
            let mut i: usize = 0;
            while i < items.len()
                invariant
                    i <= items@.len(),
                    v@ == JsonView::Array(items_view(items@)),
                    items_view(items@).len() == items@.len(),
                    forall|k: int| 0 <= k < items@.len() ==> #[trigger] items_view(items@)[k] == items@[k]@,
                    texts == items_texts(items_view(items@)),
                    texts.len() == items@.len(),
                    forall|k: int| 0 <= k < items@.len() ==> #[trigger] texts[k] == json_text(items@[k]@),
                    out@ == start + seq!['['] + join_with(texts.take(i as int), seq![',']),
                decreases items@.len() - i,
            {
                proof {
                    lemma_join_step(texts, seq![','], i as int);
                }
                if i > 0 {
                    out.push(',');
                }
                proof {
                    assert(v@->Array_0 == items_view(items@));
                    assert(decreases_to!(v@ => v@->Array_0));
                    assert(decreases_to!(items_view(items@) => items_view(items@)[i as int]));
                }
                write_json(&items[i], out);
                proof {
                    assert(out@ =~= start + seq!['['] + join_with(texts.take(i + 1), seq![',']));
                }
                i = i + 1;
            }
            out.push(']');
            proof {
                assert(texts.take(items@.len() as int) =~= texts);
                assert(final(out)@ =~= old(out)@ + json_text(v@));
            }
        },
        Json::Object(members) => {
            let ghost start = out@;
            proof {
                lemma_object_view(*members);
                lemma_members_texts(members_view(members@));
            }
            let ghost mv = members_view(members@);
            let ghost texts = members_texts(mv);
            out.push('{');
            let mut i: usize = 0;
            while i < members.len()
                invariant
                    i <= members@.len(),
                    v@ == JsonView::Object(mv),
                    mv == members_view(members@),
                    mv.len() == members@.len(),
                    forall|k: int|
                        0 <= k < members@.len() ==> #[trigger] mv[k] == (
                            members@[k].0@,
                            members@[k].1@,
                        ),
                    texts == members_texts(mv),
                    texts.len() == members@.len(),
                    forall|k: int|
                        0 <= k < members@.len() ==> #[trigger] texts[k] == json_quoted(mv[k].0)
                            + seq![':'] + json_text(mv[k].1),
                    out@ == start + seq!['{'] + join_with(texts.take(i as int), seq![',']),
                decreases members@.len() - i,
            {
                proof {
                    lemma_join_step(texts, seq![','], i as int);
                }
                if i > 0 {
                    out.push(',');
                }
                let q = json_quote(members[i].0.as_str());
                let cs = chars_of(q.as_str());
                push_chars(out, cs.as_slice());
                out.push(':');
                proof {
                    assert(v@->Object_0 == mv);
                    assert(decreases_to!(v@ => v@->Object_0));
                    assert(decreases_to!(mv => mv[i as int]));
                    assert(decreases_to!(mv[i as int] => mv[i as int].1));
                }
                write_json(&members[i].1, out);
                proof {
                    assert(texts[i as int] == json_quoted(mv[i as int].0) + seq![':'] + json_text(
                        mv[i as int].1,
                    ));
                    assert(out@ =~= start + seq!['{'] + join_with(texts.take(i + 1), seq![',']));
                }
                i = i + 1;
            }
            out.push('}');
            proof {
                assert(texts.take(members@.len() as int) =~= texts);
                assert(final(out)@ =~= old(out)@ + json_text(v@));
            }
        },
    }
}

impl Json {
    /// The compact JSON text of the value: for a value whose objects have
    /// distinct keys in sorted order (as `serde_json`'s map keeps them),
    /// what `Display` writes for the corresponding `serde_json::Value`.
    pub fn to_text(&self) -> (s: String)
        ensures
            s@ == json_text(self@),
    {
        let mut out: Vec<char> = Vec::new();
        write_json(self, &mut out);
        proof {
            assert(out@ =~= json_text(self@));
        }
        string_from_chars(out.as_slice())
    }
}

} // verus!
