//! JSON values as frames carry them, with a mathematical view.
use vstd::prelude::*;
use vstd::string::StringExecFns;

verus! {

/// A JSON number: a non-negative integer, a negative integer, or any other
/// number kept as its decimal text.
#[derive(Debug, PartialEq, Eq)]
pub enum JsonNumber {
    PosInt(u64),
    NegInt(i64),
    Float(String),
}

/// A JSON value. Arrays and objects are linked lists, so that values can be
/// copied and compared through their view.
#[derive(Debug, PartialEq, Eq)]
pub enum Json {
    Null,
    Bool(bool),
    Number(JsonNumber),
    Str(String),
    Array(Items),
    Object(Fields),
}

/// The elements of a JSON array, in order.
#[derive(Debug, PartialEq, Eq)]
pub enum Items {
    Nil,
    Cons(Box<Json>, Box<Items>),
}

/// The members of a JSON object, in order.
#[derive(Debug, PartialEq, Eq)]
pub enum Fields {
    Nil,
    Cons(String, Box<Json>, Box<Fields>),
}

/// The mathematical value of a [`Json`].
pub enum JsonView {
    Null,
    Bool(bool),
    PosInt(u64),
    NegInt(i64),
    Float(Seq<char>),
    Str(Seq<char>),
    Array(Seq<JsonView>),
    Object(Seq<(Seq<char>, JsonView)>),
}

pub open spec fn view_json(j: Json) -> JsonView
    decreases j,
{
    match j {
        Json::Null => JsonView::Null,
        Json::Bool(b) => JsonView::Bool(b),
        Json::Number(JsonNumber::PosInt(n)) => JsonView::PosInt(n),
        Json::Number(JsonNumber::NegInt(n)) => JsonView::NegInt(n),
        Json::Number(JsonNumber::Float(t)) => JsonView::Float(t@),
        Json::Str(s) => JsonView::Str(s@),
        Json::Array(items) => JsonView::Array(view_items(items)),
        Json::Object(fields) => JsonView::Object(view_fields(fields)),
    }
}

pub open spec fn view_items(items: Items) -> Seq<JsonView>
    decreases items,
{
    match items {
        Items::Nil => Seq::empty(),
        Items::Cons(head, tail) => seq![view_json(*head)] + view_items(*tail),
    }
}

pub open spec fn view_fields(fields: Fields) -> Seq<(Seq<char>, JsonView)>
    decreases fields,
{
    match fields {
        Fields::Nil => Seq::empty(),
        Fields::Cons(key, value, tail) => seq![(key@, view_json(*value))] + view_fields(*tail),
    }
}

impl View for Json {
    type V = JsonView;

    open spec fn view(&self) -> JsonView {
        view_json(*self)
    }
}

impl View for Fields {
    type V = Seq<(Seq<char>, JsonView)>;

    open spec fn view(&self) -> Seq<(Seq<char>, JsonView)> {
        view_fields(*self)
    }
}

/// The value of the first member named `key`, if any.
pub open spec fn lookup(fields: Seq<(Seq<char>, JsonView)>, key: Seq<char>) -> Option<JsonView>
    decreases fields.len(),
{
    if fields.len() == 0 {
        None
    } else if fields[0].0 == key {
        Some(fields[0].1)
    } else {
        lookup(fields.drop_first(), key)
    }
}

/// The member `key` of an object; `None` for a value that is not an object.
pub open spec fn field(j: JsonView, key: Seq<char>) -> Option<JsonView> {
    match j {
        JsonView::Object(fields) => lookup(fields, key),
        _ => None,
    }
}

/// `fields` with the first member named `key` given the value `value`, or
/// with that member appended when there is none.
pub open spec fn put(fields: Seq<(Seq<char>, JsonView)>, key: Seq<char>, value: JsonView) -> Seq<
    (Seq<char>, JsonView),
>
    decreases fields.len(),
{
    if fields.len() == 0 {
        seq![(key, value)]
    } else if fields[0].0 == key {
        seq![(key, value)] + fields.drop_first()
    } else {
        seq![fields[0]] + put(fields.drop_first(), key, value)
    }
}

pub proof fn lemma_lookup_put(fields: Seq<(Seq<char>, JsonView)>, key: Seq<char>, value: JsonView, other: Seq<char>)
    ensures
        lookup(put(fields, key, value), key) == Some(value),
        other != key ==> lookup(put(fields, key, value), other) == lookup(fields, other),
    decreases fields.len(),
{
    let p = put(fields, key, value);
    if fields.len() == 0 {
        assert(p.drop_first() =~= Seq::<(Seq<char>, JsonView)>::empty());
        assert(lookup(p.drop_first(), other) is None);
    } else if fields[0].0 == key {
        assert(p.drop_first() =~= fields.drop_first());
    } else {
        lemma_lookup_put(fields.drop_first(), key, value, other);
        assert(p.drop_first() =~= put(fields.drop_first(), key, value));
    }
}

/// Whether two strings hold the same characters.
pub fn same_text(a: &str, b: &str) -> (r: bool)
    ensures
        r == (a@ == b@),
{
    a.to_owned() == b.to_owned()
}

impl JsonNumber {
    pub fn copy(&self) -> (r: JsonNumber)
        ensures
            view_json(Json::Number(r)) == view_json(Json::Number(*self)),
    {
        match self {
            JsonNumber::PosInt(n) => JsonNumber::PosInt(*n),
            JsonNumber::NegInt(n) => JsonNumber::NegInt(*n),
            JsonNumber::Float(t) => JsonNumber::Float(t.clone()),
        }
    }
}

impl Json {
    /// A string value.
    pub fn string(s: &str) -> (r: Json)
        ensures
            r@ == JsonView::Str(s@),
    {
        Json::Str(String::from_str(s))
    }

    /// A non-negative integer value.
    pub fn uint(n: u64) -> (r: Json)
        ensures
            r@ == JsonView::PosInt(n),
    {
        Json::Number(JsonNumber::PosInt(n))
    }

    /// The empty object.
    pub fn empty_object() -> (r: Json)
        ensures
            r@ == JsonView::Object(Seq::empty()),
    {
        Json::Object(Fields::Nil)
    }

    /// A copy of this value.
    pub fn copy(&self) -> (r: Json)
        ensures
            r@ == self@,
        decreases self,
    {
        match self {
            Json::Null => Json::Null,
            Json::Bool(b) => Json::Bool(*b),
            Json::Number(n) => Json::Number(n.copy()),
            Json::Str(s) => Json::Str(s.clone()),
            Json::Array(items) => Json::Array(items.copy()),
            Json::Object(fields) => Json::Object(fields.copy()),
        }
    }

    /// Whether this value is an object.
    pub fn is_object(&self) -> (r: bool)
        ensures
            r == (self@ is Object),
    {
        match self {
            Json::Object(_) => true,
            _ => false,
        }
    }

    /// The member `key` of this value, when it is an object that has one.
    pub fn get(&self, key: &str) -> (r: Option<&Json>)
        ensures
            r matches Some(v) ==> field(self@, key@) == Some(v@),
            r is None ==> field(self@, key@) is None,
    {
        match self {
            Json::Object(fields) => fields.get(key),
            _ => None,
        }
    }

    /// The member `key` as a non-negative integer, if it is one.
    pub fn get_u64(&self, key: &str) -> (r: Option<u64>)
        ensures
            r == match field(self@, key@) {
                Some(JsonView::PosInt(n)) => Some(n),
                _ => None::<u64>,
            },
    {
        match self.get(key) {
            Some(Json::Number(JsonNumber::PosInt(n))) => Some(*n),
            _ => None,
        }
    }

    /// The member `key` as a string, if it is one.
    pub fn get_str(&self, key: &str) -> (r: Option<&str>)
        ensures
            match field(self@, key@) {
                Some(JsonView::Str(s)) => r matches Some(t) && t@ == s,
                _ => r is None,
            },
    {
        match self.get(key) {
            Some(Json::Str(s)) => Some(s.as_str()),
            _ => None,
        }
    }

    /// This value with the member `key` set to `value`; a value that is not an
    /// object becomes an object holding that member alone.
    pub fn with_field(self, key: &str, value: Json) -> (r: Json)
        ensures
            r@ == JsonView::Object(
                put(
                    match self@ {
                        JsonView::Object(fs) => fs,
                        _ => Seq::empty(),
                    },
                    key@,
                    value@,
                ),
            ),
    {
        match self {
            Json::Object(fields) => Json::Object(fields.put(String::from_str(key), value)),
            _ => Json::Object(Fields::Nil.put(String::from_str(key), value)),
        }
    }
}

impl Items {
    pub fn copy(&self) -> (r: Items)
        ensures
            view_items(r) == view_items(*self),
        decreases self,
    {
        match self {
            Items::Nil => Items::Nil,
            Items::Cons(head, tail) => Items::Cons(Box::new((**head).copy()), Box::new((**tail).copy())),
        }
    }
}

impl Fields {
    /// These members with `(key, value)` put in front.
    pub fn prepend(key: &str, value: Json, rest: Fields) -> (r: Fields)
        ensures
            r@ == seq![(key@, value@)] + rest@,
    {
        Fields::Cons(String::from_str(key), Box::new(value), Box::new(rest))
    }

    pub fn copy(&self) -> (r: Fields)
        ensures
            r@ == self@,
        decreases self,
    {
        match self {
            Fields::Nil => Fields::Nil,
            Fields::Cons(key, value, tail) => Fields::Cons(
                key.clone(),
                Box::new((**value).copy()),
                Box::new((**tail).copy()),
            ),
        }
    }

    /// The value of the first member named `key`.
    pub fn get(&self, key: &str) -> (r: Option<&Json>)
        ensures
            r matches Some(v) ==> lookup(self@, key@) == Some(v@),
            r is None ==> lookup(self@, key@) is None,
        decreases self,
    {
        match self {
            Fields::Nil => {
                None
            },
            Fields::Cons(k, value, tail) => {
                proof {
                    assert(self@.drop_first() =~= tail@);
                }
                if same_text(k.as_str(), key) {
                    Some(&**value)
                } else {
                    (**tail).get(key)
                }
            },
        }
    }

    /// These members with the first one named `key` given `value`, or with
    /// `(key, value)` appended.
    pub fn put(self, key: String, value: Json) -> (r: Fields)
        ensures
            r@ == put(self@, key@, value@),
        decreases self,
    {
        let ghost old_view = self@;
        match self {
            Fields::Nil => Fields::Cons(key, Box::new(value), Box::new(Fields::Nil)),
            Fields::Cons(k, v, tail) => {
                proof {
                    assert(old_view.drop_first() =~= tail@);
                }
                if same_text(k.as_str(), key.as_str()) {
                    Fields::Cons(key, Box::new(value), tail)
                } else {
                    let rest = (*tail).put(key, value);
                    Fields::Cons(k, v, Box::new(rest))
                }
            },
        }
    }
}

} // verus!
