//! JSON documents as plain trees.

use crate::double::Double;
use vstd::prelude::*;

verus! {

/// A JSON document as a mathematical value. A number is held by the bit
/// pattern of the binary64 number it is read as, if it is read as one.
pub enum JsonView {
    Null,
    Bool(bool),
    Number(Option<u64>),
    Text(Seq<char>),
    Array(Seq<JsonView>),
    Object(Seq<(Seq<char>, JsonView)>),
}

/// The value of the first member called `key`.
pub open spec fn lookup(members: Seq<(Seq<char>, JsonView)>, key: Seq<char>) -> Option<JsonView>
    decreases members.len(),
{
    if members.len() == 0 {
        None
    } else if members[0].0 == key {
        Some(members[0].1)
    } else {
        lookup(members.drop_first(), key)
    }
}

impl JsonView {
    /// The member of an object called `key`.
    pub open spec fn member(self, key: Seq<char>) -> Option<JsonView> {
        match self {
            JsonView::Object(members) => lookup(members, key),
            _ => None,
        }
    }

    /// The element of an array at place `i`.
    pub open spec fn element(self, i: int) -> Option<JsonView> {
        match self {
            JsonView::Array(items) => if 0 <= i < items.len() {
                Some(items[i])
            } else {
                None
            },
            _ => None,
        }
    }

    /// The elements of an array.
    pub open spec fn elements(self) -> Option<Seq<JsonView>> {
        match self {
            JsonView::Array(items) => Some(items),
            _ => None,
        }
    }

    /// The text of a string.
    pub open spec fn string(self) -> Option<Seq<char>> {
        match self {
            JsonView::Text(s) => Some(s),
            _ => None,
        }
    }

    /// A number as a binary64 number.
    pub open spec fn number(self) -> Option<Double> {
        match self {
            JsonView::Number(Some(bits)) => Some(Double { bits }),
            _ => None,
        }
    }
}

/// A JSON document.
pub enum Json {
    Null,
    Bool(bool),
    Number(Option<u64>),
    Text(String),
    Array(Vec<Json>),
    Object(Vec<(String, Json)>),
}

/// What a reference to a document shows, if there is one.
pub open spec fn shown(j: Option<&Json>) -> Option<JsonView> {
    match j {
        Some(j) => Some(j.view()),
        None => None,
    }
}

impl Json {
    /// The document as a mathematical value.
    pub open spec fn view(&self) -> JsonView
        decreases self,
    {
        match self {
            Json::Null => JsonView::Null,
            Json::Bool(b) => JsonView::Bool(*b),
            Json::Number(n) => JsonView::Number(*n),
            Json::Text(s) => JsonView::Text(s@),
            Json::Array(items) => JsonView::Array(
                Seq::new(
                    items@.len(),
                    |i: int|
                        if 0 <= i < items@.len() {
                            items@[i].view()
                        } else {
                            JsonView::Null
                        },
                ),
            ),
            Json::Object(members) => JsonView::Object(
                Seq::new(
                    members@.len(),
                    |i: int|
                        if 0 <= i < members@.len() {
                            (members@[i].0@, members@[i].1.view())
                        } else {
                            (seq![], JsonView::Null)
                        },
                ),
            ),
        }
    }

    /// The member of an object called `key`.
    pub fn get(&self, key: &str) -> (r: Option<&Json>)
        ensures
            shown(r) == self.view().member(key@),
    {
        match self {
            Json::Object(members) => {
                let wanted: String = key.to_owned();
                let ghost all = self.view()->Object_0;
                proof {
                    assert(all.skip(0) =~= all);
                }
                let mut i: usize = 0;
                while i < members.len()
                    invariant
                        i <= members.len(),
                        *self == Json::Object(*members),
                        all == self.view()->Object_0,
                        wanted@ == key@,
                        lookup(all, key@) == lookup(all.skip(i as int), key@),
                    decreases members.len() - i,
                {
                    proof {
                        assert(all.skip(i as int).drop_first() =~= all.skip(i + 1));
                    }
                    if members[i].0 == wanted {
                        return Some(&members[i].1);
                    }
                    i = i + 1;
                }
                None
            },
            _ => None,
        }
    }

    /// The element of an array at place `i`.
    pub fn at(&self, i: usize) -> (r: Option<&Json>)
        ensures
            shown(r) == self.view().element(i as int),
    {
        match self {
            Json::Array(items) => if i < items.len() {
                Some(&items[i])
            } else {
                None
            },
            _ => None,
        }
    }

    /// The elements of an array.
    pub fn as_array(&self) -> (r: Option<&Vec<Json>>)
        ensures
            match r {
                Some(items) => self == Json::Array(*items),
                None => self.view().elements() is None,
            },
    {
        match self {
            Json::Array(items) => Some(items),
            _ => None,
        }
    }

    /// The text of a string.
    pub fn as_text(&self) -> (r: Option<&String>)
        ensures
            match r {
                Some(s) => self.view().string() == Some(s@),
                None => self.view().string() is None,
            },
    {
        match self {
            Json::Text(s) => Some(s),
            _ => None,
        }
    }

    /// A number as a binary64 number.
    pub fn as_number(&self) -> (r: Option<Double>)
        ensures
            r == self.view().number(),
    {
        match self {
            Json::Number(Some(bits)) => Some(Double { bits: *bits }),
            _ => None,
        }
    }
}

/// `serde_json::Value`, a document as the serde_json crate holds it.
#[verifier::external_type_specification]
#[verifier::external_body]
pub struct ExValue(serde_json::Value);

/// What a `serde_json::Value` holds, down to its leaves.
pub uninterp spec fn value_tree(v: serde_json::Value) -> JsonView;

/// The document that `serde_json::from_str` reads from a text, or `None` where
/// it reports an error.
pub uninterp spec fn document(text: Seq<char>) -> Option<JsonView>;

/// The top level of a `serde_json::Value`.
enum Layer<'a> {
    Null,
    Bool(bool),
    Number(Option<u64>),
    Text(&'a String),
    Array(&'a Vec<serde_json::Value>),
    Object(Vec<(&'a String, &'a serde_json::Value)>),
}

/// What a value with this top level holds.
spec fn layer_tree(l: Layer) -> JsonView {
    match l {
        Layer::Null => JsonView::Null,
        Layer::Bool(b) => JsonView::Bool(b),
        Layer::Number(n) => JsonView::Number(n),
        Layer::Text(s) => JsonView::Text(s@),
        Layer::Array(items) => JsonView::Array(
            items@.map_values(|v: serde_json::Value| value_tree(v)),
        ),
        Layer::Object(members) => JsonView::Object(
            members@.map_values(|m: (&String, &serde_json::Value)| (m.0@, value_tree(*m.1))),
        ),
    }
}

/// What a value holds is what its top level hands out, each part in its place.
proof fn law_layers_hold_their_parts(l: Layer)
    ensures
        l is Null <==> layer_tree(l) is Null,
        l matches Layer::Bool(b) ==> layer_tree(l) == JsonView::Bool(b),
        l matches Layer::Number(n) ==> layer_tree(l) == JsonView::Number(n),
        l matches Layer::Text(s) ==> layer_tree(l) == JsonView::Text(s@),
        l matches Layer::Array(items) ==> layer_tree(l) is Array && layer_tree(l)->Array_0.len()
            == items@.len() && forall|i: int|
            0 <= i < items@.len() ==> #[trigger] layer_tree(l)->Array_0[i] == value_tree(items@[i]),
        l matches Layer::Object(members) ==> layer_tree(l) is Object && layer_tree(
            l,
        )->Object_0.len() == members@.len() && forall|i: int|
            0 <= i < members@.len() ==> #[trigger] layer_tree(l)->Object_0[i] == (
                members@[i].0@,
                value_tree(*members@[i].1),
            ),
{
}

/// `serde_json::from_str`, reading a `serde_json::Value`: what it reads, or
/// that it reports an error, is a function of the text alone.
#[verifier::external_body]
fn read_value(text: &str) -> (r: Option<serde_json::Value>)
    ensures
        document(text@) == (match r {
            Some(v) => Some(value_tree(v)),
            None => None,
        }),
{
    serde_json::from_str::<serde_json::Value>(text).ok()
}

/// Tells the variants of a `serde_json::Value` apart and hands out what they
/// hold: a number through `serde_json::Number::as_f64`, as a bit pattern, and
/// the members of an object in the order of `serde_json::Map::iter`.
#[verifier::external_body]
fn top_level<'a>(v: &'a serde_json::Value) -> (r: Layer<'a>)
    ensures
        layer_tree(r) == value_tree(*v),
{
    match v {
        serde_json::Value::Null => Layer::Null,
        serde_json::Value::Bool(b) => Layer::Bool(*b),
        serde_json::Value::Number(n) => Layer::Number(n.as_f64().map(|x| x.to_bits())),
        serde_json::Value::String(s) => Layer::Text(s),
        serde_json::Value::Array(items) => Layer::Array(items),
        serde_json::Value::Object(members) => Layer::Object(members.iter().collect()),
    }
}

/// The plain tree of a `serde_json::Value`.
fn plain(v: &serde_json::Value) -> (r: Json)
    ensures
        r.view() == value_tree(*v),
    decreases value_tree(*v),
{
    match top_level(v) {
        Layer::Null => Json::Null,
        Layer::Bool(b) => Json::Bool(b),
        Layer::Number(n) => Json::Number(n),
        Layer::Text(s) => Json::Text(s.clone()),
        Layer::Array(items) => {
            let mut trees: Vec<Json> = Vec::new();
            let ghost all = value_tree(*v)->Array_0;
            let mut i: usize = 0;
            while i < items.len()
                invariant
                    i <= items.len(),
                    value_tree(*v) == JsonView::Array(all),
                    all == items@.map_values(|v: serde_json::Value| value_tree(v)),
                    trees@.len() == i,
                    forall|j: int| 0 <= j < i ==> (#[trigger] trees@[j]).view() == all[j],
                decreases items.len() - i,
            {
                proof {
                    assert(all[i as int] == value_tree(items@[i as int]));
                    assert(decreases_to!(value_tree(*v) => value_tree(*v)->Array_0));
                    assert(decreases_to!(all => all[i as int]));
                }
                trees.push(plain(&items[i]));
                i = i + 1;
            }
            let r = Json::Array(trees);
            proof {
                assert(r.view()->Array_0 =~= all);
            }
            r
        },
        Layer::Object(members) => {
            let mut trees: Vec<(String, Json)> = Vec::new();
            let ghost all = value_tree(*v)->Object_0;
            let mut i: usize = 0;
            while i < members.len()
                invariant
                    i <= members.len(),
                    value_tree(*v) == JsonView::Object(all),
                    all == members@.map_values(
                        |m: (&String, &serde_json::Value)| (m.0@, value_tree(*m.1)),
                    ),
                    trees@.len() == i,
                    forall|j: int|
                        0 <= j < i ==> (#[trigger] trees@[j]).0@ == all[j].0
                            && trees@[j].1.view() == all[j].1,
                decreases members.len() - i,
            {
                proof {
                    assert(all[i as int].1 == value_tree(*members@[i as int].1));
                    assert(decreases_to!(value_tree(*v) => value_tree(*v)->Object_0));
                    assert(decreases_to!(all => all[i as int]));
                    assert(decreases_to!(all[i as int] => all[i as int].1));
                }
                trees.push((members[i].0.clone(), plain(members[i].1)));
                i = i + 1;
            }
            let r = Json::Object(trees);
            proof {
                assert(r.view()->Object_0 =~= all);
            }
            r
        },
    }
}

/// Reads a JSON document.
pub fn parse(text: &str) -> (r: Option<Json>)
    ensures
        document(text@) == (match r {
            Some(j) => Some(j.view()),
            None => None,
        }),
{
    match read_value(text) {
        Some(v) => Some(plain(&v)),
        None => None,
    }
}

} // verus!
