//! JSON values: read from text by `serde_json`, held in a type of this crate.

use crate::double::parse::parsed_double;
use crate::double::Double;
use crate::lists::either;
use crate::text;
use vstd::prelude::*;

pub mod laws;

verus! {

/// The outside JSON value, which is opaque here; `held` says what it holds.
#[verifier::external_type_specification]
#[verifier::external_body]
pub struct ExValue(serde_json::Value);

/// What a JSON number can be read as.
#[derive(Clone, Copy, Debug)]
pub struct Number {
    pub float: Option<Double>,
    pub signed: Option<i64>,
    pub unsigned: Option<u64>,
}

/// A JSON value as mathematics sees it. The members of an object are in the
/// order in which the value yields them.
#[verifier::ext_equal]
pub enum Tree {
    Null,
    Bool(bool),
    Number(Number),
    Text(Seq<char>),
    List(Seq<Tree>),
    Object(Seq<(Seq<char>, Tree)>),
}

/// A JSON value.
#[derive(Debug)]
pub enum Json {
    Null,
    Bool(bool),
    Number(Number),
    Text(String),
    List(Vec<Json>),
    Object(Vec<(String, Json)>),
}

/// An outside value, opened by one level.
pub enum Opened {
    Null,
    Bool(bool),
    Number(Number),
    Text(String),
    List(Vec<serde_json::Value>),
    Object(Vec<(String, serde_json::Value)>),
}

/// What an outside value holds.
pub uninterp spec fn held(value: serde_json::Value) -> Tree;

/// What a text says as JSON; nothing where it is no JSON.
pub uninterp spec fn parsed_json(s: Seq<char>) -> Option<Tree>;

/// The text that a JSON value is written as.
pub uninterp spec fn written_json(tree: Tree) -> Seq<char>;

impl Opened {
    pub open spec fn tree(self) -> Tree {
        match self {
            Opened::Null => Tree::Null,
            Opened::Bool(b) => Tree::Bool(b),
            Opened::Number(n) => Tree::Number(n),
            Opened::Text(s) => Tree::Text(s@),
            Opened::List(items) => Tree::List(Seq::new(items@.len(), |i: int| held(items@[i]))),
            Opened::Object(members) => Tree::Object(
                Seq::new(members@.len(), |i: int| (members@[i].0@, held(members@[i].1))),
            ),
        }
    }
}

/// `serde_json::from_str`, of which only the name `parsed_json` is claimed: what
/// it returns depends on the text alone.
#[verifier::external_body]
fn parse_value(text: &str) -> (result: Option<serde_json::Value>)
    ensures
        match result {
            Some(value) => parsed_json(text@) == Some(held(value)),
            None => parsed_json(text@) is None,
        },
{
    serde_json::from_str(text).ok()
}

/// `serde_json::Value`, told apart by its variants: the fields are handed out as
/// they are, an object's members in the order of `serde_json::Map`, and a number
/// by `as_f64`, `as_i64` and `as_u64`.
#[verifier::external_body]
fn open_value(value: serde_json::Value) -> (opened: Opened)
    ensures
        opened.tree() == held(value),
{
    match value {
        serde_json::Value::Null => Opened::Null,
        serde_json::Value::Bool(b) => Opened::Bool(b),
        serde_json::Value::Number(n) => Opened::Number(Number {
            float: n.as_f64().map(|x| Double { bits: x.to_bits() }),
            signed: n.as_i64(),
            unsigned: n.as_u64(),
        }),
        serde_json::Value::String(s) => Opened::Text(s),
        serde_json::Value::Array(items) => Opened::List(items),
        serde_json::Value::Object(members) => Opened::Object(members.into_iter().collect()),
    }
}

impl Json {
    pub open spec fn tree(self) -> Tree
        decreases self,
    {
        match self {
            Json::Null => Tree::Null,
            Json::Bool(b) => Tree::Bool(b),
            Json::Number(n) => Tree::Number(n),
            Json::Text(s) => Tree::Text(s@),
            Json::List(items) => Tree::List(
                Seq::new(
                    items@.len(),
                    |i: int|
                        if 0 <= i < items@.len() {
                            items@[i].tree()
                        } else {
                            Tree::Null
                        },
                ),
            ),
            Json::Object(members) => Tree::Object(
                Seq::new(
                    members@.len(),
                    |i: int|
                        if 0 <= i < members@.len() {
                            (members@[i].0@, members@[i].1.tree())
                        } else {
                            (Seq::empty(), Tree::Null)
                        },
                ),
            ),
        }
    }
}

/// `serde_json::Value::String` holds the text that it is made of.
#[verifier::external_body]
pub(crate) fn text_value(s: String) -> (value: serde_json::Value)
    ensures
        held(value) == Tree::Text(s@),
{
    serde_json::Value::String(s)
}

/// Members come in the order of their names, no name twice.
pub open spec fn ascending(members: Seq<(Seq<char>, Tree)>) -> bool {
    forall|i: int, j: int|
        0 <= i < j < members.len() ==> text::precedes(
            (#[trigger] members[i]).0,
            (#[trigger] members[j]).0,
        )
}

/// `serde_json::Value::Object` of a `serde_json::Map` collected from members. The
/// map keeps its members in the order of their names, so that members which are
/// given in that order, no name twice, stay as they are.
#[verifier::external_body]
pub(crate) fn object_value(members: Vec<(String, serde_json::Value)>) -> (value: serde_json::Value)
    requires
        Opened::Object(members).tree() matches Tree::Object(pairs) && ascending(pairs),
    ensures
        held(value) == Opened::Object(members).tree(),
{
    serde_json::Value::Object(members.into_iter().collect())
}

/// `serde_json::Value` as its `Display` writes it, of which only the name
/// `written_json` is claimed: the text depends on what the value holds alone.
#[verifier::external_body]
pub(crate) fn value_text(value: &serde_json::Value) -> (text: String)
    ensures
        text@ == written_json(held(*value)),
{
    value.to_string()
}

/// An outside value as a value of this crate.
pub fn read_value(value: serde_json::Value) -> (json: Json)
    ensures
        json.tree() == held(value),
    decreases held(value),
{
    match open_value(value) {
        Opened::Null => Json::Null,
        Opened::Bool(b) => Json::Bool(b),
        Opened::Number(n) => Json::Number(n),
        Opened::Text(s) => Json::Text(s),
        Opened::List(items) => {
            let ghost all = items@;
            let ghost whole = held(value);
            let mut out: Vec<Json> = Vec::new();
            for item in it: items
                invariant
                    it.seq() == all,
                    whole == held(value),
                    whole == Tree::List(Seq::new(all.len(), |i: int| held(all[i]))),
                    out@.len() == it.index(),
                    forall|i: int| 0 <= i < out@.len() ==> (#[trigger] out@[i]).tree() == held(all[i]),
            {
                proof {
                    let inside = whole->List_0;
                    assert(inside[it.index()] == held(item));
                    assert(decreases_to!(whole => whole->List_0));
                    assert(decreases_to!(inside => inside[it.index()]));
                }
                out.push(read_value(item));
            }
            let json: Json = Json::List(out);
            assert(json.tree()->List_0 =~= whole->List_0);
            json
        },
        Opened::Object(members) => {
            let ghost all = members@;
            let ghost whole = held(value);
            let mut out: Vec<(String, Json)> = Vec::new();
            for member in it: members
                invariant
                    it.seq() == all,
                    whole == held(value),
                    whole == Tree::Object(
                        Seq::new(all.len(), |i: int| (all[i].0@, held(all[i].1))),
                    ),
                    out@.len() == it.index(),
                    forall|i: int|
                        0 <= i < out@.len() ==> (#[trigger] out@[i]).0@ == all[i].0@
                            && out@[i].1.tree() == held(all[i].1),
            {
                proof {
                    let pairs = whole->Object_0;
                    assert(pairs[it.index()] == (member.0@, held(member.1)));
                    assert(decreases_to!(whole => whole->Object_0));
                    assert(decreases_to!(pairs => pairs[it.index()]));
                    assert(decreases_to!(pairs[it.index()] => pairs[it.index()].1));
                }
                let (name, inner) = member;
                out.push((name, read_value(inner)));
            }
            let json: Json = Json::Object(out);
            assert(json.tree()->Object_0 =~= whole->Object_0);
            json
        },
    }
}

/// Reads a text as JSON.
pub fn parse_json(text: &str) -> (result: Option<Json>)
    ensures
        match result {
            Some(json) => parsed_json(text@) == Some(json.tree()),
            None => parsed_json(text@) is None,
        },
{
    match parse_value(text) {
        Some(value) => Some(read_value(value)),
        None => None,
    }
}

/// The first member of a name.
pub open spec fn member_named(members: Seq<(Seq<char>, Tree)>, name: Seq<char>) -> Option<Tree>
    decreases members.len(),
{
    if members.len() == 0 {
        None
    } else if members[0].0 == name {
        Some(members[0].1)
    } else {
        member_named(members.drop_first(), name)
    }
}

impl Number {
    /// The number, by the first reading that it has.
    pub open spec fn double(self) -> Option<Double> {
        either(
            self.float,
            either(
                match self.signed {
                    Some(n) => Some(Double::of_integer(n as int)),
                    None => None,
                },
                match self.unsigned {
                    Some(n) => Some(Double::of_integer(n as int)),
                    None => None,
                },
            ),
        )
    }

    /// The number as a 64-bit integer, by the first reading that it has. An
    /// unsigned one keeps its bits; of another the fraction is cut off.
    pub open spec fn integer(self) -> Option<int> {
        match (self.signed, self.unsigned, self.float) {
            (Some(n), _, _) => Some(n as int),
            (None, Some(n), _) => Some(
                if n > i64::MAX {
                    n - 0x1_0000_0000_0000_0000
                } else {
                    n as int
                },
            ),
            (None, None, Some(x)) => Some(x.whole()),
            (None, None, None) => None,
        }
    }

    fn to_double(self) -> (result: Option<Double>)
        ensures
            result == self.double(),
    {
        match self.float {
            Some(x) => Some(x),
            None => match self.signed {
                Some(n) => Some(Double::from_signed(n)),
                None => match self.unsigned {
                    Some(n) => Some(Double::from_unsigned(n)),
                    None => None,
                },
            },
        }
    }

    fn to_integer(self) -> (result: Option<i64>)
        ensures
            match result {
                Some(n) => self.integer() == Some(n as int),
                None => self.integer() is None,
            },
    {
        match self.signed {
            Some(n) => Some(n),
            None => match self.unsigned {
                Some(n) => Some(
                    if n > 0x7fff_ffff_ffff_ffff {
                        (n as i128 - 0x1_0000_0000_0000_0000) as i64
                    } else {
                        n as i64
                    },
                ),
                None => match self.float {
                    Some(x) => Some(x.to_whole()),
                    None => None,
                },
            },
        }
    }
}

impl Tree {
    /// The member of a name; nothing of what is no object.
    pub open spec fn field(self, name: Seq<char>) -> Option<Tree> {
        match self {
            Tree::Object(members) => member_named(members, name),
            _ => None,
        }
    }

    pub open spec fn text(self) -> Option<Seq<char>> {
        match self {
            Tree::Text(s) => Some(s),
            _ => None,
        }
    }

    /// The finite number that a value is, or that its text denotes.
    pub open spec fn number(self) -> Option<Double> {
        match self {
            Tree::Number(n) => match n.double() {
                Some(x) if x.finite() => Some(x),
                _ => None,
            },
            Tree::Text(s) => parsed_double(s),
            _ => None,
        }
    }

    /// The 64-bit integer that a value is, or that its text denotes.
    pub open spec fn integer(self) -> Option<int> {
        match self {
            Tree::Number(n) => n.integer(),
            Tree::Text(s) => text::parsed_integer(s),
            _ => None,
        }
    }

    pub open spec fn text_at(self, name: Seq<char>) -> Option<Seq<char>> {
        match self.field(name) {
            Some(value) => value.text(),
            None => None,
        }
    }

    pub open spec fn number_at(self, name: Seq<char>) -> Option<Double> {
        match self.field(name) {
            Some(value) => value.number(),
            None => None,
        }
    }

    pub open spec fn integer_at(self, name: Seq<char>) -> Option<int> {
        match self.field(name) {
            Some(value) => value.integer(),
            None => None,
        }
    }

    /// The items of a list; none of what is no list.
    pub open spec fn items(self) -> Seq<Tree> {
        match self {
            Tree::List(items) => items,
            _ => seq![],
        }
    }

    /// The items of the list that a member is.
    pub open spec fn items_at(self, name: Seq<char>) -> Seq<Tree> {
        match self.field(name) {
            Some(value) => value.items(),
            None => seq![],
        }
    }

    /// The members of an object; none of what is no object.
    pub open spec fn members(self) -> Seq<(Seq<char>, Tree)> {
        match self {
            Tree::Object(members) => members,
            _ => seq![],
        }
    }
}

impl Json {
    pub fn get(&self, name: &str) -> (result: Option<&Json>)
        ensures
            match result {
                Some(json) => self.tree().field(name@) == Some(json.tree()),
                None => self.tree().field(name@) is None,
            },
    {
        match self {
            Json::Object(members) => {
                let ghost pairs = self.tree()->Object_0;
                let mut i: usize = 0;
                assert(pairs.skip(0) == pairs);
                while i < members.len()
                    invariant
                        i <= members.len(),
                        *self == Json::Object(*members),
                        self.tree() == Tree::Object(pairs),
                        pairs.len() == members@.len(),
                        member_named(pairs, name@) == member_named(pairs.skip(i as int), name@),
                    decreases members.len() - i,
                {
                    assert(pairs[i as int] == (members@[i as int].0@, members@[i as int].1.tree()));
                    assert(pairs.skip(i as int)[0] == pairs[i as int]);
                    if text::text_equal(members[i].0.as_str(), name) {
                        return Some(&members[i].1);
                    }
                    assert(pairs.skip(i as int).drop_first() == pairs.skip(i + 1));
                    i = i + 1;
                }
                None
            },
            _ => None,
        }
    }

    pub fn as_text(&self) -> (result: Option<&str>)
        ensures
            match result {
                Some(s) => self.tree().text() == Some(s@),
                None => self.tree().text() is None,
            },
    {
        match self {
            Json::Text(s) => Some(s.as_str()),
            _ => None,
        }
    }

    pub fn number(&self) -> (result: Option<Double>)
        ensures
            result == self.tree().number(),
    {
        match self {
            Json::Number(n) => match n.to_double() {
                Some(x) => if x.is_finite() {
                    Some(x)
                } else {
                    None
                },
                None => None,
            },
            Json::Text(s) => {
                let chars: Vec<char> = text::chars_of(s.as_str());
                Double::parse(chars.as_slice())
            },
            _ => None,
        }
    }

    pub fn integer(&self) -> (result: Option<i64>)
        ensures
            match result {
                Some(n) => self.tree().integer() == Some(n as int),
                None => self.tree().integer() is None,
            },
    {
        match self {
            Json::Number(n) => n.to_integer(),
            Json::Text(s) => {
                let chars: Vec<char> = text::chars_of(s.as_str());
                text::parse_integer(chars.as_slice())
            },
            _ => None,
        }
    }

    pub fn text_at(&self, name: &str) -> (result: Option<&str>)
        ensures
            match result {
                Some(s) => self.tree().text_at(name@) == Some(s@),
                None => self.tree().text_at(name@) is None,
            },
    {
        match self.get(name) {
            Some(value) => value.as_text(),
            None => None,
        }
    }

    pub fn number_at(&self, name: &str) -> (result: Option<Double>)
        ensures
            result == self.tree().number_at(name@),
    {
        match self.get(name) {
            Some(value) => value.number(),
            None => None,
        }
    }

    pub fn integer_at(&self, name: &str) -> (result: Option<i64>)
        ensures
            match result {
                Some(n) => self.tree().integer_at(name@) == Some(n as int),
                None => self.tree().integer_at(name@) is None,
            },
    {
        match self.get(name) {
            Some(value) => value.integer(),
            None => None,
        }
    }

    /// The items of the list that a member is.
    pub fn items_at(&self, name: &str) -> (result: Option<&Vec<Json>>)
        ensures
            match result {
                Some(items) => self.tree().items_at(name@) == trees(items@),
                None => self.tree().items_at(name@) == Seq::<Tree>::empty(),
            },
    {
        match self.get(name) {
            Some(value) => value.as_list(),
            None => None,
        }
    }

    pub fn as_list(&self) -> (result: Option<&Vec<Json>>)
        ensures
            match result {
                Some(items) => self.tree() == Tree::List(trees(items@)),
                None => !(self.tree() is List),
            },
    {
        match self {
            Json::List(items) => {
                assert(self.tree()->List_0 =~= trees(items@));
                Some(items)
            },
            _ => None,
        }
    }

    pub fn as_object(&self) -> (result: Option<&Vec<(String, Json)>>)
        ensures
            match result {
                Some(members) => self.tree() == Tree::Object(named_trees(members@)),
                None => !(self.tree() is Object),
            },
    {
        match self {
            Json::Object(members) => {
                assert(self.tree()->Object_0 =~= named_trees(members@));
                Some(members)
            },
            _ => None,
        }
    }

    pub fn as_bool(&self) -> (result: Option<bool>)
        ensures
            match result {
                Some(b) => self.tree() == Tree::Bool(b),
                None => !(self.tree() is Bool),
            },
    {
        match self {
            Json::Bool(b) => Some(*b),
            _ => None,
        }
    }
}

/// What values hold, one by one.
pub open spec fn trees(items: Seq<Json>) -> Seq<Tree> {
    Seq::new(items.len(), |i: int| items[i].tree())
}

/// What members hold, one by one.
pub open spec fn named_trees(members: Seq<(String, Json)>) -> Seq<(Seq<char>, Tree)> {
    Seq::new(members.len(), |i: int| (members[i].0@, members[i].1.tree()))
}

} // verus!
