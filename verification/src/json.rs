//! JSON values of `serde_json`, and what they hold.
use crate::binary::Binary64;
use crate::ieee;
use crate::text;
use vstd::prelude::*;

verus! {

/// `serde_json::Value`, of which nothing is known but what [`tree`] says of it.
#[verifier::external_type_specification]
#[verifier::external_body]
pub struct ExValue(serde_json::Value);

/// What a JSON value holds. A number that is neither a whole number from 0 on nor a negative whole
/// number is held as a binary64 number. The order of the members of an object is left out.
pub enum Tree {
    Null,
    Bool(bool),
    Uint(u64),
    Int(i64),
    Real(Binary64),
    Text(Seq<char>),
    List(Seq<Tree>),
    Object(Map<Seq<char>, Tree>),
}

/// What a value holds.
pub uninterp spec fn tree(value: serde_json::Value) -> Tree;

/// What a text holds when it is read as JSON, or the message that says why it cannot be read.
pub uninterp spec fn parsed(text: Seq<char>) -> Result<Tree, Seq<char>>;

/// Whether a text, read as JSON, holds this.
pub open spec fn reads_as(text: Seq<char>, t: Tree) -> bool {
    parsed(text) == Ok::<Tree, Seq<char>>(t)
}

/// A value as compact JSON.
pub uninterp spec fn rendered(value: serde_json::Value) -> Seq<char>;

pub open spec fn trees(values: Seq<serde_json::Value>) -> Seq<Tree> {
    values.map_values(|value: serde_json::Value| tree(value))
}

/// The members of an object: of two with one key, the later one counts.
pub open spec fn gathered(members: Seq<(String, serde_json::Value)>) -> Map<Seq<char>, Tree>
    decreases members.len(),
{
    if members.len() == 0 {
        Map::empty()
    } else {
        gathered(members.drop_last()).insert(members.last().0@, tree(members.last().1))
    }
}

/// Whether a value holds no other numbers than whole ones, nested at most `depth` deep.
pub open spec fn is_plain(t: Tree, depth: nat) -> bool
    decreases depth,
{
    match t {
        Tree::Real(_) => false,
        Tree::List(items) => depth > 0 && forall|i: int|
            0 <= i < items.len() ==> is_plain(#[trigger] items[i], (depth - 1) as nat),
        Tree::Object(members) => depth > 0 && forall|key: Seq<char>|
            members.dom().contains(key) ==> is_plain(#[trigger] members[key], (depth - 1) as nat),
        _ => true,
    }
}

/// `serde_json::from_str`: reads a text as a JSON value. What it holds, or the message of the error,
/// is named by [`parsed`].
#[verifier::external_body]
pub(crate) fn parse(text: &str) -> (r: Result<serde_json::Value, String>)
    ensures
        match r {
            Ok(value) => reads_as(text@, tree(value)),
            Err(err) => parsed(text@) matches Err(e) && e == err@,
        },
{
    serde_json::from_str(text).map_err(|err| err.to_string())
}

/// `serde_json::Value::to_string`: compact JSON, which is named by [`rendered`]. It stands on one
/// line, and where it holds only whole numbers and is not nested too deep for the reader, reading it
/// gives back what the value holds. Of other numbers this is not said: the reader rounds some of
/// them to a neighbour.
#[verifier::external_body]
pub(crate) fn to_text(value: &serde_json::Value) -> (r: String)
    ensures
        r@ == rendered(*value),
        !r@.contains('\n'),
        is_plain(tree(*value), 100) ==> reads_as(r@, tree(*value)),
{
    value.to_string()
}

/// `serde_json::Value::get` with a key: the member of an object with that key; none of other
/// values.
#[verifier::external_body]
pub(crate) fn member<'a>(value: &'a serde_json::Value, key: &str) -> (r: Option<
    &'a serde_json::Value,
>)
    ensures
        match member_of(tree(*value), key@) {
            Some(t) => r matches Some(v) && tree(*v) == t,
            None => r is None,
        },
{
    value.get(key)
}

/// The member of an object with this key.
pub open spec fn member_of(t: Tree, key: Seq<char>) -> Option<Tree> {
    match t {
        Tree::Object(members) => if members.dom().contains(key) {
            Some(members[key])
        } else {
            None
        },
        _ => None,
    }
}

/// `serde_json::Value::as_array`: the items of a list; none of other values.
pub assume_specification[ serde_json::Value::as_array ](value: &serde_json::Value) -> (r: Option<
    &Vec<serde_json::Value>,
>)
    ensures
        match tree(*value) {
            Tree::List(items) => r matches Some(v) && trees(v@) == items,
            _ => r is None,
        },
;

/// `serde_json::Value::as_str`: a text; none of other values.
pub assume_specification[ serde_json::Value::as_str ](value: &serde_json::Value) -> (r: Option<&str>)
    ensures
        match tree(*value) {
            Tree::Text(s) => r matches Some(v) && v@ == s,
            _ => r is None,
        },
;

/// `serde_json::Value::clone`: a value that holds the same.
pub assume_specification[ <serde_json::Value as Clone>::clone ](value: &serde_json::Value) -> (r:
    serde_json::Value)
    ensures
        tree(r) == tree(*value),
;

/// `serde_json::Value::as_bool`: a truth value; none of other values.
pub assume_specification[ serde_json::Value::as_bool ](value: &serde_json::Value) -> (r: Option<bool>)
    ensures
        r == bool_of(tree(*value)),
;

/// `serde_json::Value::as_u64`: a whole number from 0 on; none of other values.
pub assume_specification[ serde_json::Value::as_u64 ](value: &serde_json::Value) -> (r: Option<u64>)
    ensures
        r == uint_of(tree(*value)),
;

pub open spec fn bool_of(t: Tree) -> Option<bool> {
    match t {
        Tree::Bool(b) => Some(b),
        _ => None,
    }
}

pub open spec fn uint_of(t: Tree) -> Option<u64> {
    match t {
        Tree::Uint(n) => Some(n),
        _ => None,
    }
}

pub open spec fn text_in(t: Tree) -> Option<Seq<char>> {
    match t {
        Tree::Text(s) => Some(s),
        _ => None,
    }
}

/// A number as a binary64 number.
pub open spec fn real_of(t: Tree) -> Option<Binary64> {
    match t {
        Tree::Uint(n) => Some(Binary64::spec_from_whole(n as nat)),
        Tree::Int(n) => Some(
            if n < 0 {
                Binary64::of(ieee::opposite(Binary64::spec_from_whole((-n) as nat).number()))
            } else {
                Binary64::spec_from_whole(n as nat)
            },
        ),
        Tree::Real(x) => Some(x),
        _ => None,
    }
}

/// `serde_json::Value::as_f64`: a number, rounded to binary64 where it is a whole one, and here given
/// by its bits; none of other values.
#[verifier::external_body]
pub(crate) fn as_real(value: &serde_json::Value) -> (r: Option<Binary64>)
    ensures
        r == real_of(tree(*value)),
{
    value.as_f64().map(|x| Binary64 { bits: x.to_bits() })
}

/// `serde_json::Value::from` for a text.
#[verifier::external_body]
pub(crate) fn from_text(s: &str) -> (r: serde_json::Value)
    ensures
        tree(r) == Tree::Text(s@),
{
    serde_json::Value::from(s)
}

/// `serde_json::Value::from` for a whole number.
#[verifier::external_body]
pub(crate) fn from_uint(n: u64) -> (r: serde_json::Value)
    ensures
        tree(r) == Tree::Uint(n),
{
    serde_json::Value::from(n)
}

/// `serde_json::Value::from` for a truth value.
#[verifier::external_body]
pub(crate) fn from_bool(b: bool) -> (r: serde_json::Value)
    ensures
        tree(r) == Tree::Bool(b),
{
    serde_json::Value::from(b)
}

/// `serde_json::Value::from` for a list of values.
#[verifier::external_body]
pub(crate) fn from_list(items: Vec<serde_json::Value>) -> (r: serde_json::Value)
    ensures
        tree(r) == Tree::List(trees(items@)),
{
    serde_json::Value::from(items)
}

/// `serde_json::Value::from_iter` for members of an object.
#[verifier::external_body]
pub(crate) fn from_members(members: Vec<(String, serde_json::Value)>) -> (r: serde_json::Value)
    ensures
        tree(r) == Tree::Object(gathered(members@)),
{
    serde_json::Value::from_iter(members)
}

/// The members of an object that is being made.
pub(crate) struct Members {
    list: Vec<(String, serde_json::Value)>,
}

impl View for Members {
    type V = Map<Seq<char>, Tree>;

    closed spec fn view(&self) -> Map<Seq<char>, Tree> {
        gathered(self.list@)
    }
}

impl Members {
    pub(crate) fn new() -> (r: Members)
        ensures
            r@ == Map::<Seq<char>, Tree>::empty(),
    {
        Members { list: Vec::new() }
    }

    /// The members with one more.
    pub(crate) fn with(self, key: &str, value: serde_json::Value) -> (r: Members)
        ensures
            r@ == self@.insert(key@, tree(value)),
    {
        let mut list = self.list;
        let ghost before = list@;
        list.push((text::owned(key), value));
        assert(list@.drop_last() =~= before);
        Members { list }
    }

    /// The object with these members.
    pub(crate) fn object(self) -> (r: serde_json::Value)
        ensures
            tree(r) == Tree::Object(self@),
    {
        from_members(self.list)
    }
}

} // verus!
