//! Materialised JSON values.

use vstd::prelude::*;
use crate::lexer::Number;

verus! {

/// A JSON value held in memory.
#[derive(Debug, PartialEq)]
pub enum Value {
    Null,
    Boolean(bool),
    String(String),
    Number(Number),
    /// The members of a map in the order in which their names first
    /// occurred; no name occurs twice.
    Object(Vec<(String, Value)>),
    Array(Vec<Value>),
}

/// The mathematical value of a `Value`.
pub enum Tree {
    Null,
    Boolean(bool),
    String(Seq<char>),
    Number(Number),
    Object(Seq<(Seq<char>, Tree)>),
    Array(Seq<Tree>),
}

/// The position of the member named `key`, or the number of members where
/// there is none.
pub open spec fn position(entries: Seq<(Seq<char>, Tree)>, key: Seq<char>) -> int
    decreases entries.len(),
{
    if entries.len() == 0 {
        0
    } else if entries[0].0 == key {
        0
    } else {
        1 + position(entries.skip(1), key)
    }
}

/// The members with `key` set to `value`: in place where the name occurs,
/// else at the end.
pub open spec fn insert(entries: Seq<(Seq<char>, Tree)>, key: Seq<char>, value: Tree) -> Seq<
    (Seq<char>, Tree),
> {
    let at = position(entries, key);
    if 0 <= at < entries.len() {
        entries.update(at, (key, value))
    } else {
        entries.push((key, value))
    }
}

/// No name occurs twice among the members.
pub open spec fn distinct(entries: Seq<(Seq<char>, Tree)>) -> bool {
    forall|i: int, j: int|
        0 <= i < j < entries.len() ==> (#[trigger] entries[i]).0 != (#[trigger] entries[j]).0
}

/// Where a name is looked up: at the first member of that name, or past the
/// last member where there is none.
pub proof fn lemma_position(entries: Seq<(Seq<char>, Tree)>, key: Seq<char>)
    ensures
        0 <= position(entries, key) <= entries.len(),
        position(entries, key) < entries.len() ==> entries[position(entries, key)].0 == key,
        forall|i: int| 0 <= i < position(entries, key) ==> (#[trigger] entries[i]).0 != key,
    decreases entries.len(),
{
    if entries.len() > 0 && entries[0].0 != key {
        lemma_position(entries.skip(1), key);
        let at = position(entries.skip(1), key);
        assert forall|i: int| 0 <= i < at + 1 implies (#[trigger] entries[i]).0 != key by {
            if i > 0 {
                assert(entries.skip(1)[i - 1] == entries[i]);
            }
        }
        if at < entries.skip(1).len() {
            assert(entries.skip(1)[at] == entries[at + 1]);
        }
    }
}

/// Setting a member keeps the names distinct.
pub proof fn lemma_insert_distinct(entries: Seq<(Seq<char>, Tree)>, key: Seq<char>, value: Tree)
    requires
        distinct(entries),
    ensures
        distinct(insert(entries, key, value)),
{
    lemma_position(entries, key);
    let at = position(entries, key);
    let after = insert(entries, key, value);
    assert forall|i: int, j: int| 0 <= i < j < after.len() implies (#[trigger] after[i]).0 != (
    #[trigger] after[j]).0 by {
        if at < entries.len() {
            assert(after[i].0 == entries[i].0);
            assert(after[j].0 == entries[j].0);
        } else {
            if j < entries.len() {
                assert(after[i] == entries[i]);
                assert(after[j] == entries[j]);
            } else {
                assert(after[i] == entries[i]);
                assert(entries[i].0 != key);
            }
        }
    }
}

impl Tree {
    /// No map in the tree names a member twice.
    pub open spec fn wf(self) -> bool
        decreases self,
    {
        match self {
            Tree::Object(entries) => distinct(entries) && forall|i: int|
                0 <= i < entries.len() ==> (#[trigger] entries[i]).1.wf(),
            Tree::Array(items) => forall|i: int|
                0 <= i < items.len() ==> (#[trigger] items[i]).wf(),
            _ => true,
        }
    }
}

impl Value {
    /// The tree that the value holds.
    pub open spec fn tree(self) -> Tree
        decreases self,
    {
        match self {
            Value::Null => Tree::Null,
            Value::Boolean(b) => Tree::Boolean(b),
            Value::String(s) => Tree::String(s@),
            Value::Number(n) => Tree::Number(n),
            Value::Object(entries) => Tree::Object(
                Seq::new(
                    entries.len() as nat,
                    |i: int|
                        if 0 <= i < entries.len() {
                            (entries[i].0@, entries[i].1.tree())
                        } else {
                            (Seq::empty(), Tree::Null)
                        },
                ),
            ),
            Value::Array(items) => Tree::Array(
                Seq::new(
                    items.len() as nat,
                    |i: int|
                        if 0 <= i < items.len() {
                            items[i].tree()
                        } else {
                            Tree::Null
                        },
                ),
            ),
        }
    }
}

impl View for Value {
    type V = Tree;

    open spec fn view(&self) -> Tree {
        self.tree()
    }
}

/// The views of the members of a map.
pub open spec fn members(entries: Seq<(String, Value)>) -> Seq<(Seq<char>, Tree)> {
    Seq::new(entries.len(), |i: int| (entries[i].0@, entries[i].1@))
}

/// The views of the elements of an array.
pub open spec fn elements(items: Seq<Value>) -> Seq<Tree> {
    Seq::new(items.len(), |i: int| items[i]@)
}

/// The view of an array holds the views of its elements.
pub proof fn lemma_array_view(items: Vec<Value>)
    ensures
        Value::Array(items)@ == Tree::Array(elements(items@)),
{
    let v = Value::Array(items);
    let a = v@->Array_0;
    assert(a.len() == items@.len());
    assert forall|i: int| 0 <= i < a.len() implies a[i] == elements(items@)[i] by {
        assert(a[i] == items[i]@);
    }
    assert(a =~= elements(items@));
}

/// The view of a map holds its members' names and the views of their
/// values.
pub proof fn lemma_object_view(entries: Vec<(String, Value)>)
    ensures
        Value::Object(entries)@ == Tree::Object(members(entries@)),
{
    assert(Value::Object(entries)@->Object_0 =~= members(entries@));
}

} // verus!
