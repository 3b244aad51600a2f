use vstd::prelude::*;

verus! {

/// A node of the document tree that a decoder consumes.
///
/// A float is carried by its IEEE-754 bit pattern: the decoder never
/// computes with it, it only hands it on.  A table is a list of entries that
/// the decoder walks in the order they are stored; a producer that keeps them
/// in key order gets them read in key order.  A well-formed tree (`tree_wf`)
/// repeats no key in any table.  Leftover entries are filed by key, a later
/// one replacing an earlier one under the same key, so a leftover table never
/// repeats a key either.
#[derive(Debug, PartialEq)]
pub enum Value {
    String(String),
    Integer(i64),
    Float(u64),
    Boolean(bool),
    Datetime(String),
    Array(Vec<Value>),
    Table(Vec<(String, Value)>),
}

/// The mathematical model of a `Value`.
pub enum Tree {
    Str(Seq<char>),
    Int(i64),
    Flt(u64),
    Bool(bool),
    Date(Seq<char>),
    Arr(Seq<Tree>),
    Tab(Seq<(Seq<char>, Tree)>),
}

impl Value {
    pub open spec fn view(self) -> Tree
        decreases self,
    {
        match self {
            Value::String(s) => Tree::Str(s@),
            Value::Integer(i) => Tree::Int(i),
            Value::Float(f) => Tree::Flt(f),
            Value::Boolean(b) => Tree::Bool(b),
            Value::Datetime(s) => Tree::Date(s@),
            Value::Array(a) => Tree::Arr(
                Seq::new(a.len() as nat, |i: int| if 0 <= i < a.len() { a[i].view() } else { Tree::Bool(false) }),
            ),
            Value::Table(t) => Tree::Tab(
                Seq::new(
                    t.len() as nat,
                    |i: int|
                        if 0 <= i < t.len() {
                            (t[i].0@, t[i].1.view())
                        } else {
                            (Seq::empty(), Tree::Bool(false))
                        },
                ),
            ),
        }
    }
}

/// No key occurs twice among the entries of a table.
pub open spec fn keys_unique(es: Seq<(Seq<char>, Tree)>) -> bool {
    forall|a: int, b: int| 0 <= a < b < es.len() ==> (#[trigger] es[a]).0 != (#[trigger] es[b]).0
}

/// A tree is well formed when no table in it repeats a key.
pub open spec fn tree_wf(t: Tree) -> bool
    decreases t,
{
    match t {
        Tree::Arr(items) => forall|i: int| 0 <= i < items.len() ==> tree_wf(#[trigger] items[i]),
        Tree::Tab(es) => keys_unique(es) && forall|i: int| 0 <= i < es.len() ==> tree_wf(#[trigger] es[i].1),
        _ => true,
    }
}

pub open spec fn trees_of(s: Seq<Value>) -> Seq<Tree> {
    Seq::new(s.len(), |i: int| s[i]@)
}

pub open spec fn entries_of(s: Seq<(String, Value)>) -> Seq<(Seq<char>, Tree)> {
    Seq::new(s.len(), |i: int| (s[i].0@, s[i].1@))
}

pub proof fn lemma_array_view(v: Vec<Value>)
    ensures
        Value::Array(v)@ == Tree::Arr(trees_of(v@)),
{
    if let Tree::Arr(s) = Value::Array(v)@ {
        assert(s =~= trees_of(v@));
    }
}

pub proof fn lemma_table_view(v: Vec<(String, Value)>)
    ensures
        Value::Table(v)@ == Tree::Tab(entries_of(v@)),
{
    if let Tree::Tab(s) = Value::Table(v)@ {
        assert(s =~= entries_of(v@));
    }
}

} // verus!
