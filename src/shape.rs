use vstd::prelude::*;
use crate::value::{Value, Tree};
use crate::error::{DecodeError, DecodeErrorKind, ErrorView, ProtocolError};

verus! {

/// The target shape that a decoder fills: a closed set of consumers.
#[derive(Debug, PartialEq)]
pub enum Shape {
    /// Accepts any node and keeps it whole.
    Any,
    /// A string; a date is offered as its text.
    Text,
    Integer,
    Float,
    Boolean,
    /// No value at all: it accepts only absence, and any node is a shape
    /// failure.
    Unit,
    /// Absent when no value is pending, else the inner shape.
    Optional(Box<Shape>),
    /// An array, each element of the inner shape.
    List(Box<Shape>),
    /// A table read by named fields; other keys are left over.
    Record(Vec<Field>),
    /// A table with arbitrary keys, each value of the inner shape.
    Dict(Box<Shape>),
}

/// A named field of a record shape.
#[derive(Debug, PartialEq)]
pub struct Field {
    pub name: String,
    pub shape: Shape,
}

/// How a table key is recognised.
#[derive(Debug, PartialEq)]
pub enum KeyShape {
    /// Only these names are known; any other key is an unknown field.
    Fields(Vec<String>),
    /// Every key is accepted as text.
    Text,
}

/// What a decoder produces.
#[derive(Debug, PartialEq)]
pub enum Decoded {
    Raw(Value),
    Text(String),
    Integer(i64),
    Float(u64),
    Boolean(bool),
    Unit,
    Absent,
    Present(Box<Decoded>),
    List(Vec<Decoded>),
    /// One value per field of the record shape, in the shape's order.
    Record(Vec<Decoded>),
    Dict(Vec<(String, Decoded)>),
}

/// The model of a `Decoded`.
#[verifier::ext_equal]
pub enum Out {
    Raw(Tree),
    Text(Seq<char>),
    Int(i64),
    Flt(u64),
    Bool(bool),
    Unit,
    Absent,
    Present(Box<Out>),
    List(Seq<Out>),
    Record(Seq<Out>),
    Dict(Seq<(Seq<char>, Out)>),
}

impl Decoded {
    pub open spec fn view(self) -> Out
        decreases self,
    {
        match self {
            Decoded::Raw(v) => Out::Raw(v@),
            Decoded::Text(s) => Out::Text(s@),
            Decoded::Integer(i) => Out::Int(i),
            Decoded::Float(f) => Out::Flt(f),
            Decoded::Boolean(b) => Out::Bool(b),
            Decoded::Unit => Out::Unit,
            Decoded::Absent => Out::Absent,
            Decoded::Present(d) => Out::Present(Box::new(d.view())),
            Decoded::List(v) => Out::List(
                Seq::new(v.len() as nat, |i: int| if 0 <= i < v.len() { v[i].view() } else { Out::Absent }),
            ),
            Decoded::Record(v) => Out::Record(
                Seq::new(v.len() as nat, |i: int| if 0 <= i < v.len() { v[i].view() } else { Out::Absent }),
            ),
            Decoded::Dict(v) => Out::Dict(
                Seq::new(
                    v.len() as nat,
                    |i: int|
                        if 0 <= i < v.len() {
                            (v[i].0@, v[i].1.view())
                        } else {
                            (Seq::empty(), Out::Absent)
                        },
                ),
            ),
        }
    }
}

pub open spec fn outs_of(s: Seq<Decoded>) -> Seq<Out> {
    Seq::new(s.len(), |i: int| s[i]@)
}

pub open spec fn out_entries_of(s: Seq<(String, Decoded)>) -> Seq<(Seq<char>, Out)> {
    Seq::new(s.len(), |i: int| (s[i].0@, s[i].1@))
}

pub proof fn lemma_list_view(v: Vec<Decoded>)
    ensures
        Decoded::List(v)@ == Out::List(outs_of(v@)),
        Decoded::Record(v)@ == Out::Record(outs_of(v@)),
{
    if let Out::List(s) = Decoded::List(v)@ {
        assert(s =~= outs_of(v@));
    }
    if let Out::Record(s) = Decoded::Record(v)@ {
        assert(s =~= outs_of(v@));
    }
}

pub proof fn lemma_dict_view(v: Vec<(String, Decoded)>)
    ensures
        Decoded::Dict(v)@ == Out::Dict(out_entries_of(v@)),
{
    if let Out::Dict(s) = Decoded::Dict(v)@ {
        assert(s =~= out_entries_of(v@));
    }
}

pub open spec fn names_of(s: Seq<String>) -> Seq<Seq<char>> {
    Seq::new(s.len(), |i: int| s[i]@)
}

pub open spec fn field_names(fields: Seq<Field>) -> Seq<Seq<char>> {
    Seq::new(fields.len(), |i: int| fields[i].name@)
}

/// The first position of `k` in `names`, or -1 where it is not there.
pub open spec fn index_of(names: Seq<Seq<char>>, k: Seq<char>) -> int
    decreases names.len(),
{
    if names.len() == 0 {
        -1
    } else if index_of(names.drop_last(), k) >= 0 {
        index_of(names.drop_last(), k)
    } else if names.last() == k {
        names.len() - 1
    } else {
        -1
    }
}

pub proof fn lemma_index_of_range(names: Seq<Seq<char>>, k: Seq<char>)
    ensures
        -1 <= index_of(names, k) < names.len(),
        index_of(names, k) >= 0 ==> names[index_of(names, k)] == k,
        index_of(names, k) < 0 ==> forall|a: int| 0 <= a < names.len() ==> names[a] != k,
    decreases names.len(),
{
    if names.len() > 0 {
        lemma_index_of_range(names.drop_last(), k);
        if index_of(names, k) < 0 {
            assert forall|a: int| 0 <= a < names.len() implies names[a] != k by {
                if a < names.len() - 1 {
                    assert(names[a] == names.drop_last()[a]);
                }
            }
        }
    }
}

/// Whether a key shape rejects `k` as an unknown field.
pub open spec fn key_unknown(ks: KeyShape, k: Seq<char>) -> bool {
    match ks {
        KeyShape::Fields(names) => index_of(names_of(names@), k) < 0,
        KeyShape::Text => false,
    }
}

/// The value a shape makes of an offered string, or `None` where it refuses it.
pub open spec fn text_out(s: Shape, x: Seq<char>) -> Option<Out> {
    match s {
        Shape::Text => Some(Out::Text(x)),
        _ => None,
    }
}

pub open spec fn int_out(s: Shape, i: i64) -> Option<Out> {
    match s {
        Shape::Integer => Some(Out::Int(i)),
        _ => None,
    }
}

pub open spec fn float_out(s: Shape, f: u64) -> Option<Out> {
    match s {
        Shape::Float => Some(Out::Flt(f)),
        _ => None,
    }
}

pub open spec fn bool_out(s: Shape, b: bool) -> Option<Out> {
    match s {
        Shape::Boolean => Some(Out::Bool(b)),
        _ => None,
    }
}

pub open spec fn syntax() -> ErrorView {
    ErrorView { field: None, kind: DecodeErrorKind::SyntaxError }
}

pub open spec fn end_of_stream() -> ErrorView {
    ErrorView { field: None, kind: DecodeErrorKind::EndOfStream }
}

pub open spec fn accepted(r: Result<Decoded, ProtocolError>, o: Option<Out>) -> bool {
    match o {
        Some(x) => r matches Ok(d) && d@ == x,
        None => r matches Err(ProtocolError::SyntaxError),
    }
}

/// What a shape makes of "no value present": the unit value, the empty value
/// of a list or a dictionary, absence for an optional, and a shape failure
/// otherwise.
pub open spec fn probe_spec(s: Shape) -> Result<Out, ErrorView> {
    match s {
        Shape::Unit => Ok(Out::Unit),
        Shape::Optional(_) => Ok(Out::Absent),
        Shape::List(_) => Ok(Out::List(Seq::empty())),
        Shape::Dict(_) => Ok(Out::Dict(Seq::empty())),
        _ => Err(syntax()),
    }
}

pub open spec fn result_view(r: Result<Decoded, DecodeError>) -> Result<Out, ErrorView> {
    match r {
        Ok(d) => Ok(d@),
        Err(e) => Err(e@),
    }
}

impl Shape {
    pub fn accept_string(&self, s: String) -> (r: Result<Decoded, ProtocolError>)
        ensures
            accepted(r, text_out(*self, s@)),
    {
        match self {
            Shape::Text => Ok(Decoded::Text(s)),
            _ => Err(ProtocolError::SyntaxError),
        }
    }

    pub fn accept_integer(&self, i: i64) -> (r: Result<Decoded, ProtocolError>)
        ensures
            accepted(r, int_out(*self, i)),
    {
        match self {
            Shape::Integer => Ok(Decoded::Integer(i)),
            _ => Err(ProtocolError::SyntaxError),
        }
    }

    pub fn accept_float(&self, f: u64) -> (r: Result<Decoded, ProtocolError>)
        ensures
            accepted(r, float_out(*self, f)),
    {
        match self {
            Shape::Float => Ok(Decoded::Float(f)),
            _ => Err(ProtocolError::SyntaxError),
        }
    }

    pub fn accept_bool(&self, b: bool) -> (r: Result<Decoded, ProtocolError>)
        ensures
            accepted(r, bool_out(*self, b)),
    {
        match self {
            Shape::Boolean => Ok(Decoded::Boolean(b)),
            _ => Err(ProtocolError::SyntaxError),
        }
    }
}

impl KeyShape {
    /// Recognises a key, or reports it as an unknown field.
    pub fn accept_key(&self, k: String) -> (r: Result<String, ProtocolError>)
        ensures
            !key_unknown(*self, k@) ==> (r matches Ok(s) && s@ == k@),
            key_unknown(*self, k@) ==> (r matches Err(ProtocolError::UnknownFieldError(s)) && s@ == k@),
    {
        match self {
            KeyShape::Text => Ok(k),
            KeyShape::Fields(names) => {
                let mut i: usize = 0;
                while i < names.len()
                    invariant
                        i <= names.len(),
                        index_of(names_of(names@).take(i as int), k@) < 0,
                        *self == KeyShape::Fields(*names),
                    decreases names.len() - i,
                {
                    assert(names_of(names@).take(i + 1).drop_last() =~= names_of(names@).take(i as int));
                    if names[i] == k {
                        assert(names_of(names@).take(i + 1).last() == k@);
                        assert(index_of(names_of(names@).take(i + 1), k@) == i);
                        proof {
                            lemma_index_of_prefix(names_of(names@), k@, i as int + 1);
                        }
                        assert(index_of(names_of(names@), k@) == i);
                        return Ok(k);
                    }
                    i = i + 1;
                }
                assert(names_of(names@).take(i as int) =~= names_of(names@));
                Err(ProtocolError::UnknownFieldError(k))
            },
        }
    }
}

/// A match in a prefix is the match in the whole sequence.
pub proof fn lemma_index_of_prefix(names: Seq<Seq<char>>, k: Seq<char>, n: int)
    requires
        0 <= n <= names.len(),
        index_of(names.take(n), k) >= 0,
    ensures
        index_of(names, k) == index_of(names.take(n), k),
    decreases names.len() - n,
{
    if n < names.len() {
        assert(names.take(n + 1).drop_last() =~= names.take(n));
        lemma_index_of_prefix(names, k, n + 1);
    } else {
        assert(names.take(n) =~= names);
    }
}

/// The table that a decoded value stands for: a whole table kept as it
/// was, or a dictionary whose values were all kept whole.
pub open spec fn table_of(o: Out) -> Option<Tree> {
    match o {
        Out::Raw(Tree::Tab(es)) => Some(Tree::Tab(es)),
        Out::Dict(es) => if forall|i: int| 0 <= i < es.len() ==> (#[trigger] es[i]).1 is Raw {
            Some(Tree::Tab(Seq::new(es.len(), |i: int| (es[i].0, es[i].1->Raw_0))))
        } else {
            None
        },
        _ => None,
    }
}

impl Decoded {
    /// Converts a decoded table back into a table value, where it is one.
    pub fn into_table(self) -> (r: Option<Value>)
        ensures
            match r {
                Some(v) => table_of(self@) == Some(v@),
                None => table_of(self@) is None,
            },
    {
        let ghost whole = self;
        match self {
            Decoded::Raw(Value::Table(t)) => Some(Value::Table(t)),
            Decoded::Dict(mut v) => {
                proof {
                    lemma_dict_view(v);
                }
                let ghost es = out_entries_of(v@);
                let ghost n = v.len();
                let mut t: Vec<(String, Value)> = Vec::new();
                while v.len() > 0
                    invariant
                        es.len() == n,
                        whole@ == Out::Dict(es),
                        whole == self,
                        0 <= n - v.len() <= n,
                        out_entries_of(v@) == es.skip(n - v.len()),
                        t.len() == n - v.len(),
                        forall|i: int| 0 <= i < t.len() ==> (#[trigger] es[i]).1 is Raw,
                        forall|i: int| 0 <= i < t.len() ==> (#[trigger] t@[i]).0@ == es[i].0
                            && t@[i].1@ == es[i].1->Raw_0,
                    decreases v.len(),
                {
                    let ghost c = n - v.len();
                    let ghost v0 = v@;
                    let (k, d) = v.remove(0);
                    assert(v@ =~= v0.drop_first());
                    assert(out_entries_of(v0)[0] == es[c]);
                    assert(out_entries_of(v@) =~= out_entries_of(v0).drop_first());
                    assert(out_entries_of(v@) =~= es.skip(c + 1));
                    match d {
                        Decoded::Raw(x) => {
                            t.push((k, x));
                        },
                        _ => {
                            assert(!(es[c].1 is Raw));
                            return None;
                        },
                    }
                }
                proof {
                    crate::value::lemma_table_view(t);
                    assert(crate::value::entries_of(t@) =~= Seq::new(es.len(), |i: int| (es[i].0, es[i].1->Raw_0)));
                }
                Some(Value::Table(t))
            },
            _ => None,
        }
    }
}

/// Offers "no value present" to a shape in place of a real value.
pub fn probe_absent(s: &Shape) -> (r: Result<Decoded, DecodeError>)
    ensures
        result_view(r) == probe_spec(*s),
{
    match s {
        Shape::Unit => Ok(Decoded::Unit),
        Shape::Optional(_) => Ok(Decoded::Absent),
        Shape::List(_) => {
            let v: Vec<Decoded> = Vec::new();
            proof {
                lemma_list_view(v);
            }
            assert(outs_of(v@) =~= Seq::<Out>::empty());
            Ok(Decoded::List(v))
        },
        Shape::Dict(_) => {
            let v: Vec<(String, Decoded)> = Vec::new();
            proof {
                lemma_dict_view(v);
            }
            assert(out_entries_of(v@) =~= Seq::<(Seq<char>, Out)>::empty());
            Ok(Decoded::Dict(v))
        },
        _ => Err(DecodeError::syntax_error()),
    }
}

} // verus!
