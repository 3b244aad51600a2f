use vstd::prelude::*;
use crate::value::{Value, Tree};
use crate::error::{DecodeErrorKind, ErrorView};
use crate::shape::{Shape, Field, Out, text_out, int_out, float_out, bool_out, syntax,
    end_of_stream, probe_spec, index_of, field_names};

verus! {

broadcast use vstd::std_specs::vec::axiom_vec_index_decreases;

pub open spec fn slot_view(o: Option<Value>) -> Option<Tree> {
    match o {
        Some(v) => Some(v@),
        None => None,
    }
}

/// Attributes an error to the key `k` unless a deeper frame already did.
pub open spec fn with_field(e: ErrorView, k: Seq<char>) -> ErrorView {
    match e.field {
        Some(_) => e,
        None => ErrorView { field: Some(k), kind: e.kind },
    }
}

/// Leftover elements of an array, as the value they are handed back in.
pub open spec fn array_residue(res: Seq<Tree>) -> Option<Tree> {
    if res.len() == 0 {
        None
    } else {
        Some(Tree::Arr(res))
    }
}

/// Leftover entries of a table, as the value they are handed back in.
pub open spec fn table_residue(res: Seq<(Seq<char>, Tree)>) -> Option<Tree> {
    if res.len() == 0 {
        None
    } else {
        Some(Tree::Tab(res))
    }
}

pub open spec fn keep_element(res: Seq<Tree>, r: Option<Tree>) -> Seq<Tree> {
    match r {
        Some(t) => res.push(t),
        None => res,
    }
}

/// The keys of some table entries, in order.
pub open spec fn keys_of(res: Seq<(Seq<char>, Tree)>) -> Seq<Seq<char>> {
    Seq::new(res.len(), |i: int| res[i].0)
}

/// Files `t` under `k` among the leftover entries: it replaces the value of
/// an entry already under `k`, and is added at the end otherwise.
pub open spec fn file_entry(res: Seq<(Seq<char>, Tree)>, k: Seq<char>, t: Tree) -> Seq<(Seq<char>, Tree)> {
    let p = index_of(keys_of(res), k);
    if p >= 0 {
        res.update(p, (k, t))
    } else {
        res.push((k, t))
    }
}

/// Files each of `es`, in order, among the leftover entries `res`.
pub open spec fn file_all(res: Seq<(Seq<char>, Tree)>, es: Seq<(Seq<char>, Tree)>) -> Seq<(Seq<char>, Tree)>
    decreases es.len(),
{
    if es.len() == 0 {
        res
    } else {
        file_entry(file_all(res, es.drop_last()), es.last().0, es.last().1)
    }
}

pub open spec fn keep_entry(res: Seq<(Seq<char>, Tree)>, k: Seq<char>, r: Option<Tree>) -> Seq<(Seq<char>, Tree)> {
    match r {
        Some(t) => file_entry(res, k, t),
        None => res,
    }
}

pub open spec fn leaf(o: Option<Out>) -> Result<(Out, Option<Tree>), ErrorView> {
    match o {
        Some(x) => Ok((x, None)),
        None => Err(syntax()),
    }
}

/// Decoding the pending slot `slot` into shape `s`: the value produced and
/// what is left over, or the first failure.
pub open spec fn decode_spec(slot: Option<Tree>, s: Shape) -> Result<(Out, Option<Tree>), ErrorView>
    decreases s, 2int, 0int,
{
    match s {
        Shape::Optional(inner) => match slot {
            None => Ok((Out::Absent, None)),
            Some(_) => match decode_spec(slot, *inner) {
                Ok((o, r)) => Ok((Out::Present(Box::new(o)), r)),
                Err(e) => Err(e),
            },
        },
        Shape::List(_) => match slot {
            None => Ok((Out::List(Seq::empty()), None)),
            Some(t) => visit_spec(t, s),
        },
        _ => match slot {
            None => Err(end_of_stream()),
            Some(t) => visit_spec(t, s),
        },
    }
}

/// Offering the node `t` to shape `s`.
pub open spec fn visit_spec(t: Tree, s: Shape) -> Result<(Out, Option<Tree>), ErrorView>
    decreases s, 1int, 0int,
{
    match s {
        Shape::Any => Ok((Out::Raw(t), None)),
        _ => match t {
            Tree::Str(x) => leaf(text_out(s, x)),
            Tree::Int(i) => leaf(int_out(s, i)),
            Tree::Flt(f) => leaf(float_out(s, f)),
            Tree::Bool(b) => leaf(bool_out(s, b)),
            Tree::Date(x) => leaf(text_out(s, x)),
            Tree::Arr(items) => match s {
                Shape::List(e) => match elems_spec(*e, items) {
                    Ok((outs, res)) => Ok((Out::List(outs), array_residue(res))),
                    Err(x) => Err(x),
                },
                _ => Err(syntax()),
            },
            Tree::Tab(entries) => match s {
                Shape::Dict(e) => match dict_spec(*e, entries) {
                    Ok((outs, res)) => Ok((Out::Dict(outs), table_residue(res))),
                    Err(x) => Err(x),
                },
                Shape::Record(fields) => match record_scan(s, entries) {
                    Ok((found, res)) => match complete_spec(fields@, found, fields.len() as int) {
                        Ok(outs) => Ok((Out::Record(outs), table_residue(res))),
                        Err(x) => Err(x),
                    },
                    Err(x) => Err(x),
                },
                _ => Err(syntax()),
            },
        },
    }
}

/// Decoding the elements `items` of an array, in order, each into `e`:
/// the values and the leftovers of the elements, in order.
pub open spec fn elems_spec(e: Shape, items: Seq<Tree>) -> Result<(Seq<Out>, Seq<Tree>), ErrorView>
    decreases e, 3int, items.len(),
{
    if items.len() == 0 {
        Ok((Seq::empty(), Seq::empty()))
    } else {
        match elems_spec(e, items.drop_last()) {
            Err(x) => Err(x),
            Ok((outs, res)) => match decode_spec(Some(items.last()), e) {
                Err(x) => Err(x),
                Ok((o, r)) => Ok((outs.push(o), keep_element(res, r))),
            },
        }
    }
}

/// Decoding the entries of a table, each value into `e`, every key accepted.
pub open spec fn dict_spec(e: Shape, entries: Seq<(Seq<char>, Tree)>) -> Result<
    (Seq<(Seq<char>, Out)>, Seq<(Seq<char>, Tree)>),
    ErrorView,
>
    decreases e, 3int, entries.len(),
{
    if entries.len() == 0 {
        Ok((Seq::empty(), Seq::empty()))
    } else {
        match dict_spec(e, entries.drop_last()) {
            Err(x) => Err(x),
            Ok((outs, res)) => {
                let k = entries.last().0;
                match decode_spec(Some(entries.last().1), e) {
                    Err(x) => Err(with_field(x, k)),
                    Ok((o, r)) => Ok((outs.push((k, o)), keep_entry(res, k, r))),
                }
            },
        }
    }
}

/// Reading the entries of a table into the fields of record shape `rec`:
/// for each field the value found for it, if any, and the leftover entries.
/// A key that names no field is left over whole.
pub open spec fn record_scan(rec: Shape, entries: Seq<(Seq<char>, Tree)>) -> Result<
    (Seq<Option<Out>>, Seq<(Seq<char>, Tree)>),
    ErrorView,
>
    decreases rec, 0int, entries.len(),
{
    match rec {
        Shape::Record(fields) => if entries.len() == 0 {
            Ok((Seq::new(fields.len() as nat, |i: int| None), Seq::empty()))
        } else {
            match record_scan(rec, entries.drop_last()) {
                Err(x) => Err(x),
                Ok((found, res)) => {
                    let k = entries.last().0;
                    let idx = index_of(field_names(fields@), k);
                    if idx < 0 || idx >= fields.len() {
                        Ok((found, file_entry(res, k, entries.last().1)))
                    } else {
                        match decode_spec(Some(entries.last().1), fields[idx].shape) {
                            Err(x) => Err(with_field(x, k)),
                            Ok((o, r)) => Ok((found.update(idx, Some(o)), keep_entry(res, k, r))),
                        }
                    }
                },
            }
        },
        _ => Err(syntax()),
    }
}

/// What a record makes of a field that no key named.
pub open spec fn missing_spec(f: Field) -> Result<Out, ErrorView> {
    match probe_spec(f.shape) {
        Err(e) => if e.kind == DecodeErrorKind::SyntaxError {
            Err(
                ErrorView {
                    field: match e.field {
                        Some(n) => Some(n),
                        None => Some(f.name@),
                    },
                    kind: DecodeErrorKind::ExpectedField(None),
                },
            )
        } else {
            Err(e)
        },
        Ok(o) => Ok(o),
    }
}

/// The values of the first `n` fields, from what was found or else from
/// what each field makes of absence.
pub open spec fn complete_spec(fields: Seq<Field>, found: Seq<Option<Out>>, n: int) -> Result<Seq<Out>, ErrorView>
    decreases n,
{
    if n <= 0 {
        Ok(Seq::empty())
    } else {
        match complete_spec(fields, found, n - 1) {
            Err(x) => Err(x),
            Ok(outs) => match found[n - 1] {
                Some(o) => Ok(outs.push(o)),
                None => match missing_spec(fields[n - 1]) {
                    Ok(o) => Ok(outs.push(o)),
                    Err(x) => Err(x),
                },
            },
        }
    }
}

} // verus!
