use vstd::prelude::*;
use crate::value::{Tree, keys_unique, tree_wf};
use crate::error::{DecodeErrorKind, ErrorView};
use crate::shape::{Shape, Field, Out, index_of, field_names, table_of, probe_spec, lemma_index_of_range};
use crate::model::{visit_spec, decode_spec, keys_of, file_entry, dict_spec, record_scan, complete_spec, table_residue};
use crate::decoder::SeqCursor;

verus! {

/// The entries of a table, each value kept whole.
pub open spec fn kept_whole(es: Seq<(Seq<char>, Tree)>) -> Seq<(Seq<char>, Out)> {
    Seq::new(es.len(), |i: int| (es[i].0, Out::Raw(es[i].1)))
}

proof fn lemma_dict_keeps_whole(es: Seq<(Seq<char>, Tree)>)
    ensures
        dict_spec(Shape::Any, es) == Ok::<_, ErrorView>((kept_whole(es), Seq::<(Seq<char>, Tree)>::empty())),
    decreases es.len(),
{
    if es.len() == 0 {
        assert(kept_whole(es) =~= Seq::empty());
    } else {
        lemma_dict_keeps_whole(es.drop_last());
        assert(visit_spec(es.last().1, Shape::Any) == Ok::<_, ErrorView>((Out::Raw(es.last().1), None::<Tree>)));
        assert(decode_spec(Some(es.last().1), Shape::Any) == Ok::<_, ErrorView>((Out::Raw(es.last().1), None::<Tree>)));
        assert(kept_whole(es) =~= kept_whole(es.drop_last()).push((es.last().0, Out::Raw(es.last().1))));
    }
}

/// Decoding a table into a dictionary that keeps every value whole leaves
/// nothing over, and converting the result back gives the same table.
pub proof fn law_open_round_trip(es: Seq<(Seq<char>, Tree)>)
    ensures
        decode_spec(Some(Tree::Tab(es)), Shape::Dict(Box::new(Shape::Any))) matches Ok((o, left))
            && left is None && table_of(o) == Some(Tree::Tab(es)),
{
    lemma_dict_keeps_whole(es);
    let kept = kept_whole(es);
    let s = Shape::Dict(Box::new(Shape::Any));
    assert(visit_spec(Tree::Tab(es), s) == Ok::<_, ErrorView>((Out::Dict(kept), None::<Tree>)));
    assert(decode_spec(Some(Tree::Tab(es)), s) == Ok::<_, ErrorView>((Out::Dict(kept), None::<Tree>)));
    assert(Seq::new(kept.len(), |i: int| (kept[i].0, kept[i].1->Raw_0)) =~= es);
}

/// Every key of `res` is the key of one of the first `m` entries of `es`.
pub open spec fn keys_among(res: Seq<(Seq<char>, Tree)>, es: Seq<(Seq<char>, Tree)>, m: int) -> bool {
    forall|a: int| 0 <= a < res.len() ==> key_in(es, m, (#[trigger] res[a]).0)
}

/// Whether `k` is the key of one of the first `m` entries of `es`.
pub open spec fn key_in(es: Seq<(Seq<char>, Tree)>, m: int, k: Seq<char>) -> bool {
    exists|x: int| 0 <= x < m && (#[trigger] es[x]).0 == k
}

proof fn lemma_among_grows(res: Seq<(Seq<char>, Tree)>, es: Seq<(Seq<char>, Tree)>, m: int)
    requires
        0 < m <= es.len(),
        keys_among(res, es, m - 1),
    ensures
        keys_among(res, es, m),
{
    assert forall|a: int| 0 <= a < res.len() implies key_in(es, m, (#[trigger] res[a]).0) by {
        assert(key_in(es, m - 1, res[a].0));
        let x = choose|x: int| 0 <= x < m - 1 && (#[trigger] es[x]).0 == res[a].0;
        assert(0 <= x < m && es[x].0 == res[a].0);
    }
}

proof fn lemma_file_key(res: Seq<(Seq<char>, Tree)>, es: Seq<(Seq<char>, Tree)>, m: int, t: Tree)
    requires
        0 < m <= es.len(),
        keys_unique(res),
        keys_among(res, es, m - 1),
    ensures
        keys_unique(file_entry(res, es[m - 1].0, t)),
        keys_among(file_entry(res, es[m - 1].0, t), es, m),
{
    let k = es[m - 1].0;
    let r2 = file_entry(res, k, t);
    lemma_index_of_range(keys_of(res), k);
    lemma_among_grows(res, es, m);
    let p = index_of(keys_of(res), k);
    if p >= 0 {
        assert forall|a: int| 0 <= a < res.len() implies (#[trigger] r2[a]).0 == res[a].0 by {
            assert(keys_of(res)[a] == res[a].0);
        }
    } else {
        assert forall|a: int| 0 <= a < res.len() implies res[a].0 != k by {
            assert(keys_of(res)[a] == res[a].0);
        }
    }
    assert forall|a: int, b: int| 0 <= a < b < r2.len() implies (#[trigger] r2[a]).0 != (#[trigger] r2[b]).0 by {
        if p < 0 && b == res.len() {
            assert(r2[a] == res[a]);
            assert(key_in(es, m - 1, res[a].0));
        } else {
            assert(r2[a].0 == res[a].0 && r2[b].0 == res[b].0);
        }
    }
    assert forall|a: int| 0 <= a < r2.len() implies key_in(es, m, (#[trigger] r2[a]).0) by {
        if p < 0 && a == res.len() {
            assert(es[m - 1].0 == r2[a].0);
        } else {
            assert(r2[a].0 == res[a].0);
            assert(key_in(es, m, res[a].0));
        }
    }
}

proof fn lemma_scan_keys(rec: Shape, es: Seq<(Seq<char>, Tree)>, m: int)
    requires
        rec is Record,
        0 <= m <= es.len(),
    ensures
        record_scan(rec, es.take(m)) matches Ok((_, res)) ==> keys_unique(res) && keys_among(res, es, m),
    decreases m,
{
    if m > 0 {
        lemma_scan_keys(rec, es, m - 1);
        assert(es.take(m).drop_last() =~= es.take(m - 1));
        assert(es.take(m).last() == es[m - 1]);
        if let Ok((_, res)) = record_scan(rec, es.take(m - 1)) {
            lemma_file_key(res, es, m, es[m - 1].1);
            if let Some(t) = decode_spec(Some(es[m - 1].1), rec->Record_0@[index_of(field_names(rec->Record_0@), es[m - 1].0)].shape)->Ok_0.1 {
                lemma_file_key(res, es, m, t);
            }
            lemma_among_grows(res, es, m);
        }
    } else {
        assert(es.take(0) =~= Seq::<(Seq<char>, Tree)>::empty());
    }
}

proof fn lemma_dict_keys(e: Shape, es: Seq<(Seq<char>, Tree)>, m: int)
    requires
        0 <= m <= es.len(),
    ensures
        dict_spec(e, es.take(m)) matches Ok((_, res)) ==> keys_unique(res) && keys_among(res, es, m),
    decreases m,
{
    if m > 0 {
        lemma_dict_keys(e, es, m - 1);
        assert(es.take(m).drop_last() =~= es.take(m - 1));
        assert(es.take(m).last() == es[m - 1]);
        if let Ok((_, res)) = dict_spec(e, es.take(m - 1)) {
            if let Some(t) = decode_spec(Some(es[m - 1].1), e)->Ok_0.1 {
                lemma_file_key(res, es, m, t);
            }
            lemma_among_grows(res, es, m);
        }
    } else {
        assert(es.take(0) =~= Seq::<(Seq<char>, Tree)>::empty());
    }
}

/// What a table leaves over is again a table: its keys are unique, and each
/// is a key of the table it came from.
pub proof fn law_leftover_table_keys(es: Seq<(Seq<char>, Tree)>, s: Shape)
    ensures
        decode_spec(Some(Tree::Tab(es)), s) matches Ok((_, Some(Tree::Tab(res)))) ==> keys_unique(res)
            && keys_among(res, es, es.len() as int),
    decreases s,
{
    lemma_visit_table_keys(es, s);
    if let Shape::Optional(inner) = s {
        law_leftover_table_keys(es, *inner);
    }
}

proof fn lemma_visit_table_keys(es: Seq<(Seq<char>, Tree)>, s: Shape)
    ensures
        visit_spec(Tree::Tab(es), s) matches Ok((_, Some(Tree::Tab(res)))) ==> keys_unique(res)
            && keys_among(res, es, es.len() as int),
{
    assert(es.take(es.len() as int) =~= es);
    match s {
        Shape::Record(_) => lemma_scan_keys(s, es, es.len() as int),
        Shape::Dict(e) => lemma_dict_keys(*e, es, es.len() as int),
        _ => {},
    }
}

/// Whether some entry among the first `m` has a key that is matched to
/// field `i`.
pub open spec fn named_before(names: Seq<Seq<char>>, es: Seq<(Seq<char>, Tree)>, m: int, i: int) -> bool {
    exists|x: int| 0 <= x < m && index_of(names, #[trigger] es[x].0) == i
}

pub open spec fn unnamed(names: Seq<Seq<char>>) -> spec_fn((Seq<char>, Tree)) -> bool {
    |e: (Seq<char>, Tree)| index_of(names, e.0) < 0
}

/// Every entry whose key is matched to a field is consumed whole by that
/// field's shape.
pub open spec fn matched_consumed_whole(fields: Seq<Field>, es: Seq<(Seq<char>, Tree)>) -> bool {
    forall|x: int|
        0 <= x < es.len() && index_of(field_names(fields), #[trigger] es[x].0) >= 0 ==> decode_spec(
            Some(es[x].1),
            fields[index_of(field_names(fields), es[x].0)].shape,
        ) matches Ok((_, None))
}

proof fn lemma_scan_subset(fields: Vec<Field>, es: Seq<(Seq<char>, Tree)>, m: int)
    requires
        0 <= m <= es.len(),
        keys_unique(es),
        matched_consumed_whole(fields@, es),
    ensures
        record_scan(Shape::Record(fields), es.take(m)) matches Ok((found, res)) && res == es.take(m).filter(
            unnamed(field_names(fields@)),
        ) && found.len() == fields.len() && forall|i: int|
            0 <= i < fields.len() ==> ((#[trigger] found[i]) is Some <==> named_before(
                field_names(fields@),
                es,
                m,
                i,
            )),
    decreases m,
{
    let names = field_names(fields@);
    let rec = Shape::Record(fields);
    reveal(Seq::filter);
    if m == 0 {
        assert(es.take(0) =~= Seq::<(Seq<char>, Tree)>::empty());
    } else {
        lemma_scan_subset(fields, es, m - 1);
        lemma_scan_keys(rec, es, m - 1);
        lemma_index_of_range(names, es[m - 1].0);
        assert(es.take(m).drop_last() =~= es.take(m - 1));
        assert(es.take(m).last() == es[m - 1]);
        let (found, res) = record_scan(rec, es.take(m - 1))->Ok_0;
        let idx = index_of(names, es[m - 1].0);
        assert forall|i: int| 0 <= i < fields.len() && i != idx implies named_before(names, es, m, i)
            == named_before(names, es, m - 1, i) by {
            if named_before(names, es, m, i) {
                let x = choose|x: int| 0 <= x < m && index_of(names, #[trigger] es[x].0) == i;
                assert(x < m - 1);
            }
        }
        if idx >= 0 {
            assert(named_before(names, es, m, idx));
        } else {
            let k = es[m - 1].0;
            lemma_index_of_range(keys_of(res), k);
            if index_of(keys_of(res), k) >= 0 {
                let p = index_of(keys_of(res), k);
                assert(keys_of(res)[p] == res[p].0);
                assert(key_in(es, m - 1, res[p].0));
                let x = choose|x: int| 0 <= x < m - 1 && (#[trigger] es[x]).0 == res[p].0;
                assert(es[x].0 != es[m - 1].0);
            }
        }
    }
}

proof fn lemma_complete_ok(fields: Seq<Field>, found: Seq<Option<Out>>, n: int)
    requires
        0 <= n <= found.len(),
        n <= fields.len(),
        forall|i: int| 0 <= i < n ==> (#[trigger] found[i]) is Some || probe_spec(fields[i].shape) is Ok,
    ensures
        complete_spec(fields, found, n) is Ok,
    decreases n,
{
    if n > 0 {
        lemma_complete_ok(fields, found, n - 1);
    }
}

/// Reading a well-formed table into a record whose matched fields each
/// consume their value whole, and whose unmatched fields each accept absence,
/// succeeds; what is left over is exactly the entries whose key names no
/// field, with their values unchanged, in order (nothing when there are none).
pub proof fn law_unread_entries_left_over(fields: Vec<Field>, es: Seq<(Seq<char>, Tree)>)
    requires
        tree_wf(Tree::Tab(es)),
        matched_consumed_whole(fields@, es),
        forall|i: int|
            0 <= i < fields.len() && !named_before(field_names(fields@), es, es.len() as int, i)
                ==> probe_spec((#[trigger] fields@[i]).shape) is Ok,
    ensures
        decode_spec(Some(Tree::Tab(es)), Shape::Record(fields)) matches Ok((_, left)) && left
            == table_residue(es.filter(unnamed(field_names(fields@)))),
{
    assert(keys_unique(es));
    lemma_scan_subset(fields, es, es.len() as int);
    assert(es.take(es.len() as int) =~= es);
    let (found, res) = record_scan(Shape::Record(fields), es)->Ok_0;
    assert forall|i: int| 0 <= i < fields.len() implies (#[trigger] found[i]) is Some || probe_spec(
        fields@[i].shape,
    ) is Ok by {
        if !named_before(field_names(fields@), es, es.len() as int, i) {
            assert(probe_spec(fields@[i].shape) is Ok);
        }
    }
    lemma_complete_ok(fields@, found, fields.len() as int);
    let outs = complete_spec(fields@, found, fields.len() as int)->Ok_0;
    assert(visit_spec(Tree::Tab(es), Shape::Record(fields)) == Ok::<_, ErrorView>((Out::Record(outs), table_residue(res))));
}

/// An empty table read into a record of one field whose shape has no value
/// for absence fails with an expected-field error that names the field.
pub proof fn law_empty_table_required_field(fields: Vec<Field>)
    requires
        fields.len() == 1,
        probe_spec(fields@[0].shape) is Err,
    ensures
        decode_spec(Some(Tree::Tab(Seq::empty())), Shape::Record(fields)) == Err::<(Out, Option<Tree>), _>(
            ErrorView { field: Some(fields@[0].name@), kind: DecodeErrorKind::ExpectedField(None) },
        ),
{
    let rec = Shape::Record(fields);
    let es = Seq::<(Seq<char>, Tree)>::empty();
    let found = Seq::new(1, |i: int| None::<Out>);
    assert(record_scan(rec, es) == Ok::<_, ErrorView>((found, es)));
    assert(complete_spec(fields@, found, 0) == Ok::<_, ErrorView>(Seq::<Out>::empty()));
    let e = ErrorView { field: Some(fields@[0].name@), kind: DecodeErrorKind::ExpectedField(None) };
    assert(complete_spec(fields@, found, 1) == Err::<Seq<Out>, _>(e));
    assert(visit_spec(Tree::Tab(es), rec) == Err::<(Out, Option<Tree>), _>(e));
}

/// An empty table read into a record of one optional field succeeds, with
/// the field absent and nothing left over.
pub proof fn law_empty_table_optional_field(fields: Vec<Field>)
    requires
        fields.len() == 1,
        fields@[0].shape is Optional,
    ensures
        decode_spec(Some(Tree::Tab(Seq::empty())), Shape::Record(fields)) == Ok::<_, ErrorView>(
            (Out::Record(seq![Out::Absent]), None::<Tree>),
        ),
{
    let rec = Shape::Record(fields);
    let es = Seq::<(Seq<char>, Tree)>::empty();
    let found = Seq::new(1, |i: int| None::<Out>);
    assert(record_scan(rec, es) == Ok::<_, ErrorView>((found, es)));
    assert(complete_spec(fields@, found, 0) == Ok::<_, ErrorView>(Seq::<Out>::empty()));
    assert(Seq::<Out>::empty().push(Out::Absent) =~= seq![Out::Absent]);
    assert(complete_spec(fields@, found, 1) == Ok::<_, ErrorView>(seq![Out::Absent]));
    assert(visit_spec(Tree::Tab(es), rec) == Ok::<_, ErrorView>((Out::Record(seq![Out::Absent]), None::<Tree>)));
}

/// A sequence cursor reports exactly the elements not yet pulled: after
/// `k` of them were pulled, finishing succeeds only when `k` is all of them.
pub proof fn law_finish_needs_every_element(start: SeqCursor, now: SeqCursor, k: int)
    requires
        start.wf(),
        now.wf(),
        0 <= k <= start.rest().len(),
        now.rest() == start.rest().skip(k),
    ensures
        now.len == start.len - k,
        (now.len == 0) == (k == start.len),
{
    assert(start.rest().len() == start.items.len());
    assert(now.rest().len() == now.items.len());
}

} // verus!
