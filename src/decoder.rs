use vstd::prelude::*;
use crate::value::{Value, Tree, tree_wf, trees_of, entries_of, lemma_array_view, lemma_table_view};
use crate::error::{DecodeError, DecodeErrorKind, ErrorView, TypeTag, se2toml};
use crate::shape::{Shape, Field, KeyShape, Decoded, Out, outs_of, out_entries_of, names_of,
    field_names, index_of, key_unknown, syntax, end_of_stream, result_view, probe_absent,
    lemma_list_view, lemma_dict_view, lemma_index_of_range, lemma_index_of_prefix};
use crate::model::{slot_view, with_field, array_residue, table_residue, keep_element, keep_entry,
    keys_of, file_entry, file_all,
    decode_spec, visit_spec, elems_spec, dict_spec, record_scan, missing_spec, complete_spec};

verus! {

broadcast use vstd::std_specs::vec::axiom_vec_index_decreases;

/// A decoding result together with what is left in the slot afterwards.
pub open spec fn outcome(r: Result<Decoded, DecodeError>, slot: Option<Value>) -> Result<
    (Out, Option<Tree>),
    ErrorView,
> {
    match r {
        Ok(d) => Ok((d@, slot_view(slot))),
        Err(e) => Err(e@),
    }
}

/// Holds at most one pending value, taken out when it is decoded; what a
/// compound value leaves over is put back into the slot. The decoder and its
/// cursors are exact on any tree, including one whose tables repeat a key:
/// such entries are read in turn, and their leftovers filed by key.
pub struct Decoder {
    pub toml: Option<Value>,
}

impl Decoder {
    pub fn new(v: Value) -> (r: Decoder)
        ensures
            r.toml == Some(v),
    {
        Decoder { toml: Some(v) }
    }

    /// Decodes the pending value into shape `s`.
    pub fn decode(&mut self, s: &Shape) -> (r: Result<Decoded, DecodeError>)
        ensures
            outcome(r, final(self).toml) == decode_spec(slot_view(old(self).toml), *s),
            r is Err ==> final(self).toml is None,
        decreases s, 4int,
    {
        match s {
            Shape::Optional(inner) => self.visit_option(inner),
            Shape::List(_) => self.visit_seq(s),
            _ => self.visit(s),
        }
    }

    /// Tells the consumer whether a value follows, then decodes it into `inner`.
    pub fn visit_option(&mut self, inner: &Shape) -> (r: Result<Decoded, DecodeError>)
        ensures
            outcome(r, final(self).toml) == decode_spec(
                slot_view(old(self).toml),
                Shape::Optional(Box::new(*inner)),
            ),
            r is Err ==> final(self).toml is None,
        decreases inner, 5int,
    {
        if self.toml.is_none() {
            Ok(Decoded::Absent)
        } else {
            match self.decode(inner) {
                Ok(d) => Ok(Decoded::Present(Box::new(d))),
                Err(e) => Err(e),
            }
        }
    }

    /// Decodes into a list shape; nothing pending reads as the empty list.
    pub fn visit_seq(&mut self, s: &Shape) -> (r: Result<Decoded, DecodeError>)
        requires
            s is List,
        ensures
            outcome(r, final(self).toml) == decode_spec(slot_view(old(self).toml), *s),
            r is Err ==> final(self).toml is None,
        decreases s, 3int,
    {
        if self.toml.is_none() {
            let v: Vec<Decoded> = Vec::new();
            proof {
                lemma_list_view(v);
                assert(outs_of(v@) =~= Seq::<Out>::empty());
            }
            Ok(Decoded::List(v))
        } else {
            self.visit(s)
        }
    }

    /// Takes the pending value and offers it to `s` according to its kind.
    pub fn visit(&mut self, s: &Shape) -> (r: Result<Decoded, DecodeError>)
        ensures
            outcome(r, final(self).toml) == match slot_view(old(self).toml) {
                None => Err(end_of_stream()),
                Some(t) => visit_spec(t, *s),
            },
            r is Err ==> final(self).toml is None,
        decreases s, 2int,
    {
        match self.toml.take() {
            None => Err(DecodeError::end_of_stream_error()),
            Some(v) => {
                if let Shape::Any = s {
                    return Ok(Decoded::Raw(v));
                }
                match v {
                    Value::String(x) => match s.accept_string(x) {
                        Ok(d) => Ok(d),
                        Err(e) => Err(se2toml(e, TypeTag::String)),
                    },
                    Value::Integer(i) => match s.accept_integer(i) {
                        Ok(d) => Ok(d),
                        Err(e) => Err(se2toml(e, TypeTag::Integer)),
                    },
                    Value::Float(f) => match s.accept_float(f) {
                        Ok(d) => Ok(d),
                        Err(e) => Err(se2toml(e, TypeTag::Float)),
                    },
                    Value::Boolean(b) => match s.accept_bool(b) {
                        Ok(d) => Ok(d),
                        Err(e) => Err(se2toml(e, TypeTag::Bool)),
                    },
                    Value::Datetime(x) => match s.accept_string(x) {
                        Ok(d) => Ok(d),
                        Err(e) => Err(se2toml(e, TypeTag::Date)),
                    },
                    Value::Array(a) => {
                        proof {
                            lemma_array_view(a);
                        }
                        let mut cursor = SeqCursor::new(a);
                        match s.accept_sequence(&mut cursor) {
                            Ok(d) => {
                                proof {
                                    cursor.lemma_residue();
                                }
                                self.toml = cursor.residue;
                                Ok(d)
                            },
                            Err(e) => Err(e),
                        }
                    },
                    Value::Table(t) => {
                        proof {
                            lemma_table_view(t);
                        }
                        let mut cursor = MapCursor::new(t);
                        match s.accept_map(&mut cursor) {
                            Ok(d) => {
                                proof {
                                    cursor.lemma_residue();
                                }
                                self.toml = cursor.residue;
                                Ok(d)
                            },
                            Err(e) => Err(e),
                        }
                    },
                }
            },
        }
    }
}

impl Decoder {
    /// Takes the pending value and offers it to a key shape as a table key.
    pub fn visit_key(&mut self, ks: &KeyShape) -> (r: Result<String, DecodeError>)
        ensures
            final(self).toml is None,
            match old(self).toml {
                None => r matches Err(e) && e@ == end_of_stream(),
                Some(Value::String(k)) => if key_unknown(*ks, k@) {
                    r matches Err(e) && e@ == (ErrorView {
                        field: Some(k@),
                        kind: DecodeErrorKind::UnknownField,
                    })
                } else {
                    r matches Ok(s) && s@ == k@
                },
                Some(_) => r matches Err(e) && e@ == syntax(),
            },
    {
        match self.toml.take() {
            None => Err(DecodeError::end_of_stream_error()),
            Some(Value::String(k)) => match ks.accept_key(k) {
                Ok(s) => Ok(s),
                Err(e) => Err(se2toml(e, TypeTag::String)),
            },
            Some(_) => Err(DecodeError::syntax_error()),
        }
    }
}

/// Decodes `v` into shape `s`: the value produced and whatever of `v` the
/// shape did not consume. The tree must be well formed, as a parsed
/// document is: no table in it repeats a key.
pub fn decode(v: Value, s: &Shape) -> (r: Result<(Decoded, Option<Value>), DecodeError>)
    requires
        tree_wf(v@),
    ensures
        match decode_spec(Some(v@), *s) {
            Ok((o, rest)) => r matches Ok((d, left)) && d@ == o && slot_view(left) == rest,
            Err(x) => r matches Err(e) && e@ == x,
        },
{
    let mut dec = Decoder::new(v);
    match dec.decode(s) {
        Ok(d) => Ok((d, dec.toml)),
        Err(e) => Err(e),
    }
}

/// Drives the elements of an array one at a time and collects what each
/// element leaves over into an array of its own.
pub struct SeqCursor {
    pub items: Vec<Value>,
    pub len: usize,
    pub residue: Option<Value>,
}

impl SeqCursor {
    pub open spec fn wf(&self) -> bool {
        &&& self.len == self.items.len()
        &&& match self.residue {
            None => true,
            Some(Value::Array(a)) => a.len() > 0,
            _ => false,
        }
    }

    /// The elements not yet pulled.
    pub open spec fn rest(&self) -> Seq<Tree> {
        trees_of(self.items@)
    }

    /// What the pulled elements left over, in order.
    pub open spec fn residue_items(&self) -> Seq<Tree> {
        match self.residue {
            Some(Value::Array(a)) => trees_of(a@),
            _ => Seq::empty(),
        }
    }

    pub proof fn lemma_residue(&self)
        requires
            self.wf(),
        ensures
            slot_view(self.residue) == array_residue(self.residue_items()),
    {
        if let Some(Value::Array(a)) = self.residue {
            lemma_array_view(a);
        }
    }

    pub fn new(items: Vec<Value>) -> (r: SeqCursor)
        ensures
            r.wf(),
            r.items == items,
            r.len == items.len(),
            r.residue is None,
    {
        let len = items.len();
        SeqCursor { items, len, residue: None }
    }

    fn put_value_back(&mut self, v: Value)
        requires
            old(self).wf(),
        ensures
            final(self).wf(),
            final(self).items == old(self).items,
            final(self).residue_items() == old(self).residue_items().push(v@),
    {
        let ghost before = self.residue_items();
        match self.residue.take() {
            Some(Value::Array(mut a)) => {
                a.push(v);
                assert(trees_of(a@) =~= before.push(v@));
                self.residue = Some(Value::Array(a));
            },
            _ => {
                let mut a: Vec<Value> = Vec::new();
                a.push(v);
                assert(trees_of(a@) =~= before.push(v@));
                self.residue = Some(Value::Array(a));
            },
        }
    }

    /// Pulls the next element and decodes it into `e`; `None` once all are pulled.
    pub fn next_element(&mut self, e: &Shape) -> (r: Result<Option<Decoded>, DecodeError>)
        requires
            old(self).wf(),
        ensures
            final(self).wf(),
            old(self).items.len() == 0 ==> (r matches Ok(None) && final(self).len == 0
                && final(self).residue_items() == old(self).residue_items()),
            old(self).items.len() > 0 ==> {
                &&& final(self).rest() == old(self).rest().drop_first()
                &&& final(self).len == old(self).len - 1
                &&& match decode_spec(Some(old(self).rest()[0]), *e) {
                    Ok((o, left)) => r matches Ok(Some(d)) && d@ == o && final(self).residue_items()
                        == keep_element(old(self).residue_items(), left),
                    Err(x) => r matches Err(er) && er@ == x && final(self).residue
                        == old(self).residue,
                }
            },
        decreases e, 5int,
    {
        if self.items.len() == 0 {
            return Ok(None);
        }
        let ghost rest0 = self.rest();
        let ghost items0 = self.items@;
        let value = self.items.remove(0);
        assert(self.items@ =~= items0.drop_first());
        assert(self.rest() =~= rest0.drop_first());
        self.len = self.len - 1;
        let mut de = Decoder::new(value);
        match de.decode(e) {
            Ok(v) => {
                match de.toml {
                    Some(t) => self.put_value_back(t),
                    None => {},
                }
                Ok(Some(v))
            },
            Err(x) => Err(x),
        }
    }

    /// Succeeds only when every element was pulled.
    pub fn end(&self) -> (r: Result<(), DecodeError>)
        ensures
            self.len == 0 ==> r is Ok,
            self.len != 0 ==> (r matches Err(e) && e@ == end_of_stream()),
    {
        if self.len == 0 {
            Ok(())
        } else {
            Err(DecodeError::end_of_stream_error())
        }
    }

    pub fn size_hint(&self) -> (r: (usize, Option<usize>))
        ensures
            r == (self.len, Some(self.len)),
    {
        (self.len, Some(self.len))
    }
}

/// The position of the first entry whose key `ks` recognises, or the
/// number of entries where it recognises none.
pub open spec fn first_known(ks: KeyShape, es: Seq<(Seq<char>, Tree)>) -> int
    decreases es.len(),
{
    if es.len() == 0 {
        0
    } else if key_unknown(ks, es[0].0) {
        1 + first_known(ks, es.drop_first())
    } else {
        0
    }
}

pub proof fn lemma_first_known(ks: KeyShape, es: Seq<(Seq<char>, Tree)>)
    ensures
        0 <= first_known(ks, es) <= es.len(),
        forall|i: int| 0 <= i < first_known(ks, es) ==> key_unknown(ks, #[trigger] es[i].0),
        first_known(ks, es) < es.len() ==> !key_unknown(ks, es[first_known(ks, es)].0),
    decreases es.len(),
{
    if es.len() > 0 {
        lemma_first_known(ks, es.drop_first());
        if key_unknown(ks, es[0].0) {
            assert forall|i: int| 0 <= i < first_known(ks, es) implies key_unknown(ks, #[trigger] es[i].0) by {
                if i > 0 {
                    assert(es[i] == es.drop_first()[i - 1]);
                }
            }
        }
    }
}

/// Drives the entries of a table one at a time. Entries whose key is not
/// recognised, and what recognised entries leave over, are collected under
/// their key into a table of their own.
pub struct MapCursor {
    pub entries: Vec<(String, Value)>,
    pub key: Option<String>,
    pub value: Option<Value>,
    pub residue: Option<Value>,
}

impl MapCursor {
    pub open spec fn wf(&self) -> bool {
        &&& self.value is Some ==> self.key is Some
        &&& match self.residue {
            None => true,
            Some(Value::Table(t)) => t.len() > 0,
            _ => false,
        }
    }

    /// The entries not yet pulled.
    pub open spec fn rest(&self) -> Seq<(Seq<char>, Tree)> {
        entries_of(self.entries@)
    }

    /// The entries collected as left over, in order.
    pub open spec fn residue_items(&self) -> Seq<(Seq<char>, Tree)> {
        match self.residue {
            Some(Value::Table(t)) => entries_of(t@),
            _ => Seq::empty(),
        }
    }

    pub proof fn lemma_residue(&self)
        requires
            self.wf(),
        ensures
            slot_view(self.residue) == table_residue(self.residue_items()),
    {
        if let Some(Value::Table(t)) = self.residue {
            lemma_table_view(t);
        }
    }

    pub fn new(entries: Vec<(String, Value)>) -> (r: MapCursor)
        ensures
            r.wf(),
            r.entries == entries,
            r.key is None,
            r.value is None,
            r.residue is None,
    {
        MapCursor { entries, key: None, value: None, residue: None }
    }

    /// Files `v` among the leftovers under `k`: it replaces an entry already
    /// under `k`. The key and value held for `next_value` stay as they are.
    fn put_value_back(&mut self, k: String, v: Value)
        requires
            old(self).wf(),
        ensures
            final(self).wf(),
            final(self).entries == old(self).entries,
            final(self).value == old(self).value,
            final(self).key == old(self).key,
            final(self).residue_items() == file_entry(old(self).residue_items(), k@, v@),
    {
        let ghost before = self.residue_items();
        let ghost kv = k@;
        match self.residue.take() {
            Some(Value::Table(mut t)) => {
                let mut i: usize = 0;
                while i < t.len()
                    invariant
                        i <= t.len(),
                        t.len() > 0,
                        entries_of(t@) == before,
                        k@ == kv,
                        before == old(self).residue_items(),
                        index_of(keys_of(before).take(i as int), kv) < 0,
                        self.key == old(self).key,
                        self.value == old(self).value,
                        self.entries == old(self).entries,
                        self.value is Some ==> self.key is Some,
                    decreases t.len() - i,
                {
                    assert(keys_of(before).take(i + 1).drop_last() =~= keys_of(before).take(i as int));
                    if t[i].0 == k {
                        assert(keys_of(before).take(i + 1).last() == kv);
                        assert(index_of(keys_of(before).take(i + 1), kv) == i);
                        proof {
                            lemma_index_of_prefix(keys_of(before), kv, i as int + 1);
                        }
                        t.set(i, (k, v));
                        assert(entries_of(t@) =~= before.update(i as int, (kv, v@)));
                        self.residue = Some(Value::Table(t));
                        return;
                    }
                    i = i + 1;
                }
                assert(keys_of(before).take(i as int) =~= keys_of(before));
                t.push((k, v));
                assert(entries_of(t@) =~= before.push((kv, v@)));
                self.residue = Some(Value::Table(t));
            },
            _ => {
                let mut t: Vec<(String, Value)> = Vec::new();
                t.push((k, v));
                assert(keys_of(before) =~= Seq::<Seq<char>>::empty());
                assert(entries_of(t@) =~= before.push((kv, v@)));
                self.residue = Some(Value::Table(t));
            },
        }
    }

    /// Pulls entries until one whose key `ks` recognises, and holds its value
    /// for `next_value`. Entries with an unknown key go to the leftovers under
    /// their own key. Where no key is recognised, the key and value already
    /// held stay as they are.
    pub fn next_key(&mut self, ks: &KeyShape) -> (r: Result<Option<String>, DecodeError>)
        requires
            old(self).wf(),
        ensures
            final(self).wf(),
            final(self).residue_items() == file_all(
                old(self).residue_items(),
                old(self).rest().take(first_known(*ks, old(self).rest())),
            ),
            first_known(*ks, old(self).rest()) == old(self).rest().len() ==> (r matches Ok(None)
                && final(self).rest().len() == 0 && final(self).value == old(self).value
                && final(self).key == old(self).key),
            first_known(*ks, old(self).rest()) < old(self).rest().len() ==> {
                let j = first_known(*ks, old(self).rest());
                &&& r matches Ok(Some(k)) && k@ == old(self).rest()[j].0
                &&& final(self).rest() == old(self).rest().skip(j + 1)
                &&& final(self).value matches Some(v) && v@ == old(self).rest()[j].1
                &&& final(self).key matches Some(k) && k@ == old(self).rest()[j].0
            },
    {
        let ghost es = self.rest();
        let ghost res0 = self.residue_items();
        let ghost j = first_known(*ks, es);
        proof {
            lemma_first_known(*ks, es);
        }
        assert(es.take(0) =~= Seq::<(Seq<char>, Tree)>::empty());
        while self.entries.len() > 0
            invariant
                self.wf(),
                self.value == old(self).value,
                self.key == old(self).key,
                0 <= es.len() - self.entries.len() <= j,
                self.rest() == es.skip(es.len() - self.entries.len()),
                self.residue_items() == file_all(res0, es.take(es.len() - self.entries.len())),
                j == first_known(*ks, es),
                es == old(self).rest(),
                res0 == old(self).residue_items(),
                0 <= j <= es.len(),
                forall|i: int| 0 <= i < j ==> key_unknown(*ks, #[trigger] es[i].0),
                j < es.len() ==> !key_unknown(*ks, es[j].0),
            decreases self.entries.len(),
        {
            let ghost c = es.len() - self.entries.len();
            let ghost rest0 = self.rest();
            let ghost entries0 = self.entries@;
            let (k, v) = self.entries.remove(0);
            assert(self.entries@ =~= entries0.drop_first());
            assert(self.rest() =~= rest0.drop_first());
            assert(rest0[0] == es[c]);
            assert(self.rest() =~= es.skip(c + 1));
            let name = k.clone();
            let mut dec = Decoder::new(Value::String(k));
            match dec.visit_key(ks) {
                Ok(val) => {
                    self.key = Some(name);
                    self.value = Some(v);
                    assert(!key_unknown(*ks, es[c].0));
                    assert(c == j);
                    return Ok(Some(val));
                },
                Err(e) => {
                    if e.kind == DecodeErrorKind::UnknownField {
                        self.put_value_back(name, v);
                        assert(es.take(c + 1).drop_last() =~= es.take(c));
                        assert(es.take(c + 1).last() == es[c]);
                    } else {
                        return Err(e);
                    }
                },
            }
        }
        assert(es.take(es.len() as int) =~= es);
        Ok(None)
    }

    /// Decodes the value held by `next_key` into `s`; what it leaves over
    /// goes to the leftovers under the same key.
    pub fn next_value(&mut self, s: &Shape) -> (r: Result<Decoded, DecodeError>)
        requires
            old(self).wf(),
        ensures
            final(self).wf(),
            final(self).entries == old(self).entries,
            final(self).value is None,
            old(self).value is None ==> (r matches Err(e) && e@ == end_of_stream()
                && final(self).residue_items() == old(self).residue_items() && final(self).key
                == old(self).key),
            old(self).value matches Some(v) ==> match decode_spec(Some(v@), *s) {
                Ok((o, left)) => {
                    &&& r matches Ok(d) && d@ == o
                    &&& final(self).residue_items() == keep_entry(
                        old(self).residue_items(),
                        old(self).key->Some_0@,
                        left,
                    )
                    &&& left is Some ==> final(self).key is None
                    &&& left is None ==> final(self).key == old(self).key
                },
                Err(x) => {
                    &&& r matches Err(er) && er@ == with_field(x, old(self).key->Some_0@)
                    &&& final(self).residue_items() == old(self).residue_items()
                    &&& final(self).key == old(self).key
                },
            },
        decreases s, 5int,
    {
        match self.value.take() {
            Some(t) => {
                let mut dec = Decoder::new(t);
                match dec.decode(s) {
                    Ok(v) => {
                        match dec.toml {
                            Some(left) => {
                                let k = match self.key.take() {
                                    Some(k) => k,
                                    None => String::new(),
                                };
                                self.put_value_back(k, left);
                            },
                            None => {},
                        }
                        Ok(v)
                    },
                    Err(e) => {
                        if e.field.is_none() {
                            let k = match &self.key {
                                Some(k) => k.clone(),
                                None => String::new(),
                            };
                            Err(DecodeError { field: Some(k), kind: e.kind })
                        } else {
                            Err(e)
                        }
                    },
                }
            },
            None => Err(DecodeError::end_of_stream_error()),
        }
    }

    /// A table never requires every entry to be recognised.
    pub fn end(&self) -> (r: Result<(), DecodeError>)
        ensures
            r is Ok,
    {
        Ok(())
    }

    /// The value of a field that no key named: what its shape makes of
    /// absence, or an expected-field error where it needs a value.
    pub fn missing_field(&mut self, name: &String, s: &Shape) -> (r: Result<Decoded, DecodeError>)
        ensures
            result_view(r) == missing_spec(Field { name: *name, shape: *s }),
            *final(self) == *old(self),
    {
        match probe_absent(s) {
            Err(e) => {
                if e.kind == DecodeErrorKind::SyntaxError {
                    let field = match e.field {
                        Some(f) => Some(f),
                        None => Some(name.clone()),
                    };
                    Err(DecodeError { field, kind: DecodeErrorKind::ExpectedField(None) })
                } else {
                    Err(e)
                }
            },
            Ok(v) => Ok(v),
        }
    }
}

pub open spec fn found_view(f: Seq<Option<Decoded>>) -> Seq<Option<Out>> {
    Seq::new(
        f.len(),
        |i: int|
            match f[i] {
                Some(d) => Some(d@),
                None => None,
            },
    )
}

/// Entries that no field names extend a record scan as leftovers, unchanged.
pub proof fn lemma_scan_unknown(rec: Shape, es: Seq<(Seq<char>, Tree)>, m: int, j: int)
    requires
        rec is Record,
        0 <= m <= m + j <= es.len(),
        record_scan(rec, es.take(m)) is Ok,
        forall|i: int| m <= i < m + j ==> index_of(field_names(rec->Record_0@), #[trigger] es[i].0) < 0,
    ensures
        record_scan(rec, es.take(m + j)) == Ok::<_, ErrorView>((
            record_scan(rec, es.take(m))->Ok_0.0,
            file_all(record_scan(rec, es.take(m))->Ok_0.1, es.subrange(m, m + j)),
        )),
    decreases j,
{
    if j == 0 {
        assert(es.subrange(m, m) =~= Seq::<(Seq<char>, Tree)>::empty());
    } else {
        lemma_scan_unknown(rec, es, m, j - 1);
        assert(es.take(m + j).drop_last() =~= es.take(m + j - 1));
        assert(es.take(m + j).last() == es[m + j - 1]);
        assert(es.subrange(m, m + j).drop_last() =~= es.subrange(m, m + j - 1));
        assert(es.subrange(m, m + j).last() == es[m + j - 1]);
    }
}

/// A failure on a prefix of the elements is the failure on them all.
pub proof fn lemma_elems_err(e: Shape, items: Seq<Tree>, m: int)
    requires
        0 <= m <= items.len(),
        elems_spec(e, items.take(m)) is Err,
    ensures
        elems_spec(e, items) == elems_spec(e, items.take(m)),
    decreases items.len() - m,
{
    if m == items.len() {
        assert(items.take(m) =~= items);
    } else {
        assert(items.take(m + 1).drop_last() =~= items.take(m));
        lemma_elems_err(e, items, m + 1);
    }
}

pub proof fn lemma_dict_err(e: Shape, es: Seq<(Seq<char>, Tree)>, m: int)
    requires
        0 <= m <= es.len(),
        dict_spec(e, es.take(m)) is Err,
    ensures
        dict_spec(e, es) == dict_spec(e, es.take(m)),
    decreases es.len() - m,
{
    if m == es.len() {
        assert(es.take(m) =~= es);
    } else {
        assert(es.take(m + 1).drop_last() =~= es.take(m));
        lemma_dict_err(e, es, m + 1);
    }
}

pub proof fn lemma_scan_err(rec: Shape, es: Seq<(Seq<char>, Tree)>, m: int)
    requires
        0 <= m <= es.len(),
        record_scan(rec, es.take(m)) is Err,
    ensures
        record_scan(rec, es) == record_scan(rec, es.take(m)),
    decreases es.len() - m,
{
    if m == es.len() {
        assert(es.take(m) =~= es);
    } else {
        assert(es.take(m + 1).drop_last() =~= es.take(m));
        lemma_scan_err(rec, es, m + 1);
    }
}

pub proof fn lemma_complete_err(fields: Seq<Field>, found: Seq<Option<Out>>, m: int, n: int)
    requires
        0 <= m <= n,
        complete_spec(fields, found, m) is Err,
    ensures
        complete_spec(fields, found, n) == complete_spec(fields, found, m),
    decreases n - m,
{
    if m < n {
        lemma_complete_err(fields, found, m, n - 1);
    }
}

/// The position of the field named `k`.
fn field_index(fields: &Vec<Field>, k: &String) -> (r: usize)
    requires
        index_of(field_names(fields@), k@) >= 0,
    ensures
        r as int == index_of(field_names(fields@), k@),
        r < fields.len(),
{
    proof {
        lemma_index_of_range(field_names(fields@), k@);
    }
    let mut i: usize = 0;
    while i < fields.len()
        invariant
            i <= fields.len(),
            index_of(field_names(fields@).take(i as int), k@) < 0,
            index_of(field_names(fields@), k@) >= 0,
        decreases fields.len() - i,
    {
        assert(field_names(fields@).take(i + 1).drop_last() =~= field_names(fields@).take(i as int));
        if fields[i].name == *k {
            assert(field_names(fields@).take(i + 1).last() == k@);
            proof {
                lemma_index_of_prefix(field_names(fields@), k@, i as int + 1);
            }
            return i;
        }
        i = i + 1;
    }
    assert(field_names(fields@).take(i as int) =~= field_names(fields@));
    0
}

/// The consumer's side of a table with arbitrary keys.
fn accept_dict(e: &Shape, cursor: &mut MapCursor) -> (r: Result<Decoded, DecodeError>)
    requires
        old(cursor).wf(),
        old(cursor).value is None,
        old(cursor).residue is None,
    ensures
        final(cursor).wf(),
        match dict_spec(*e, old(cursor).rest()) {
            Ok((outs, res)) => r matches Ok(d) && d@ == Out::Dict(outs) && final(cursor).residue_items()
                == res,
            Err(x) => r matches Err(er) && er@ == x,
        },
    decreases e, 6int,
{
    let ghost es = cursor.rest();
    let ks = KeyShape::Text;
    let mut out: Vec<(String, Decoded)> = Vec::new();
    assert(es.take(0) =~= Seq::<(Seq<char>, Tree)>::empty());
    assert(out_entries_of(out@) =~= Seq::<(Seq<char>, Out)>::empty());
    assert(cursor.residue_items() =~= Seq::<(Seq<char>, Tree)>::empty());
    assert(cursor.rest() =~= es.skip(0));
    loop
        invariant
            ks == KeyShape::Text,
            es == old(cursor).rest(),
            cursor.wf(),
            cursor.value is None,
            0 <= es.len() - cursor.entries.len() <= es.len(),
            cursor.rest() == es.skip(es.len() - cursor.entries.len()),
            dict_spec(*e, es.take(es.len() - cursor.entries.len())) == Ok::<_, ErrorView>((
                out_entries_of(out@),
                cursor.residue_items(),
            )),
        ensures
            cursor.wf(),
            dict_spec(*e, es) == Ok::<_, ErrorView>((out_entries_of(out@), cursor.residue_items())),
        decreases cursor.entries.len(),
    {
        let ghost n = es.len() - cursor.entries.len();
        let ghost res0 = cursor.residue_items();
        let ghost rest0 = cursor.rest();
        assert(first_known(ks, rest0) == 0);
        assert(rest0.take(0) =~= Seq::<(Seq<char>, Tree)>::empty());
        assert(file_all(res0, rest0.take(0)) == res0);
        if cursor.entries.len() > 0 {
            assert(rest0[0] == es[n]);
            assert(es.take(n + 1).drop_last() =~= es.take(n));
            assert(es.take(n + 1).last() == es[n]);
            assert(rest0.skip(1) =~= es.skip(n + 1));
        }
        match cursor.next_key(&ks) {
            Ok(Some(k)) => {
                match cursor.next_value(e) {
                    Ok(d) => {
                        let ghost prev = out_entries_of(out@);
                        out.push((k, d));
                        assert(out_entries_of(out@) =~= prev.push((es[n].0, d@)));
                    },
                    Err(x) => {
                        proof {
                            lemma_dict_err(*e, es, n + 1);
                        }
                        return Err(x);
                    },
                }
            },
            Ok(None) => {
                assert(es.take(n) =~= es);
                break ;
            },
            Err(x) => {
                return Err(x);
            },
        }
    }
    proof {
        lemma_dict_view(out);
    }
    match cursor.end() {
        Ok(()) => Ok(Decoded::Dict(out)),
        Err(x) => Err(x),
    }
}

impl Shape {
    /// The consumer's side of a table: a dictionary takes every entry, a
    /// record the entries that name its fields.
    pub fn accept_map(&self, cursor: &mut MapCursor) -> (r: Result<Decoded, DecodeError>)
        requires
            old(cursor).wf(),
            old(cursor).value is None,
            old(cursor).residue is None,
        ensures
            final(cursor).wf(),
            match *self {
                Shape::Dict(e) => match dict_spec(*e, old(cursor).rest()) {
                    Ok((outs, res)) => r matches Ok(d) && d@ == Out::Dict(outs)
                        && final(cursor).residue_items() == res,
                    Err(x) => r matches Err(er) && er@ == x,
                },
                Shape::Record(fields) => match record_scan(*self, old(cursor).rest()) {
                    Ok((found, res)) => match complete_spec(fields@, found, fields.len() as int) {
                        Ok(outs) => r matches Ok(d) && d@ == Out::Record(outs)
                            && final(cursor).residue_items() == res,
                        Err(x) => r matches Err(er) && er@ == x,
                    },
                    Err(x) => r matches Err(er) && er@ == x,
                },
                _ => r matches Err(er) && er@ == syntax(),
            },
        decreases self, 1int,
    {
        match self {
            Shape::Dict(e) => accept_dict(e, cursor),
            Shape::Record(_) => self.accept_record(cursor),
            _ => Err(DecodeError::syntax_error()),
        }
    }

    fn accept_record(&self, cursor: &mut MapCursor) -> (r: Result<Decoded, DecodeError>)
        requires
            self is Record,
            old(cursor).wf(),
            old(cursor).value is None,
            old(cursor).residue is None,
        ensures
            final(cursor).wf(),
            match record_scan(*self, old(cursor).rest()) {
                Ok((found, res)) => match complete_spec(self->Record_0@, found, self->Record_0.len() as int) {
                    Ok(outs) => r matches Ok(d) && d@ == Out::Record(outs)
                        && final(cursor).residue_items() == res,
                    Err(x) => r matches Err(er) && er@ == x,
                },
                Err(x) => r matches Err(er) && er@ == x,
            },
        decreases self, 0int,
    {
        let fields = match self {
            Shape::Record(fields) => fields,
            _ => {
                return Err(DecodeError::syntax_error());
            },
        };
        let ghost es = cursor.rest();
        let mut names: Vec<String> = Vec::new();
        let mut i: usize = 0;
        while i < fields.len()
            invariant
                i <= fields.len(),
                names.len() == i,
                forall|x: int| 0 <= x < i ==> (#[trigger] names@[x])@ == fields@[x].name@,
            decreases fields.len() - i,
        {
            let nm = fields[i].name.clone();
            names.push(nm);
            i = i + 1;
        }
        assert(names_of(names@) =~= field_names(fields@));
        let ks = KeyShape::Fields(names);
        let mut found: Vec<Option<Decoded>> = Vec::new();
        let mut i: usize = 0;
        while i < fields.len()
            invariant
                i <= fields.len(),
                found.len() == i,
                forall|x: int| 0 <= x < i ==> (#[trigger] found@[x]) is None,
            decreases fields.len() - i,
        {
            found.push(None);
            i = i + 1;
        }
        assert(found_view(found@) =~= Seq::new(fields.len() as nat, |x: int| None::<Out>));
        assert(es.take(0) =~= Seq::<(Seq<char>, Tree)>::empty());
        assert(cursor.residue_items() =~= Seq::<(Seq<char>, Tree)>::empty());
        assert(cursor.rest() =~= es.skip(0));
        assert(record_scan(*self, es.take(0)) == Ok::<_, ErrorView>((found_view(found@), cursor.residue_items())));
        loop
            invariant
                *self == Shape::Record(*fields),
                es == old(cursor).rest(),
                cursor.wf(),
                cursor.value is None,
                0 <= es.len() - cursor.entries.len() <= es.len(),
                cursor.rest() == es.skip(es.len() - cursor.entries.len()),
                record_scan(*self, es.take(es.len() - cursor.entries.len())) == Ok::<_, ErrorView>((
                    found_view(found@),
                    cursor.residue_items(),
                )),
                found.len() == fields.len(),
                ks == KeyShape::Fields(names),
                names_of(names@) == field_names(fields@),
            ensures
                cursor.wf(),
                found.len() == fields.len(),
                record_scan(*self, es) == Ok::<_, ErrorView>((found_view(found@), cursor.residue_items())),
            decreases cursor.entries.len(),
        {
            let ghost n = es.len() - cursor.entries.len();
            let ghost rest0 = cursor.rest();
            let ghost res0 = cursor.residue_items();
            let ghost fv0 = found_view(found@);
            let ghost j = first_known(ks, rest0);
            proof {
                lemma_first_known(ks, rest0);
                assert forall|x: int| n <= x < n + j implies index_of(field_names(fields@), #[trigger] es[x].0) < 0 by {
                    assert(rest0[x - n] == es[x]);
                }
                lemma_scan_unknown(*self, es, n, j);
                assert(rest0.take(j) =~= es.subrange(n, n + j));
                if j < rest0.len() {
                    assert(rest0[j] == es[n + j]);
                    assert(es.take(n + j + 1).drop_last() =~= es.take(n + j));
                    assert(es.take(n + j + 1).last() == es[n + j]);
                    assert(rest0.skip(j + 1) =~= es.skip(n + j + 1));
                }
            }
            match cursor.next_key(&ks) {
                Ok(Some(k)) => {
                    let idx = field_index(fields, &k);
                    match cursor.next_value(&fields[idx].shape) {
                        Ok(d) => {
                            found.set(idx, Some(d));
                            assert(found_view(found@) =~= fv0.update(idx as int, Some(d@)));
                        },
                        Err(x) => {
                            proof {
                                lemma_scan_err(*self, es, n + j + 1);
                            }
                            return Err(x);
                        },
                    }
                },
                Ok(None) => {
                    assert(es.take(n + j) =~= es);
                    break ;
                },
                Err(x) => {
                    return Err(x);
                },
            }
        }
        assert(es.take(es.len() as int) =~= es);
        let ghost fv = found_view(found@);
        let mut outs: Vec<Decoded> = Vec::new();
        let mut i: usize = 0;
        assert(outs_of(outs@) =~= Seq::<Out>::empty());
        assert(found_view(found@) =~= fv.skip(0));
        while i < fields.len()
            invariant
                *self == Shape::Record(*fields),
                es == old(cursor).rest(),
                record_scan(*self, es) == Ok::<_, ErrorView>((fv, cursor.residue_items())),
                cursor.wf(),
                i <= fields.len(),
                fv.len() == fields.len(),
                found.len() == fields.len() - i,
                found_view(found@) == fv.skip(i as int),
                complete_spec(fields@, fv, i as int) == Ok::<_, ErrorView>(outs_of(outs@)),
            decreases fields.len() - i,
        {
            let ghost fv_i = found_view(found@);
            let ghost found0 = found@;
            let item = found.remove(0);
            assert(found@ =~= found0.drop_first());
            assert(found_view(found@) =~= fv_i.drop_first());
            assert(fv_i[0] == fv[i as int]);
            assert(found_view(found@) =~= fv.skip(i + 1));
            let ghost prev = outs_of(outs@);
            match item {
                Some(d) => {
                    outs.push(d);
                    assert(outs_of(outs@) =~= prev.push(d@));
                },
                None => match cursor.missing_field(&fields[i].name, &fields[i].shape) {
                    Ok(d) => {
                        outs.push(d);
                        assert(outs_of(outs@) =~= prev.push(d@));
                    },
                    Err(x) => {
                        proof {
                            lemma_complete_err(fields@, fv, i + 1, fields.len() as int);
                        }
                        return Err(x);
                    },
                },
            }
            i = i + 1;
        }
        proof {
            lemma_list_view(outs);
        }
        match cursor.end() {
            Ok(()) => Ok(Decoded::Record(outs)),
            Err(x) => Err(x),
        }
    }

    /// The consumer's side of an array: pulls every element into the
    /// element shape of a list, then finishes the cursor.
    pub fn accept_sequence(&self, cursor: &mut SeqCursor) -> (r: Result<Decoded, DecodeError>)
        requires
            old(cursor).wf(),
            old(cursor).residue is None,
        ensures
            final(cursor).wf(),
            match *self {
                Shape::List(e) => match elems_spec(*e, old(cursor).rest()) {
                    Ok((outs, res)) => r matches Ok(d) && d@ == Out::List(outs)
                        && final(cursor).residue_items() == res,
                    Err(x) => r matches Err(er) && er@ == x,
                },
                _ => r matches Err(er) && er@ == syntax(),
            },
        decreases self, 1int,
    {
        match self {
            Shape::List(e) => {
                let ghost items = cursor.rest();
                let mut out: Vec<Decoded> = Vec::new();
                assert(items.take(0) =~= Seq::<Tree>::empty());
                assert(outs_of(out@) =~= Seq::<Out>::empty());
                assert(cursor.residue_items() =~= Seq::<Tree>::empty());
                assert(cursor.rest() =~= items.skip(0));
                loop
                    invariant
                        *self == Shape::List(*e),
                        items == old(cursor).rest(),
                        cursor.wf(),
                        0 <= items.len() - cursor.items.len() <= items.len(),
                        cursor.rest() == items.skip(items.len() - cursor.items.len()),
                        elems_spec(**e, items.take(items.len() - cursor.items.len())) == Ok::<_, ErrorView>((
                            outs_of(out@),
                            cursor.residue_items(),
                        )),
                    ensures
                        cursor.wf(),
                        cursor.items.len() == 0,
                        elems_spec(**e, items) == Ok::<_, ErrorView>((outs_of(out@), cursor.residue_items())),
                    decreases cursor.items.len(),
                {
                    let ghost n = items.len() - cursor.items.len();
                    let ghost before = cursor.residue_items();
                    if cursor.items.len() > 0 {
                        assert(cursor.rest()[0] == items[n]);
                        assert(items.take(n + 1).drop_last() =~= items.take(n));
                        assert(items.take(n + 1).last() == items[n]);
                        assert(cursor.rest().drop_first() =~= items.skip(n + 1));
                    }
                    match cursor.next_element(e) {
                        Ok(Some(d)) => {
                            let ghost prev = outs_of(out@);
                            out.push(d);
                            assert(outs_of(out@) =~= prev.push(d@));
                        },
                        Ok(None) => {
                            assert(items.take(n) =~= items);
                            break ;
                        },
                        Err(x) => {
                            proof {
                                lemma_elems_err(**e, items, n + 1);
                            }
                            return Err(x);
                        },
                    }
                }
                assert(items.take(items.len() as int) =~= items);
                proof {
                    lemma_list_view(out);
                }
                match cursor.end() {
                    Ok(()) => Ok(Decoded::List(out)),
                    Err(x) => Err(x),
                }
            },
            _ => Err(DecodeError::syntax_error()),
        }
    }
}

} // verus!
