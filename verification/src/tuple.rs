//! Record identifiers, schema descriptors and tuples, with their on-disk
//! encoding: a tuple is the concatenation of its fields' fixed-width
//! encodings, positionally bound to the descriptor's column types.

use vstd::prelude::*;

verus! {

use crate::Error;
use crate::codec::str_eq;
use crate::fields::Field;
use crate::fields::FieldModel;
use crate::fields::FieldVal;
use crate::fields::field_model;
use crate::fields::spec_field_bytes;
use crate::fields::spec_field_wf;
use crate::fields::spec_parse_field;
use crate::fields::spec_type_of;
use crate::fields::lemma_field_bytes_len;
use crate::fields::lemma_field_round_trip;
use crate::fields::lemma_parse_field_wf;
use crate::heap_page::HeapPageId;
use crate::types::Type;

/// Reference to a tuple: the page that holds it and the slot within the page.
#[derive(Debug, PartialEq, Eq, Hash, Clone, Copy, Structural)]
pub struct RecordId {
    pub pid: HeapPageId,
    pub tuple_no: usize,
}

impl RecordId {
    pub fn new(pid: HeapPageId, tuple_no: usize) -> (r: Self)
        ensures
            r.pid == pid,
            r.tuple_no == tuple_no,
    {
        RecordId { pid, tuple_no }
    }

    pub fn get_page_id(&self) -> (p: HeapPageId)
        ensures
            p == self.pid,
    {
        self.pid
    }

    pub fn get_tuple_no(&self) -> (n: usize)
        ensures
            n == self.tuple_no,
    {
        self.tuple_no
    }
}

/// The record id stamped on tuples that are not yet placed on any page.
pub open spec fn sentinel_rid() -> RecordId {
    RecordId { pid: HeapPageId { table_id: 0, page_number: 0 }, tuple_no: 0 }
}

/// Total on-disk size, in bytes, of a row with the given column types.
pub open spec fn types_size(ts: Seq<Type>) -> int
    decreases ts.len(),
{
    if ts.len() == 0 {
        0
    } else {
        types_size(ts.drop_last()) + ts.last().spec_len()
    }
}

pub proof fn lemma_types_size_nonneg(ts: Seq<Type>)
    ensures
        types_size(ts) >= 0,
    decreases ts.len(),
{
    if ts.len() > 0 {
        lemma_types_size_nonneg(ts.drop_last());
    }
}

/// One more column adds exactly that column's width.
pub proof fn lemma_types_size_take_succ(ts: Seq<Type>, i: int)
    requires
        0 <= i < ts.len(),
    ensures
        types_size(ts.take(i + 1)) == types_size(ts.take(i)) + ts[i].spec_len(),
{
    assert(ts.take(i + 1).drop_last() =~= ts.take(i));
    assert(ts.take(i + 1).last() == ts[i]);
}

/// The row size splits at any column boundary.
pub proof fn lemma_types_size_split(ts: Seq<Type>, i: int)
    requires
        0 <= i <= ts.len(),
    ensures
        types_size(ts) == types_size(ts.take(i)) + types_size(ts.skip(i)),
    decreases ts.len(),
{
    if i == ts.len() {
        assert(ts.take(i) =~= ts);
        assert(ts.skip(i) =~= Seq::<Type>::empty());
    } else {
        lemma_types_size_split(ts.drop_last(), i);
        assert(ts.drop_last().take(i) =~= ts.take(i));
        assert(ts.drop_last().skip(i) =~= ts.skip(i).drop_last());
        assert(ts.skip(i).last() == ts.last());
    }
}

/// Schema of a tuple: ordered column types with their names, bound
/// positionally. Names need not be unique; lookups resolve to the first
/// occurrence.
#[derive(Debug, PartialEq, Eq)]
pub struct TupleDesc {
    pub types: Vec<Type>,
    pub fields: Vec<String>,
}

impl Clone for TupleDesc {
    /// A clone has the same column types and names.
    fn clone(&self) -> (r: Self)
        ensures
            r.types@ == self.types@,
            r.fields@ == self.fields@,
    {
        let mut types: Vec<Type> = Vec::new();
        let mut i: usize = 0;
        while i < self.types.len()
            invariant
                i <= self.types@.len(),
                types@ == self.types@.take(i as int),
            decreases self.types@.len() - i,
        {
            types.push(self.types[i]);
            assert(types@ =~= self.types@.take(i + 1));
            i = i + 1;
        }
        let mut names: Vec<String> = Vec::new();
        let mut j: usize = 0;
        while j < self.fields.len()
            invariant
                j <= self.fields@.len(),
                names@ == self.fields@.take(j as int),
            decreases self.fields@.len() - j,
        {
            names.push(self.fields[j].clone());
            assert(names@ =~= self.fields@.take(j + 1));
            j = j + 1;
        }
        proof {
            assert(types@ =~= self.types@);
            assert(names@ =~= self.fields@);
        }
        TupleDesc { types, fields: names }
    }
}

impl TupleDesc {
    /// The column names as character sequences.
    pub open spec fn spec_names(self) -> Seq<Seq<char>> {
        Seq::new(self.fields@.len(), |i: int| self.fields@[i]@)
    }

    /// Total on-disk size, in bytes, of one row of this schema.
    pub open spec fn spec_size(self) -> int {
        types_size(self.types@)
    }

    pub fn new(types: Vec<Type>, fields: Vec<String>) -> (td: Self)
        ensures
            td.types == types,
            td.fields == fields,
    {
        TupleDesc { types, fields }
    }

    /// Concatenates two schemas: the columns of `td1` followed by those of
    /// `td2`.
    pub fn combine(td1: &TupleDesc, td2: &TupleDesc) -> (td: TupleDesc)
        ensures
            td.types@ == td1.types@ + td2.types@,
            td.fields@ == td1.fields@ + td2.fields@,
    {
        let mut merged = td1.clone();
        let mut tail = td2.clone();
        merged.types.append(&mut tail.types);
        merged.fields.append(&mut tail.fields);
        merged
    }

    pub fn get_num_fields(&self) -> (n: usize)
        ensures
            n == self.types@.len(),
    {
        self.types.len()
    }

    /// The name of the `i`th column, if there is one.
    pub fn get_field_name(&self, i: usize) -> (r: Option<&String>)
        ensures
            r is Some <==> i < self.fields@.len(),
            r matches Some(s) ==> *s == self.fields@[i as int],
    {
        self.fields.get(i)
    }

    /// The index of the first column with the given name, if any.
    pub fn name_to_id(&self, name: &str) -> (r: Option<usize>)
        ensures
            match r {
                Some(i) => {
                    &&& i < self.spec_names().len()
                    &&& self.spec_names()[i as int] == name@
                    &&& forall|j: int| 0 <= j < i ==> self.spec_names()[j] != name@
                },
                None => forall|j: int|
                    0 <= j < self.spec_names().len() ==> self.spec_names()[j] != name@,
            },
    {
        let mut i: usize = 0;
        while i < self.fields.len()
            invariant
                i <= self.fields@.len(),
                forall|j: int| 0 <= j < i ==> self.spec_names()[j] != name@,
            decreases self.fields@.len() - i,
        {
            if str_eq(self.fields[i].as_str(), name) {
                return Some(i);
            }
            i = i + 1;
        }
        None
    }

    /// The type of the `i`th column, if there is one.
    pub fn get_field_type(&self, i: usize) -> (r: Option<&Type>)
        ensures
            r is Some <==> i < self.types@.len(),
            r matches Some(t) ==> *t == self.types@[i as int],
    {
        self.types.get(i)
    }

    /// Total on-disk size, in bytes, of one row of this schema.
    pub fn get_size(&self) -> (n: usize)
        requires
            self.spec_size() <= usize::MAX,
        ensures
            n == self.spec_size(),
    {
        let ghost ts = self.types@;
        let mut acc: usize = 0;
        let mut i: usize = 0;
        while i < self.types.len()
            invariant
                i <= ts.len(),
                ts == self.types@,
                types_size(ts) <= usize::MAX,
                acc == types_size(ts.take(i as int)),
            decreases ts.len() - i,
        {
            proof {
                lemma_types_size_take_succ(ts, i as int);
                lemma_types_size_split(ts, i + 1);
                lemma_types_size_nonneg(ts.skip(i + 1));
                lemma_types_size_nonneg(ts.take(i as int));
            }
            acc = acc + self.types[i].get_len();
            i = i + 1;
        }
        proof {
            assert(ts.take(ts.len() as int) =~= ts);
        }
        acc
    }
}

/// The models of a sequence of field values.
pub open spec fn tuple_fields_model(fields: Seq<FieldVal>) -> Seq<FieldModel> {
    fields.map_values(|f: FieldVal| field_model(f))
}

/// The on-disk bytes of a row: the concatenation of its fields' encodings.
pub open spec fn spec_tuple_bytes(fields: Seq<FieldModel>) -> Seq<u8>
    decreases fields.len(),
{
    if fields.len() == 0 {
        Seq::empty()
    } else {
        spec_tuple_bytes(fields.drop_last()) + spec_field_bytes(fields.last())
    }
}

/// The row decoded from the front of `bytes` under the given column types,
/// when every column decodes.
pub open spec fn spec_parse_tuple(types: Seq<Type>, bytes: Seq<u8>) -> Option<Seq<FieldModel>>
    recommends
        bytes.len() >= types_size(types),
    decreases types.len(),
{
    if types.len() == 0 {
        Some(Seq::empty())
    } else {
        let init = spec_parse_tuple(types.drop_last(), bytes);
        let f = spec_parse_field(types.last(), bytes.skip(types_size(types.drop_last())));
        match (init, f) {
            (Some(fs), Some(m)) => Some(fs.push(m)),
            _ => None,
        }
    }
}

/// A row matches a schema when it has one well-formed field of the declared
/// type for every column.
pub open spec fn spec_tuple_matches(fields: Seq<FieldModel>, types: Seq<Type>) -> bool {
    &&& fields.len() == types.len()
    &&& forall|i: int|
        0 <= i < fields.len() ==> spec_type_of(#[trigger] fields[i]) == types[i] && spec_field_wf(
            fields[i],
        )
}

/// A row that matches its schema encodes to exactly the schema's row size.
pub proof fn lemma_tuple_bytes_len(fields: Seq<FieldModel>, types: Seq<Type>)
    requires
        spec_tuple_matches(fields, types),
    ensures
        spec_tuple_bytes(fields).len() == types_size(types),
    decreases fields.len(),
{
    if fields.len() > 0 {
        assert(spec_tuple_matches(fields.drop_last(), types.drop_last()));
        lemma_tuple_bytes_len(fields.drop_last(), types.drop_last());
        lemma_field_bytes_len(fields.last());
    }
}

/// A single column occupies exactly its own width.
pub proof fn lemma_types_size_singleton(t: Type)
    ensures
        types_size(seq![t]) == t.spec_len(),
{
    assert(seq![t].drop_last() =~= Seq::<Type>::empty());
    assert(seq![t].last() == t);
    assert(types_size(Seq::<Type>::empty()) == 0);
}

/// A successful row parse yields one field per column.
pub proof fn lemma_parse_tuple_len(types: Seq<Type>, bytes: Seq<u8>)
    requires
        spec_parse_tuple(types, bytes) is Some,
    ensures
        spec_parse_tuple(types, bytes).unwrap().len() == types.len(),
    decreases types.len(),
{
    if types.len() > 0 {
        lemma_parse_tuple_len(types.drop_last(), bytes);
    }
}

/// A successful row parse succeeds on every column prefix, with the prefix
/// of the fields.
pub proof fn lemma_parse_tuple_take(types: Seq<Type>, bytes: Seq<u8>, i: int)
    requires
        0 <= i <= types.len(),
        spec_parse_tuple(types, bytes) is Some,
    ensures
        spec_parse_tuple(types.take(i), bytes) == Some(
            spec_parse_tuple(types, bytes).unwrap().take(i),
        ),
    decreases types.len(),
{
    let fs = spec_parse_tuple(types, bytes).unwrap();
    lemma_parse_tuple_len(types, bytes);
    if i == types.len() {
        assert(types.take(i) =~= types);
        assert(fs.take(i) =~= fs);
    } else {
        lemma_parse_tuple_take(types.drop_last(), bytes, i);
        let init = spec_parse_tuple(types.drop_last(), bytes).unwrap();
        lemma_parse_tuple_len(types.drop_last(), bytes);
        assert(types.drop_last().take(i) =~= types.take(i));
        assert(fs.take(i) =~= init.take(i));
    }
}

/// Whatever a successful row parse yields matches the schema.
pub proof fn lemma_parse_tuple_props(types: Seq<Type>, bytes: Seq<u8>)
    requires
        bytes.len() >= types_size(types),
        spec_parse_tuple(types, bytes) is Some,
    ensures
        spec_tuple_matches(spec_parse_tuple(types, bytes).unwrap(), types),
    decreases types.len(),
{
    if types.len() > 0 {
        let fs = spec_parse_tuple(types, bytes).unwrap();
        let off = types_size(types.drop_last());
        lemma_types_size_nonneg(types.drop_last());
        lemma_parse_tuple_props(types.drop_last(), bytes);
        lemma_parse_field_wf(types.last(), bytes.skip(off));
        assert(fs.drop_last() =~= spec_parse_tuple(types.drop_last(), bytes).unwrap());
        assert(forall|i: int| 0 <= i < fs.len() - 1 ==> fs[i] == fs.drop_last()[i]);
    }
}

/// Decoding the encoding of a row that matches its schema yields the row
/// back, whatever bytes follow it.
pub proof fn lemma_tuple_round_trip(fields: Seq<FieldModel>, types: Seq<Type>, rest: Seq<u8>)
    requires
        spec_tuple_matches(fields, types),
    ensures
        spec_parse_tuple(types, spec_tuple_bytes(fields) + rest) == Some(fields),
    decreases fields.len(),
{
    if fields.len() == 0 {
        assert(spec_parse_tuple(types, spec_tuple_bytes(fields) + rest) == Some(
            Seq::<FieldModel>::empty(),
        ));
        assert(fields =~= Seq::<FieldModel>::empty());
    } else {
        let init = fields.drop_last();
        let last = fields.last();
        assert(spec_tuple_matches(init, types.drop_last()));
        let bytes = spec_tuple_bytes(fields) + rest;
        let last_rest = spec_field_bytes(last) + rest;
        assert(bytes =~= spec_tuple_bytes(init) + last_rest);
        lemma_tuple_round_trip(init, types.drop_last(), last_rest);
        lemma_tuple_bytes_len(init, types.drop_last());
        assert(bytes.skip(types_size(types.drop_last())) =~= last_rest);
        lemma_field_round_trip(last, rest);
        assert(spec_type_of(last) == types.last());
        assert(init.push(last) =~= fields);
    }
}

/// A row of field values bound to a schema, carrying the record id of the
/// slot it occupies (or the sentinel id while unplaced).
#[derive(Debug, PartialEq, Eq)]
pub struct Tuple {
    pub fields: Vec<FieldVal>,
    pub td: TupleDesc,
    pub rid: RecordId,
}

impl Clone for Tuple {
    /// A clone has the same fields, schema and record id.
    fn clone(&self) -> (r: Self)
        ensures
            r.fields@ == self.fields@,
            r.td.types@ == self.td.types@,
            r.td.fields@ == self.td.fields@,
            r.rid == self.rid,
    {
        let mut fields: Vec<FieldVal> = Vec::new();
        let mut i: usize = 0;
        while i < self.fields.len()
            invariant
                i <= self.fields@.len(),
                fields@ == self.fields@.take(i as int),
            decreases self.fields@.len() - i,
        {
            fields.push(self.fields[i].clone());
            assert(fields@ =~= self.fields@.take(i + 1));
            i = i + 1;
        }
        proof {
            assert(fields@ =~= self.fields@);
        }
        Tuple { fields, td: self.td.clone(), rid: self.rid }
    }
}

impl Tuple {
    /// The models of this tuple's field values.
    pub open spec fn spec_fields(self) -> Seq<FieldModel> {
        tuple_fields_model(self.fields@)
    }

    /// Binds field values to a schema. The record id starts as the sentinel
    /// until the tuple is placed on a page.
    pub fn new(fields: Vec<FieldVal>, td: &TupleDesc) -> (t: Self)
        ensures
            t.fields == fields,
            t.td.types@ == td.types@,
            t.td.fields@ == td.fields@,
            t.rid == sentinel_rid(),
    {
        Tuple { fields, td: td.clone(), rid: RecordId::new(HeapPageId::new(0, 0), 0) }
    }

    pub fn get_tuple_desc(&self) -> (td: &TupleDesc)
        ensures
            *td == self.td,
    {
        &self.td
    }

    pub fn get_record_id(&self) -> (r: RecordId)
        ensures
            r == self.rid,
    {
        self.rid
    }

    pub fn set_record_id(&mut self, rid: RecordId)
        ensures
            final(self).rid == rid,
            final(self).fields == old(self).fields,
            final(self).td == old(self).td,
    {
        self.rid = rid;
    }

    /// The `i`th field value, if there is one.
    pub fn get_field(&self, i: usize) -> (r: Option<&FieldVal>)
        ensures
            r is Some <==> i < self.fields@.len(),
            r matches Some(f) ==> *f == self.fields@[i as int],
    {
        self.fields.get(i)
    }

    /// Replaces the `i`th field value.
    pub fn set_field(&mut self, i: usize, field: FieldVal)
        requires
            i < old(self).fields@.len(),
        ensures
            final(self).fields@ == old(self).fields@.update(i as int, field),
            final(self).td == old(self).td,
            final(self).rid == old(self).rid,
    {
        self.fields.set(i, field);
    }

    /// Encodes this tuple into its on-disk bytes: each field's fixed-width
    /// encoding, in column order.
    pub fn serialize(&self) -> (r: Vec<u8>)
        ensures
            r@ == spec_tuple_bytes(self.spec_fields()),
    {
        let ghost m = self.spec_fields();
        let mut out: Vec<u8> = Vec::new();
        let mut i: usize = 0;
        while i < self.fields.len()
            invariant
                i <= self.fields@.len(),
                m == self.spec_fields(),
                m.len() == self.fields@.len(),
                out@ == spec_tuple_bytes(m.take(i as int)),
            decreases self.fields@.len() - i,
        {
            let mut b = self.fields[i].serialize();
            out.append(&mut b);
            proof {
                assert(m.take(i + 1).drop_last() =~= m.take(i as int));
                assert(m.take(i + 1).last() == m[i as int]);
            }
            i = i + 1;
        }
        proof {
            assert(m.take(m.len() as int) =~= m);
        }
        out
    }

    /// Decodes a tuple of schema `td` from the front of `bytes`. Fails with
    /// `DecodeError` exactly when some column's payload is malformed.
    pub fn deserialize(bytes: &[u8], td: &TupleDesc) -> (r: Result<Self, Error>)
        requires
            bytes@.len() >= td.spec_size(),
        ensures
            r is Ok <==> spec_parse_tuple(td.types@, bytes@) is Some,
            r matches Ok(t) ==> {
                &&& t.spec_fields() == spec_parse_tuple(td.types@, bytes@).unwrap()
                &&& t.td.types@ == td.types@
                &&& t.td.fields@ == td.fields@
                &&& t.rid == sentinel_rid()
            },
            r matches Err(e) ==> e == Error::DecodeError,
    {
        let ghost ts = td.types@;
        let mut fields: Vec<FieldVal> = Vec::new();
        let mut offset: usize = 0;
        let mut i: usize = 0;
        let n = td.types.len();
        while i < n
            invariant
                i <= n,
                n == ts.len(),
                ts == td.types@,
                bytes@.len() >= types_size(ts),
                offset == types_size(ts.take(i as int)),
                fields@.len() == i,
                spec_parse_tuple(ts.take(i as int), bytes@) == Some(
                    tuple_fields_model(fields@),
                ),
            decreases n - i,
        {
            proof {
                lemma_types_size_split(ts, i as int);
                lemma_types_size_nonneg(ts.take(i as int));
                lemma_types_size_nonneg(ts.skip(i as int));
                lemma_types_size_split(ts.skip(i as int), 1);
                lemma_types_size_nonneg(ts.skip(i as int).skip(1));
                assert(ts.skip(i as int).take(1) =~= seq![ts[i as int]]);
                lemma_types_size_singleton(ts[i as int]);
                assert(bytes@.len() - offset >= ts[i as int].spec_len());
            }
            let t = column_type_at(td, i);
            let sub = vstd::slice::slice_subrange(bytes, offset, bytes.len());
            proof {
                assert(sub@ =~= bytes@.skip(offset as int));
            }
            match t.parse(sub) {
                Ok(f) => {
                    proof {
                        assert(ts.take(i + 1).drop_last() =~= ts.take(i as int));
                        assert(ts.take(i + 1).last() == ts[i as int]);
                        assert(tuple_fields_model(fields@.push(f)) =~= tuple_fields_model(
                            fields@,
                        ).push(field_model(f)));
                    }
                    fields.push(f);
                },
                Err(_) => {
                    proof {
                        assert(ts.take(i + 1).drop_last() =~= ts.take(i as int));
                        assert(ts.take(i + 1).last() == ts[i as int]);
                        assert(spec_parse_tuple(ts.take(i + 1), bytes@) is None);
                        if spec_parse_tuple(ts, bytes@) is Some {
                            lemma_parse_tuple_take(ts, bytes@, i + 1);
                        }
                    }
                    return Err(Error::DecodeError);
                },
            }
            proof {
                lemma_types_size_take_succ(ts, i as int);
            }
            offset = offset + t.get_len();
            i = i + 1;
        }
        proof {
            assert(ts.take(n as int) =~= ts);
        }
        Ok(Tuple::new(fields, td))
    }

    /// The field values of this tuple, as an owned vector.
    pub fn get_fields(&self) -> (r: Vec<FieldVal>)
        ensures
            r@ == self.fields@,
    {
        let mut out: Vec<FieldVal> = Vec::new();
        let mut i: usize = 0;
        while i < self.fields.len()
            invariant
                i <= self.fields@.len(),
                out@ == self.fields@.take(i as int),
            decreases self.fields@.len() - i,
        {
            out.push(self.fields[i].clone());
            assert(out@ =~= self.fields@.take(i + 1));
            i = i + 1;
        }
        proof {
            assert(out@ =~= self.fields@);
        }
        out
    }

    /// True exactly when this tuple has one well-formed field of the
    /// declared type for every column of `td`, so that its encoding decodes
    /// back to it.
    pub fn matches_desc(&self, td: &TupleDesc) -> (ok: bool)
        ensures
            ok == spec_tuple_matches(self.spec_fields(), td.types@),
    {
        if self.fields.len() != td.types.len() {
            return false;
        }
        let n = self.fields.len();
        let mut i: usize = 0;
        while i < n
            invariant
                i <= n,
                n == self.fields@.len() == td.types@.len(),
                forall|j: int|
                    0 <= j < i ==> spec_type_of(#[trigger] self.spec_fields()[j]) == td.types@[j]
                        && spec_field_wf(self.spec_fields()[j]),
            decreases n - i,
        {
            let t = column_type_at(td, i);
            proof {
                assert(self.spec_fields()[i as int] == field_model(self.fields@[i as int]));
            }
            if !self.fields[i].fits_type(t) {
                return false;
            }
            i = i + 1;
        }
        true
    }
}

/// The `i`th column type of a schema.
fn column_type_at(td: &TupleDesc, i: usize) -> (t: Type)
    requires
        i < td.types@.len(),
    ensures
        t == td.types@[i as int],
{
    td.types[i]
}

} // verus!
