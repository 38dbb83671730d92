//! The row hydrator.
//!
//! Given an ordered projection — each element pre-classified as an entity,
//! a scalar column or a computed expression — and a batch of raw rows, this
//! produces one hydrated result per row: a bare value when exactly one value
//! resolved, otherwise an ordered tuple. A key missing from a row is a
//! recorded diagnostic, never an error; a structured payload that is not a
//! text cell or does not decode aborts the whole batch.

use vstd::prelude::*;

use crate::codec::decode_payload;
use crate::codec::decoded_payload;
use crate::codec::payload_decodes;
use crate::value::Value;
use crate::value::Valuev;
use crate::value::bytes_eq;
use crate::value::dup_bytes;
use crate::value::dv_members;
use crate::value::lemma_dv_members_index;

verus! {

/// One field of an entity type: its row key, whether it is left to the
/// entity's own default construction, and whether its row value is an
/// encoded structured payload.
#[derive(Debug, Clone, PartialEq, Eq)]
pub struct FieldDescriptor {
    pub name: Vec<u8>,
    pub excluded: bool,
    pub is_structured_payload: bool,
}

/// The abstract shape of a [`FieldDescriptor`].
pub struct Fieldv {
    pub name: Seq<u8>,
    pub excluded: bool,
    pub payload: bool,
}

impl FieldDescriptor {
    /// The abstract field this descriptor denotes.
    pub open spec fn dv(self) -> Fieldv {
        Fieldv { name: self.name@, excluded: self.excluded, payload: self.is_structured_payload }
    }
}

/// An entity type: its name and its ordered field descriptors.
#[derive(Debug, Clone, PartialEq, Eq)]
pub struct EntityDescriptor {
    pub entity_name: Vec<u8>,
    pub fields: Vec<FieldDescriptor>,
}

/// The abstract shape of an [`EntityDescriptor`].
pub struct Entityv {
    pub entity_name: Seq<u8>,
    pub fields: Seq<Fieldv>,
}

impl EntityDescriptor {
    /// The abstract entity type this descriptor denotes.
    pub open spec fn dv(self) -> Entityv {
        Entityv {
            entity_name: self.entity_name@,
            fields: Seq::new(self.fields@.len(), |i: int| self.fields@[i].dv()),
        }
    }
}

/// A scalar column: the key under which its value sits in a row.
#[derive(Debug, Clone, PartialEq, Eq)]
pub struct ColumnDescriptor {
    pub key: Vec<u8>,
}

/// A computed expression: the local name under which its result sits in a
/// row.
#[derive(Debug, Clone, PartialEq, Eq)]
pub struct ComputedDescriptor {
    pub local_name: Vec<u8>,
}

/// One element of the projection, pre-classified.
#[derive(Debug, Clone, PartialEq, Eq)]
pub enum ProjectionElement {
    Entity(EntityDescriptor),
    Column(ColumnDescriptor),
    Computed(ComputedDescriptor),
}

/// The abstract shape of a [`ProjectionElement`].
pub enum Elemv {
    Entity(Entityv),
    Column(Seq<u8>),
    Computed(Seq<u8>),
}

impl ProjectionElement {
    /// The abstract projection element this one denotes.
    pub open spec fn dv(self) -> Elemv {
        match self {
            ProjectionElement::Entity(ed) => Elemv::Entity(ed.dv()),
            ProjectionElement::Column(cd) => Elemv::Column(cd.key@),
            ProjectionElement::Computed(fd) => Elemv::Computed(fd.local_name@),
        }
    }
}

/// A raw row: key/value entries in the order the query returned them. A
/// lookup takes the first entry with a matching key.
#[derive(Debug, PartialEq, Eq)]
pub struct Row {
    pub entries: Vec<(Vec<u8>, Value)>,
}

impl Row {
    /// The abstract key/value sequence this row denotes.
    pub open spec fn dv(self) -> Seq<(Seq<u8>, Valuev)> {
        dv_members(self.entries, 0)
    }

    /// Looks up the first entry with the given key.
    pub fn get(&self, key: &Vec<u8>) -> (r: Option<&Value>)
        ensures
            (match r {
                Some(v) => row_lookup(self.dv(), key@) == Some(v.dv()),
                None => row_lookup(self.dv(), key@) is None,
            }),
    {
        let n = self.entries.len();
        proof {
            lemma_dv_members_index(self.entries, 0);
            assert(self.dv().skip(0) =~= self.dv());
        }
        let mut i: usize = 0;
        while i < n
            invariant
                n == self.entries@.len(),
                i <= n,
                self.dv().len() == n,
                forall|k: int| 0 <= k < n ==> self.dv()[k] == (
                #[trigger] self.entries@[k].0@, self.entries@[k].1.dv()),
                row_lookup(self.dv(), key@) == row_lookup(self.dv().skip(i as int), key@),
            decreases n - i,
        {
            let hit = bytes_eq(&self.entries[i].0, key);
            proof {
                assert(self.dv().skip(i as int)[0] == self.dv()[i as int]);
                assert(self.dv().skip(i as int).drop_first() =~= self.dv().skip(i + 1));
            }
            if hit {
                return Some(&self.entries[i].1);
            }
            i += 1;
        }
        proof {
            assert(self.dv().skip(n as int) =~= Seq::<(Seq<u8>, Valuev)>::empty());
        }
        None
    }
}

/// The first value under `key`, if any.
pub open spec fn row_lookup(row: Seq<(Seq<u8>, Valuev)>, key: Seq<u8>) -> Option<Valuev>
    decreases row.len(),
{
    if row.len() == 0 {
        None
    } else if row[0].0 == key {
        Some(row[0].1)
    } else {
        row_lookup(row.drop_first(), key)
    }
}

/// A non-fatal condition recorded while hydrating: a key a descriptor asked
/// for was absent from a row.
#[derive(Debug, Clone, PartialEq, Eq)]
pub enum Diagnostic {
    FieldMissing { field: Vec<u8> },
    ColumnMissing { key: Vec<u8> },
    ComputedMissing { local_name: Vec<u8> },
}

/// The abstract shape of a [`Diagnostic`].
pub enum Diagv {
    FieldMissing(Seq<u8>),
    ColumnMissing(Seq<u8>),
    ComputedMissing(Seq<u8>),
}

impl Diagnostic {
    /// The abstract diagnostic this one denotes.
    pub open spec fn dv(self) -> Diagv {
        match self {
            Diagnostic::FieldMissing { field } => Diagv::FieldMissing(field@),
            Diagnostic::ColumnMissing { key } => Diagv::ColumnMissing(key@),
            Diagnostic::ComputedMissing { local_name } => Diagv::ComputedMissing(local_name@),
        }
    }
}

/// A batch-aborting failure: a structured-payload field whose row value was
/// not a text cell, or whose text did not decode.
#[derive(Debug, Clone, PartialEq, Eq)]
pub enum HydrateError {
    PayloadNotText { field: Vec<u8> },
    PayloadMalformed { field: Vec<u8> },
}

/// The abstract shape of a [`HydrateError`].
pub enum Errv {
    PayloadNotText(Seq<u8>),
    PayloadMalformed(Seq<u8>),
}

impl HydrateError {
    /// The abstract error this one denotes.
    pub open spec fn dv(self) -> Errv {
        match self {
            HydrateError::PayloadNotText { field } => Errv::PayloadNotText(field@),
            HydrateError::PayloadMalformed { field } => Errv::PayloadMalformed(field@),
        }
    }
}

/// One reconstructed entity: its type name and the collected keyword
/// arguments, in field order; excluded and missing fields are omitted.
#[derive(Debug, PartialEq, Eq)]
pub struct EntityInstance {
    pub entity_name: Vec<u8>,
    pub kwargs: Vec<(Vec<u8>, Value)>,
}

/// The abstract shape of an [`EntityInstance`].
pub struct EntityInstancev {
    pub entity_name: Seq<u8>,
    pub kwargs: Seq<(Seq<u8>, Valuev)>,
}

impl EntityInstance {
    /// The abstract instance this one denotes.
    pub open spec fn dv(self) -> EntityInstancev {
        EntityInstancev { entity_name: self.entity_name@, kwargs: dv_members(self.kwargs, 0) }
    }
}

/// One hydrated output value: a plain cell value or an entity instance.
#[derive(Debug, PartialEq, Eq)]
pub enum HydratedValue {
    Plain(Value),
    Entity(EntityInstance),
}

/// The abstract shape of a [`HydratedValue`].
pub enum HydratedValuev {
    Plain(Valuev),
    Entity(EntityInstancev),
}

impl HydratedValue {
    /// The abstract hydrated value this one denotes.
    pub open spec fn dv(self) -> HydratedValuev {
        match self {
            HydratedValue::Plain(v) => HydratedValuev::Plain(v.dv()),
            HydratedValue::Entity(e) => HydratedValuev::Entity(e.dv()),
        }
    }
}

/// One row's output: a bare value when exactly one value resolved,
/// otherwise the ordered tuple of resolved values.
#[derive(Debug, PartialEq, Eq)]
pub enum HydratedRow {
    Single(HydratedValue),
    Tuple(Vec<HydratedValue>),
}

/// The abstract shape of a [`HydratedRow`].
pub enum HydratedRowv {
    Single(HydratedValuev),
    Tuple(Seq<HydratedValuev>),
}

impl HydratedRow {
    /// The abstract hydrated row this one denotes.
    pub open spec fn dv(self) -> HydratedRowv {
        match self {
            HydratedRow::Single(h) => HydratedRowv::Single(h.dv()),
            HydratedRow::Tuple(hs) => HydratedRowv::Tuple(
                Seq::new(hs@.len(), |i: int| hs@[i].dv()),
            ),
        }
    }
}

/// A whole batch's output: one hydrated row per input row, plus the
/// diagnostics recorded along the way, in encounter order.
#[derive(Debug, PartialEq, Eq)]
pub struct Hydration {
    pub rows: Vec<HydratedRow>,
    pub diagnostics: Vec<Diagnostic>,
}

/// The abstract diagnostics of a diagnostic vector.
pub open spec fn dv_diags(ds: Seq<Diagnostic>) -> Seq<Diagv> {
    Seq::new(ds.len(), |i: int| ds[i].dv())
}

/// The abstract projection of a projection vector.
pub open spec fn dv_elems(proj: Seq<ProjectionElement>) -> Seq<Elemv> {
    Seq::new(proj.len(), |i: int| proj[i].dv())
}

/// The abstract rows of a row vector.
pub open spec fn dv_rows(rows: Seq<Row>) -> Seq<Seq<(Seq<u8>, Valuev)>> {
    Seq::new(rows.len(), |i: int| rows[i].dv())
}

/// What one field contributes to its entity's keyword arguments: nothing if
/// excluded or missing, the raw value as-is, or the decoded payload; a
/// payload cell that is not text, or does not decode, is a fatal error.
pub open spec fn field_resolve(f: Fieldv, row: Seq<(Seq<u8>, Valuev)>) -> Result<
    Option<(Seq<u8>, Valuev)>,
    Errv,
> {
    if f.excluded {
        Ok(None)
    } else {
        match row_lookup(row, f.name) {
            None => Ok(None),
            Some(v) => if !f.payload {
                Ok(Some((f.name, v)))
            } else {
                match v {
                    Valuev::Text(bytes) => if payload_decodes(bytes) {
                        Ok(Some((f.name, decoded_payload(bytes))))
                    } else {
                        Err(Errv::PayloadMalformed(f.name))
                    },
                    _ => Err(Errv::PayloadNotText(f.name)),
                }
            },
        }
    }
}

/// The diagnostic one field records: its name, when it is looked up and
/// missing.
pub open spec fn field_diags(f: Fieldv, row: Seq<(Seq<u8>, Valuev)>) -> Seq<Diagv> {
    if !f.excluded && row_lookup(row, f.name) is None {
        seq![Diagv::FieldMissing(f.name)]
    } else {
        Seq::empty()
    }
}

/// The keyword arguments and diagnostics of a field list, in field order;
/// the first fatal field aborts.
pub open spec fn fields_resolve(fields: Seq<Fieldv>, row: Seq<(Seq<u8>, Valuev)>) -> Result<
    (Seq<(Seq<u8>, Valuev)>, Seq<Diagv>),
    Errv,
>
    decreases fields.len(),
{
    if fields.len() == 0 {
        Ok((Seq::empty(), Seq::empty()))
    } else {
        match fields_resolve(fields.drop_last(), row) {
            Err(e) => Err(e),
            Ok(acc) => match field_resolve(fields.last(), row) {
                Err(e) => Err(e),
                Ok(opt) => Ok(
                    (
                        (match opt {
                            Some(p) => acc.0.push(p),
                            None => acc.0,
                        }),
                        acc.1 + field_diags(fields.last(), row),
                    ),
                ),
            },
        }
    }
}

/// What one projection element contributes to a row's output: an entity
/// element always yields one instance (or a fatal error from a payload
/// field); a column or computed element yields its row value, or nothing
/// and a diagnostic when the key is missing.
pub open spec fn elem_resolve(e: Elemv, row: Seq<(Seq<u8>, Valuev)>) -> Result<
    (Seq<HydratedValuev>, Seq<Diagv>),
    Errv,
> {
    match e {
        Elemv::Entity(ed) => match fields_resolve(ed.fields, row) {
            Err(er) => Err(er),
            Ok(acc) => Ok(
                (
                    seq![
                        HydratedValuev::Entity(
                            EntityInstancev { entity_name: ed.entity_name, kwargs: acc.0 },
                        )
                    ],
                    acc.1,
                ),
            ),
        },
        Elemv::Column(key) => match row_lookup(row, key) {
            Some(v) => Ok((seq![HydratedValuev::Plain(v)], Seq::empty())),
            None => Ok((Seq::empty(), seq![Diagv::ColumnMissing(key)])),
        },
        Elemv::Computed(name) => match row_lookup(row, name) {
            Some(v) => Ok((seq![HydratedValuev::Plain(v)], Seq::empty())),
            None => Ok((Seq::empty(), seq![Diagv::ComputedMissing(name)])),
        },
    }
}

/// The resolved values and diagnostics of a whole projection against one
/// row, in projection order; the first fatal element aborts.
pub open spec fn elems_resolve(proj: Seq<Elemv>, row: Seq<(Seq<u8>, Valuev)>) -> Result<
    (Seq<HydratedValuev>, Seq<Diagv>),
    Errv,
>
    decreases proj.len(),
{
    if proj.len() == 0 {
        Ok((Seq::empty(), Seq::empty()))
    } else {
        match elems_resolve(proj.drop_last(), row) {
            Err(e) => Err(e),
            Ok(acc) => match elem_resolve(proj.last(), row) {
                Err(e) => Err(e),
                Ok(one) => Ok((acc.0 + one.0, acc.1 + one.1)),
            },
        }
    }
}

/// One row's hydrated output: the bare value when exactly one value
/// resolved, otherwise the tuple of resolved values.
pub open spec fn row_hydrate(proj: Seq<Elemv>, row: Seq<(Seq<u8>, Valuev)>) -> Result<
    (HydratedRowv, Seq<Diagv>),
    Errv,
> {
    match elems_resolve(proj, row) {
        Err(e) => Err(e),
        Ok(acc) => Ok(
            (
                (if acc.0.len() == 1 {
                    HydratedRowv::Single(acc.0[0])
                } else {
                    HydratedRowv::Tuple(acc.0)
                }),
                acc.1,
            ),
        ),
    }
}

/// A whole batch's hydrated output, row by row in input order; the first
/// fatal row aborts the batch.
pub open spec fn batch_hydrate(proj: Seq<Elemv>, rows: Seq<Seq<(Seq<u8>, Valuev)>>) -> Result<
    (Seq<HydratedRowv>, Seq<Diagv>),
    Errv,
>
    decreases rows.len(),
{
    if rows.len() == 0 {
        Ok((Seq::empty(), Seq::empty()))
    } else {
        match batch_hydrate(proj, rows.drop_last()) {
            Err(e) => Err(e),
            Ok(acc) => match row_hydrate(proj, rows.last()) {
                Err(e) => Err(e),
                Ok(one) => Ok((acc.0.push(one.0), acc.1 + one.1)),
            },
        }
    }
}

/// The abstract values of a hydrated-value vector.
pub open spec fn dv_hvals(hs: Seq<HydratedValue>) -> Seq<HydratedValuev> {
    Seq::new(hs.len(), |i: int| hs[i].dv())
}

/// The abstract rows of a hydrated-row vector.
pub open spec fn dv_hrows(hs: Seq<HydratedRow>) -> Seq<HydratedRowv> {
    Seq::new(hs.len(), |i: int| hs[i].dv())
}

/// A failed field prefix decides the whole field list.
proof fn lemma_fields_resolve_extend(fields: Seq<Fieldv>, row: Seq<(Seq<u8>, Valuev)>, i: int)
    requires
        0 <= i <= fields.len(),
        fields_resolve(fields.take(i), row) is Err,
    ensures
        fields_resolve(fields, row) == fields_resolve(fields.take(i), row),
    decreases fields.len() - i,
{
    if i == fields.len() {
        assert(fields.take(i) =~= fields);
    } else {
        assert(fields.take(i + 1).drop_last() =~= fields.take(i));
        lemma_fields_resolve_extend(fields, row, i + 1);
    }
}

/// A failed element prefix decides the whole projection.
proof fn lemma_elems_resolve_extend(proj: Seq<Elemv>, row: Seq<(Seq<u8>, Valuev)>, i: int)
    requires
        0 <= i <= proj.len(),
        elems_resolve(proj.take(i), row) is Err,
    ensures
        elems_resolve(proj, row) == elems_resolve(proj.take(i), row),
    decreases proj.len() - i,
{
    if i == proj.len() {
        assert(proj.take(i) =~= proj);
    } else {
        assert(proj.take(i + 1).drop_last() =~= proj.take(i));
        lemma_elems_resolve_extend(proj, row, i + 1);
    }
}

/// A failed row prefix decides the whole batch.
proof fn lemma_batch_hydrate_extend(
    proj: Seq<Elemv>,
    rows: Seq<Seq<(Seq<u8>, Valuev)>>,
    i: int,
)
    requires
        0 <= i <= rows.len(),
        batch_hydrate(proj, rows.take(i)) is Err,
    ensures
        batch_hydrate(proj, rows) == batch_hydrate(proj, rows.take(i)),
    decreases rows.len() - i,
{
    if i == rows.len() {
        assert(rows.take(i) =~= rows);
    } else {
        assert(rows.take(i + 1).drop_last() =~= rows.take(i));
        lemma_batch_hydrate_extend(proj, rows, i + 1);
    }
}

/// Collects one entity element's keyword arguments and diagnostics from a
/// row, in field order.
fn hydrate_entity(ed: &EntityDescriptor, row: &Row) -> (r: Result<
    (EntityInstance, Vec<Diagnostic>),
    HydrateError,
>)
    ensures
        (match r {
            Ok(p) => {
                &&& fields_resolve(ed.dv().fields, row.dv()) == Ok::<
                    (Seq<(Seq<u8>, Valuev)>, Seq<Diagv>),
                    Errv,
                >((dv_members(p.0.kwargs, 0), dv_diags(p.1@)))
                &&& p.0.dv().entity_name == ed.dv().entity_name
            },
            Err(e) => fields_resolve(ed.dv().fields, row.dv()) == Err::<
                (Seq<(Seq<u8>, Valuev)>, Seq<Diagv>),
                Errv,
            >(e.dv()),
        }),
{
    let ghost fdv = ed.dv().fields;
    let n = ed.fields.len();
    let mut kwargs: Vec<(Vec<u8>, Value)> = Vec::new();
    let mut diags: Vec<Diagnostic> = Vec::new();
    proof {
        lemma_dv_members_index(kwargs, 0);
        assert(fdv.take(0) =~= Seq::<Fieldv>::empty());
        assert(dv_members(kwargs, 0) =~= Seq::<(Seq<u8>, Valuev)>::empty());
        assert(dv_diags(diags@) =~= Seq::<Diagv>::empty());
    }
    let mut i: usize = 0;
    while i < n
        invariant
            n == ed.fields@.len(),
            i <= n,
            fdv == ed.dv().fields,
            fdv.len() == n,
            fields_resolve(fdv.take(i as int), row.dv()) == Ok::<
                (Seq<(Seq<u8>, Valuev)>, Seq<Diagv>),
                Errv,
            >((dv_members(kwargs, 0), dv_diags(diags@))),
        decreases n - i,
    {
        let ghost old_kw = dv_members(kwargs, 0);
        let ghost old_dg = dv_diags(diags@);
        let ghost fv = fdv[i as int];
        proof {
            assert(fv == ed.fields@[i as int].dv());
            assert(fdv.take(i + 1).drop_last() =~= fdv.take(i as int));
            assert(fdv.take(i + 1).last() == fv);
            lemma_dv_members_index(kwargs, 0);
        }
        let f = &ed.fields[i];
        if !f.excluded {
            match row.get(&f.name) {
                None => {
                    diags.push(Diagnostic::FieldMissing { field: dup_bytes(&f.name) });
                    proof {
                        assert(field_resolve(fv, row.dv()) == Ok::<
                            Option<(Seq<u8>, Valuev)>,
                            Errv,
                        >(None));
                        assert(dv_diags(diags@) =~= old_dg + field_diags(fv, row.dv()));
                    }
                },
                Some(v) => {
                    if f.is_structured_payload {
                        match v {
                            Value::Text(t) => {
                                match decode_payload(t) {
                                    Some(d) => {
                                        let ghost ddv = d.dv();
                                        kwargs.push((dup_bytes(&f.name), d));
                                        proof {
                                            lemma_dv_members_index(kwargs, 0);
                                            assert(dv_members(kwargs, 0) =~= old_kw.push(
                                                (fv.name, ddv),
                                            ));
                                            assert(field_resolve(fv, row.dv()) == Ok::<
                                                Option<(Seq<u8>, Valuev)>,
                                                Errv,
                                            >(Some((fv.name, ddv))));
                                            assert(dv_diags(diags@) =~= old_dg + field_diags(
                                                fv,
                                                row.dv(),
                                            ));
                                        }
                                    },
                                    None => {
                                        proof {
                                            assert(field_resolve(fv, row.dv()) == Err::<
                                                Option<(Seq<u8>, Valuev)>,
                                                Errv,
                                            >(Errv::PayloadMalformed(fv.name)));
                                            assert(fields_resolve(fdv.take(i + 1), row.dv())
                                                == Err::<
                                                (Seq<(Seq<u8>, Valuev)>, Seq<Diagv>),
                                                Errv,
                                            >(Errv::PayloadMalformed(fv.name)));
                                            lemma_fields_resolve_extend(fdv, row.dv(), i + 1);
                                        }
                                        return Err(
                                            HydrateError::PayloadMalformed {
                                                field: dup_bytes(&f.name),
                                            },
                                        );
                                    },
                                }
                            },
                            _ => {
                                proof {
                                    assert(field_resolve(fv, row.dv()) == Err::<
                                        Option<(Seq<u8>, Valuev)>,
                                        Errv,
                                    >(Errv::PayloadNotText(fv.name)));
                                    assert(fields_resolve(fdv.take(i + 1), row.dv()) == Err::<
                                        (Seq<(Seq<u8>, Valuev)>, Seq<Diagv>),
                                        Errv,
                                    >(Errv::PayloadNotText(fv.name)));
                                    lemma_fields_resolve_extend(fdv, row.dv(), i + 1);
                                }
                                return Err(
                                    HydrateError::PayloadNotText { field: dup_bytes(&f.name) },
                                );
                            },
                        }
                    } else {
                        let ghost vdv = v.dv();
                        let copied = v.dup();
                        kwargs.push((dup_bytes(&f.name), copied));
                        proof {
                            lemma_dv_members_index(kwargs, 0);
                            assert(dv_members(kwargs, 0) =~= old_kw.push((fv.name, vdv)));
                            assert(field_resolve(fv, row.dv()) == Ok::<
                                Option<(Seq<u8>, Valuev)>,
                                Errv,
                            >(Some((fv.name, vdv))));
                            assert(dv_diags(diags@) =~= old_dg + field_diags(fv, row.dv()));
                        }
                    }
                },
            }
        } else {
            proof {
                assert(field_resolve(fv, row.dv()) == Ok::<Option<(Seq<u8>, Valuev)>, Errv>(
                    None,
                ));
                assert(dv_diags(diags@) =~= old_dg + field_diags(fv, row.dv()));
            }
        }
        i += 1;
    }
    proof {
        assert(fdv.take(n as int) =~= fdv);
    }
    Ok((EntityInstance { entity_name: dup_bytes(&ed.entity_name), kwargs }, diags))
}

/// Resolves one projection element against a row: the hydrated value it
/// contributes, if any, and the diagnostics it records.
pub fn hydrate_element(e: &ProjectionElement, row: &Row) -> (r: Result<
    (Option<HydratedValue>, Vec<Diagnostic>),
    HydrateError,
>)
    ensures
        (match r {
            Ok(p) => elem_resolve(e.dv(), row.dv()) == Ok::<
                (Seq<HydratedValuev>, Seq<Diagv>),
                Errv,
            >(
                (
                    (match p.0 {
                        Some(h) => seq![h.dv()],
                        None => Seq::<HydratedValuev>::empty(),
                    }),
                    dv_diags(p.1@),
                ),
            ),
            Err(er) => elem_resolve(e.dv(), row.dv()) == Err::<
                (Seq<HydratedValuev>, Seq<Diagv>),
                Errv,
            >(er.dv()),
        }),
{
    match e {
        ProjectionElement::Entity(ed) => {
            match hydrate_entity(ed, row) {
                Ok((inst, diags)) => {
                    proof {
                        assert(inst.dv() == EntityInstancev {
                            entity_name: ed.dv().entity_name,
                            kwargs: dv_members(inst.kwargs, 0),
                        });
                    }
                    Ok((Some(HydratedValue::Entity(inst)), diags))
                },
                Err(er) => Err(er),
            }
        },
        ProjectionElement::Column(cd) => {
            match row.get(&cd.key) {
                Some(v) => {
                    let out: Vec<Diagnostic> = Vec::new();
                    proof {
                        assert(dv_diags(out@) =~= Seq::<Diagv>::empty());
                    }
                    Ok((Some(HydratedValue::Plain(v.dup())), out))
                },
                None => {
                    let mut out: Vec<Diagnostic> = Vec::new();
                    out.push(Diagnostic::ColumnMissing { key: dup_bytes(&cd.key) });
                    proof {
                        assert(dv_diags(out@) =~= seq![Diagv::ColumnMissing(cd.key@)]);
                    }
                    Ok((None, out))
                },
            }
        },
        ProjectionElement::Computed(fd) => {
            match row.get(&fd.local_name) {
                Some(v) => {
                    let out: Vec<Diagnostic> = Vec::new();
                    proof {
                        assert(dv_diags(out@) =~= Seq::<Diagv>::empty());
                    }
                    Ok((Some(HydratedValue::Plain(v.dup())), out))
                },
                None => {
                    let mut out: Vec<Diagnostic> = Vec::new();
                    out.push(Diagnostic::ComputedMissing { local_name: dup_bytes(&fd.local_name) });
                    proof {
                        assert(dv_diags(out@) =~= seq![Diagv::ComputedMissing(fd.local_name@)]);
                    }
                    Ok((None, out))
                },
            }
        },
    }
}

/// Hydrates one row against the projection: a bare value when exactly one
/// value resolved, otherwise the ordered tuple of resolved values.
pub fn hydrate_row(projection: &Vec<ProjectionElement>, row: &Row) -> (r: Result<
    (HydratedRow, Vec<Diagnostic>),
    HydrateError,
>)
    ensures
        (match r {
            Ok(p) => row_hydrate(dv_elems(projection@), row.dv()) == Ok::<
                (HydratedRowv, Seq<Diagv>),
                Errv,
            >((p.0.dv(), dv_diags(p.1@))),
            Err(e) => row_hydrate(dv_elems(projection@), row.dv()) == Err::<
                (HydratedRowv, Seq<Diagv>),
                Errv,
            >(e.dv()),
        }),
{
    let ghost pv = dv_elems(projection@);
    let n = projection.len();
    let mut vals: Vec<HydratedValue> = Vec::new();
    let mut diags: Vec<Diagnostic> = Vec::new();
    proof {
        assert(pv.take(0) =~= Seq::<Elemv>::empty());
        assert(dv_hvals(vals@) =~= Seq::<HydratedValuev>::empty());
        assert(dv_diags(diags@) =~= Seq::<Diagv>::empty());
    }
    let mut i: usize = 0;
    while i < n
        invariant
            n == projection@.len(),
            i <= n,
            pv == dv_elems(projection@),
            pv.len() == n,
            elems_resolve(pv.take(i as int), row.dv()) == Ok::<
                (Seq<HydratedValuev>, Seq<Diagv>),
                Errv,
            >((dv_hvals(vals@), dv_diags(diags@))),
        decreases n - i,
    {
        let ghost old_vals = dv_hvals(vals@);
        let ghost old_dg = dv_diags(diags@);
        proof {
            assert(pv[i as int] == projection@[i as int].dv());
            assert(pv.take(i + 1).drop_last() =~= pv.take(i as int));
            assert(pv.take(i + 1).last() == pv[i as int]);
        }
        match hydrate_element(&projection[i], row) {
            Err(e) => {
                proof {
                    lemma_elems_resolve_extend(pv, row.dv(), i + 1);
                }
                return Err(e);
            },
            Ok((opt, mut ds)) => {
                let ghost ds_dv = dv_diags(ds@);
                match opt {
                    Some(h) => {
                        let ghost hdv = h.dv();
                        vals.push(h);
                        proof {
                            assert(dv_hvals(vals@) =~= old_vals + seq![hdv]);
                        }
                    },
                    None => {
                        proof {
                            assert(dv_hvals(vals@) =~= old_vals + Seq::<HydratedValuev>::empty());
                        }
                    },
                }
                diags.append(&mut ds);
                proof {
                    assert(dv_diags(diags@) =~= old_dg + ds_dv);
                }
            },
        }
        i += 1;
    }
    proof {
        assert(pv.take(n as int) =~= pv);
    }
    if vals.len() == 1 {
        let ghost vals_dv = dv_hvals(vals@);
        let h = vals.pop().unwrap();
        proof {
            assert(h.dv() == vals_dv[0]);
        }
        Ok((HydratedRow::Single(h), diags))
    } else {
        proof {
            assert(HydratedRow::Tuple(vals).dv() == HydratedRowv::Tuple(dv_hvals(vals@)));
        }
        Ok((HydratedRow::Tuple(vals), diags))
    }
}

/// Hydrates a whole batch: one result per input row, in input order, with
/// the diagnostics recorded along the way; the first fatal condition aborts
/// the batch with no partial output.
pub fn hydrate(projection: &Vec<ProjectionElement>, rows: &Vec<Row>) -> (r: Result<
    Hydration,
    HydrateError,
>)
    ensures
        (match r {
            Ok(out) => {
                &&& batch_hydrate(dv_elems(projection@), dv_rows(rows@)) == Ok::<
                    (Seq<HydratedRowv>, Seq<Diagv>),
                    Errv,
                >((dv_hrows(out.rows@), dv_diags(out.diagnostics@)))
                &&& out.rows@.len() == rows@.len()
            },
            Err(e) => batch_hydrate(dv_elems(projection@), dv_rows(rows@)) == Err::<
                (Seq<HydratedRowv>, Seq<Diagv>),
                Errv,
            >(e.dv()),
        }),
{
    let ghost rv = dv_rows(rows@);
    let n = rows.len();
    let mut out_rows: Vec<HydratedRow> = Vec::new();
    let mut diags: Vec<Diagnostic> = Vec::new();
    proof {
        assert(rv.take(0) =~= Seq::<Seq<(Seq<u8>, Valuev)>>::empty());
        assert(dv_hrows(out_rows@) =~= Seq::<HydratedRowv>::empty());
        assert(dv_diags(diags@) =~= Seq::<Diagv>::empty());
    }
    let mut i: usize = 0;
    while i < n
        invariant
            n == rows@.len(),
            i <= n,
            rv == dv_rows(rows@),
            rv.len() == n,
            out_rows@.len() == i,
            batch_hydrate(dv_elems(projection@), rv.take(i as int)) == Ok::<
                (Seq<HydratedRowv>, Seq<Diagv>),
                Errv,
            >((dv_hrows(out_rows@), dv_diags(diags@))),
        decreases n - i,
    {
        let ghost old_out = dv_hrows(out_rows@);
        let ghost old_dg = dv_diags(diags@);
        proof {
            assert(rv[i as int] == rows@[i as int].dv());
            assert(rv.take(i + 1).drop_last() =~= rv.take(i as int));
            assert(rv.take(i + 1).last() == rv[i as int]);
        }
        match hydrate_row(projection, &rows[i]) {
            Err(e) => {
                proof {
                    lemma_batch_hydrate_extend(dv_elems(projection@), rv, i + 1);
                }
                return Err(e);
            },
            Ok((hr, mut ds)) => {
                let ghost hr_dv = hr.dv();
                let ghost ds_dv = dv_diags(ds@);
                out_rows.push(hr);
                diags.append(&mut ds);
                proof {
                    assert(dv_hrows(out_rows@) =~= old_out.push(hr_dv));
                    assert(dv_diags(diags@) =~= old_dg + ds_dv);
                }
            },
        }
        i += 1;
    }
    proof {
        assert(rv.take(n as int) =~= rv);
    }
    Ok(Hydration { rows: out_rows, diagnostics: diags })
}

/// Law: order preservation. A successful batch has exactly one output per
/// input row, and output `i` is the hydration of input row `i` alone.
pub proof fn lemma_order_preservation(proj: Seq<Elemv>, rows: Seq<Seq<(Seq<u8>, Valuev)>>)
    requires
        batch_hydrate(proj, rows) is Ok,
    ensures
        (batch_hydrate(proj, rows)->Ok_0).0.len() == rows.len(),
        forall|i: int| 0 <= i < rows.len() ==> #[trigger] row_hydrate(proj, rows[i]) is Ok && (
        batch_hydrate(proj, rows)->Ok_0).0[i] == (row_hydrate(proj, rows[i])->Ok_0).0,
    decreases rows.len(),
{
    if rows.len() > 0 {
        let pre = rows.drop_last();
        lemma_order_preservation(proj, pre);
        assert(forall|i: int| 0 <= i < pre.len() ==> #[trigger] pre[i] == rows[i]);
        let out = (batch_hydrate(proj, rows)->Ok_0).0;
        let pre_out = (batch_hydrate(proj, pre)->Ok_0).0;
        let last_out = (row_hydrate(proj, rows.last())->Ok_0).0;
        assert(out == pre_out.push(last_out));
        assert forall|i: int| 0 <= i < rows.len() implies #[trigger] row_hydrate(
            proj,
            rows[i],
        ) is Ok && out[i] == (row_hydrate(proj, rows[i])->Ok_0).0 by {
            if i < pre.len() {
                assert(row_hydrate(proj, pre[i]) is Ok);
                assert(out[i] == pre_out[i]);
            } else {
                assert(rows[i] == rows.last());
                assert(out[i] == last_out);
            }
        }
    }
}

/// Law: single-element collapse. When the projection has exactly one
/// element and it resolved to a value, the row's output is that bare value,
/// never a one-element tuple.
pub proof fn lemma_single_element_collapse(proj: Seq<Elemv>, row: Seq<(Seq<u8>, Valuev)>)
    requires
        proj.len() == 1,
        elems_resolve(proj, row) is Ok,
        (elems_resolve(proj, row)->Ok_0).0.len() == 1,
    ensures
        row_hydrate(proj, row) is Ok,
        (row_hydrate(proj, row)->Ok_0).0 is Single,
        (row_hydrate(proj, row)->Ok_0).0->Single_0 == (elems_resolve(proj, row)->Ok_0).0[0],
{
}

/// A successful projection succeeds on every prefix.
pub proof fn lemma_elems_resolve_prefix(proj: Seq<Elemv>, row: Seq<(Seq<u8>, Valuev)>, i: int)
    requires
        elems_resolve(proj, row) is Ok,
        0 <= i <= proj.len(),
    ensures
        elems_resolve(proj.take(i), row) is Ok,
    decreases proj.len() - i,
{
    if i == proj.len() {
        assert(proj.take(i) =~= proj);
    } else {
        lemma_elems_resolve_prefix(proj, row, i + 1);
        assert(proj.take(i + 1).drop_last() =~= proj.take(i));
    }
}

/// Law: multi-element sequencing. With more than one projection element and
/// no collapse, the row's output is the tuple of the elements' resolved
/// values, concatenated in projection order; an element whose key was
/// missing contributes nothing and shifts nothing out of order.
pub proof fn lemma_multi_element_sequencing(proj: Seq<Elemv>, row: Seq<(Seq<u8>, Valuev)>)
    requires
        proj.len() > 1,
        elems_resolve(proj, row) is Ok,
        (elems_resolve(proj, row)->Ok_0).0.len() != 1,
    ensures
        row_hydrate(proj, row) is Ok,
        (row_hydrate(proj, row)->Ok_0).0 is Tuple,
        (row_hydrate(proj, row)->Ok_0).0->Tuple_0 == (elems_resolve(proj, row)->Ok_0).0,
        forall|i: int| 0 <= i < proj.len() ==> #[trigger] elem_resolve(proj[i], row) is Ok
            && elems_resolve(proj.take(i + 1), row) is Ok && (elems_resolve(
            proj.take(i + 1),
            row,
        )->Ok_0).0 == (elems_resolve(proj.take(i), row)->Ok_0).0 + (elem_resolve(
            proj[i],
            row,
        )->Ok_0).0,
{
    assert forall|i: int| 0 <= i < proj.len() implies #[trigger] elem_resolve(proj[i], row) is Ok
        && elems_resolve(proj.take(i + 1), row) is Ok && (elems_resolve(
        proj.take(i + 1),
        row,
    )->Ok_0).0 == (elems_resolve(proj.take(i), row)->Ok_0).0 + (elem_resolve(
        proj[i],
        row,
    )->Ok_0).0 by {
        lemma_elems_resolve_prefix(proj, row, i + 1);
        lemma_elems_resolve_prefix(proj, row, i);
        assert(proj.take(i + 1).drop_last() =~= proj.take(i));
        assert(proj.take(i + 1).last() == proj[i]);
    }
}

/// Law: excluded-field omission. An excluded field contributes no keyword
/// argument and no diagnostic, whatever the row holds — it is never looked
/// up, so two rows that differ arbitrarily resolve it identically.
pub proof fn lemma_excluded_field_omission(
    f: Fieldv,
    row1: Seq<(Seq<u8>, Valuev)>,
    row2: Seq<(Seq<u8>, Valuev)>,
)
    requires
        f.excluded,
    ensures
        field_resolve(f, row1) == Ok::<Option<(Seq<u8>, Valuev)>, Errv>(None),
        field_resolve(f, row1) == field_resolve(f, row2),
        field_diags(f, row1) == Seq::<Diagv>::empty(),
{
}

/// A column or computed element never aborts: whatever the row, it resolves
/// to a value, or to nothing and a recorded diagnostic.
pub proof fn lemma_non_entity_never_fails(e: Elemv, row: Seq<(Seq<u8>, Valuev)>)
    requires
        !(e is Entity),
    ensures
        elem_resolve(e, row) is Ok,
{
}

/// A projection without entity elements resolves on every row.
pub proof fn lemma_elems_resolve_total(proj: Seq<Elemv>, row: Seq<(Seq<u8>, Valuev)>)
    requires
        forall|i: int| 0 <= i < proj.len() ==> !((#[trigger] proj[i]) is Entity),
    ensures
        elems_resolve(proj, row) is Ok,
    decreases proj.len(),
{
    if proj.len() > 0 {
        let pre = proj.drop_last();
        assert(forall|i: int| 0 <= i < pre.len() ==> #[trigger] pre[i] == proj[i]);
        lemma_elems_resolve_total(pre, row);
        lemma_non_entity_never_fails(proj.last(), row);
    }
}

/// Law: missing-key tolerance. A key missing from a row never raises: with
/// no entity elements in the projection, the whole batch always hydrates,
/// one output per row, whatever keys the rows do or do not hold.
pub proof fn lemma_missing_key_tolerance(proj: Seq<Elemv>, rows: Seq<Seq<(Seq<u8>, Valuev)>>)
    requires
        forall|i: int| 0 <= i < proj.len() ==> !((#[trigger] proj[i]) is Entity),
    ensures
        batch_hydrate(proj, rows) is Ok,
        (batch_hydrate(proj, rows)->Ok_0).0.len() == rows.len(),
    decreases rows.len(),
{
    if rows.len() > 0 {
        lemma_missing_key_tolerance(proj, rows.drop_last());
        lemma_elems_resolve_total(proj, rows.last());
    }
}

} // verus!
