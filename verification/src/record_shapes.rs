use vstd::prelude::*;

use crate::text::{name_lt, str_eq, str_lt};
use crate::value_types::{
    facts_model, fact_model, PrimitiveTag, RuntimeTypeFact, StandardRuntimeType, TypeModel,
};

verus! {

/// What the compiler knows of the structure of a value.
#[derive(Debug, PartialEq, Eq)]
pub enum ValueShape {
    Unknown,
    Scalar(String),
    Record(RecordShape),
    Array(Box<ValueShape>),
    Iterator(Box<ValueShape>),
    MapType { key: Box<ValueShape>, value: Box<ValueShape> },
    SetType(Box<ValueShape>),
    Tuple(Vec<ValueShape>),
    Option(Box<ValueShape>),
    Result { ok: Option<Box<ValueShape>>, err: Option<Box<ValueShape>> },
}

/// A record's fields, kept sorted by name; a field's slot is its rank.
#[derive(Debug, PartialEq, Eq)]
pub struct RecordShape {
    record_type: Option<String>,
    fields: Vec<(String, RecordFieldShape)>,
}

#[derive(Debug, PartialEq, Eq)]
pub struct RecordFieldShape {
    slot: usize,
    value_type: Option<RuntimeTypeFact>,
    value: Option<ValueShape>,
}

/// The mathematical value of a `ValueShape`.
pub enum ShapeModel {
    Unknown,
    Scalar(Seq<char>),
    Record(RecordModel),
    Array(Box<ShapeModel>),
    Iterator(Box<ShapeModel>),
    MapType(Box<ShapeModel>, Box<ShapeModel>),
    SetType(Box<ShapeModel>),
    Tuple(Seq<ShapeModel>),
    Option(Box<ShapeModel>),
    Result(Option<Box<ShapeModel>>, Option<Box<ShapeModel>>),
}

/// A record: its type name and its fields in slot order.
pub struct RecordModel {
    pub record_type: Option<Seq<char>>,
    pub fields: Seq<FieldModel>,
}

pub struct FieldModel {
    pub name: Seq<char>,
    pub slot: nat,
    pub value: Option<ShapeModel>,
}

pub open spec fn opt_string_model(s: Option<String>) -> Option<Seq<char>> {
    match s {
        Some(s) => Some(s@),
        None => None,
    }
}

pub open spec fn opt_fact_model(f: Option<RuntimeTypeFact>) -> Option<TypeModel> {
    match f {
        Some(f) => Some(fact_model(f)),
        None => None,
    }
}

pub open spec fn shape_model(s: ValueShape) -> ShapeModel
    decreases s,
{
    match s {
        ValueShape::Unknown => ShapeModel::Unknown,
        ValueShape::Scalar(n) => ShapeModel::Scalar(n@),
        ValueShape::Record(r) => ShapeModel::Record(record_model(r)),
        ValueShape::Array(e) => ShapeModel::Array(Box::new(shape_model(*e))),
        ValueShape::Iterator(e) => ShapeModel::Iterator(Box::new(shape_model(*e))),
        ValueShape::MapType { key, value } => ShapeModel::MapType(
            Box::new(shape_model(*key)),
            Box::new(shape_model(*value)),
        ),
        ValueShape::SetType(e) => ShapeModel::SetType(Box::new(shape_model(*e))),
        ValueShape::Tuple(v) => ShapeModel::Tuple(shapes_model(v@)),
        ValueShape::Option(e) => ShapeModel::Option(Box::new(shape_model(*e))),
        ValueShape::Result { ok, err } => ShapeModel::Result(
            match ok {
                Some(o) => Some(Box::new(shape_model(*o))),
                None => None,
            },
            match err {
                Some(e) => Some(Box::new(shape_model(*e))),
                None => None,
            },
        ),
    }
}

pub open spec fn shapes_model(s: Seq<ValueShape>) -> Seq<ShapeModel>
    decreases s,
{
    if s.len() == 0 {
        Seq::empty()
    } else {
        seq![shape_model(s[0])] + shapes_model(s.drop_first())
    }
}

pub closed spec fn record_model(r: RecordShape) -> RecordModel
    decreases r,
{
    RecordModel { record_type: opt_string_model(r.record_type), fields: fields_model(r.fields@) }
}

pub closed spec fn fields_model(s: Seq<(String, RecordFieldShape)>) -> Seq<FieldModel>
    decreases s,
{
    if s.len() == 0 {
        Seq::empty()
    } else {
        seq![
            FieldModel {
                name: s[0].0@,
                slot: s[0].1.slot as nat,
                value: match s[0].1.value {
                    Some(v) => Some(shape_model(v)),
                    None => None,
                },
            },
        ] + fields_model(s.drop_first())
    }
}

impl View for ValueShape {
    type V = ShapeModel;

    open spec fn view(&self) -> ShapeModel {
        shape_model(*self)
    }
}

/// The runtime type of a field's value shape, when it has one.
pub open spec fn opt_model_value_type(v: Option<ShapeModel>) -> Option<TypeModel> {
    match v {
        Some(m) => shape_value_type(m),
        None => None,
    }
}

impl RecordShape {
    /// The runtime type recorded for each field's value, in slot order.
    pub closed spec fn field_value_types(&self) -> Seq<Option<TypeModel>> {
        Seq::new(self.fields@.len(), |i: int| opt_fact_model(self.fields@[i].1.value_type))
    }
}

impl View for RecordShape {
    type V = RecordModel;

    open spec fn view(&self) -> RecordModel {
        record_model(*self)
    }
}


/// The runtime type named by a scalar shape's type name, if any.
pub open spec fn scalar_type_model(n: Seq<char>) -> Option<TypeModel> {
    if n == "Unit"@ || n == "()"@ {
        Some(TypeModel::Primitive(PrimitiveTag::Unit))
    } else if n == "Bool"@ || n == "bool"@ {
        Some(TypeModel::Primitive(PrimitiveTag::Bool))
    } else if n == "I8"@ || n == "i8"@ {
        Some(TypeModel::Primitive(PrimitiveTag::I8))
    } else if n == "I16"@ || n == "i16"@ {
        Some(TypeModel::Primitive(PrimitiveTag::I16))
    } else if n == "I32"@ || n == "i32"@ {
        Some(TypeModel::Primitive(PrimitiveTag::I32))
    } else if n == "I64"@ || n == "i64"@ {
        Some(TypeModel::Primitive(PrimitiveTag::I64))
    } else if n == "U8"@ || n == "u8"@ {
        Some(TypeModel::Primitive(PrimitiveTag::U8))
    } else if n == "U16"@ || n == "u16"@ {
        Some(TypeModel::Primitive(PrimitiveTag::U16))
    } else if n == "U32"@ || n == "u32"@ {
        Some(TypeModel::Primitive(PrimitiveTag::U32))
    } else if n == "U64"@ || n == "u64"@ {
        Some(TypeModel::Primitive(PrimitiveTag::U64))
    } else if n == "F32"@ || n == "f32"@ {
        Some(TypeModel::Primitive(PrimitiveTag::F32))
    } else if n == "F64"@ || n == "f64"@ {
        Some(TypeModel::Primitive(PrimitiveTag::F64))
    } else if n == "String"@ {
        Some(TypeModel::Primitive(PrimitiveTag::String))
    } else if n == "Bytes"@ {
        Some(TypeModel::Primitive(PrimitiveTag::Bytes))
    } else if n == "Range"@ {
        Some(TypeModel::Standard(StandardRuntimeType::Range))
    } else if n == "Function"@ {
        Some(TypeModel::Standard(StandardRuntimeType::Function))
    } else if n == "Closure"@ {
        Some(TypeModel::Standard(StandardRuntimeType::Closure))
    } else if n == "Iterator"@ {
        Some(TypeModel::Standard(StandardRuntimeType::Iterator))
    } else {
        None
    }
}

/// The runtime type a shape proves, if it proves one.
pub open spec fn shape_value_type(m: ShapeModel) -> Option<TypeModel>
    decreases m,
{
    match m {
        ShapeModel::Unknown => None,
        ShapeModel::Scalar(n) => scalar_type_model(n),
        ShapeModel::Record(_) => None,
        ShapeModel::Array(e) => Some(
            match shape_value_type(*e) {
                Some(t) => TypeModel::Array(Box::new(t)),
                None => TypeModel::Standard(StandardRuntimeType::Array),
            },
        ),
        ShapeModel::Iterator(e) => Some(
            match shape_value_type(*e) {
                Some(t) => TypeModel::Iterator(Box::new(t)),
                None => TypeModel::Standard(StandardRuntimeType::Iterator),
            },
        ),
        ShapeModel::MapType(k, v) => Some(
            match (shape_value_type(*k), shape_value_type(*v)) {
                (Some(k), Some(v)) => TypeModel::MapType(Box::new(k), Box::new(v)),
                _ => TypeModel::Standard(StandardRuntimeType::MapType),
            },
        ),
        ShapeModel::SetType(e) => Some(
            match shape_value_type(*e) {
                Some(t) => TypeModel::SetType(Box::new(t)),
                None => TypeModel::Standard(StandardRuntimeType::SetType),
            },
        ),
        ShapeModel::Tuple(es) => match shapes_value_types(es) {
            Some(ts) => Some(TypeModel::Tuple(ts)),
            None => None,
        },
        ShapeModel::Option(e) => Some(
            match shape_value_type(*e) {
                Some(t) => TypeModel::Option(Box::new(t)),
                None => TypeModel::Standard(StandardRuntimeType::Option),
            },
        ),
        ShapeModel::Result(ok, err) => Some(
            match (opt_box_value_type(ok), opt_box_value_type(err)) {
                (Some(o), Some(e)) => TypeModel::Result(Box::new(o), Box::new(e)),
                _ => TypeModel::Standard(StandardRuntimeType::Result),
            },
        ),
    }
}

pub open spec fn opt_box_value_type(m: Option<Box<ShapeModel>>) -> Option<TypeModel>
    decreases m,
{
    match m {
        Some(b) => shape_value_type(*b),
        None => None,
    }
}

/// The element types of a tuple of shapes, when every element proves one.
pub open spec fn shapes_value_types(s: Seq<ShapeModel>) -> Option<Seq<TypeModel>>
    decreases s,
{
    if s.len() == 0 {
        Some(Seq::empty())
    } else {
        match (shapes_value_types(s.drop_last()), shape_value_type(s.last())) {
            (Some(ts), Some(t)) => Some(ts.push(t)),
            _ => None,
        }
    }
}

pub open spec fn opt_shape_value_type(v: Option<ValueShape>) -> Option<TypeModel> {
    match v {
        Some(v) => shape_value_type(shape_model(v)),
        None => None,
    }
}

pub open spec fn opt_shape_model(v: Option<ValueShape>) -> Option<ShapeModel> {
    match v {
        Some(v) => Some(shape_model(v)),
        None => None,
    }
}

/// Fields sorted strictly by name, each slot equal to its rank.
pub open spec fn record_model_wf(m: RecordModel) -> bool {
    &&& forall|i: int, j: int|
        0 <= i < j < m.fields.len() ==> name_lt(#[trigger] m.fields[i].name, #[trigger] m.fields[j].name)
    &&& forall|i: int| 0 <= i < m.fields.len() ==> (#[trigger] m.fields[i]).slot == i
}

pub open spec fn has_field(m: RecordModel, name: Seq<char>) -> bool {
    exists|i: int| 0 <= i < m.fields.len() && (#[trigger] m.fields[i]).name == name
}

/// The rank of the field called `name` (meaningful when `has_field`).
pub open spec fn field_index(m: RecordModel, name: Seq<char>) -> int {
    choose|i: int| 0 <= i < m.fields.len() && (#[trigger] m.fields[i]).name == name
}

/// The shape recorded for a field, if the field exists and has one.
pub open spec fn field_value_model(m: RecordModel, name: Seq<char>) -> Option<ShapeModel> {
    if has_field(m, name) {
        m.fields[field_index(m, name)].value
    } else {
        None
    }
}

pub proof fn lemma_unique_names(m: RecordModel, i: int, j: int)
    requires
        record_model_wf(m),
        0 <= i < m.fields.len(),
        0 <= j < m.fields.len(),
        m.fields[i].name == m.fields[j].name,
    ensures
        i == j,
{
    if i < j {
        assert(name_lt(m.fields[i].name, m.fields[j].name));
        crate::text::lemma_seq_lt_irreflexive(m.fields[i].name);
    } else if j < i {
        assert(name_lt(m.fields[j].name, m.fields[i].name));
        crate::text::lemma_seq_lt_irreflexive(m.fields[i].name);
    }
}

pub proof fn lemma_shapes_model_len(s: Seq<ValueShape>)
    ensures
        shapes_model(s).len() == s.len(),
    decreases s.len(),
{
    if s.len() > 0 {
        lemma_shapes_model_len(s.drop_first());
    }
}

pub proof fn lemma_shapes_model_index(s: Seq<ValueShape>, i: int)
    requires
        0 <= i < s.len(),
    ensures
        shapes_model(s).len() == s.len(),
        shapes_model(s)[i] == shape_model(s[i]),
    decreases s.len(),
{
    lemma_shapes_model_len(s);
    if i > 0 {
        lemma_shapes_model_index(s.drop_first(), i - 1);
    }
}

pub proof fn lemma_shapes_model_push(s: Seq<ValueShape>, v: ValueShape)
    ensures
        shapes_model(s.push(v)) == shapes_model(s).push(shape_model(v)),
    decreases s.len(),
{
    if s.len() == 0 {
        assert(s.push(v).drop_first() =~= s);
    } else {
        assert(s.push(v).drop_first() =~= s.drop_first().push(v));
        lemma_shapes_model_push(s.drop_first(), v);
    }
}

proof fn lemma_fields_model_len(s: Seq<(String, RecordFieldShape)>)
    ensures
        fields_model(s).len() == s.len(),
    decreases s.len(),
{
    if s.len() > 0 {
        lemma_fields_model_len(s.drop_first());
    }
}

proof fn lemma_fields_model_index(s: Seq<(String, RecordFieldShape)>, i: int)
    requires
        0 <= i < s.len(),
    ensures
        fields_model(s).len() == s.len(),
        fields_model(s)[i] == (FieldModel {
            name: s[i].0@,
            slot: s[i].1.slot as nat,
            value: opt_shape_model(s[i].1.value),
        }),
    decreases s.len(),
{
    lemma_fields_model_len(s);
    if i > 0 {
        lemma_fields_model_index(s.drop_first(), i - 1);
    }
}

proof fn lemma_shapes_model_congruent(a: Seq<ValueShape>, b: Seq<ValueShape>)
    requires
        a.len() == b.len(),
        forall|k: int| 0 <= k < a.len() ==> shape_model(#[trigger] a[k]) == shape_model(b[k]),
    ensures
        shapes_model(a) == shapes_model(b),
    decreases a.len(),
{
    if a.len() > 0 {
        assert forall|k: int| 0 <= k < a.drop_first().len() implies shape_model(
            #[trigger] a.drop_first()[k],
        ) == shape_model(b.drop_first()[k]) by {
            assert(a.drop_first()[k] == a[k + 1]);
            assert(b.drop_first()[k] == b[k + 1]);
        }
        lemma_shapes_model_congruent(a.drop_first(), b.drop_first());
    }
}

/// Two field lists that agree entry by entry on their models.
spec fn fields_agree(
    a: Seq<(String, RecordFieldShape)>,
    b: Seq<(String, RecordFieldShape)>,
    n: int,
) -> bool {
    forall|k: int|
        0 <= k < n ==> (#[trigger] a[k]).0@ == b[k].0@ && a[k].1.slot == b[k].1.slot
            && opt_fact_model(a[k].1.value_type) == opt_fact_model(b[k].1.value_type)
            && opt_shape_model(a[k].1.value) == opt_shape_model(b[k].1.value)
}

proof fn lemma_fields_model_congruent(
    a: Seq<(String, RecordFieldShape)>,
    b: Seq<(String, RecordFieldShape)>,
)
    requires
        a.len() == b.len(),
        fields_agree(a, b, a.len() as int),
    ensures
        fields_model(a) == fields_model(b),
    decreases a.len(),
{
    if a.len() > 0 {
        assert(fields_agree(a.drop_first(), b.drop_first(), a.len() - 1)) by {
            assert forall|k: int| 0 <= k < a.len() - 1 implies #[trigger] a.drop_first()[k] == a[k
                + 1] && b.drop_first()[k] == b[k + 1] by {}
        }
        lemma_fields_model_congruent(a.drop_first(), b.drop_first());
        assert(a[0].0@ == b[0].0@);
    }
}

/// The models of `(name, shape)` pairs.
pub open spec fn pairs_model(v: Seq<(String, ValueShape)>) -> Seq<(Seq<char>, ShapeModel)> {
    Seq::new(v.len(), |i: int| (v[i].0@, shape_model(v[i].1)))
}

pub open spec fn names_in(pairs: Seq<(Seq<char>, ShapeModel)>, name: Seq<char>) -> bool {
    exists|j: int| 0 <= j < pairs.len() && (#[trigger] pairs[j]).0 == name
}

/// The last shape given for `name` among `pairs`.
pub open spec fn last_shape_for(pairs: Seq<(Seq<char>, ShapeModel)>, name: Seq<char>) -> ShapeModel
    decreases pairs.len(),
{
    if pairs.len() == 0 {
        ShapeModel::Unknown
    } else if pairs.last().0 == name {
        pairs.last().1
    } else {
        last_shape_for(pairs.drop_last(), name)
    }
}

/// `m` is the record built from `pairs`: one field per distinct name, in name
/// order, each holding the last shape given for its name.
pub open spec fn record_built_from(
    m: RecordModel,
    record_type: Option<Seq<char>>,
    pairs: Seq<(Seq<char>, ShapeModel)>,
) -> bool {
    &&& m.record_type == record_type
    &&& record_model_wf(m)
    &&& forall|i: int|
        0 <= i < m.fields.len() ==> names_in(pairs, (#[trigger] m.fields[i]).name)
            && m.fields[i].value == Some(last_shape_for(pairs, m.fields[i].name))
    &&& forall|j: int| 0 <= j < pairs.len() ==> has_field(m, (#[trigger] pairs[j]).0)
}

/// With no later pair of the same name, the last shape given for a pair's
/// name is that pair's shape.
pub proof fn lemma_last_shape_for(pairs: Seq<(Seq<char>, ShapeModel)>, j: int)
    requires
        0 <= j < pairs.len(),
        forall|k: int| j < k < pairs.len() ==> (#[trigger] pairs[k]).0 != pairs[j].0,
    ensures
        last_shape_for(pairs, pairs[j].0) == pairs[j].1,
    decreases pairs.len(),
{
    if j < pairs.len() - 1 {
        assert(pairs[pairs.len() - 1].0 != pairs[j].0);
        assert forall|k: int| j < k < pairs.drop_last().len() implies (
        #[trigger] pairs.drop_last()[k]).0 != pairs.drop_last()[j].0 by {
            assert(pairs.drop_last()[k] == pairs[k]);
        }
        lemma_last_shape_for(pairs.drop_last(), j);
    }
}

spec fn names_sorted(acc: Seq<(String, ValueShape)>) -> bool {
    forall|i: int, j: int| 0 <= i < j < acc.len() ==> name_lt(#[trigger] acc[i].0@, #[trigger] acc[j].0@)
}

/// Where `name` sits in a list sorted by name: every earlier entry sorts
/// before it, and `found` tells whether the entry at the position has it.
fn name_position(acc: &Vec<(String, ValueShape)>, name: &str) -> (r: (usize, bool))
    requires
        names_sorted(acc@),
    ensures
        r.0 <= acc@.len(),
        forall|t: int| 0 <= t < r.0 ==> name_lt((#[trigger] acc@[t]).0@, name@),
        r.1 ==> r.0 < acc@.len() && acc@[r.0 as int].0@ == name@,
        !r.1 ==> forall|t: int| r.0 <= t < acc@.len() ==> name_lt(name@, (#[trigger] acc@[t]).0@),
{
    let mut pos: usize = 0;
    while pos < acc.len() && str_lt(acc[pos].0.as_str(), name)
        invariant
            pos <= acc.len(),
            forall|t: int| 0 <= t < pos ==> name_lt((#[trigger] acc@[t]).0@, name@),
        decreases acc.len() - pos,
    {
        pos = pos + 1;
    }
    if pos < acc.len() && str_eq(acc[pos].0.as_str(), name) {
        (pos, true)
    } else {
        proof {
            if pos < acc.len() {
                crate::text::lemma_seq_lt_total(acc@[pos as int].0@, name@);
                assert forall|t: int| pos <= t < acc@.len() implies name_lt(name@, (#[trigger] acc@[t]).0@) by {
                    if t > pos {
                        crate::text::lemma_seq_lt_transitive(name@, acc@[pos as int].0@, acc@[t].0@);
                    }
                }
            }
        }
        (pos, false)
    }
}

proof fn lemma_insert_sorted(
    acc_before: Seq<(String, ValueShape)>,
    pos: int,
    entry: (String, ValueShape),
)
    requires
        names_sorted(acc_before),
        0 <= pos <= acc_before.len(),
        forall|t: int| 0 <= t < pos ==> name_lt((#[trigger] acc_before[t]).0@, entry.0@),
        forall|t: int| pos <= t < acc_before.len() ==> name_lt(entry.0@, (#[trigger] acc_before[t]).0@),
    ensures
        names_sorted(acc_before.insert(pos, entry)),
{
    let acc = acc_before.insert(pos, entry);
    assert forall|i: int| 0 <= i < acc.len() implies #[trigger] acc[i] == (if i < pos {
        acc_before[i]
    } else if i == pos {
        entry
    } else {
        acc_before[i - 1]
    }) by {}
    assert forall|i: int, j: int| 0 <= i < j < acc.len() implies name_lt(
        #[trigger] acc[i].0@,
        #[trigger] acc[j].0@,
    ) by {
        if i < pos && j > pos {
            crate::text::lemma_seq_lt_transitive(acc[i].0@, entry.0@, acc[j].0@);
        }
    }
}

/// `acc` holds, sorted by name, one entry per name given in `prefix`, with
/// the last shape given for it.
spec fn absorbed(acc: Seq<(String, ValueShape)>, prefix: Seq<(Seq<char>, ShapeModel)>) -> bool {
    &&& names_sorted(acc)
    &&& forall|i: int|
        0 <= i < acc.len() ==> names_in(prefix, (#[trigger] acc[i]).0@) && shape_model(acc[i].1)
            == last_shape_for(prefix, acc[i].0@)
    &&& forall|j: int|
        0 <= j < prefix.len() ==> exists|i: int|
            0 <= i < acc.len() && (#[trigger] acc[i]).0@ == (#[trigger] prefix[j]).0
}

proof fn lemma_last_shape_push(
    prefix: Seq<(Seq<char>, ShapeModel)>,
    p: (Seq<char>, ShapeModel),
    name: Seq<char>,
)
    ensures
        last_shape_for(prefix.push(p), name) == (if p.0 == name {
            p.1
        } else {
            last_shape_for(prefix, name)
        }),
{
    assert(prefix.push(p).drop_last() =~= prefix);
}

proof fn lemma_names_in_push(
    prefix: Seq<(Seq<char>, ShapeModel)>,
    p: (Seq<char>, ShapeModel),
    name: Seq<char>,
)
    requires
        names_in(prefix, name) || p.0 == name,
    ensures
        names_in(prefix.push(p), name),
{
    if p.0 == name {
        assert(prefix.push(p)[prefix.len() as int].0 == name);
    } else {
        let j = choose|j: int| 0 <= j < prefix.len() && (#[trigger] prefix[j]).0 == name;
        assert(prefix.push(p)[j] == prefix[j]);
    }
}

proof fn lemma_sorted_distinct(acc: Seq<(String, ValueShape)>, i: int, j: int)
    requires
        names_sorted(acc),
        0 <= i < acc.len(),
        0 <= j < acc.len(),
        i != j,
    ensures
        acc[i].0@ != acc[j].0@,
{
    crate::text::lemma_seq_lt_irreflexive(acc[i].0@);
}

/// Replacing the shape of a name already present keeps the list absorbed.
proof fn lemma_absorb_replace(
    before: Seq<(String, ValueShape)>,
    pos: int,
    entry: (String, ValueShape),
    prefix: Seq<(Seq<char>, ShapeModel)>,
)
    requires
        absorbed(before, prefix),
        0 <= pos < before.len(),
        before[pos].0@ == entry.0@,
    ensures
        absorbed(before.update(pos, entry), prefix.push((entry.0@, shape_model(entry.1)))),
{
    let acc = before.update(pos, entry);
    let p = (entry.0@, shape_model(entry.1));
    let np = prefix.push(p);
    assert forall|i: int| 0 <= i < acc.len() implies (#[trigger] acc[i]).0@ == before[i].0@ by {}
    assert forall|i: int, j: int| 0 <= i < j < acc.len() implies name_lt(
        #[trigger] acc[i].0@,
        #[trigger] acc[j].0@,
    ) by {
        assert(acc[i].0@ == before[i].0@);
        assert(acc[j].0@ == before[j].0@);
    }
    assert forall|i: int| 0 <= i < acc.len() implies names_in(np, (#[trigger] acc[i]).0@)
        && shape_model(acc[i].1) == last_shape_for(np, acc[i].0@) by {
        lemma_last_shape_push(prefix, p, acc[i].0@);
        if i != pos {
            lemma_sorted_distinct(before, i, pos);
            assert(acc[i] == before[i]);
        }
        lemma_names_in_push(prefix, p, acc[i].0@);
    }
    assert forall|j: int| 0 <= j < np.len() implies exists|i: int|
        0 <= i < acc.len() && (#[trigger] acc[i]).0@ == (#[trigger] np[j]).0 by {
        if j == prefix.len() {
            assert(acc[pos].0@ == np[j].0);
        } else {
            assert(np[j] == prefix[j]);
            let i = choose|i: int| 0 <= i < before.len() && (#[trigger] before[i]).0@ == prefix[j].0;
            assert(acc[i].0@ == np[j].0);
        }
    }
}

/// Inserting a new name at its sorted position keeps the list absorbed.
proof fn lemma_absorb_insert(
    before: Seq<(String, ValueShape)>,
    pos: int,
    entry: (String, ValueShape),
    prefix: Seq<(Seq<char>, ShapeModel)>,
)
    requires
        absorbed(before, prefix),
        0 <= pos <= before.len(),
        forall|t: int| 0 <= t < pos ==> name_lt((#[trigger] before[t]).0@, entry.0@),
        forall|t: int| pos <= t < before.len() ==> name_lt(entry.0@, (#[trigger] before[t]).0@),
    ensures
        absorbed(before.insert(pos, entry), prefix.push((entry.0@, shape_model(entry.1)))),
{
    let acc = before.insert(pos, entry);
    let p = (entry.0@, shape_model(entry.1));
    let np = prefix.push(p);
    lemma_insert_sorted(before, pos, entry);
    assert forall|i: int| 0 <= i < acc.len() implies #[trigger] acc[i] == (if i < pos {
        before[i]
    } else if i == pos {
        entry
    } else {
        before[i - 1]
    }) by {}
    assert forall|i: int| 0 <= i < acc.len() implies names_in(np, (#[trigger] acc[i]).0@)
        && shape_model(acc[i].1) == last_shape_for(np, acc[i].0@) by {
        lemma_last_shape_push(prefix, p, acc[i].0@);
        if i < pos {
            assert(acc[i] == before[i]);
            crate::text::lemma_seq_lt_irreflexive(entry.0@);
        } else if i > pos {
            assert(acc[i] == before[i - 1]);
            crate::text::lemma_seq_lt_irreflexive(entry.0@);
        }
        lemma_names_in_push(prefix, p, acc[i].0@);
    }
    assert forall|j: int| 0 <= j < np.len() implies exists|i: int|
        0 <= i < acc.len() && (#[trigger] acc[i]).0@ == (#[trigger] np[j]).0 by {
        if j == prefix.len() {
            assert(acc[pos].0@ == np[j].0);
        } else {
            assert(np[j] == prefix[j]);
            let i = choose|i: int| 0 <= i < before.len() && (#[trigger] before[i]).0@ == prefix[j].0;
            if i < pos {
                assert(acc[i].0@ == np[j].0);
            } else {
                assert(acc[i + 1].0@ == np[j].0);
            }
        }
    }
}

/// Adds one pair to an absorbed list: a new name is inserted at its place,
/// a known name takes the new shape.
fn absorb_pair(
    acc: &mut Vec<(String, ValueShape)>,
    name: String,
    value: ValueShape,
    Ghost(prefix): Ghost<Seq<(Seq<char>, ShapeModel)>>,
)
    requires
        absorbed(old(acc)@, prefix),
    ensures
        absorbed(final(acc)@, prefix.push((name@, shape_model(value)))),
{
    let (pos, found) = name_position(acc, name.as_str());
    let ghost before = acc@;
    let ghost entry = (name, value);
    if found {
        acc.set(pos, (name, value));
        proof {
            lemma_absorb_replace(before, pos as int, entry, prefix);
        }
    } else {
        acc.insert(pos, (name, value));
        proof {
            lemma_absorb_insert(before, pos as int, entry, prefix);
        }
    }
}

/// The pairs sorted strictly by name, each name keeping its last shape.
fn sorted_last_wins(fields: Vec<(String, ValueShape)>) -> (acc: Vec<(String, ValueShape)>)
    ensures
        absorbed(acc@, pairs_model(fields@)),
{
    let ghost orig = pairs_model(fields@);
    let mut rest = fields;
    let mut acc: Vec<(String, ValueShape)> = Vec::new();
    let ghost mut taken: int = 0;
    proof {
        assert(orig.subrange(0, 0) =~= Seq::<(Seq<char>, ShapeModel)>::empty());
    }
    while rest.len() > 0
        invariant
            orig == pairs_model(fields@),
            0 <= taken <= orig.len(),
            taken + rest@.len() == orig.len(),
            pairs_model(rest@) == orig.subrange(taken, orig.len() as int),
            absorbed(acc@, orig.subrange(0, taken)),
        decreases rest@.len(),
    {
        let ghost before = rest@;
        let (name, value) = rest.remove(0);
        proof {
            assert(pairs_model(before)[0] == orig[taken]);
            assert(orig.subrange(0, taken + 1) =~= orig.subrange(0, taken).push(orig[taken]));
            assert(pairs_model(rest@) =~= orig.subrange(taken + 1, orig.len() as int)) by {
                assert forall|t: int| 0 <= t < rest@.len() implies pairs_model(rest@)[t]
                    == orig.subrange(taken + 1, orig.len() as int)[t] by {
                    assert(rest@[t] == before[t + 1]);
                    assert(pairs_model(before)[t + 1] == orig[taken + 1 + t]);
                }
            }
        }
        absorb_pair(&mut acc, name, value, Ghost(orig.subrange(0, taken)));
        proof {
            taken = taken + 1;
        }
    }
    proof {
        assert(orig.subrange(0, taken) =~= orig);
    }
    acc
}

impl RecordShape {
    /// A record with no type name built from `(name, shape)` pairs.
    pub fn from_field_shapes(fields: Vec<(String, ValueShape)>) -> (r: Self)
        ensures
            record_built_from(r@, None, pairs_model(fields@)),
            r@ == built_record(None, pairs_model(fields@)),
    {
        Self::from_field_shapes_with_type(None, fields)
    }

    /// A record built from `(name, shape)` pairs: the fields are sorted by name,
    /// a repeated name keeps its last shape, and each slot is the field's rank.
    pub fn from_field_shapes_with_type(record_type: Option<String>, fields: Vec<(String, ValueShape)>) -> (r: Self)
        ensures
            record_built_from(r@, opt_string_model(record_type), pairs_model(fields@)),
            r@ == built_record(opt_string_model(record_type), pairs_model(fields@)),
            r.field_value_types().len() == r@.fields.len(),
            forall|i: int|
                0 <= i < r@.fields.len() ==> #[trigger] r.field_value_types()[i] == opt_model_value_type(
                    r@.fields[i].value,
                ),
    {
        let ghost orig = pairs_model(fields@);
        let sorted = sorted_last_wins(fields);
        proof {
            assert(names_sorted(sorted@));
        }
        let ghost sorted_view = sorted@;
        let mut acc = sorted;
        let total = acc.len();
        let mut out: Vec<(String, RecordFieldShape)> = Vec::new();
        let mut idx: usize = 0;
        while acc.len() > 0
            invariant
                idx + acc@.len() == sorted_view.len(),
                sorted_view.len() == total,
                acc@ == sorted_view.subrange(idx as int, sorted_view.len() as int),
                out@.len() == idx,
                forall|i: int| 0 <= i < idx ==> (#[trigger] out@[i]).0@ == sorted_view[i].0@
                    && out@[i].1.slot == i
                    && opt_shape_model(out@[i].1.value) == Some(shape_model(sorted_view[i].1))
                    && opt_fact_model(out@[i].1.value_type) == opt_shape_value_type(out@[i].1.value),
            decreases acc@.len(),
        {
            let (name, value) = acc.remove(0);
            let value_type = value.value_type();
            out.push((name, RecordFieldShape { slot: idx, value_type, value: Some(value) }));
            idx = idx + 1;
            proof {
                assert(acc@ =~= sorted_view.subrange(idx as int, sorted_view.len() as int));
            }
        }
        let r = RecordShape { record_type, fields: out };
        proof {
            assert forall|i: int| 0 <= i < r@.fields.len() implies #[trigger] r.field_value_types()[i]
                == opt_model_value_type(r@.fields[i].value) by {
                lemma_fields_model_len(r.fields@);
                lemma_fields_model_index(r.fields@, i);
            }
            lemma_fields_model_len(r.fields@);
            r.lemma_model_wf();
            assert forall|j: int| 0 <= j < orig.len() implies has_field(r@, (#[trigger] orig[j]).0) by {
                let i = choose|i: int| 0 <= i < sorted_view.len() && (#[trigger] sorted_view[i]).0@ == orig[j].0;
                assert(r@.fields[i].name == orig[j].0);
            }
            assert forall|i: int| 0 <= i < r@.fields.len() implies names_in(orig, (#[trigger] r@.fields[i]).name)
                && r@.fields[i].value == Some(last_shape_for(orig, r@.fields[i].name)) by {
                assert(r@.fields[i].name == sorted_view[i].0@);
            }
            lemma_built_record(r@, opt_string_model(record_type), orig);
        }
        r
    }

    /// A record from fields already sorted strictly by name, each with the
    /// shape of its value when one is known; each slot is the field's rank.
    pub fn from_sorted_optional_fields(record_type: Option<String>, fields: Vec<(String, Option<ValueShape>)>) -> (r:
        Self)
        requires
            names_strictly_sorted(Seq::new(fields@.len(), |i: int| fields@[i].0@)),
        ensures
            r@ == (RecordModel {
                record_type: opt_string_model(record_type),
                fields: Seq::new(
                    fields@.len(),
                    |i: int| FieldModel { name: fields@[i].0@, slot: i as nat, value: opt_shape_model(fields@[i].1) },
                ),
            }),
    {
        let ghost orig = fields@;
        let mut acc = fields;
        let total = acc.len();
        let mut out: Vec<(String, RecordFieldShape)> = Vec::new();
        let mut idx: usize = 0;
        while acc.len() > 0
            invariant
                idx + acc@.len() == orig.len(),
                orig.len() == total,
                names_strictly_sorted(Seq::new(orig.len(), |i: int| orig[i].0@)),
                acc@ == orig.subrange(idx as int, orig.len() as int),
                out@.len() == idx,
                forall|i: int| 0 <= i < idx ==> (#[trigger] out@[i]).0@ == orig[i].0@
                    && out@[i].1.slot == i
                    && opt_shape_model(out@[i].1.value) == opt_shape_model(orig[i].1)
                    && opt_fact_model(out@[i].1.value_type) == opt_shape_value_type(out@[i].1.value),
            decreases acc@.len(),
        {
            let (name, value) = acc.remove(0);
            let value_type = match &value {
                Some(v) => v.value_type(),
                None => None,
            };
            out.push((name, RecordFieldShape { slot: idx, value_type, value }));
            idx = idx + 1;
            proof {
                assert(acc@ =~= orig.subrange(idx as int, orig.len() as int));
            }
        }
        proof {
            assert forall|i: int, j: int| 0 <= i < j < out@.len() implies name_lt(
                #[trigger] out@[i].0@,
                #[trigger] out@[j].0@,
            ) by {
                let names = Seq::new(orig.len(), |k: int| orig[k].0@);
                assert(name_lt(names[i], names[j]));
            }
        }
        let r = RecordShape { record_type, fields: out };
        proof {
            r.lemma_model_wf();
            assert(r@.fields =~= Seq::new(
                orig.len(),
                |i: int| FieldModel { name: orig[i].0@, slot: i as nat, value: opt_shape_model(orig[i].1) },
            ));
        }
        r
    }

    #[verifier::type_invariant]
    spec fn wf(self) -> bool {
        &&& forall|i: int, j: int|
            0 <= i < j < self.fields@.len() ==> name_lt(
                #[trigger] self.fields@[i].0@,
                #[trigger] self.fields@[j].0@,
            )
        &&& forall|i: int| 0 <= i < self.fields@.len() ==> (#[trigger] self.fields@[i]).1.slot == i
        &&& forall|i: int|
            0 <= i < self.fields@.len() ==> opt_fact_model((#[trigger] self.fields@[i]).1.value_type)
                == opt_shape_value_type(self.fields@[i].1.value)
    }

    proof fn lemma_model_wf(&self)
        requires
            self.wf(),
        ensures
            record_model_wf(self@),
            self@.fields.len() == self.fields@.len(),
            forall|i: int|
                0 <= i < self.fields@.len() ==> (#[trigger] self@.fields[i]) == (FieldModel {
                    name: self.fields@[i].0@,
                    slot: self.fields@[i].1.slot as nat,
                    value: opt_shape_model(self.fields@[i].1.value),
                }),
    {
        lemma_fields_model_len(self.fields@);
        assert forall|i: int| 0 <= i < self.fields@.len() implies (#[trigger] self@.fields[i]) == (
        FieldModel {
            name: self.fields@[i].0@,
            slot: self.fields@[i].1.slot as nat,
            value: opt_shape_model(self.fields@[i].1.value),
        }) by {
            lemma_fields_model_index(self.fields@, i);
        }
        assert forall|i: int, j: int| 0 <= i < j < self@.fields.len() implies name_lt(
            #[trigger] self@.fields[i].name,
            #[trigger] self@.fields[j].name,
        ) by {
            lemma_fields_model_index(self.fields@, i);
            lemma_fields_model_index(self.fields@, j);
        }
    }

    /// A deep copy with the same model.
    pub fn duplicate(&self) -> (r: Self)
        ensures
            r@ == self@,
        decreases self,
    {
        proof {
            use_type_invariant(self);
        }
        let record_type = match &self.record_type {
            Some(s) => Some(s.clone()),
            None => None,
        };
        let mut fields: Vec<(String, RecordFieldShape)> = Vec::new();
        let mut i: usize = 0;
        while i < self.fields.len()
            invariant
                self.wf(),
                i <= self.fields.len(),
                fields@.len() == i,
                fields_agree(fields@, self.fields@, i as int),
            decreases self.fields.len() - i,
        {
            let name = self.fields[i].0.clone();
            let value_type = match &self.fields[i].1.value_type {
                Some(t) => Some(t.duplicate()),
                None => None,
            };
            let value = match &self.fields[i].1.value {
                Some(v) => {
                    proof {
                        assert(decreases_to!(*self => self.fields));
                        assert(decreases_to!(self.fields => self.fields@));
                        assert(decreases_to!(self.fields@ => self.fields@[i as int]));
                        assert(decreases_to!(self.fields@[i as int] => self.fields@[i as int].1));
                        assert(decreases_to!(self.fields@[i as int].1 => self.fields@[i as int].1.value));
                        assert(decreases_to!(self.fields@[i as int].1.value => self.fields@[i as int].1.value->0));
                    }
                    Some(v.duplicate())
                },
                None => None,
            };
            fields.push((name, RecordFieldShape { slot: self.fields[i].1.slot, value_type, value }));
            i = i + 1;
        }
        proof {
            lemma_fields_model_congruent(fields@, self.fields@);
        }
        RecordShape { record_type, fields }
    }

    /// Whether two records have the same model.
    pub fn same_as(&self, other: &Self) -> (r: bool)
        ensures
            r == (self@ == other@),
        decreases self,
    {
        proof {
            use_type_invariant(self);
            use_type_invariant(other);
            self.lemma_model_wf();
            other.lemma_model_wf();
        }
        let same_type = match (&self.record_type, &other.record_type) {
            (Some(a), Some(b)) => str_eq(a.as_str(), b.as_str()),
            (None, None) => true,
            _ => false,
        };
        if !same_type || self.fields.len() != other.fields.len() {
            proof {
                if self@ == other@ {
                    assert(self@.fields.len() == other@.fields.len());
                }
            }
            return false;
        }
        let mut i: usize = 0;
        while i < self.fields.len()
            invariant
                self.wf(),
                other.wf(),
                self.fields.len() == other.fields.len(),
                self@.fields.len() == self.fields@.len(),
                other@.fields.len() == other.fields@.len(),
                forall|k: int| 0 <= k < self.fields@.len() ==> (#[trigger] self@.fields[k]) == (FieldModel {
                    name: self.fields@[k].0@,
                    slot: self.fields@[k].1.slot as nat,
                    value: opt_shape_model(self.fields@[k].1.value),
                }),
                forall|k: int| 0 <= k < other.fields@.len() ==> (#[trigger] other@.fields[k]) == (FieldModel {
                    name: other.fields@[k].0@,
                    slot: other.fields@[k].1.slot as nat,
                    value: opt_shape_model(other.fields@[k].1.value),
                }),
                i <= self.fields.len(),
                forall|k: int| 0 <= k < i ==> self@.fields[k] == other@.fields[k],
            decreases self.fields.len() - i,
        {
            let a = &self.fields[i];
            let b = &other.fields[i];
            let same_value = match (&a.1.value, &b.1.value) {
                (Some(x), Some(y)) => {
                    proof {
                        assert(decreases_to!(*self => self.fields));
                        assert(decreases_to!(self.fields => self.fields@));
                        assert(decreases_to!(self.fields@ => self.fields@[i as int]));
                        assert(decreases_to!(self.fields@[i as int] => self.fields@[i as int].1));
                        assert(decreases_to!(self.fields@[i as int].1 => self.fields@[i as int].1.value));
                        assert(decreases_to!(self.fields@[i as int].1.value => self.fields@[i as int].1.value->0));
                    }
                    x.same_as(y)
                },
                (None, None) => true,
                _ => false,
            };
            if !str_eq(a.0.as_str(), b.0.as_str()) || a.1.slot != b.1.slot || !same_value {
                proof {
                    assert(self@.fields[i as int] != other@.fields[i as int]);
                }
                return false;
            }
            i = i + 1;
        }
        proof {
            assert(self@.fields =~= other@.fields);
        }
        true
    }

    /// The record's type name, when it is known.
    pub fn record_type_name(&self) -> (r: Option<&str>)
        ensures
            match r {
                Some(s) => self@.record_type == Some(s@),
                None => self@.record_type is None,
            },
    {
        match &self.record_type {
            Some(s) => Some(s.as_str()),
            None => None,
        }
    }

    fn position(&self, field: &str) -> (r: Option<usize>)
        ensures
            record_model_wf(self@),
            match r {
                Some(i) => i < self@.fields.len() && self@.fields[i as int].name == field@
                    && field_index(self@, field@) == i && has_field(self@, field@),
                None => !has_field(self@, field@),
            },
    {
        proof {
            use_type_invariant(self);
            self.lemma_model_wf();
        }
        let mut i: usize = 0;
        while i < self.fields.len()
            invariant
                self.wf(),
                record_model_wf(self@),
                self@.fields.len() == self.fields@.len(),
                forall|k: int|
                    0 <= k < self.fields@.len() ==> (#[trigger] self@.fields[k]).name
                        == self.fields@[k].0@,
                i <= self.fields.len(),
                forall|k: int| 0 <= k < i ==> self@.fields[k].name != field@,
            decreases self.fields.len() - i,
        {
            if str_eq(self.fields[i].0.as_str(), field) {
                proof {
                    let j = field_index(self@, field@);
                    assert(has_field(self@, field@)) by {
                        assert(self@.fields[i as int].name == field@);
                    }
                    lemma_unique_names(self@, i as int, j);
                }
                return Some(i);
            }
            i = i + 1;
        }
        None
    }

    /// The slot of a field: its rank among the record's field names.
    pub fn field_slot(&self, field: &str) -> (r: Option<usize>)
        ensures
            record_model_wf(self@),
            r == (if has_field(self@, field@) {
                Some(field_index(self@, field@) as usize)
            } else {
                None::<usize>
            }),
            r matches Some(i) ==> i < self@.fields.len() && self@.fields[i as int].slot == i,
    {
        proof {
            use_type_invariant(self);
            self.lemma_model_wf();
        }
        match self.position(field) {
            Some(i) => {
                Some(self.fields[i].1.slot)
            },
            None => None,
        }
    }

    /// The shape recorded for a field.
    pub fn field_value_shape(&self, field: &str) -> (r: Option<&ValueShape>)
        ensures
            match r {
                Some(v) => field_value_model(self@, field@) == Some(v@),
                None => field_value_model(self@, field@) is None,
            },
    {
        proof {
            use_type_invariant(self);
            self.lemma_model_wf();
        }
        match self.position(field) {
            Some(i) => match &self.fields[i].1.value {
                Some(v) => Some(v),
                None => None,
            },
            None => None,
        }
    }

    /// The record shape recorded for a field, when the field holds a record.
    pub fn field_record_shape(&self, field: &str) -> (r: Option<&RecordShape>)
        ensures
            match r {
                Some(rec) => field_value_model(self@, field@) == Some(ShapeModel::Record(rec@)),
                None => !(field_value_model(self@, field@) matches Some(ShapeModel::Record(_))),
            },
    {
        match self.field_value_shape(field) {
            Some(v) => v.as_record(),
            None => None,
        }
    }
}

/// The shape of a value of a given runtime type.
pub open spec fn shape_from_type(t: TypeModel) -> ShapeModel
    decreases t,
{
    match t {
        TypeModel::Primitive(tag) => ShapeModel::Scalar(primitive_shape_name(tag)),
        TypeModel::Standard(StandardRuntimeType::Array) => ShapeModel::Array(
            Box::new(ShapeModel::Unknown),
        ),
        TypeModel::Standard(StandardRuntimeType::MapType) => ShapeModel::MapType(
            Box::new(ShapeModel::Unknown),
            Box::new(ShapeModel::Unknown),
        ),
        TypeModel::Standard(StandardRuntimeType::SetType) => ShapeModel::SetType(
            Box::new(ShapeModel::Unknown),
        ),
        TypeModel::Standard(StandardRuntimeType::Range) => ShapeModel::Scalar("Range"@),
        TypeModel::Standard(StandardRuntimeType::Function) => ShapeModel::Scalar("Function"@),
        TypeModel::Standard(StandardRuntimeType::Closure) => ShapeModel::Scalar("Closure"@),
        TypeModel::Standard(StandardRuntimeType::Iterator) => ShapeModel::Iterator(
            Box::new(ShapeModel::Unknown),
        ),
        TypeModel::Standard(StandardRuntimeType::Option) => ShapeModel::Option(
            Box::new(ShapeModel::Unknown),
        ),
        TypeModel::Standard(StandardRuntimeType::Result) => ShapeModel::Result(None, None),
        TypeModel::Array(e) => ShapeModel::Array(Box::new(shape_from_type(*e))),
        TypeModel::MapType(k, v) => ShapeModel::MapType(
            Box::new(shape_from_type(*k)),
            Box::new(shape_from_type(*v)),
        ),
        TypeModel::SetType(e) => ShapeModel::SetType(Box::new(shape_from_type(*e))),
        TypeModel::Tuple(es) => ShapeModel::Tuple(shapes_from_types(es)),
        TypeModel::Iterator(e) => ShapeModel::Iterator(Box::new(shape_from_type(*e))),
        TypeModel::Option(e) => ShapeModel::Option(Box::new(shape_from_type(*e))),
        TypeModel::Result(o, e) => ShapeModel::Result(
            Some(Box::new(shape_from_type(*o))),
            Some(Box::new(shape_from_type(*e))),
        ),
    }
}

pub open spec fn shapes_from_types(ts: Seq<TypeModel>) -> Seq<ShapeModel>
    decreases ts,
{
    if ts.len() == 0 {
        Seq::empty()
    } else {
        shapes_from_types(ts.drop_last()).push(shape_from_type(ts.last()))
    }
}

/// The scalar type name a primitive type is shown with.
pub open spec fn primitive_shape_name(tag: PrimitiveTag) -> Seq<char> {
    match tag {
        PrimitiveTag::Unit => "()"@,
        PrimitiveTag::Bool => "bool"@,
        PrimitiveTag::Char => "char"@,
        PrimitiveTag::I8 => "i8"@,
        PrimitiveTag::I16 => "i16"@,
        PrimitiveTag::I32 => "i32"@,
        PrimitiveTag::I64 => "i64"@,
        PrimitiveTag::U8 => "u8"@,
        PrimitiveTag::U16 => "u16"@,
        PrimitiveTag::U32 => "u32"@,
        PrimitiveTag::U64 => "u64"@,
        PrimitiveTag::F32 => "f32"@,
        PrimitiveTag::F64 => "f64"@,
        PrimitiveTag::String => "String"@,
        PrimitiveTag::Bytes => "Bytes"@,
    }
}

proof fn lemma_shapes_value_types_prefix(s: Seq<ShapeModel>, k: int)
    requires
        0 <= k <= s.len(),
        shapes_value_types(s) is Some,
    ensures
        shapes_value_types(s.subrange(0, k)) is Some,
    decreases s.len(),
{
    if k < s.len() {
        assert(s.drop_last() =~= s.subrange(0, s.len() - 1));
        assert(s.drop_last().subrange(0, k) =~= s.subrange(0, k));
        lemma_shapes_value_types_prefix(s.drop_last(), k);
    } else {
        assert(s.subrange(0, k) =~= s);
    }
}

/// The runtime type named by a scalar shape's type name.
pub fn scalar_shape_type_fact(n: &str) -> (r: Option<RuntimeTypeFact>)
    ensures
        opt_fact_model(r) == scalar_type_model(n@),
{
    if str_eq(n, "Unit") || str_eq(n, "()") {
        Some(RuntimeTypeFact::Primitive(PrimitiveTag::Unit))
    } else if str_eq(n, "Bool") || str_eq(n, "bool") {
        Some(RuntimeTypeFact::Primitive(PrimitiveTag::Bool))
    } else if str_eq(n, "I8") || str_eq(n, "i8") {
        Some(RuntimeTypeFact::Primitive(PrimitiveTag::I8))
    } else if str_eq(n, "I16") || str_eq(n, "i16") {
        Some(RuntimeTypeFact::Primitive(PrimitiveTag::I16))
    } else if str_eq(n, "I32") || str_eq(n, "i32") {
        Some(RuntimeTypeFact::Primitive(PrimitiveTag::I32))
    } else if str_eq(n, "I64") || str_eq(n, "i64") {
        Some(RuntimeTypeFact::Primitive(PrimitiveTag::I64))
    } else if str_eq(n, "U8") || str_eq(n, "u8") {
        Some(RuntimeTypeFact::Primitive(PrimitiveTag::U8))
    } else if str_eq(n, "U16") || str_eq(n, "u16") {
        Some(RuntimeTypeFact::Primitive(PrimitiveTag::U16))
    } else if str_eq(n, "U32") || str_eq(n, "u32") {
        Some(RuntimeTypeFact::Primitive(PrimitiveTag::U32))
    } else if str_eq(n, "U64") || str_eq(n, "u64") {
        Some(RuntimeTypeFact::Primitive(PrimitiveTag::U64))
    } else if str_eq(n, "F32") || str_eq(n, "f32") {
        Some(RuntimeTypeFact::Primitive(PrimitiveTag::F32))
    } else if str_eq(n, "F64") || str_eq(n, "f64") {
        Some(RuntimeTypeFact::Primitive(PrimitiveTag::F64))
    } else if str_eq(n, "String") {
        Some(RuntimeTypeFact::Primitive(PrimitiveTag::String))
    } else if str_eq(n, "Bytes") {
        Some(RuntimeTypeFact::Primitive(PrimitiveTag::Bytes))
    } else if str_eq(n, "Range") {
        Some(RuntimeTypeFact::Standard(StandardRuntimeType::Range))
    } else if str_eq(n, "Function") {
        Some(RuntimeTypeFact::Standard(StandardRuntimeType::Function))
    } else if str_eq(n, "Closure") {
        Some(RuntimeTypeFact::Standard(StandardRuntimeType::Closure))
    } else if str_eq(n, "Iterator") {
        Some(RuntimeTypeFact::Standard(StandardRuntimeType::Iterator))
    } else {
        None
    }
}

fn primitive_shape_string(tag: PrimitiveTag) -> (r: String)
    ensures
        r@ == primitive_shape_name(tag),
{
    match tag {
        PrimitiveTag::Unit => String::from_str("()"),
        PrimitiveTag::Bool => String::from_str("bool"),
        PrimitiveTag::Char => String::from_str("char"),
        PrimitiveTag::I8 => String::from_str("i8"),
        PrimitiveTag::I16 => String::from_str("i16"),
        PrimitiveTag::I32 => String::from_str("i32"),
        PrimitiveTag::I64 => String::from_str("i64"),
        PrimitiveTag::U8 => String::from_str("u8"),
        PrimitiveTag::U16 => String::from_str("u16"),
        PrimitiveTag::U32 => String::from_str("u32"),
        PrimitiveTag::U64 => String::from_str("u64"),
        PrimitiveTag::F32 => String::from_str("f32"),
        PrimitiveTag::F64 => String::from_str("f64"),
        PrimitiveTag::String => String::from_str("String"),
        PrimitiveTag::Bytes => String::from_str("Bytes"),
    }
}

impl ValueShape {
    /// The shape of a value of the given runtime type.
    pub fn from_runtime_type(fact: RuntimeTypeFact) -> (r: Self)
        ensures
            r@ == shape_from_type(fact@),
    {
        Self::from_runtime_type_ref(&fact)
    }

    fn from_runtime_type_ref(fact: &RuntimeTypeFact) -> (r: Self)
        ensures
            r@ == shape_from_type(fact@),
        decreases fact,
    {
        match fact {
            RuntimeTypeFact::Primitive(tag) => {
                let r = ValueShape::Scalar(primitive_shape_string(*tag));
                assert(fact@ == TypeModel::Primitive(*tag));
                assert(shape_from_type(TypeModel::Primitive(*tag)) == ShapeModel::Scalar(primitive_shape_name(*tag)));
                assert(r@ == ShapeModel::Scalar(primitive_shape_name(*tag)));
                r
            },
            RuntimeTypeFact::Standard(kind) => { let r = match kind {
                StandardRuntimeType::Array => ValueShape::Array(Box::new(ValueShape::Unknown)),
                StandardRuntimeType::MapType => ValueShape::MapType {
                    key: Box::new(ValueShape::Unknown),
                    value: Box::new(ValueShape::Unknown),
                },
                StandardRuntimeType::SetType => ValueShape::SetType(Box::new(ValueShape::Unknown)),
                StandardRuntimeType::Range => ValueShape::Scalar(String::from_str("Range")),
                StandardRuntimeType::Function => ValueShape::Scalar(String::from_str("Function")),
                StandardRuntimeType::Closure => ValueShape::Scalar(String::from_str("Closure")),
                StandardRuntimeType::Iterator => ValueShape::Iterator(
                    Box::new(ValueShape::Unknown),
                ),
                StandardRuntimeType::Option => ValueShape::Option(Box::new(ValueShape::Unknown)),
                StandardRuntimeType::Result => ValueShape::Result { ok: None, err: None },
            }; assert(r@ == shape_from_type(fact@)); r },
            RuntimeTypeFact::Array(e) => {
                let inner = Self::from_runtime_type_ref(e);
                assert(inner@ == shape_from_type(fact_model(**e)));
                assert(fact@ == TypeModel::Array(Box::new(fact_model(**e))));
                let r = ValueShape::Array(Box::new(inner));
                assert(r@ == ShapeModel::Array(Box::new(inner@)));
                r
            },
            RuntimeTypeFact::MapType { key, value } => ValueShape::MapType {
                key: Box::new(Self::from_runtime_type_ref(key)),
                value: Box::new(Self::from_runtime_type_ref(value)),
            },
            RuntimeTypeFact::SetType(e) => ValueShape::SetType(
                Box::new(Self::from_runtime_type_ref(e)),
            ),
            RuntimeTypeFact::Tuple(elements) => {
                let mut out: Vec<ValueShape> = Vec::new();
                let mut i: usize = 0;
                proof {
                    crate::value_types::lemma_facts_model_len(elements@);
                }
                while i < elements.len()
                    invariant
                        *fact == RuntimeTypeFact::Tuple(*elements),
                        i <= elements.len(),
                        facts_model(elements@).len() == elements@.len(),
                        shapes_model(out@) == shapes_from_types(
                            facts_model(elements@).subrange(0, i as int),
                        ),
                    decreases elements.len() - i,
                {
                    proof {
                        assert(decreases_to!(*fact => (*fact)->Tuple_0));
                        assert(decreases_to!(*elements => elements@));
                        assert(decreases_to!(elements@ => elements@[i as int]));
                    }
                    let s = Self::from_runtime_type_ref(&elements[i]);
                    proof {
                        let ts = facts_model(elements@);
                        crate::value_types::lemma_facts_model_index(elements@, i as int);
                        lemma_shapes_model_push(out@, s);
                        assert(ts.subrange(0, i + 1).drop_last() =~= ts.subrange(0, i as int));
                    }
                    out.push(s);
                    i = i + 1;
                }
                proof {
                    assert(facts_model(elements@).subrange(0, elements.len() as int) =~= facts_model(
                        elements@,
                    ));
                }
                let r = ValueShape::Tuple(out);
                assert(r@ == shape_from_type(fact@));
                r
            },
            RuntimeTypeFact::Iterator(e) => ValueShape::Iterator(
                Box::new(Self::from_runtime_type_ref(e)),
            ),
            RuntimeTypeFact::Option(e) => ValueShape::Option(
                Box::new(Self::from_runtime_type_ref(e)),
            ),
            RuntimeTypeFact::Result { ok, err } => ValueShape::Result {
                ok: Some(Box::new(Self::from_runtime_type_ref(ok))),
                err: Some(Box::new(Self::from_runtime_type_ref(err))),
            },
        }
    }

    /// The runtime type this shape proves, if it proves one.
    pub fn value_type(&self) -> (r: Option<RuntimeTypeFact>)
        ensures
            opt_fact_model(r) == shape_value_type(self@),
        decreases self,
    {
        match self {
            ValueShape::Unknown => None,
            ValueShape::Scalar(n) => scalar_shape_type_fact(n.as_str()),
            ValueShape::Record(_) => None,
            ValueShape::Array(e) => match e.value_type() {
                Some(t) => Some(RuntimeTypeFact::array(t)),
                None => Some(RuntimeTypeFact::standard(StandardRuntimeType::Array)),
            },
            ValueShape::Iterator(e) => match e.value_type() {
                Some(t) => Some(RuntimeTypeFact::iterator(t)),
                None => Some(RuntimeTypeFact::standard(StandardRuntimeType::Iterator)),
            },
            ValueShape::MapType { key, value } => match (key.value_type(), value.value_type()) {
                (Some(k), Some(v)) => Some(RuntimeTypeFact::map(k, v)),
                _ => Some(RuntimeTypeFact::standard(StandardRuntimeType::MapType)),
            },
            ValueShape::SetType(e) => match e.value_type() {
                Some(t) => Some(RuntimeTypeFact::set(t)),
                None => Some(RuntimeTypeFact::standard(StandardRuntimeType::SetType)),
            },
            ValueShape::Tuple(elements) => {
                let mut out: Vec<RuntimeTypeFact> = Vec::new();
                let mut i: usize = 0;
                proof {
                    lemma_shapes_model_len(elements@);
                    assert(shapes_model(elements@).subrange(0, 0) =~= Seq::<ShapeModel>::empty());
                }
                while i < elements.len()
                    invariant
                        *self == ValueShape::Tuple(*elements),
                        i <= elements.len(),
                        shapes_model(elements@).len() == elements@.len(),
                        shapes_value_types(shapes_model(elements@).subrange(0, i as int)) == Some(
                            facts_model(out@),
                        ),
                    decreases elements.len() - i,
                {
                    proof {
                        assert(decreases_to!(*self => (*self)->Tuple_0));
                        assert(decreases_to!(*elements => elements@));
                        assert(decreases_to!(elements@ => elements@[i as int]));
                    }
                    let t = elements[i].value_type();
                    let ghost ms = shapes_model(elements@);
                    proof {
                        lemma_shapes_model_index(elements@, i as int);
                        assert(ms.subrange(0, i + 1).drop_last() =~= ms.subrange(0, i as int));
                        assert(ms.subrange(0, i + 1).last() == ms[i as int]);
                    }
                    match t {
                        Some(t) => {
                            proof {
                                crate::value_types::lemma_facts_model_push(out@, t);
                            }
                            out.push(t);
                        },
                        None => {
                            proof {
                                if shapes_value_types(ms) is Some {
                                    lemma_shapes_value_types_prefix(ms, i + 1);
                                }
                            }
                            return None;
                        },
                    }
                    i = i + 1;
                }
                proof {
                    assert(shapes_model(elements@).subrange(0, elements.len() as int)
                        =~= shapes_model(elements@));
                }
                let r = Some(RuntimeTypeFact::tuple(out));
                assert(opt_fact_model(r) == shape_value_type(self@));
                r
            },
            ValueShape::Option(e) => match e.value_type() {
                Some(t) => Some(RuntimeTypeFact::Option(Box::new(t))),
                None => Some(RuntimeTypeFact::standard(StandardRuntimeType::Option)),
            },
            ValueShape::Result { ok, err } => {
                let o = match ok {
                    Some(o) => o.value_type(),
                    None => None,
                };
                let e = match err {
                    Some(e) => e.value_type(),
                    None => None,
                };
                assert(opt_fact_model(o) == opt_box_value_type(match ok {
                    Some(o) => Some(Box::new(shape_model(**o))),
                    None => None,
                }));
                assert(opt_fact_model(e) == opt_box_value_type(match err {
                    Some(e) => Some(Box::new(shape_model(**e))),
                    None => None,
                }));
                match (o, e) {
                    (Some(o), Some(e)) => Some(
                        RuntimeTypeFact::Result { ok: Box::new(o), err: Box::new(e) },
                    ),
                    _ => Some(RuntimeTypeFact::standard(StandardRuntimeType::Result)),
                }
            },
        }
    }

    /// A deep copy with the same model.
    pub fn duplicate(&self) -> (r: Self)
        ensures
            r@ == self@,
        decreases self,
    {
        match self {
            ValueShape::Unknown => ValueShape::Unknown,
            ValueShape::Scalar(n) => ValueShape::Scalar(n.clone()),
            ValueShape::Record(r) => ValueShape::Record(r.duplicate()),
            ValueShape::Array(e) => ValueShape::Array(Box::new(e.duplicate())),
            ValueShape::Iterator(e) => ValueShape::Iterator(Box::new(e.duplicate())),
            ValueShape::MapType { key, value } => ValueShape::MapType {
                key: Box::new(key.duplicate()),
                value: Box::new(value.duplicate()),
            },
            ValueShape::SetType(e) => ValueShape::SetType(Box::new(e.duplicate())),
            ValueShape::Tuple(elements) => {
                let mut out: Vec<ValueShape> = Vec::new();
                let mut i: usize = 0;
                while i < elements.len()
                    invariant
                        *self == ValueShape::Tuple(*elements),
                        i <= elements.len(),
                        out@.len() == i,
                        forall|k: int| 0 <= k < i ==> shape_model(#[trigger] out@[k]) == shape_model(elements@[k]),
                    decreases elements.len() - i,
                {
                    proof {
                        assert(decreases_to!(*self => (*self)->Tuple_0));
                        assert(decreases_to!(*elements => elements@));
                        assert(decreases_to!(elements@ => elements@[i as int]));
                    }
                    out.push(elements[i].duplicate());
                    i = i + 1;
                }
                proof {
                    lemma_shapes_model_congruent(out@, elements@);
                }
                ValueShape::Tuple(out)
            },
            ValueShape::Option(e) => ValueShape::Option(Box::new(e.duplicate())),
            ValueShape::Result { ok, err } => ValueShape::Result {
                ok: match ok {
                    Some(o) => Some(Box::new(o.duplicate())),
                    None => None,
                },
                err: match err {
                    Some(e) => Some(Box::new(e.duplicate())),
                    None => None,
                },
            },
        }
    }

    /// Whether two shapes have the same model.
    pub fn same_as(&self, other: &Self) -> (r: bool)
        ensures
            r == (self@ == other@),
        decreases self,
    {
        match (self, other) {
            (ValueShape::Unknown, ValueShape::Unknown) => true,
            (ValueShape::Scalar(a), ValueShape::Scalar(b)) => str_eq(a.as_str(), b.as_str()),
            (ValueShape::Record(a), ValueShape::Record(b)) => a.same_as(b),
            (ValueShape::Array(a), ValueShape::Array(b)) => a.same_as(b),
            (ValueShape::Iterator(a), ValueShape::Iterator(b)) => a.same_as(b),
            (ValueShape::MapType { key: k1, value: v1 }, ValueShape::MapType { key: k2, value: v2 }) => {
                k1.same_as(k2) && v1.same_as(v2)
            },
            (ValueShape::SetType(a), ValueShape::SetType(b)) => a.same_as(b),
            (ValueShape::Tuple(a), ValueShape::Tuple(b)) => {
                proof {
                    lemma_shapes_model_len(a@);
                    lemma_shapes_model_len(b@);
                }
                if a.len() != b.len() {
                    return false;
                }
                let mut i: usize = 0;
                while i < a.len()
                    invariant
                        *self == ValueShape::Tuple(*a),
                        *other == ValueShape::Tuple(*b),
                        a.len() == b.len(),
                        shapes_model(a@).len() == a@.len(),
                        shapes_model(b@).len() == b@.len(),
                        i <= a.len(),
                        forall|k: int| 0 <= k < i ==> shape_model(#[trigger] a@[k]) == shape_model(b@[k]),
                    decreases a.len() - i,
                {
                    proof {
                        assert(decreases_to!(*self => (*self)->Tuple_0));
                        assert(decreases_to!(*a => a@));
                        assert(decreases_to!(a@ => a@[i as int]));
                    }
                    if !a[i].same_as(&b[i]) {
                        proof {
                            lemma_shapes_model_index(a@, i as int);
                            lemma_shapes_model_index(b@, i as int);
                            if self@ == other@ {
                                assert(shapes_model(a@) == shapes_model(b@));
                                assert(shapes_model(a@)[i as int] == shapes_model(b@)[i as int]);
                            }
                        }
                        return false;
                    }
                    i = i + 1;
                }
                proof {
                    lemma_shapes_model_congruent(a@, b@);
                }
                true
            },
            (ValueShape::Option(a), ValueShape::Option(b)) => a.same_as(b),
            (ValueShape::Result { ok: o1, err: e1 }, ValueShape::Result { ok: o2, err: e2 }) => {
                let same_ok = match (o1, o2) {
                    (Some(a), Some(b)) => a.same_as(b),
                    (None, None) => true,
                    _ => false,
                };
                let same_err = match (e1, e2) {
                    (Some(a), Some(b)) => a.same_as(b),
                    (None, None) => true,
                    _ => false,
                };
                same_ok && same_err
            },
            _ => false,
        }
    }

    /// The record this shape describes, if it describes one.
    pub fn as_record(&self) -> (r: Option<&RecordShape>)
        ensures
            match r {
                Some(rec) => self@ == ShapeModel::Record(rec@),
                None => !(self@ is Record),
            },
    {
        match self {
            ValueShape::Record(shape) => Some(shape),
            _ => None,
        }
    }
}

/// The shape inside a boxed optional shape.
pub open spec fn opt_box_model(o: Option<Box<ShapeModel>>) -> Option<ShapeModel> {
    match o {
        Some(b) => Some(*b),
        None => None,
    }
}

/// The models of a list of optional shapes.
pub open spec fn opt_shapes_model(v: Seq<Option<ValueShape>>) -> Seq<Option<ShapeModel>> {
    Seq::new(v.len(), |i: int| opt_shape_model(v[i]))
}

/// The shape shared by every element of a non-empty list.
pub open spec fn common_shape_model(shapes: Seq<ShapeModel>) -> Option<ShapeModel> {
    if shapes.len() == 0 {
        None
    } else if forall|i: int| 0 <= i < shapes.len() ==> #[trigger] shapes[i] == shapes.last() {
        Some(shapes.last())
    } else {
        None
    }
}

/// The shapes a callback passed to `method` on `receiver` receives as parameters.
pub open spec fn callback_params_model(
    receiver: ShapeModel,
    method: Seq<char>,
    param_count: int,
) -> Option<Seq<Option<ShapeModel>>> {
    match receiver {
        ShapeModel::Array(e) => Some(seq![Some(*e)]),
        ShapeModel::SetType(e) => Some(seq![Some(*e)]),
        ShapeModel::MapType(k, v) => if param_count <= 1 {
            Some(seq![Some(*v)])
        } else {
            Some(seq![Some(*k), Some(*v)])
        },
        ShapeModel::Option(v) => if method == "or_else"@ {
            Some(Seq::empty())
        } else {
            Some(seq![Some(*v)])
        },
        ShapeModel::Result(ok, err) => if method == "map"@ || method == "and_then"@ {
            Some(seq![opt_box_model(ok)])
        } else if method == "map_err"@ {
            Some(seq![opt_box_model(err)])
        } else {
            None
        },
        _ => None,
    }
}

impl ValueShape {
    /// The element shape of an array shape.
    pub fn array_element(&self) -> (r: Option<&ValueShape>)
        ensures
            match r {
                Some(e) => self@ == ShapeModel::Array(Box::new(e@)),
                None => !(self@ is Array),
            },
    {
        match self {
            ValueShape::Array(element) => Some(&**element),
            _ => None,
        }
    }

    /// The record shape of an array's elements, when they are records.
    pub fn array_element_record(&self) -> (r: Option<&RecordShape>)
        ensures
            match r {
                Some(rec) => self@ == ShapeModel::Array(Box::new(ShapeModel::Record(rec@))),
                None => !(self@ matches ShapeModel::Array(e) && *e is Record),
            },
    {
        match self.array_element() {
            Some(e) => e.as_record(),
            None => None,
        }
    }

    /// The item shape of an iterator shape.
    pub fn iterator_item(&self) -> (r: Option<&ValueShape>)
        ensures
            match r {
                Some(e) => self@ == ShapeModel::Iterator(Box::new(e@)),
                None => !(self@ is Iterator),
            },
    {
        match self {
            ValueShape::Iterator(item) => Some(&**item),
            _ => None,
        }
    }

    /// The key and value shapes of a map shape.
    pub fn map_parts(&self) -> (r: Option<(&ValueShape, &ValueShape)>)
        ensures
            match r {
                Some((k, v)) => self@ == ShapeModel::MapType(Box::new(k@), Box::new(v@)),
                None => !(self@ is MapType),
            },
    {
        match self {
            ValueShape::MapType { key, value } => Some((&**key, &**value)),
            _ => None,
        }
    }

    /// The record a map yields for each entry: a `MapEntry` with a `key` field
    /// in slot 0 and a `value` field in slot 1.
    pub fn map_entry(key: ValueShape, value: ValueShape) -> (r: Self)
        ensures
            r@ == ShapeModel::Record(
                RecordModel {
                    record_type: Some("MapEntry"@),
                    fields: seq![
                        FieldModel { name: "key"@, slot: 0, value: Some(key@) },
                        FieldModel { name: "value"@, slot: 1, value: Some(value@) },
                    ],
                },
            ),
    {
        let key_type = key.value_type();
        let value_type = value.value_type();
        let ghost key_model = key@;
        let ghost value_model = value@;
        let mut fields: Vec<(String, RecordFieldShape)> = Vec::new();
        fields.push((String::from_str("key"), RecordFieldShape { slot: 0, value_type: key_type, value: Some(key) }));
        fields.push(
            (String::from_str("value"), RecordFieldShape { slot: 1, value_type: value_type, value: Some(value) }),
        );
        proof {
            reveal_strlit("key");
            reveal_strlit("value");
            reveal_strlit("MapEntry");
            assert(name_lt(fields@[0].0@, fields@[1].0@)) by {
                assert(fields@[0].0@[0] == 'k');
                assert(fields@[1].0@[0] == 'v');
            }
        }
        let record = RecordShape { record_type: Some(String::from_str("MapEntry")), fields };
        proof {
            record.lemma_model_wf();
            assert(record@.fields =~= seq![
                FieldModel { name: "key"@, slot: 0, value: Some(key_model) },
                FieldModel { name: "value"@, slot: 1, value: Some(value_model) },
            ]);
        }
        ValueShape::Record(record)
    }
}

/// The shape every element of `shapes` has, when they all have the same one.
pub fn common_shape(shapes: Vec<ValueShape>) -> (r: Option<ValueShape>)
    ensures
        opt_shape_model(r) == common_shape_model(shapes_model(shapes@)),
{
    let ghost models = shapes_model(shapes@);
    proof {
        lemma_shapes_model_len(shapes@);
        assert forall|k: int| 0 <= k < shapes@.len() implies models[k] == (#[trigger] shapes@[k])@ by {
            lemma_shapes_model_index(shapes@, k);
        }
    }
    let mut rest = shapes;
    let first = match rest.pop() {
        Some(first) => first,
        None => return None,
    };
    let mut i: usize = 0;
    while i < rest.len()
        invariant
            models == shapes_model(shapes@),
            models.len() == rest@.len() + 1,
            forall|k: int| 0 <= k < rest@.len() ==> models[k] == (#[trigger] rest@[k])@,
            models.last() == first@,
            i <= rest.len(),
            forall|k: int| 0 <= k < i ==> #[trigger] models[k] == models.last(),
        decreases rest.len() - i,
    {
        if !rest[i].same_as(&first) {
            proof {
                assert(models[i as int] != models.last());
                assert(!(forall|k: int| 0 <= k < models.len() ==> #[trigger] models[k] == models.last()));
            }
            return None;
        }
        i = i + 1;
    }
    proof {
        assert forall|k: int| 0 <= k < models.len() implies #[trigger] models[k] == models.last() by {
            if k < rest@.len() {
                assert(models[k] == models.last());
            }
        }
    }
    Some(first)
}

/// The parameter shapes of a callback passed to `method` on a receiver of the
/// given shape; `None` where the receiver gives no such information.
pub fn callback_param_shapes(receiver: &ValueShape, method: &str, param_count: usize) -> (r: Option<
    Vec<Option<ValueShape>>,
>)
    ensures
        match r {
            Some(v) => callback_params_model(receiver@, method@, param_count as int) == Some(
                opt_shapes_model(v@),
            ),
            None => callback_params_model(receiver@, method@, param_count as int) is None,
        },
{
    let r = match receiver {
        ValueShape::Array(element) => Some(vec![Some(element.duplicate())]),
        ValueShape::SetType(element) => Some(vec![Some(element.duplicate())]),
        ValueShape::MapType { key, value } => {
            if param_count <= 1 {
                Some(vec![Some(value.duplicate())])
            } else {
                Some(vec![Some(key.duplicate()), Some(value.duplicate())])
            }
        },
        ValueShape::Option(value) => {
            if str_eq(method, "or_else") {
                Some(Vec::new())
            } else {
                Some(vec![Some(value.duplicate())])
            }
        },
        ValueShape::Result { ok, err } => {
            if str_eq(method, "map") || str_eq(method, "and_then") {
                Some(
                    vec![
                        match ok {
                            Some(o) => Some(o.duplicate()),
                            None => None,
                        },
                    ],
                )
            } else if str_eq(method, "map_err") {
                Some(
                    vec![
                        match err {
                            Some(e) => Some(e.duplicate()),
                            None => None,
                        },
                    ],
                )
            } else {
                None
            }
        },
        _ => None,
    };
    proof {
        if r is Some {
            assert(callback_params_model(receiver@, method@, param_count as int)->0 =~= opt_shapes_model(
                r->0@,
            ));
        }
    }
    r
}

/// Whether a runtime type mentions `char` anywhere.
pub open spec fn mentions_char(t: TypeModel) -> bool
    decreases t,
{
    match t {
        TypeModel::Primitive(tag) => tag == PrimitiveTag::Char,
        TypeModel::Standard(_) => false,
        TypeModel::Array(e) => mentions_char(*e),
        TypeModel::SetType(e) => mentions_char(*e),
        TypeModel::Iterator(e) => mentions_char(*e),
        TypeModel::Option(e) => mentions_char(*e),
        TypeModel::MapType(k, v) => mentions_char(*k) || mentions_char(*v),
        TypeModel::Result(o, e) => mentions_char(*o) || mentions_char(*e),
        TypeModel::Tuple(es) => any_mentions_char(es),
    }
}

pub open spec fn any_mentions_char(ts: Seq<TypeModel>) -> bool
    decreases ts,
{
    if ts.len() == 0 {
        false
    } else {
        any_mentions_char(ts.drop_last()) || mentions_char(ts.last())
    }
}

/// The shape made from a runtime type proves that same type again, for every
/// type that does not mention `char` (the scalar name `char` names no type).
pub proof fn law_shape_from_type_round_trips(t: TypeModel)
    requires
        !mentions_char(t),
    ensures
        shape_value_type(shape_from_type(t)) == Some(t),
    decreases t,
{
    match t {
        TypeModel::Primitive(tag) => {
            lemma_primitive_round_trip(tag);
            assert(shape_value_type(shape_from_type(t)) == Some(t));
        },
        TypeModel::Standard(kind) => {
            lemma_standard_round_trip(kind);
            assert(shape_value_type(shape_from_type(t)) == Some(t));
        },
        TypeModel::Array(e) => {
            law_shape_from_type_round_trips(*e);
            assert(shape_value_type(shape_from_type(t)) == Some(t));
        },
        TypeModel::SetType(e) => {
            law_shape_from_type_round_trips(*e);
            assert(shape_value_type(shape_from_type(t)) == Some(t));
        },
        TypeModel::Iterator(e) => {
            law_shape_from_type_round_trips(*e);
            assert(shape_value_type(shape_from_type(t)) == Some(t));
        },
        TypeModel::Option(e) => {
            law_shape_from_type_round_trips(*e);
            assert(shape_value_type(shape_from_type(t)) == Some(t));
        },
        TypeModel::MapType(k, v) => {
            law_shape_from_type_round_trips(*k);
            law_shape_from_type_round_trips(*v);
            assert(shape_value_type(shape_from_type(t)) == Some(t));
        },
        TypeModel::Result(o, e) => {
            law_shape_from_type_round_trips(*o);
            law_shape_from_type_round_trips(*e);
            assert(opt_box_value_type(Some(Box::new(shape_from_type(*o)))) == Some(*o));
            assert(opt_box_value_type(Some(Box::new(shape_from_type(*e)))) == Some(*e));
        },
        TypeModel::Tuple(es) => {
            lemma_shapes_from_types_round_trip(es);
            assert(shape_value_type(shape_from_type(t)) == Some(t));
        },
    }
}

proof fn lemma_primitive_round_trip(tag: PrimitiveTag)
    requires
        tag != PrimitiveTag::Char,
    ensures
        scalar_type_model(primitive_shape_name(tag)) == Some(TypeModel::Primitive(tag)),
{
    reveal_strlit("Unit");
    reveal_strlit("()");
    reveal_strlit("Bool");
    reveal_strlit("bool");
    reveal_strlit("I8");
    reveal_strlit("i8");
    reveal_strlit("I16");
    reveal_strlit("i16");
    reveal_strlit("I32");
    reveal_strlit("i32");
    reveal_strlit("I64");
    reveal_strlit("i64");
    reveal_strlit("U8");
    reveal_strlit("u8");
    reveal_strlit("U16");
    reveal_strlit("u16");
    reveal_strlit("U32");
    reveal_strlit("u32");
    reveal_strlit("U64");
    reveal_strlit("u64");
    reveal_strlit("F32");
    reveal_strlit("f32");
    reveal_strlit("F64");
    reveal_strlit("f64");
    reveal_strlit("String");
    reveal_strlit("Bytes");
    let n = primitive_shape_name(tag);
    assert(n.len() >= 2);
    match tag {
        PrimitiveTag::Unit => {},
        PrimitiveTag::Bool => { assert(n[0] == 'b'); },
        PrimitiveTag::I8 => { assert(n[0] == 'i' && n[1] == '8'); },
        PrimitiveTag::I16 => { assert(n[0] == 'i' && n[1] == '1' && n[2] == '6'); },
        PrimitiveTag::I32 => { assert(n[0] == 'i' && n[1] == '3'); },
        PrimitiveTag::I64 => { assert(n[0] == 'i' && n[1] == '6'); },
        PrimitiveTag::U8 => { assert(n[0] == 'u' && n[1] == '8'); },
        PrimitiveTag::U16 => { assert(n[0] == 'u' && n[1] == '1'); },
        PrimitiveTag::U32 => { assert(n[0] == 'u' && n[1] == '3'); },
        PrimitiveTag::U64 => { assert(n[0] == 'u' && n[1] == '6'); },
        PrimitiveTag::F32 => { assert(n[0] == 'f' && n[1] == '3'); },
        PrimitiveTag::F64 => { assert(n[0] == 'f' && n[1] == '6'); },
        PrimitiveTag::String => { assert(n[0] == 'S'); },
        PrimitiveTag::Bytes => { assert(n[0] == 'B' && n[1] == 'y'); },
        PrimitiveTag::Char => {},
    }
}

proof fn lemma_standard_round_trip(kind: StandardRuntimeType)
    ensures
        shape_value_type(shape_from_type(TypeModel::Standard(kind))) == Some(TypeModel::Standard(kind)),
{
    reveal_strlit("Unit");
    reveal_strlit("()");
    reveal_strlit("Bool");
    reveal_strlit("bool");
    reveal_strlit("I8");
    reveal_strlit("i8");
    reveal_strlit("I16");
    reveal_strlit("i16");
    reveal_strlit("I32");
    reveal_strlit("i32");
    reveal_strlit("I64");
    reveal_strlit("i64");
    reveal_strlit("U8");
    reveal_strlit("u8");
    reveal_strlit("U16");
    reveal_strlit("u16");
    reveal_strlit("U32");
    reveal_strlit("u32");
    reveal_strlit("U64");
    reveal_strlit("u64");
    reveal_strlit("F32");
    reveal_strlit("f32");
    reveal_strlit("F64");
    reveal_strlit("f64");
    reveal_strlit("String");
    reveal_strlit("Bytes");
    reveal_strlit("Range");
    reveal_strlit("Function");
    reveal_strlit("Closure");
    assert("Unit"@[0] == 'U' && "Bool"@[0] == 'B' && "bool"@[0] == 'b' && "String"@[0] == 'S');
    assert("Bytes"@[0] == 'B' && "Range"@[0] == 'R' && "Function"@[0] == 'F' && "Closure"@[0] == 'C');
    reveal_with_fuel(shape_value_type, 2);
    let t = TypeModel::Standard(kind);
    match kind {
        StandardRuntimeType::Array => { assert(shape_value_type(shape_from_type(t)) == Some(t)); },
        StandardRuntimeType::MapType => { assert(shape_value_type(shape_from_type(t)) == Some(t)); },
        StandardRuntimeType::SetType => { assert(shape_value_type(shape_from_type(t)) == Some(t)); },
        StandardRuntimeType::Range => { assert(shape_value_type(shape_from_type(t)) == Some(t)); },
        StandardRuntimeType::Function => {
            assert("Function"@.len() == 8);
            assert("Function"@ != "F32"@ && "Function"@ != "f32"@ && "Function"@ != "F64"@ && "Function"@ != "f64"@);
            assert("Function"@ != "Range"@);
            assert(shape_value_type(shape_from_type(t)) == Some(t));
        },
        StandardRuntimeType::Closure => { assert(shape_value_type(shape_from_type(t)) == Some(t)); },
        StandardRuntimeType::Iterator => { assert(shape_value_type(shape_from_type(t)) == Some(t)); },
        StandardRuntimeType::Option => { assert(shape_value_type(shape_from_type(t)) == Some(t)); },
        StandardRuntimeType::Result => { assert(shape_value_type(shape_from_type(t)) == Some(t)); },
    }
}

proof fn lemma_shapes_from_types_round_trip(ts: Seq<TypeModel>)
    requires
        !any_mentions_char(ts),
    ensures
        shapes_value_types(shapes_from_types(ts)) == Some(ts),
    decreases ts,
{
    if ts.len() > 0 {
        lemma_shapes_from_types_round_trip(ts.drop_last());
        law_shape_from_type_round_trips(ts.last());
        let ss = shapes_from_types(ts);
        assert(ss.drop_last() =~= shapes_from_types(ts.drop_last()));
        assert(ts.drop_last().push(ts.last()) =~= ts);
    } else {
        assert(shapes_from_types(ts) =~= Seq::<ShapeModel>::empty());
        assert(ts =~= Seq::<TypeModel>::empty());
    }
}

/// The names of a record's fields, in slot order.
pub open spec fn field_names(m: RecordModel) -> Seq<Seq<char>> {
    Seq::new(m.fields.len(), |i: int| m.fields[i].name)
}

pub open spec fn names_strictly_sorted(a: Seq<Seq<char>>) -> bool {
    forall|i: int, j: int| 0 <= i < j < a.len() ==> name_lt(#[trigger] a[i], #[trigger] a[j])
}

proof fn lemma_sorted_heads_equal(a: Seq<Seq<char>>, b: Seq<Seq<char>>)
    requires
        names_strictly_sorted(a),
        names_strictly_sorted(b),
        a.len() > 0,
        b.len() > 0,
        b.contains(a[0]),
        a.contains(b[0]),
    ensures
        a[0] == b[0],
{
    let j0 = choose|j: int| 0 <= j < b.len() && b[j] == a[0];
    let i0 = choose|i: int| 0 <= i < a.len() && a[i] == b[0];
    if a[0] != b[0] {
        assert(j0 > 0 && i0 > 0);
        assert(name_lt(b[0], b[j0]));
        assert(name_lt(a[0], a[i0]));
        crate::text::lemma_seq_lt_asymmetric(a[0], b[0]);
    }
}

pub proof fn lemma_sorted_same_elements(a: Seq<Seq<char>>, b: Seq<Seq<char>>)
    requires
        names_strictly_sorted(a),
        names_strictly_sorted(b),
        forall|i: int| 0 <= i < a.len() ==> b.contains(#[trigger] a[i]),
        forall|j: int| 0 <= j < b.len() ==> a.contains(#[trigger] b[j]),
    ensures
        a == b,
    decreases a.len(),
{
    if a.len() == 0 || b.len() == 0 {
        if b.len() > 0 {
            assert(a.contains(b[0]));
        }
        if a.len() > 0 {
            assert(b.contains(a[0]));
        }
        assert(a =~= b);
    } else {
        assert(b.contains(a[0]));
        assert(a.contains(b[0]));
        lemma_sorted_heads_equal(a, b);
        let a1 = a.drop_first();
        let b1 = b.drop_first();
        assert forall|i: int| 0 <= i < a1.len() implies b1.contains(#[trigger] a1[i]) by {
            assert(a1[i] == a[i + 1]);
            assert(b.contains(a[i + 1]));
            let j = choose|j: int| 0 <= j < b.len() && b[j] == a[i + 1];
            assert(name_lt(a[0], a[i + 1]));
            if j == 0 {
                crate::text::lemma_seq_lt_irreflexive(a[0]);
            }
            assert(b1[j - 1] == a1[i]);
        }
        assert forall|j: int| 0 <= j < b1.len() implies a1.contains(#[trigger] b1[j]) by {
            assert(b1[j] == b[j + 1]);
            assert(a.contains(b[j + 1]));
            let i = choose|i: int| 0 <= i < a.len() && a[i] == b[j + 1];
            assert(name_lt(b[0], b[j + 1]));
            if i == 0 {
                crate::text::lemma_seq_lt_irreflexive(b[0]);
            }
            assert(a1[i - 1] == b1[j]);
        }
        assert(names_strictly_sorted(a1)) by {
            assert forall|i: int, j: int| 0 <= i < j < a1.len() implies name_lt(#[trigger] a1[i], #[trigger] a1[j]) by {
                assert(name_lt(a[i + 1], a[j + 1]));
            }
        }
        assert(names_strictly_sorted(b1)) by {
            assert forall|i: int, j: int| 0 <= i < j < b1.len() implies name_lt(#[trigger] b1[i], #[trigger] b1[j]) by {
                assert(name_lt(b[i + 1], b[j + 1]));
            }
        }
        lemma_sorted_same_elements(a1, b1);
        assert(a =~= b) by {
            assert forall|i: int| 0 <= i < a.len() implies a[i] == b[i] by {
                if i > 0 {
                    assert(a[i] == a1[i - 1]);
                    assert(b[i] == b1[i - 1]);
                }
            }
        }
    }
}

/// A record is determined by the pairs it is built from: two records built
/// from the same type name and pairs are equal.
pub proof fn law_record_built_from_unique(
    m1: RecordModel,
    m2: RecordModel,
    record_type: Option<Seq<char>>,
    pairs: Seq<(Seq<char>, ShapeModel)>,
)
    requires
        record_built_from(m1, record_type, pairs),
        record_built_from(m2, record_type, pairs),
    ensures
        m1 == m2,
{
    let a = field_names(m1);
    let b = field_names(m2);
    assert forall|i: int| 0 <= i < a.len() implies b.contains(#[trigger] a[i]) by {
        assert(names_in(pairs, m1.fields[i].name));
        let k = choose|k: int| 0 <= k < pairs.len() && (#[trigger] pairs[k]).0 == m1.fields[i].name;
        assert(has_field(m2, pairs[k].0));
        let j = choose|j: int| 0 <= j < m2.fields.len() && (#[trigger] m2.fields[j]).name == pairs[k].0;
        assert(b[j] == a[i]);
    }
    assert forall|j: int| 0 <= j < b.len() implies a.contains(#[trigger] b[j]) by {
        assert(names_in(pairs, m2.fields[j].name));
        let k = choose|k: int| 0 <= k < pairs.len() && (#[trigger] pairs[k]).0 == m2.fields[j].name;
        assert(has_field(m1, pairs[k].0));
        let i = choose|i: int| 0 <= i < m1.fields.len() && (#[trigger] m1.fields[i]).name == pairs[k].0;
        assert(a[i] == b[j]);
    }
    assert(names_strictly_sorted(a)) by {
        assert forall|i: int, j: int| 0 <= i < j < a.len() implies name_lt(#[trigger] a[i], #[trigger] a[j]) by {
            assert(name_lt(m1.fields[i].name, m1.fields[j].name));
        }
    }
    assert(names_strictly_sorted(b)) by {
        assert forall|i: int, j: int| 0 <= i < j < b.len() implies name_lt(#[trigger] b[i], #[trigger] b[j]) by {
            assert(name_lt(m2.fields[i].name, m2.fields[j].name));
        }
    }
    lemma_sorted_same_elements(a, b);
    assert forall|i: int| 0 <= i < m1.fields.len() implies m1.fields[i] == m2.fields[i] by {
        assert(a[i] == b[i]);
        assert(m1.fields[i].slot == i);
        assert(m2.fields[i].slot == i);
    }
    assert(m1.fields =~= m2.fields);
}

/// The record built from a type name and `(name, shape)` pairs.
pub open spec fn built_record(record_type: Option<Seq<char>>, pairs: Seq<(Seq<char>, ShapeModel)>) -> RecordModel {
    choose|m: RecordModel| record_built_from(m, record_type, pairs)
}

pub proof fn lemma_built_record(
    m: RecordModel,
    record_type: Option<Seq<char>>,
    pairs: Seq<(Seq<char>, ShapeModel)>,
)
    requires
        record_built_from(m, record_type, pairs),
    ensures
        built_record(record_type, pairs) == m,
{
    law_record_built_from_unique(built_record(record_type, pairs), m, record_type, pairs);
}

} // verus!
