use vstd::prelude::*;

verus! {

/// Scalar runtime types.
#[derive(Clone, Copy, Debug, PartialEq, Eq, Structural)]
pub enum PrimitiveTag {
    Unit,
    Bool,
    Char,
    I8,
    I16,
    I32,
    I64,
    U8,
    U16,
    U32,
    U64,
    F32,
    F64,
    String,
    Bytes,
}

/// Standard library runtime types known without their element types.
#[derive(Clone, Copy, Debug, PartialEq, Eq, Structural)]
pub enum StandardRuntimeType {
    Array,
    MapType,
    SetType,
    Range,
    Function,
    Closure,
    Iterator,
    Option,
    Result,
}

/// A runtime type the compiler can prove for a value.
#[derive(Debug, PartialEq, Eq)]
pub enum RuntimeTypeFact {
    Primitive(PrimitiveTag),
    Standard(StandardRuntimeType),
    Array(Box<RuntimeTypeFact>),
    MapType { key: Box<RuntimeTypeFact>, value: Box<RuntimeTypeFact> },
    SetType(Box<RuntimeTypeFact>),
    Tuple(Vec<RuntimeTypeFact>),
    Iterator(Box<RuntimeTypeFact>),
    Option(Box<RuntimeTypeFact>),
    Result { ok: Box<RuntimeTypeFact>, err: Box<RuntimeTypeFact> },
}

/// The mathematical value of a `RuntimeTypeFact`.
pub enum TypeModel {
    Primitive(PrimitiveTag),
    Standard(StandardRuntimeType),
    Array(Box<TypeModel>),
    MapType(Box<TypeModel>, Box<TypeModel>),
    SetType(Box<TypeModel>),
    Tuple(Seq<TypeModel>),
    Iterator(Box<TypeModel>),
    Option(Box<TypeModel>),
    Result(Box<TypeModel>, Box<TypeModel>),
}

pub open spec fn fact_model(f: RuntimeTypeFact) -> TypeModel
    decreases f,
{
    match f {
        RuntimeTypeFact::Primitive(t) => TypeModel::Primitive(t),
        RuntimeTypeFact::Standard(t) => TypeModel::Standard(t),
        RuntimeTypeFact::Array(e) => TypeModel::Array(Box::new(fact_model(*e))),
        RuntimeTypeFact::MapType { key, value } => TypeModel::MapType(
            Box::new(fact_model(*key)),
            Box::new(fact_model(*value)),
        ),
        RuntimeTypeFact::SetType(e) => TypeModel::SetType(Box::new(fact_model(*e))),
        RuntimeTypeFact::Tuple(v) => TypeModel::Tuple(facts_model(v@)),
        RuntimeTypeFact::Iterator(e) => TypeModel::Iterator(Box::new(fact_model(*e))),
        RuntimeTypeFact::Option(e) => TypeModel::Option(Box::new(fact_model(*e))),
        RuntimeTypeFact::Result { ok, err } => TypeModel::Result(
            Box::new(fact_model(*ok)),
            Box::new(fact_model(*err)),
        ),
    }
}

pub open spec fn facts_model(s: Seq<RuntimeTypeFact>) -> Seq<TypeModel>
    decreases s,
{
    if s.len() == 0 {
        Seq::empty()
    } else {
        seq![fact_model(s[0])] + facts_model(s.drop_first())
    }
}

impl View for RuntimeTypeFact {
    type V = TypeModel;

    open spec fn view(&self) -> TypeModel {
        fact_model(*self)
    }
}


pub proof fn lemma_facts_model_len(s: Seq<RuntimeTypeFact>)
    ensures
        facts_model(s).len() == s.len(),
    decreases s.len(),
{
    if s.len() > 0 {
        lemma_facts_model_len(s.drop_first());
    }
}

pub proof fn lemma_facts_model_index(s: Seq<RuntimeTypeFact>, i: int)
    requires
        0 <= i < s.len(),
    ensures
        facts_model(s).len() == s.len(),
        facts_model(s)[i] == fact_model(s[i]),
    decreases s.len(),
{
    lemma_facts_model_len(s);
    if i > 0 {
        lemma_facts_model_index(s.drop_first(), i - 1);
    }
}

pub proof fn lemma_facts_model_push(s: Seq<RuntimeTypeFact>, f: RuntimeTypeFact)
    ensures
        facts_model(s.push(f)) == facts_model(s).push(fact_model(f)),
    decreases s.len(),
{
    if s.len() == 0 {
        assert(s.push(f).drop_first() =~= s);
    } else {
        assert(s.push(f).drop_first() =~= s.drop_first().push(f));
        lemma_facts_model_push(s.drop_first(), f);
    }
}

impl RuntimeTypeFact {
    pub fn primitive(tag: PrimitiveTag) -> (r: Self)
        ensures
            r@ == TypeModel::Primitive(tag),
    {
        RuntimeTypeFact::Primitive(tag)
    }

    pub fn standard(kind: StandardRuntimeType) -> (r: Self)
        ensures
            r@ == TypeModel::Standard(kind),
    {
        RuntimeTypeFact::Standard(kind)
    }

    pub fn array(element: Self) -> (r: Self)
        ensures
            r@ == TypeModel::Array(Box::new(element@)),
    {
        RuntimeTypeFact::Array(Box::new(element))
    }

    pub fn iterator(item: Self) -> (r: Self)
        ensures
            r@ == TypeModel::Iterator(Box::new(item@)),
    {
        RuntimeTypeFact::Iterator(Box::new(item))
    }

    pub fn set(element: Self) -> (r: Self)
        ensures
            r@ == TypeModel::SetType(Box::new(element@)),
    {
        RuntimeTypeFact::SetType(Box::new(element))
    }

    pub fn map(key: Self, value: Self) -> (r: Self)
        ensures
            r@ == TypeModel::MapType(Box::new(key@), Box::new(value@)),
    {
        RuntimeTypeFact::MapType { key: Box::new(key), value: Box::new(value) }
    }

    pub fn tuple(elements: Vec<Self>) -> (r: Self)
        ensures
            r@ == TypeModel::Tuple(facts_model(elements@)),
    {
        RuntimeTypeFact::Tuple(elements)
    }

    /// A deep copy with the same model.
    pub fn duplicate(&self) -> (r: Self)
        ensures
            r@ == self@,
        decreases self,
    {
        match self {
            RuntimeTypeFact::Primitive(t) => RuntimeTypeFact::Primitive(*t),
            RuntimeTypeFact::Standard(t) => RuntimeTypeFact::Standard(*t),
            RuntimeTypeFact::Array(e) => RuntimeTypeFact::Array(Box::new(e.duplicate())),
            RuntimeTypeFact::MapType { key, value } => RuntimeTypeFact::MapType {
                key: Box::new(key.duplicate()),
                value: Box::new(value.duplicate()),
            },
            RuntimeTypeFact::SetType(e) => RuntimeTypeFact::SetType(Box::new(e.duplicate())),
            RuntimeTypeFact::Tuple(v) => {
                let mut out: Vec<RuntimeTypeFact> = Vec::new();
                let mut i: usize = 0;
                while i < v.len()
                    invariant
                        *self == RuntimeTypeFact::Tuple(*v),
                        i <= v.len(),
                        facts_model(out@) == facts_model(v@.subrange(0, i as int)),
                    decreases v.len() - i,
                {
                    proof {
                        assert(decreases_to!(*self => (*self)->Tuple_0));
                        assert(decreases_to!(*v => v@));
                        assert(decreases_to!(v@ => v@[i as int]));
                    }
                    let c = v[i].duplicate();
                    proof {
                        lemma_facts_model_push(out@, c);
                        lemma_facts_model_push(v@.subrange(0, i as int), v@[i as int]);
                        assert(v@.subrange(0, i as int).push(v@[i as int]) =~= v@.subrange(0, i + 1));
                    }
                    out.push(c);
                    i = i + 1;
                }
                assert(v@.subrange(0, v.len() as int) =~= v@);
                RuntimeTypeFact::Tuple(out)
            },
            RuntimeTypeFact::Iterator(e) => RuntimeTypeFact::Iterator(Box::new(e.duplicate())),
            RuntimeTypeFact::Option(e) => RuntimeTypeFact::Option(Box::new(e.duplicate())),
            RuntimeTypeFact::Result { ok, err } => RuntimeTypeFact::Result {
                ok: Box::new(ok.duplicate()),
                err: Box::new(err.duplicate()),
            },
        }
    }
}

} // verus!
