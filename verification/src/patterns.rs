use vstd::prelude::*;

use crate::record_shapes::{opt_fact_model, opt_shape_model, shape_from_type, shape_value_type, ShapeModel, ValueShape};
use crate::script_types::{opt_fact_view, string_views, ScriptFactModel, ScriptTypeFact};
use crate::value_types::{RuntimeTypeFact, TypeModel};

verus! {

/// The parts of a path joined with `::`.
pub open spec fn join_path(parts: Seq<Seq<char>>) -> Seq<char>
    decreases parts.len(),
{
    if parts.len() == 0 {
        Seq::empty()
    } else if parts.len() == 1 {
        parts[0]
    } else {
        join_path(parts.drop_last()) + "::"@ + parts.last()
    }
}

/// The first `count` parts of a path joined with `::`.
pub fn join_with_colons(parts: &[String], count: usize) -> (r: String)
    requires
        count <= parts@.len(),
    ensures
        r@ == join_path(string_views(parts@).subrange(0, count as int)),
{
    let ghost views = string_views(parts@);
    if count == 0 {
        return String::new();
    }
    let mut out = parts[0].clone();
    let mut i: usize = 1;
    proof {
        assert(views.subrange(0, 1).len() == 1);
        assert(views.subrange(0, 1)[0] == parts@[0]@);
    }
    while i < count
        invariant
            views == string_views(parts@),
            count <= parts@.len(),
            1 <= i <= count,
            out@ == join_path(views.subrange(0, i as int)),
        decreases count - i,
    {
        proof {
            assert(views.subrange(0, i + 1).drop_last() =~= views.subrange(0, i as int));
            assert(views.subrange(0, i + 1).last() == parts@[i as int]@);
        }
        out.append("::");
        out.append(parts[i].as_str());
        i = i + 1;
    }
    out
}

/// An enum variant path splits into the enum's path (at least one segment,
/// joined with `::`) and the variant's name.
pub open spec fn enum_variant_path_spec(path: Seq<Seq<char>>) -> Option<(Seq<char>, Seq<char>)> {
    if path.len() < 2 {
        None
    } else {
        Some((join_path(path.drop_last()), path.last()))
    }
}

/// Splits `Enum::Variant` (or `module::Enum::Variant`) into the enum's path and the variant.
pub fn enum_variant_path(path: &[String]) -> (r: Option<(String, String)>)
    ensures
        match r {
            Some((e, v)) => enum_variant_path_spec(string_views(path@)) == Some((e@, v@)),
            None => enum_variant_path_spec(string_views(path@)) is None,
        },
{
    if path.len() < 2 {
        return None;
    }
    let last = path.len() - 1;
    let enum_path = join_with_colons(path, last);
    let variant = path[last].clone();
    proof {
        assert(string_views(path@).subrange(0, last as int) =~= string_views(path@).drop_last());
    }
    Some((enum_path, variant))
}

/// The decimal digits of a number.
pub open spec fn decimal(n: nat) -> Seq<char>
    decreases n,
{
    if n < 10 {
        seq![digit_char(n)]
    } else {
        decimal(n / 10).push(digit_char(n % 10))
    }
}

pub open spec fn digit_char(d: nat) -> char {
    if d == 0 {
        '0'
    } else if d == 1 {
        '1'
    } else if d == 2 {
        '2'
    } else if d == 3 {
        '3'
    } else if d == 4 {
        '4'
    } else if d == 5 {
        '5'
    } else if d == 6 {
        '6'
    } else if d == 7 {
        '7'
    } else if d == 8 {
        '8'
    } else {
        '9'
    }
}

fn digit_str(d: usize) -> (c: &'static str)
    requires
        d < 10,
    ensures
        c@ == seq![digit_char(d as nat)],
{
    if d == 0 {
        proof { reveal_strlit("0"); }
        "0"
    } else if d == 1 {
        proof { reveal_strlit("1"); }
        "1"
    } else if d == 2 {
        proof { reveal_strlit("2"); }
        "2"
    } else if d == 3 {
        proof { reveal_strlit("3"); }
        "3"
    } else if d == 4 {
        proof { reveal_strlit("4"); }
        "4"
    } else if d == 5 {
        proof { reveal_strlit("5"); }
        "5"
    } else if d == 6 {
        proof { reveal_strlit("6"); }
        "6"
    } else if d == 7 {
        proof { reveal_strlit("7"); }
        "7"
    } else if d == 8 {
        proof { reveal_strlit("8"); }
        "8"
    } else {
        proof { reveal_strlit("9"); }
        "9"
    }
}

/// The field name of a tuple variant's field: its index in decimal.
pub fn tuple_variant_field_name(index: usize) -> (r: String)
    ensures
        r@ == decimal(index as nat),
{
    let mut digits: Vec<usize> = Vec::new();
    let mut n: usize = index;
    let ghost mut shown: Seq<char> = Seq::empty();
    while n >= 10
        invariant
            n <= index,
            forall|k: int| 0 <= k < digits@.len() ==> digits@[k] < 10,
            decimal(index as nat) == decimal(n as nat) + shown,
            shown == Seq::new(digits@.len(), |k: int| digit_char(digits@[digits@.len() - 1 - k] as nat)),
        decreases n,
    {
        let d = n % 10;
        let ghost before = digits@;
        proof {
            assert(decimal(n as nat) == decimal((n / 10) as nat).push(digit_char(d as nat)));
        }
        digits.push(d);
        proof {
            let new_shown = seq![digit_char(d as nat)] + shown;
            assert(decimal(index as nat) == decimal((n / 10) as nat) + new_shown) by {
                assert(decimal((n / 10) as nat).push(digit_char(d as nat)) + shown =~= decimal((n / 10) as nat) + new_shown);
            }
            assert(new_shown =~= Seq::new(digits@.len(), |k: int| digit_char(digits@[digits@.len() - 1 - k] as nat)));
            shown = new_shown;
        }
        n = n / 10;
    }
    let mut out = String::new();
    out.append(digit_str(n));
    proof {
        assert(decimal(n as nat) == seq![digit_char(n as nat)]);
    }
    let mut k: usize = digits.len();
    while k > 0
        invariant
            k <= digits@.len(),
            forall|t: int| 0 <= t < digits@.len() ==> digits@[t] < 10,
            decimal(index as nat) == decimal(n as nat) + shown,
            shown == Seq::new(digits@.len(), |t: int| digit_char(digits@[digits@.len() - 1 - t] as nat)),
            out@ == decimal(n as nat) + shown.subrange(0, (digits@.len() - k) as int),
        decreases k,
    {
        k = k - 1;
        let ghost before = out@;
        out.append(digit_str(digits[k]));
        proof {
            assert(shown.subrange(0, (digits@.len() - k) as int) =~= shown.subrange(
                0,
                (digits@.len() - k - 1) as int,
            ).push(digit_char(digits@[k as int] as nat)));
            assert(out@ =~= decimal(n as nat) + shown.subrange(0, (digits@.len() - k) as int));
        }
    }
    proof {
        assert(shown.subrange(0, digits@.len() as int) =~= shown);
    }
    out
}

/// What is known of a value a pattern binds.
#[derive(Debug)]
pub struct PatternBindingFacts {
    script: Option<ScriptTypeFact>,
    value_type: Option<RuntimeTypeFact>,
    value_shape: Option<ValueShape>,
}

pub struct PatternFactsModel {
    pub script: Option<ScriptFactModel>,
    pub value_type: Option<TypeModel>,
    pub value_shape: Option<ShapeModel>,
}

impl View for PatternBindingFacts {
    type V = PatternFactsModel;

    closed spec fn view(&self) -> PatternFactsModel {
        PatternFactsModel {
            script: opt_fact_view(self.script),
            value_type: opt_fact_model(self.value_type),
            value_shape: opt_shape_model(self.value_shape),
        }
    }
}

pub open spec fn opt_shape_from_type(t: Option<TypeModel>) -> Option<ShapeModel> {
    match t {
        Some(t) => Some(shape_from_type(t)),
        None => None,
    }
}

pub open spec fn opt_value_type_of(s: Option<ShapeModel>) -> Option<TypeModel> {
    match s {
        Some(s) => shape_value_type(s),
        None => None,
    }
}

/// The shape of a tuple's element at `index`, when the shape is a tuple that long.
pub open spec fn tuple_element_model(shape: Option<ShapeModel>, index: int) -> Option<ShapeModel> {
    match shape {
        Some(ShapeModel::Tuple(elements)) => if 0 <= index < elements.len() {
            Some(elements[index])
        } else {
            None
        },
        _ => None,
    }
}

impl PatternBindingFacts {
    /// Facts from a known runtime type: the shape is the type's shape.
    pub fn value(value_type: Option<RuntimeTypeFact>) -> (r: Self)
        ensures
            r@ == (PatternFactsModel {
                script: None,
                value_type: opt_fact_model(value_type),
                value_shape: opt_shape_from_type(opt_fact_model(value_type)),
            }),
    {
        let value_shape = match &value_type {
            Some(t) => Some(ValueShape::from_runtime_type(t.duplicate())),
            None => None,
        };
        PatternBindingFacts { script: None, value_type, value_shape }
    }

    /// Facts from a known shape: the runtime type is the one the shape proves.
    pub fn value_shape(value_shape: Option<ValueShape>) -> (r: Self)
        ensures
            r@ == (PatternFactsModel {
                script: None,
                value_type: opt_value_type_of(opt_shape_model(value_shape)),
                value_shape: opt_shape_model(value_shape),
            }),
    {
        let value_type = match &value_shape {
            Some(s) => s.value_type(),
            None => None,
        };
        PatternBindingFacts { script: None, value_type, value_shape }
    }

    /// The same facts with the given script type.
    pub fn with_script(self, script: Option<ScriptTypeFact>) -> (r: Self)
        ensures
            r@ == (PatternFactsModel { script: opt_fact_view(script), ..self@ }),
    {
        PatternBindingFacts { script, value_type: self.value_type, value_shape: self.value_shape }
    }

    /// The facts of the element at `index` of a tuple value.
    pub fn tuple_element(&self, index: usize) -> (r: Self)
        ensures
            r@ == (PatternFactsModel {
                script: None,
                value_type: opt_value_type_of(tuple_element_model(self@.value_shape, index as int)),
                value_shape: tuple_element_model(self@.value_shape, index as int),
            }),
    {
        let value_shape = match &self.value_shape {
            Some(ValueShape::Tuple(elements)) => {
                proof {
                    crate::record_shapes::lemma_shapes_model_len(elements@);
                }
                if index < elements.len() {
                    proof {
                        crate::record_shapes::lemma_shapes_model_index(elements@, index as int);
                    }
                    Some(elements[index].duplicate())
                } else {
                    None
                }
            },
            _ => None,
        };
        PatternBindingFacts::value_shape(value_shape)
    }
}

} // verus!
