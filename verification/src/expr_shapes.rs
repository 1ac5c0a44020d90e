use vstd::prelude::*;

use crate::compiler::{local_shape_lookup, record_shape_spec, type_symbol_of, Compiler, CompilerFacts};
use crate::hir::{
    HirBinaryOp, HirBlock, HirCallArgument, HirExpr, HirLambdaBody, HirLiteral, HirMapEntry, HirRecordFieldInit,
    HirStmt,
};
use crate::hir_shapes::{common_hir_model, common_hir_shape, hir_method_shape, method_shape_model};
use crate::patterns::{enum_variant_path, enum_variant_path_spec, join_path};
use crate::patterns::join_with_colons;
use crate::record_reflection_shapes::{native_call_model, native_call_shape};
use crate::record_shapes::{
    callback_param_shapes, field_value_model, lemma_shapes_model_push, names_strictly_sorted, opt_shape_model,
    opt_shapes_model, shape_from_type, shapes_model, FieldModel, RecordModel, RecordShape, ShapeModel, ValueShape,
};
use crate::text::{lemma_seq_lt_total, lemma_seq_lt_transitive, name_lt, str_eq, str_lt};
use crate::value_types::RuntimeTypeFact;
use crate::script_types::string_views;
use crate::syntax_shapes::integer_suffix_tag_spec;
use crate::value_types::{PrimitiveTag, TypeModel};

verus! {

/// The shape of a literal's value.
pub open spec fn literal_shape_model(l: HirLiteral) -> Option<ShapeModel> {
    match l {
        HirLiteral::Bool(_) => Some(shape_from_type(TypeModel::Primitive(PrimitiveTag::Bool))),
        HirLiteral::Int(_) => Some(shape_from_type(TypeModel::Primitive(integer_suffix_tag_spec(None)))),
        HirLiteral::Str(_) => Some(shape_from_type(TypeModel::Primitive(PrimitiveTag::String))),
        HirLiteral::Invalid => None,
    }
}

/// The shape of a binary operator's value: comparisons and logic give a
/// boolean, ranges a range, arithmetic a value of unknown shape.
pub open spec fn binary_shape_model(op: HirBinaryOp) -> ShapeModel {
    match op {
        HirBinaryOp::Equal | HirBinaryOp::NotEqual | HirBinaryOp::IdentityEqual | HirBinaryOp::IdentityNotEqual
        | HirBinaryOp::Less | HirBinaryOp::LessEqual | HirBinaryOp::Greater | HirBinaryOp::GreaterEqual
        | HirBinaryOp::And | HirBinaryOp::Or => ShapeModel::Scalar("bool"@),
        HirBinaryOp::Range | HirBinaryOp::RangeInclusive => ShapeModel::Scalar("Range"@),
        HirBinaryOp::Add | HirBinaryOp::Sub | HirBinaryOp::Mul | HirBinaryOp::Div | HirBinaryOp::Rem => ShapeModel::Unknown,
    }
}

/// A binary operator's value is a range exactly for `..` and `..=`, a
/// boolean exactly for the comparisons, `&&` and `||`, and of unknown shape
/// for arithmetic; the two range operators give the same shape.
pub proof fn law_binary_shape_follows_the_operator_kind(op: HirBinaryOp)
    ensures
        binary_shape_model(op) == ShapeModel::Scalar("Range"@) <==> (op == HirBinaryOp::Range || op
            == HirBinaryOp::RangeInclusive),
        binary_shape_model(op) == ShapeModel::Scalar("bool"@) <==> (op == HirBinaryOp::Equal || op
            == HirBinaryOp::NotEqual || op == HirBinaryOp::IdentityEqual || op == HirBinaryOp::IdentityNotEqual || op
            == HirBinaryOp::Less || op == HirBinaryOp::LessEqual || op == HirBinaryOp::Greater || op
            == HirBinaryOp::GreaterEqual || op == HirBinaryOp::And || op == HirBinaryOp::Or),
        binary_shape_model(op) == ShapeModel::Unknown <==> (op == HirBinaryOp::Add || op == HirBinaryOp::Sub || op
            == HirBinaryOp::Mul || op == HirBinaryOp::Div || op == HirBinaryOp::Rem),
        binary_shape_model(HirBinaryOp::Range) == binary_shape_model(HirBinaryOp::RangeInclusive),
{
    reveal_strlit("Range");
    reveal_strlit("bool");
    assert("Range"@ != "bool"@) by {
        assert("Range"@[0] != "bool"@[0]);
    }
}

/// The type name a declaration number maps to, when it is given and mapped.
pub open spec fn declaration_symbol(facts: CompilerFacts, declaration: Option<u32>) -> Option<Seq<char>> {
    match declaration {
        Some(d) => type_symbol_of(facts.type_symbols@, d),
        None => None,
    }
}

/// `names` lists the names of the field initialisers once each, in name order.
pub open spec fn init_names_listed(fs: Seq<HirRecordFieldInit>, names: Seq<Seq<char>>) -> bool {
    &&& names_strictly_sorted(names)
    &&& forall|i: int| 0 <= i < names.len() ==> field_name_given(fs, #[trigger] names[i])
    &&& forall|k: int| 0 <= k < fs.len() ==> names.contains((#[trigger] fs[k]).name@)
}

/// Some initialiser gives the field `name`.
pub open spec fn field_name_given(fs: Seq<HirRecordFieldInit>, name: Seq<char>) -> bool {
    exists|k: int| 0 <= k < fs.len() && (#[trigger] fs[k]).name@ == name
}

/// The names of the field initialisers, once each, in name order.
pub open spec fn sorted_init_names(fs: Seq<HirRecordFieldInit>) -> Seq<Seq<char>> {
    choose|names: Seq<Seq<char>>| init_names_listed(fs, names)
}

/// The parameters of a closure paired with the shapes known for them: the
/// first `min` of both, leaving out the parameters with no known shape.
pub open spec fn lambda_env(params: Seq<String>, hints: Seq<Option<ShapeModel>>) -> Seq<(Seq<char>, ShapeModel)>
    decreases params.len(),
{
    if params.len() == 0 || hints.len() == 0 {
        Seq::empty()
    } else {
        let rest = lambda_env(params.drop_first(), hints.drop_first());
        match hints[0] {
            Some(h) => seq![(params[0]@, h)] + rest,
            None => rest,
        }
    }
}

/// The shape given to the first closure parameter called `name`.
pub open spec fn env_lookup(env: Seq<(Seq<char>, ShapeModel)>, name: Seq<char>) -> Option<ShapeModel>
    decreases env.len(),
{
    if env.len() == 0 {
        None
    } else if env[0].0 == name {
        Some(env[0].1)
    } else {
        env_lookup(env.drop_first(), name)
    }
}

/// The expression a block's value comes from, when its last statement is one.
pub open spec fn block_tail(b: HirBlock) -> Option<HirExpr> {
    if b.statements@.len() > 0 {
        match b.statements@.last() {
            HirStmt::Expr { expression: Some(e) } => Some(e),
            _ => None,
        }
    } else {
        None
    }
}

/// The shape of an expression's value, as far as it is known: literals,
/// collections and records by their parts, locals by the shape recorded
/// when they were bound, fields and elements through their container, and
/// calls of built-in methods and functions by their result.
pub open spec fn expr_shape(facts: CompilerFacts, locals: Seq<(Seq<char>, Option<ShapeModel>)>, e: HirExpr) -> Option<
    ShapeModel,
>
    decreases e, 3int,
{
    match e {
        HirExpr::Literal(l) => literal_shape_model(l),
        HirExpr::Unit => Some(ShapeModel::Scalar("()"@)),
        HirExpr::Array(elements) => Some(
            ShapeModel::Array(Box::new(common_hir_model(element_shapes(facts, locals, elements@, elements@.len() as int)))),
        ),
        HirExpr::Tuple(elements) => Some(ShapeModel::Tuple(element_shapes(facts, locals, elements@, elements@.len() as int))),
        HirExpr::MapLiteral(entries) => Some(
            ShapeModel::MapType(
                Box::new(common_hir_model(entry_shapes(facts, locals, entries@, entries@.len() as int, true))),
                Box::new(common_hir_model(entry_shapes(facts, locals, entries@, entries@.len() as int, false))),
            ),
        ),
        HirExpr::Record { path, declaration, fields } => match path {
            None => None,
            Some(p) => if enum_variant_path_spec(string_views(p@)) is Some {
                None
            } else {
                let record_name = match declaration_symbol(facts, declaration) {
                    Some(t) => Some(t),
                    None => if p@.len() > 0 {
                        Some(join_path(string_views(p@)))
                    } else {
                        None
                    },
                };
                let names = sorted_init_names(fields@);
                if fields@.len() == 0 {
                    match record_name {
                        Some(n) => match record_shape_spec(facts.script_field_slots, n, Seq::empty()) {
                            Some(r) => Some(ShapeModel::Record(r)),
                            None => None,
                        },
                        None => None,
                    }
                } else {
                    Some(
                        ShapeModel::Record(
                            RecordModel {
                                record_type: record_name,
                                fields: init_field_models(facts, locals, fields@, names, names.len() as int),
                            },
                        ),
                    )
                }
            },
        },
        HirExpr::Path(parts) => if parts@.len() == 1 {
            local_shape_lookup(locals, parts@[0]@)
        } else {
            None
        },
        HirExpr::Field { receiver, name } => match expr_shape(facts, locals, *receiver) {
            Some(ShapeModel::Record(r)) => field_value_model(r, name@),
            _ => None,
        },
        HirExpr::Index { receiver, .. } => match expr_shape(facts, locals, *receiver) {
            Some(ShapeModel::Array(element)) => Some(*element),
            Some(ShapeModel::MapType(_, value)) => Some(*value),
            _ => None,
        },
        HirExpr::Paren(Some(inner)) => expr_shape(facts, locals, *inner),
        HirExpr::Binary { op: Some(op), .. } => Some(binary_shape_model(op)),
        HirExpr::Try(Some(inner)) => match expr_shape(facts, locals, *inner) {
            Some(ShapeModel::Option(value)) => Some(*value),
            Some(ShapeModel::Result(Some(ok), _)) => Some(*ok),
            Some(ShapeModel::Result(None, _)) => Some(ShapeModel::Unknown),
            _ => None,
        },
        HirExpr::Call { .. } => call_shape(facts, locals, e),
        _ => None,
    }
}

/// The shapes of the first `n` expressions, unknown where none is known.
pub open spec fn element_shapes(
    facts: CompilerFacts,
    locals: Seq<(Seq<char>, Option<ShapeModel>)>,
    es: Seq<HirExpr>,
    n: int,
) -> Seq<ShapeModel>
    decreases es, n,
{
    if n <= 0 || n > es.len() {
        Seq::empty()
    } else {
        element_shapes(facts, locals, es, n - 1).push(
            match expr_shape(facts, locals, es[n - 1]) {
                Some(s) => s,
                None => ShapeModel::Unknown,
            },
        )
    }
}

/// The shapes of the keys (or of the values) given among the first `n` map
/// entries, unknown where none is known.
pub open spec fn entry_shapes(
    facts: CompilerFacts,
    locals: Seq<(Seq<char>, Option<ShapeModel>)>,
    entries: Seq<HirMapEntry>,
    n: int,
    keys: bool,
) -> Seq<ShapeModel>
    decreases entries, n,
{
    if n <= 0 || n > entries.len() {
        Seq::empty()
    } else {
        let rest = entry_shapes(facts, locals, entries, n - 1, keys);
        let part = if keys {
            entries[n - 1].key
        } else {
            entries[n - 1].value
        };
        match part {
            Some(x) => rest.push(
                match expr_shape(facts, locals, x) {
                    Some(s) => s,
                    None => ShapeModel::Unknown,
                },
            ),
            None => rest,
        }
    }
}

/// The shape of the value of the last initialiser of field `name` among the
/// first `k`, when it has a value of known shape.
pub open spec fn last_init_shape(
    facts: CompilerFacts,
    locals: Seq<(Seq<char>, Option<ShapeModel>)>,
    fs: Seq<HirRecordFieldInit>,
    name: Seq<char>,
    k: int,
) -> Option<ShapeModel>
    decreases fs, k,
{
    if k <= 0 || k > fs.len() {
        None
    } else if fs[k - 1].name@ == name {
        match fs[k - 1].value {
            Some(v) => expr_shape(facts, locals, v),
            None => None,
        }
    } else {
        last_init_shape(facts, locals, fs, name, k - 1)
    }
}

/// The fields of a record built from initialisers, for the first `n` of
/// its sorted field `names`: each at its rank, with its last value's shape.
pub open spec fn init_field_models(
    facts: CompilerFacts,
    locals: Seq<(Seq<char>, Option<ShapeModel>)>,
    fs: Seq<HirRecordFieldInit>,
    names: Seq<Seq<char>>,
    n: int,
) -> Seq<FieldModel>
    decreases fs, fs.len() + 1 + n,
{
    if n <= 0 || n > names.len() {
        Seq::empty()
    } else {
        init_field_models(facts, locals, fs, names, n - 1).push(
            FieldModel {
                name: names[n - 1],
                slot: (n - 1) as nat,
                value: last_init_shape(facts, locals, fs, names[n - 1], fs.len() as int),
            },
        )
    }
}

/// The shape of the value of the first argument, when it has one of known shape.
pub open spec fn first_arg_shape(
    facts: CompilerFacts,
    locals: Seq<(Seq<char>, Option<ShapeModel>)>,
    arguments: Seq<HirCallArgument>,
) -> Option<ShapeModel>
    decreases arguments, 0int,
{
    if arguments.len() > 0 {
        match arguments[0].value {
            Some(v) => expr_shape(facts, locals, v),
            None => None,
        }
    } else {
        None
    }
}

/// The shape of a call's result: a built-in method by its receiver, its
/// first argument and what a closure given first returns; `option::some`,
/// `option::none`, `result::ok`, `result::err`, `set::from_array` and the
/// `reflect` functions by their argument.
pub open spec fn call_shape(facts: CompilerFacts, locals: Seq<(Seq<char>, Option<ShapeModel>)>, e: HirExpr) -> Option<
    ShapeModel,
>
    decreases e, 2int,
{
    match e {
        HirExpr::Call { callee, arguments } => match *callee {
            HirExpr::Field { receiver, name } => match expr_shape(facts, locals, *receiver) {
                None => None,
                Some(receiver_shape) => {
                    let first = first_arg_shape(facts, locals, arguments@);
                    let callback = if arguments@.len() > 0 {
                        match arguments@[0].value {
                            Some(v) => callback_return_shape(facts, locals, receiver_shape, name@, v),
                            None => None,
                        }
                    } else {
                        None
                    };
                    method_shape_model(receiver_shape, name@, first, callback)
                },
            },
            HirExpr::Path(parts) => if parts@.len() != 2 {
                None
            } else {
                let module = parts@[0]@;
                let function = parts@[1]@;
                let first = first_arg_shape(facts, locals, arguments@);
                if module == "option"@ && function == "some"@ {
                    match first {
                        Some(f) => Some(ShapeModel::Option(Box::new(f))),
                        None => None,
                    }
                } else if module == "option"@ && function == "none"@ {
                    Some(ShapeModel::Option(Box::new(ShapeModel::Unknown)))
                } else if module == "result"@ && function == "ok"@ {
                    match first {
                        Some(f) => Some(ShapeModel::Result(Some(Box::new(f)), None)),
                        None => None,
                    }
                } else if module == "result"@ && function == "err"@ {
                    match first {
                        Some(f) => Some(ShapeModel::Result(None, Some(Box::new(f)))),
                        None => None,
                    }
                } else if module == "set"@ && function == "from_array"@ {
                    match first {
                        Some(ShapeModel::Array(element)) => Some(ShapeModel::SetType(element)),
                        _ => None,
                    }
                } else if module == "reflect"@ {
                    native_call_model(function, first)
                } else {
                    None
                }
            },
            _ => None,
        },
        _ => None,
    }
}

/// The shape of what a closure passed to `method` on a receiver of shape
/// `receiver` returns, its parameters taking the shapes the method gives them.
pub open spec fn callback_return_shape(
    facts: CompilerFacts,
    locals: Seq<(Seq<char>, Option<ShapeModel>)>,
    receiver: ShapeModel,
    method: Seq<char>,
    value: HirExpr,
) -> Option<ShapeModel>
    decreases value, 5int,
{
    match value {
        HirExpr::Lambda { params, body } => match crate::record_shapes::callback_params_model(
            receiver,
            method,
            params@.len() as int,
        ) {
            None => None,
            Some(hints) => {
                let env = lambda_env(params@, hints);
                match body {
                    HirLambdaBody::Expr(b) => shape_with_locals(facts, locals, env, *b),
                    HirLambdaBody::Block(b) => if b.statements@.len() > 0 {
                        match b.statements@.last() {
                            HirStmt::Expr { expression: Some(t) } => shape_with_locals(facts, locals, env, t),
                            _ => None,
                        }
                    } else {
                        None
                    },
                    HirLambdaBody::Empty => None,
                }
            },
        },
        _ => None,
    }
}

/// The shape of an expression inside a closure whose parameters have the
/// shapes in `env`.
pub open spec fn shape_with_locals(
    facts: CompilerFacts,
    locals: Seq<(Seq<char>, Option<ShapeModel>)>,
    env: Seq<(Seq<char>, ShapeModel)>,
    e: HirExpr,
) -> Option<ShapeModel>
    decreases e, 4int,
{
    match e {
        HirExpr::Path(parts) => if parts@.len() == 1 && env_lookup(env, parts@[0]@) is Some {
            env_lookup(env, parts@[0]@)
        } else {
            expr_shape(facts, locals, e)
        },
        HirExpr::Field { receiver, name } => match shape_with_locals(facts, locals, env, *receiver) {
            Some(ShapeModel::Record(r)) => field_value_model(r, name@),
            _ => None,
        },
        HirExpr::Paren(Some(inner)) => shape_with_locals(facts, locals, env, *inner),
        HirExpr::Call { callee, arguments } => match *callee {
            HirExpr::Field { receiver, name } => match shape_with_locals(facts, locals, env, *receiver) {
                None => None,
                Some(receiver_shape) => {
                    let first = if arguments@.len() > 0 {
                        match arguments@[0].value {
                            Some(v) => shape_with_locals(facts, locals, env, v),
                            None => None,
                        }
                    } else {
                        None
                    };
                    method_shape_model(receiver_shape, name@, first, None)
                },
            },
            _ => expr_shape(facts, locals, e),
        },
        _ => expr_shape(facts, locals, e),
    }
}


/// The shape of a literal's value.
pub fn hir_literal_shape(literal: &HirLiteral) -> (r: Option<ValueShape>)
    ensures
        opt_shape_model(r) == literal_shape_model(*literal),
{
    let tag = match literal {
        HirLiteral::Bool(_) => PrimitiveTag::Bool,
        HirLiteral::Int(_) => crate::syntax_shapes::integer_suffix_tag(None),
        HirLiteral::Str(_) => PrimitiveTag::String,
        HirLiteral::Invalid => return None,
    };
    Some(ValueShape::from_runtime_type(RuntimeTypeFact::primitive(tag)))
}

/// The names of the field initialisers, once each, in name order.
pub fn sorted_init_name_list(fields: &Vec<HirRecordFieldInit>) -> (r: Vec<String>)
    ensures
        init_names_listed(fields@, string_views(r@)),
{
    let mut names: Vec<String> = Vec::new();
    let mut k: usize = 0;
    while k < fields.len()
        invariant
            k <= fields@.len(),
            names_strictly_sorted(string_views(names@)),
            forall|i: int| 0 <= i < names@.len() ==> field_name_given(fields@, #[trigger] string_views(names@)[i]),
            forall|j: int| 0 <= j < k ==> string_views(names@).contains((#[trigger] fields@[j]).name@),
        decreases fields.len() - k,
    {
        let name = &fields[k].name;
        let ghost before = string_views(names@);
        let mut pos: usize = 0;
        let mut found = false;
        while pos < names.len()
            invariant_except_break
                !found,
            invariant
                before == string_views(names@),
                pos <= names@.len(),
                forall|t: int| 0 <= t < pos ==> name_lt(#[trigger] before[t], name@),
            ensures
                before == string_views(names@),
                pos <= names@.len(),
                forall|t: int| 0 <= t < pos ==> name_lt(#[trigger] before[t], name@),
                found ==> pos < names@.len() && before[pos as int] == name@,
                !found ==> pos == names@.len() || name_lt(name@, before[pos as int]),
            decreases names.len() - pos,
        {
            if str_eq(names[pos].as_str(), name.as_str()) {
                found = true;
                break;
            }
            if str_lt(name.as_str(), names[pos].as_str()) {
                break;
            }
            proof {
                lemma_seq_lt_total(before[pos as int], name@);
            }
            pos = pos + 1;
        }
        if found {
            proof {
                assert(before[pos as int] == fields@[k as int].name@);
                assert forall|j: int| 0 <= j < k + 1 implies before.contains((#[trigger] fields@[j]).name@) by {
                    if j == k {
                        assert(before[pos as int] == fields@[j].name@);
                    }
                }
            }
        } else {
            names.insert(pos, name.clone());
            proof {
                let after = string_views(names@);
                assert(after =~= before.insert(pos as int, name@));
                assert forall|a: int, b: int| 0 <= a < b < after.len() implies name_lt(
                    #[trigger] after[a],
                    #[trigger] after[b],
                ) by {
                    if b < pos {
                        assert(name_lt(before[a], before[b]));
                    } else if b == pos {
                        assert(name_lt(before[a], name@));
                    } else if a == pos {
                        assert(name_lt(name@, before[pos as int]));
                        if b - 1 > pos {
                            assert(name_lt(before[pos as int], before[b - 1]));
                            lemma_seq_lt_transitive(name@, before[pos as int], before[b - 1]);
                        }
                    } else if a < pos {
                        assert(name_lt(before[a], before[b - 1]));
                    } else {
                        assert(name_lt(before[a - 1], before[b - 1]));
                    }
                }
                assert forall|i: int| 0 <= i < after.len() implies field_name_given(fields@, #[trigger] after[i]) by {
                    if i < pos {
                        assert(after[i] == before[i]);
                    } else if i == pos {
                        assert(fields@[k as int].name@ == after[i]);
                    } else {
                        assert(after[i] == before[i - 1]);
                    }
                }
                assert forall|j: int| 0 <= j < k + 1 implies after.contains((#[trigger] fields@[j]).name@) by {
                    if j == k {
                        assert(after[pos as int] == name@);
                    } else {
                        let t = choose|t: int| 0 <= t < before.len() && before[t] == fields@[j].name@;
                        if t < pos {
                            assert(after[t] == before[t]);
                        } else {
                            assert(after[t + 1] == before[t]);
                        }
                    }
                }
            }
        }
        k = k + 1;
    }
    proof {
        let v = string_views(names@);
        assert(names_strictly_sorted(v));

        assert(forall|j: int| 0 <= j < fields@.len() ==> v.contains((#[trigger] fields@[j]).name@));
        assert(init_names_listed(fields@, v));
    }
    names
}


pub proof fn lemma_sorted_init_names(fs: Seq<HirRecordFieldInit>, names: Seq<Seq<char>>)
    requires
        init_names_listed(fs, names),
    ensures
        sorted_init_names(fs) == names,
{
    let other = sorted_init_names(fs);
    assert(init_names_listed(fs, other));
    assert forall|i: int| 0 <= i < names.len() implies other.contains(#[trigger] names[i]) by {
        assert(field_name_given(fs, names[i]));
        let k = choose|k: int| 0 <= k < fs.len() && (#[trigger] fs[k]).name@ == names[i];
        assert(other.contains(fs[k].name@));
    }
    assert forall|j: int| 0 <= j < other.len() implies names.contains(#[trigger] other[j]) by {
        assert(field_name_given(fs, other[j]));
        let k = choose|k: int| 0 <= k < fs.len() && (#[trigger] fs[k]).name@ == other[j];
        assert(names.contains(fs[k].name@));
    }
    crate::record_shapes::lemma_sorted_same_elements(names, other);
}

/// The model of closure parameters paired with their shapes.
pub open spec fn env_model(env: Seq<(String, ValueShape)>) -> Seq<(Seq<char>, ShapeModel)> {
    Seq::new(env.len(), |i: int| (env[i].0@, env[i].1@))
}

/// The shape given to the first closure parameter called `name`.
fn env_find<'a>(env: &'a Vec<(String, ValueShape)>, name: &str) -> (r: Option<&'a ValueShape>)
    ensures
        match r {
            Some(s) => env_lookup(env_model(env@), name@) == Some(s@),
            None => env_lookup(env_model(env@), name@) is None,
        },
{
    let ghost m = env_model(env@);
    let mut i: usize = 0;
    proof {
        assert(m.subrange(0, m.len() as int) =~= m);
    }
    while i < env.len()
        invariant
            m == env_model(env@),
            i <= env@.len(),
            env_lookup(m, name@) == env_lookup(m.subrange(i as int, m.len() as int), name@),
        decreases env.len() - i,
    {
        proof {
            let rest = m.subrange(i as int, m.len() as int);
            assert(rest.drop_first() =~= m.subrange(i + 1, m.len() as int));
            assert(rest[0] == (env@[i as int].0@, env@[i as int].1@));
        }
        if str_eq(env[i].0.as_str(), name) {
            return Some(&env[i].1);
        }
        i = i + 1;
    }
    proof {
        assert(m.subrange(m.len() as int, m.len() as int) =~= Seq::<(Seq<char>, ShapeModel)>::empty());
    }
    None
}

/// The parameters of a closure paired with the shapes known for them.
fn lambda_env_list(params: &Vec<String>, hints: &Vec<Option<ValueShape>>) -> (r: Vec<(String, ValueShape)>)
    ensures
        env_model(r@) == lambda_env(params@, opt_shapes_model(hints@)),
{
    let ghost hs = opt_shapes_model(hints@);
    let mut out: Vec<(String, ValueShape)> = Vec::new();
    let mut i: usize = 0;
    proof {
        assert(params@.subrange(0, params@.len() as int) =~= params@);
        assert(hs.subrange(0, hs.len() as int) =~= hs);
        assert(env_model(out@) =~= Seq::<(Seq<char>, ShapeModel)>::empty());
    }
    while i < params.len() && i < hints.len()
        invariant
            hs == opt_shapes_model(hints@),
            i <= params@.len(),
            i <= hints@.len(),
            env_model(out@) + lambda_env(
                params@.subrange(i as int, params@.len() as int),
                hs.subrange(i as int, hs.len() as int),
            ) == lambda_env(params@, hs),
        decreases params.len() - i,
    {
        let ghost ps = params@.subrange(i as int, params@.len() as int);
        let ghost hsub = hs.subrange(i as int, hs.len() as int);
        proof {
            assert(ps.drop_first() =~= params@.subrange(i + 1, params@.len() as int));
            assert(hsub.drop_first() =~= hs.subrange(i + 1, hs.len() as int));
            assert(hsub[0] == opt_shape_model(hints@[i as int]));
        }
        let ghost before = env_model(out@);
        match &hints[i] {
            Some(h) => {
                let entry = (params[i].clone(), h.duplicate());
                out.push(entry);
                proof {
                    assert(env_model(out@) =~= before.push((params@[i as int]@, h@)));
                    assert(before.push((params@[i as int]@, h@)) + lambda_env(
                        params@.subrange(i + 1, params@.len() as int),
                        hs.subrange(i + 1, hs.len() as int),
                    ) =~= before + (seq![(ps[0]@, h@)] + lambda_env(ps.drop_first(), hsub.drop_first())));
                }
            },
            None => {},
        }
        i = i + 1;
    }
    proof {
        let ps = params@.subrange(i as int, params@.len() as int);
        let hsub = hs.subrange(i as int, hs.len() as int);
        assert(ps.len() == 0 || hsub.len() == 0);
        assert(env_model(out@) + lambda_env(ps, hsub) =~= env_model(out@));
    }
    out
}

/// The shape of a binary operator's value.
pub fn hir_binary_shape(op: HirBinaryOp) -> (r: ValueShape)
    ensures
        r@ == binary_shape_model(op),
{
    match op {
        HirBinaryOp::Equal | HirBinaryOp::NotEqual | HirBinaryOp::IdentityEqual | HirBinaryOp::IdentityNotEqual
        | HirBinaryOp::Less | HirBinaryOp::LessEqual | HirBinaryOp::Greater | HirBinaryOp::GreaterEqual
        | HirBinaryOp::And | HirBinaryOp::Or => ValueShape::Scalar(String::from_str("bool")),
        HirBinaryOp::Range | HirBinaryOp::RangeInclusive => ValueShape::Scalar(String::from_str("Range")),
        HirBinaryOp::Add | HirBinaryOp::Sub | HirBinaryOp::Mul | HirBinaryOp::Div | HirBinaryOp::Rem => ValueShape::Unknown,
    }
}

impl Compiler {
    /// The shape of an expression's value, as far as it is known.
    pub fn value_shape_for_hir_expression(&self, e: &HirExpr) -> (r: Option<ValueShape>)
        ensures
            opt_shape_model(r) == expr_shape(self.facts_view(), self.local_shapes(), *e),
        decreases e, 3int,
    {
        match e {
            HirExpr::Literal(l) => hir_literal_shape(l),
            HirExpr::Unit => Some(ValueShape::Scalar(String::from_str("()"))),
            HirExpr::Array(elements) => {
                let shapes = self.hir_element_shapes(elements);
                Some(ValueShape::Array(Box::new(common_hir_shape(shapes))))
            },
            HirExpr::Tuple(elements) => {
                let shapes = self.hir_element_shapes(elements);
                Some(ValueShape::Tuple(shapes))
            },
            HirExpr::MapLiteral(entries) => {
                let keys = self.hir_entry_shapes(entries, true);
                let values = self.hir_entry_shapes(entries, false);
                Some(
                    ValueShape::MapType {
                        key: Box::new(common_hir_shape(keys)),
                        value: Box::new(common_hir_shape(values)),
                    },
                )
            },
            HirExpr::Record { .. } => self.hir_record_expression_shape(e),
            HirExpr::Path(parts) => if parts.len() == 1 {
                self.local_value_shape(parts[0].as_str())
            } else {
                None
            },
            HirExpr::Field { receiver, name } => match self.value_shape_for_hir_expression(receiver) {
                Some(shape) => match shape.as_record() {
                    Some(record) => match record.field_value_shape(name.as_str()) {
                        Some(v) => Some(v.duplicate()),
                        None => None,
                    },
                    None => None,
                },
                None => None,
            },
            HirExpr::Index { receiver, .. } => match self.value_shape_for_hir_expression(receiver) {
                Some(ValueShape::Array(element)) => Some(*element),
                Some(ValueShape::MapType { value, .. }) => Some(*value),
                _ => None,
            },
            HirExpr::Paren(Some(inner)) => self.value_shape_for_hir_expression(inner),
            HirExpr::Binary { op: Some(op), .. } => Some(hir_binary_shape(*op)),
            HirExpr::Try(Some(inner)) => match self.value_shape_for_hir_expression(inner) {
                Some(ValueShape::Option(value)) => Some(*value),
                Some(ValueShape::Result { ok: Some(ok), .. }) => Some(*ok),
                Some(ValueShape::Result { ok: None, .. }) => Some(ValueShape::Unknown),
                _ => None,
            },
            HirExpr::Call { .. } => self.hir_call_shape(e),
            _ => None,
        }
    }

    /// The shapes of expressions, unknown where none is known.
    fn hir_element_shapes(&self, es: &Vec<HirExpr>) -> (r: Vec<ValueShape>)
        ensures
            shapes_model(r@) == element_shapes(self.facts_view(), self.local_shapes(), es@, es@.len() as int),
        decreases es, 0int,
    {
        let mut out: Vec<ValueShape> = Vec::new();
        let mut i: usize = 0;
        while i < es.len()
            invariant
                i <= es@.len(),
                shapes_model(out@) == element_shapes(self.facts_view(), self.local_shapes(), es@, i as int),
            decreases es.len() - i,
        {
            proof {
                assert(decreases_to!(*es => es@));
                assert(decreases_to!(es@ => es@[i as int]));
            }
            let shape = match self.value_shape_for_hir_expression(&es[i]) {
                Some(s) => s,
                None => ValueShape::Unknown,
            };
            proof {
                lemma_shapes_model_push(out@, shape);
            }
            out.push(shape);
            i = i + 1;
        }
        out
    }

    /// The shapes of the keys (or of the values) given in map entries.
    fn hir_entry_shapes(&self, entries: &Vec<HirMapEntry>, keys: bool) -> (r: Vec<ValueShape>)
        ensures
            shapes_model(r@) == entry_shapes(self.facts_view(), self.local_shapes(), entries@, entries@.len() as int, keys),
        decreases entries, 0int,
    {
        let mut out: Vec<ValueShape> = Vec::new();
        let mut i: usize = 0;
        while i < entries.len()
            invariant
                i <= entries@.len(),
                shapes_model(out@) == entry_shapes(self.facts_view(), self.local_shapes(), entries@, i as int, keys),
            decreases entries.len() - i,
        {
            proof {
                assert(decreases_to!(*entries => entries@));
                assert(decreases_to!(entries@ => entries@[i as int]));
            }
            let part = if keys {
                &entries[i].key
            } else {
                &entries[i].value
            };
            match part {
                Some(x) => {
                    proof {
                        assert(decreases_to!(entries@[i as int] => entries@[i as int].key));
                        assert(decreases_to!(entries@[i as int] => entries@[i as int].value));
                    }
                    let shape = match self.value_shape_for_hir_expression(x) {
                        Some(s) => s,
                        None => ValueShape::Unknown,
                    };
                    proof {
                        lemma_shapes_model_push(out@, shape);
                    }
                    out.push(shape);
                },
                None => {},
            }
            i = i + 1;
        }
        out
    }

    /// The shape of the value of the last initialiser of field `name`.
    fn hir_last_init_shape(&self, fs: &Vec<HirRecordFieldInit>, name: &str) -> (r: Option<ValueShape>)
        ensures
            opt_shape_model(r) == last_init_shape(self.facts_view(), self.local_shapes(), fs@, name@, fs@.len() as int),
        decreases fs, 0int,
    {
        let mut k: usize = fs.len();
        while k > 0
            invariant
                k <= fs@.len(),
                last_init_shape(self.facts_view(), self.local_shapes(), fs@, name@, fs@.len() as int) == last_init_shape(
                    self.facts_view(),
                    self.local_shapes(),
                    fs@,
                    name@,
                    k as int,
                ),
            decreases k,
        {
            if str_eq(fs[k - 1].name.as_str(), name) {
                proof {
                    assert(decreases_to!(*fs => fs@));
                    assert(decreases_to!(fs@ => fs@[k - 1]));
                    assert(decreases_to!(fs@[k - 1] => fs@[k - 1].value));
                }
                return match &fs[k - 1].value {
                    Some(v) => self.value_shape_for_hir_expression(v),
                    None => None,
                };
            }
            k = k - 1;
        }
        None
    }

    /// The shape of a record constructor's value: none for an enum variant
    /// or a constructor without a path; with no fields given, the record shape
    /// of the named type; else a record of the given fields, each at its rank
    /// among the field names, with the shape of its last value.
    fn hir_record_expression_shape(&self, e: &HirExpr) -> (r: Option<ValueShape>)
        requires
            *e is Record,
        ensures
            opt_shape_model(r) == expr_shape(self.facts_view(), self.local_shapes(), *e),
        decreases e, 2int,
    {
        let ghost facts = self.facts_view();
        let ghost locals = self.local_shapes();
        let (path, declaration, fields) = match e {
            HirExpr::Record { path, declaration, fields } => (path, declaration, fields),
            _ => return None,
        };
        let path = match path {
            Some(p) => p,
            None => return None,
        };
        if enum_variant_path(path.as_slice()).is_some() {
            return None;
        }
        let symbol = match declaration {
            Some(d) => self.declaration_type_symbol(*d),
            None => None,
        };
        let record_name = match symbol {
            Some(t) => Some(t),
            None => if path.len() > 0 {
                let joined = join_with_colons(path.as_slice(), path.len());
                proof {
                    assert(string_views(path@).subrange(0, path@.len() as int) =~= string_views(path@));
                }
                Some(joined)
            } else {
                None
            },
        };
        if fields.len() == 0 {
            return match record_name {
                Some(n) => match self.record_shape_for_type(n.as_str()) {
                    Some(r) => Some(ValueShape::Record(r)),
                    None => None,
                },
                None => None,
            };
        }
        let names = sorted_init_name_list(fields);
        let ghost names_view = string_views(names@);
        proof {
            lemma_sorted_init_names(fields@, names_view);
        }
        let mut pairs: Vec<(String, Option<ValueShape>)> = Vec::new();
        let mut i: usize = 0;
        while i < names.len()
            invariant
                *e == (HirExpr::Record { path: Some(*path), declaration: *declaration, fields: *fields }),
                facts == self.facts_view(),
                locals == self.local_shapes(),
                names_view == string_views(names@),
                names_strictly_sorted(names_view),
                i <= names@.len(),
                pairs@.len() == i,
                forall|t: int| 0 <= t < i ==> (#[trigger] pairs@[t]).0@ == names_view[t],
                Seq::new(
                    pairs@.len(),
                    |t: int| FieldModel { name: pairs@[t].0@, slot: t as nat, value: opt_shape_model(pairs@[t].1) },
                ) == init_field_models(facts, locals, fields@, names_view, i as int),
            decreases names.len() - i,
        {
            proof {
                assert(decreases_to!(*e => e->Record_fields));
            }
            let value = self.hir_last_init_shape(fields, names[i].as_str());
            let ghost before = pairs@;
            pairs.push((names[i].clone(), value));
            proof {
                assert(Seq::new(
                    pairs@.len(),
                    |t: int| FieldModel { name: pairs@[t].0@, slot: t as nat, value: opt_shape_model(pairs@[t].1) },
                ) =~= Seq::new(
                    before.len(),
                    |t: int| FieldModel { name: before[t].0@, slot: t as nat, value: opt_shape_model(before[t].1) },
                ).push(
                    FieldModel {
                        name: names_view[i as int],
                        slot: i as nat,
                        value: last_init_shape(facts, locals, fields@, names_view[i as int], fields@.len() as int),
                    },
                ));
            }
            i = i + 1;
        }
        proof {
            assert(Seq::new(pairs@.len(), |t: int| pairs@[t].0@) =~= names_view);
        }
        Some(ValueShape::Record(RecordShape::from_sorted_optional_fields(record_name, pairs)))
    }

    /// The shape of the value of the first argument, when it has one of known shape.
    fn hir_first_arg_shape(&self, arguments: &Vec<HirCallArgument>) -> (r: Option<ValueShape>)
        ensures
            opt_shape_model(r) == first_arg_shape(self.facts_view(), self.local_shapes(), arguments@),
        decreases arguments, 0int,
    {
        if arguments.len() > 0 {
            proof {
                assert(decreases_to!(*arguments => arguments@));
                assert(decreases_to!(arguments@ => arguments@[0]));
                assert(decreases_to!(arguments@[0] => arguments@[0].value));
            }
            match &arguments[0].value {
                Some(v) => self.value_shape_for_hir_expression(v),
                None => None,
            }
        } else {
            None
        }
    }

    /// The shape of a call's result.
    pub fn hir_call_shape(&self, e: &HirExpr) -> (r: Option<ValueShape>)
        ensures
            opt_shape_model(r) == call_shape(self.facts_view(), self.local_shapes(), *e),
        decreases e, 2int,
    {
        let (callee, arguments) = match e {
            HirExpr::Call { callee, arguments } => (callee, arguments),
            _ => return None,
        };
        match &**callee {
            HirExpr::Field { receiver, name } => {
                let receiver_shape = match self.value_shape_for_hir_expression(receiver) {
                    Some(s) => s,
                    None => return None,
                };
                let first = self.hir_first_arg_shape(arguments);
                let callback = if arguments.len() > 0 {
                    proof {
                        assert(decreases_to!(*arguments => arguments@));
                        assert(decreases_to!(arguments@ => arguments@[0]));
                        assert(decreases_to!(arguments@[0] => arguments@[0].value));
                    }
                    match &arguments[0].value {
                        Some(v) => self.hir_callback_return_shape(Some(&receiver_shape), name.as_str(), v),
                        None => None,
                    }
                } else {
                    None
                };
                hir_method_shape(receiver_shape, name.as_str(), first, callback)
            },
            HirExpr::Path(parts) => {
                if parts.len() != 2 {
                    return None;
                }
                let first = self.hir_first_arg_shape(arguments);
                let module = parts[0].as_str();
                let function = parts[1].as_str();
                if str_eq(module, "option") && str_eq(function, "some") {
                    match first {
                        Some(f) => {
                            let r = ValueShape::Option(Box::new(f));
                            assert(r@ == ShapeModel::Option(Box::new(f@)));
                            Some(r)
                        },
                        None => None,
                    }
                } else if str_eq(module, "option") && str_eq(function, "none") {
                    let r = ValueShape::Option(Box::new(ValueShape::Unknown));
                    assert(r@ == ShapeModel::Option(Box::new(ShapeModel::Unknown)));
                    Some(r)
                } else if str_eq(module, "result") && str_eq(function, "ok") {
                    match first {
                        Some(f) => Some(ValueShape::Result { ok: Some(Box::new(f)), err: None }),
                        None => None,
                    }
                } else if str_eq(module, "result") && str_eq(function, "err") {
                    match first {
                        Some(f) => Some(ValueShape::Result { ok: None, err: Some(Box::new(f)) }),
                        None => None,
                    }
                } else if str_eq(module, "set") && str_eq(function, "from_array") {
                    match first {
                        Some(ValueShape::Array(element)) => Some(ValueShape::SetType(element)),
                        _ => None,
                    }
                } else if str_eq(module, "reflect") {
                    native_call_shape(function, first)
                } else {
                    None
                }
            },
            _ => None,
        }
    }

    /// The shape of what a closure passed to `method` on a receiver of the
    /// given shape returns; none without a receiver shape.
    pub fn hir_callback_return_shape(&self, receiver: Option<&ValueShape>, method: &str, value: &HirExpr) -> (r: Option<
        ValueShape,
    >)
        ensures
            match receiver {
                Some(rs) => opt_shape_model(r) == callback_return_shape(
                    self.facts_view(),
                    self.local_shapes(),
                    rs@,
                    method@,
                    *value,
                ),
                None => r is None,
            },
        decreases value, 5int,
    {
        let receiver = match receiver {
            Some(rs) => rs,
            None => return None,
        };
        match value {
            HirExpr::Lambda { params, body } => {
                let hints = match callback_param_shapes(receiver, method, params.len()) {
                    Some(h) => h,
                    None => return None,
                };
                let env = lambda_env_list(params, &hints);
                match body {
                    HirLambdaBody::Expr(b) => self.hir_shape_with_locals(b, &env),
                    HirLambdaBody::Block(block) => {
                        if block.statements.len() > 0 {
                            proof {
                                assert(decreases_to!(*value => value->Lambda_body));
                                assert(decreases_to!(value->Lambda_body => value->Lambda_body->Block_0));
                                assert(decreases_to!(*block => block.statements));
                                assert(decreases_to!(block.statements => block.statements@));
                                assert(decreases_to!(block.statements@ => block.statements@.last()));
                            }
                            match &block.statements[block.statements.len() - 1] {
                                HirStmt::Expr { expression: Some(t) } => self.hir_shape_with_locals(t, &env),
                                _ => None,
                            }
                        } else {
                            None
                        }
                    },
                    HirLambdaBody::Empty => None,
                }
            },
            _ => None,
        }
    }

    /// The shape of an expression inside a closure whose parameters have the
    /// shapes in `env`.
    pub fn hir_shape_with_locals(&self, e: &HirExpr, env: &Vec<(String, ValueShape)>) -> (r: Option<ValueShape>)
        ensures
            opt_shape_model(r) == shape_with_locals(self.facts_view(), self.local_shapes(), env_model(env@), *e),
        decreases e, 4int,
    {
        match e {
            HirExpr::Path(parts) => {
                if parts.len() == 1 {
                    match env_find(env, parts[0].as_str()) {
                        Some(s) => return Some(s.duplicate()),
                        None => {},
                    }
                }
                self.value_shape_for_hir_expression(e)
            },
            HirExpr::Field { receiver, name } => match self.hir_shape_with_locals(receiver, env) {
                Some(shape) => match shape.as_record() {
                    Some(record) => match record.field_value_shape(name.as_str()) {
                        Some(v) => Some(v.duplicate()),
                        None => None,
                    },
                    None => None,
                },
                None => None,
            },
            HirExpr::Paren(Some(inner)) => self.hir_shape_with_locals(inner, env),
            HirExpr::Call { callee, arguments } => match &**callee {
                HirExpr::Field { receiver, name } => {
                    let receiver_shape = match self.hir_shape_with_locals(receiver, env) {
                        Some(s) => s,
                        None => return None,
                    };
                    let first = if arguments.len() > 0 {
                        proof {
                            assert(decreases_to!(*arguments => arguments@));
                            assert(decreases_to!(arguments@ => arguments@[0]));
                            assert(decreases_to!(arguments@[0] => arguments@[0].value));
                        }
                        match &arguments[0].value {
                            Some(v) => self.hir_shape_with_locals(v, env),
                            None => None,
                        }
                    } else {
                        None
                    };
                    hir_method_shape(receiver_shape, name.as_str(), first, None)
                },
                _ => self.value_shape_for_hir_expression(e),
            },
            _ => self.value_shape_for_hir_expression(e),
        }
    }
}

} // verus!
