use vstd::prelude::*;

use crate::record_reflection_shapes::{
    array_of, bool_model, bool_shape, i64_model, i64_shape, string_model, string_shape,
};
use crate::record_shapes::{opt_shape_model, shapes_model, ShapeModel, ValueShape};
use crate::text::str_eq;

verus! {

/// A shape, or `Unknown` when there is none.
pub open spec fn or_unknown(o: Option<ShapeModel>) -> ShapeModel {
    match o {
        Some(s) => s,
        None => ShapeModel::Unknown,
    }
}

pub open spec fn boxed_or_unknown(o: Option<Box<ShapeModel>>) -> Box<ShapeModel> {
    match o {
        Some(b) => b,
        None => Box::new(ShapeModel::Unknown),
    }
}

/// What `unwrap_or` yields from a payload: the payload, unless its shape is
/// unknown and the fallback's shape is known.
pub open spec fn unwrap_or_model(payload: ShapeModel, first: Option<ShapeModel>) -> ShapeModel {
    if payload is Unknown {
        match first {
            Some(f) => f,
            None => payload,
        }
    } else {
        payload
    }
}

pub open spec fn is_string_method(m: Seq<char>) -> bool {
    m == "to_upper"@ || m == "to_lower"@ || m == "trim"@ || m == "trim_start"@ || m == "trim_end"@
        || m == "replace"@ || m == "repeat"@ || m == "join"@
}

pub open spec fn is_count_method(m: Seq<char>) -> bool {
    m == "len"@ || m == "count"@ || m == "sum"@
}

pub open spec fn is_predicate_method(m: Seq<char>) -> bool {
    m == "has"@ || m == "contains"@ || m == "starts_with"@ || m == "ends_with"@ || m == "is_empty"@
        || m == "is_none"@ || m == "is_some"@ || m == "is_ok"@ || m == "is_err"@ || m == "any"@ || m
        == "all"@ || m == "is_subset"@ || m == "is_superset"@ || m == "is_disjoint"@
}

pub open spec fn is_split_method(m: Seq<char>) -> bool {
    m == "split"@ || m == "split_whitespace"@ || m == "split_lines"@
}

pub open spec fn is_element_method(m: Seq<char>) -> bool {
    m == "first"@ || m == "last"@ || m == "pop"@ || m == "remove_at"@ || m == "min"@ || m == "max"@
}

pub open spec fn is_reorder_method(m: Seq<char>) -> bool {
    m == "sort"@ || m == "sort_by"@ || m == "reverse"@ || m == "distinct"@ || m == "filter"@
}

pub open spec fn is_set_algebra_method(m: Seq<char>) -> bool {
    m == "union"@ || m == "intersection"@ || m == "difference"@ || m == "symmetric_difference"@
}

pub open spec fn find_model(receiver: ShapeModel) -> Option<ShapeModel> {
    match receiver {
        ShapeModel::Scalar(n) => if n == "String"@ {
            Some(ShapeModel::Option(Box::new(i64_model())))
        } else {
            None
        },
        ShapeModel::Array(v) => Some(ShapeModel::Option(v)),
        ShapeModel::SetType(v) => Some(ShapeModel::Option(v)),
        ShapeModel::Iterator(v) => Some(ShapeModel::Option(v)),
        _ => None,
    }
}

pub open spec fn element_model(receiver: ShapeModel) -> Option<ShapeModel> {
    match receiver {
        ShapeModel::Array(v) => Some(ShapeModel::Option(v)),
        _ => None,
    }
}

pub open spec fn get_model(receiver: ShapeModel) -> Option<ShapeModel> {
    match receiver {
        ShapeModel::MapType(_, v) => Some(ShapeModel::Option(v)),
        _ => None,
    }
}

pub open spec fn get_or_model(receiver: ShapeModel) -> Option<ShapeModel> {
    match receiver {
        ShapeModel::MapType(_, v) => Some(*v),
        _ => None,
    }
}

pub open spec fn values_model(receiver: ShapeModel) -> Option<ShapeModel> {
    match receiver {
        ShapeModel::Array(v) => Some(ShapeModel::Iterator(v)),
        ShapeModel::SetType(v) => Some(ShapeModel::Iterator(v)),
        ShapeModel::MapType(_, v) => Some(ShapeModel::Iterator(v)),
        _ => None,
    }
}

pub open spec fn collect_array_model(receiver: ShapeModel) -> Option<ShapeModel> {
    match receiver {
        ShapeModel::Iterator(v) => Some(ShapeModel::Array(v)),
        _ => None,
    }
}

pub open spec fn set_algebra_model(receiver: ShapeModel) -> Option<ShapeModel> {
    match receiver {
        ShapeModel::SetType(_) => Some(receiver),
        _ => None,
    }
}

pub open spec fn map_model(receiver: ShapeModel, callback: Option<ShapeModel>) -> Option<ShapeModel> {
    match receiver {
        ShapeModel::Array(_) => Some(ShapeModel::Array(Box::new(or_unknown(callback)))),
        ShapeModel::SetType(_) => Some(ShapeModel::SetType(Box::new(or_unknown(callback)))),
        ShapeModel::Iterator(_) => Some(ShapeModel::Iterator(Box::new(or_unknown(callback)))),
        ShapeModel::Option(_) => Some(ShapeModel::Option(Box::new(or_unknown(callback)))),
        ShapeModel::Result(_, err) => Some(ShapeModel::Result(Some(Box::new(or_unknown(callback))), err)),
        _ => callback,
    }
}

pub open spec fn map_err_model(receiver: ShapeModel, callback: Option<ShapeModel>) -> Option<ShapeModel> {
    match receiver {
        ShapeModel::Result(ok, _) => Some(ShapeModel::Result(ok, Some(Box::new(or_unknown(callback))))),
        _ => callback,
    }
}

pub open spec fn group_by_model(receiver: ShapeModel, callback: Option<ShapeModel>) -> Option<ShapeModel> {
    match receiver {
        ShapeModel::Array(e) => Some(
            ShapeModel::MapType(Box::new(or_unknown(callback)), Box::new(ShapeModel::Array(e))),
        ),
        _ => None,
    }
}

pub open spec fn unwrap_or_method_model(receiver: ShapeModel, first: Option<ShapeModel>) -> Option<ShapeModel> {
    match receiver {
        ShapeModel::Option(v) => Some(unwrap_or_model(*v, first)),
        ShapeModel::Result(Some(ok), _) => Some(unwrap_or_model(*ok, first)),
        ShapeModel::Result(None, _) => first,
        _ => None,
    }
}

pub open spec fn ok_or_model(receiver: ShapeModel, first: Option<ShapeModel>) -> Option<ShapeModel> {
    match receiver {
        ShapeModel::Option(v) => Some(
            ShapeModel::Result(
                Some(v),
                match first {
                    Some(f) => Some(Box::new(f)),
                    None => None,
                },
            ),
        ),
        _ => None,
    }
}

pub open spec fn to_option_model(receiver: ShapeModel) -> Option<ShapeModel> {
    match receiver {
        ShapeModel::Result(ok, _) => Some(ShapeModel::Option(boxed_or_unknown(ok))),
        _ => None,
    }
}

pub open spec fn to_error_option_model(receiver: ShapeModel) -> Option<ShapeModel> {
    match receiver {
        ShapeModel::Result(_, err) => Some(ShapeModel::Option(boxed_or_unknown(err))),
        _ => None,
    }
}

pub open spec fn flatten_model(receiver: ShapeModel) -> Option<ShapeModel> {
    match receiver {
        ShapeModel::Option(v) => match *v {
            ShapeModel::Option(inner) => Some(ShapeModel::Option(inner)),
            value => Some(ShapeModel::Option(Box::new(value))),
        },
        ShapeModel::Result(ok, err) => match ok {
            Some(b) => match *b {
                ShapeModel::Result(ok2, inner) => Some(
                    ShapeModel::Result(
                        ok2,
                        match inner {
                            Some(i) => Some(i),
                            None => err,
                        },
                    ),
                ),
                other => Some(ShapeModel::Result(Some(Box::new(other)), err)),
            },
            None => Some(ShapeModel::Result(None, err)),
        },
        _ => None,
    }
}

/// The shape of what a built-in method returns, given the shapes of its
/// receiver, of its first argument and of what its callback returns.
pub open spec fn method_shape_model(
    receiver: ShapeModel,
    method: Seq<char>,
    first: Option<ShapeModel>,
    callback: Option<ShapeModel>,
) -> Option<ShapeModel> {
    if is_string_method(method) {
        Some(string_model())
    } else if is_count_method(method) {
        Some(i64_model())
    } else if is_predicate_method(method) {
        Some(bool_model())
    } else if method == "slice"@ {
        Some(receiver)
    } else if is_split_method(method) {
        Some(array_of(string_model()))
    } else if method == "split_once"@ {
        Some(ShapeModel::Option(Box::new(ShapeModel::Tuple(seq![string_model(), string_model()]))))
    } else if method == "strip_prefix"@ || method == "strip_suffix"@ {
        Some(ShapeModel::Option(Box::new(string_model())))
    } else if method == "find"@ {
        find_model(receiver)
    } else if method == "chars"@ {
        Some(ShapeModel::Iterator(Box::new(ShapeModel::Scalar("char"@))))
    } else if method == "bytes"@ {
        Some(ShapeModel::Iterator(Box::new(ShapeModel::Scalar("u8"@))))
    } else if is_element_method(method) {
        element_model(receiver)
    } else if method == "get"@ {
        get_model(receiver)
    } else if method == "get_or"@ {
        get_or_model(receiver)
    } else if method == "values"@ {
        values_model(receiver)
    } else if method == "collect_array"@ {
        collect_array_model(receiver)
    } else if is_reorder_method(method) {
        Some(receiver)
    } else if is_set_algebra_method(method) {
        set_algebra_model(receiver)
    } else if method == "map"@ {
        map_model(receiver, callback)
    } else if method == "map_err"@ {
        map_err_model(receiver, callback)
    } else if method == "group_by"@ {
        group_by_model(receiver, callback)
    } else if method == "and_then"@ || method == "or_else"@ {
        callback
    } else if method == "unwrap_or"@ {
        unwrap_or_method_model(receiver, first)
    } else if method == "ok_or"@ {
        ok_or_model(receiver, first)
    } else if method == "to_option"@ {
        to_option_model(receiver)
    } else if method == "to_error_option"@ {
        to_error_option_model(receiver)
    } else if method == "flatten"@ {
        flatten_model(receiver)
    } else {
        None
    }
}

fn is_string_method_exec(m: &str) -> (r: bool)
    ensures
        r == is_string_method(m@),
{
    str_eq(m, "to_upper") || str_eq(m, "to_lower") || str_eq(m, "trim") || str_eq(m, "trim_start")
        || str_eq(m, "trim_end") || str_eq(m, "replace") || str_eq(m, "repeat") || str_eq(m, "join")
}

fn is_count_method_exec(m: &str) -> (r: bool)
    ensures
        r == is_count_method(m@),
{
    str_eq(m, "len") || str_eq(m, "count") || str_eq(m, "sum")
}

fn is_predicate_method_exec(m: &str) -> (r: bool)
    ensures
        r == is_predicate_method(m@),
{
    str_eq(m, "has") || str_eq(m, "contains") || str_eq(m, "starts_with") || str_eq(m, "ends_with")
        || str_eq(m, "is_empty") || str_eq(m, "is_none") || str_eq(m, "is_some") || str_eq(m, "is_ok")
        || str_eq(m, "is_err") || str_eq(m, "any") || str_eq(m, "all") || str_eq(m, "is_subset")
        || str_eq(m, "is_superset") || str_eq(m, "is_disjoint")
}

fn is_split_method_exec(m: &str) -> (r: bool)
    ensures
        r == is_split_method(m@),
{
    str_eq(m, "split") || str_eq(m, "split_whitespace") || str_eq(m, "split_lines")
}

fn is_element_method_exec(m: &str) -> (r: bool)
    ensures
        r == is_element_method(m@),
{
    str_eq(m, "first") || str_eq(m, "last") || str_eq(m, "pop") || str_eq(m, "remove_at") || str_eq(
        m,
        "min",
    ) || str_eq(m, "max")
}

fn is_reorder_method_exec(m: &str) -> (r: bool)
    ensures
        r == is_reorder_method(m@),
{
    str_eq(m, "sort") || str_eq(m, "sort_by") || str_eq(m, "reverse") || str_eq(m, "distinct")
        || str_eq(m, "filter")
}

fn is_set_algebra_method_exec(m: &str) -> (r: bool)
    ensures
        r == is_set_algebra_method(m@),
{
    str_eq(m, "union") || str_eq(m, "intersection") || str_eq(m, "difference") || str_eq(
        m,
        "symmetric_difference",
    )
}

fn shape_or_unknown(o: Option<ValueShape>) -> (r: ValueShape)
    ensures
        r@ == or_unknown(opt_shape_model(o)),
{
    match o {
        Some(s) => s,
        None => ValueShape::Unknown,
    }
}

fn unwrap_or_shape(payload: ValueShape, first: Option<ValueShape>) -> (r: ValueShape)
    ensures
        r@ == unwrap_or_model(payload@, opt_shape_model(first)),
{
    match payload {
        ValueShape::Unknown => match first {
            Some(f) => f,
            None => ValueShape::Unknown,
        },
        other => other,
    }
}

fn split_once_shape() -> (r: ValueShape)
    ensures
        r@ == ShapeModel::Option(Box::new(ShapeModel::Tuple(seq![string_model(), string_model()]))),
{
    let pair = vec![string_shape(), string_shape()];
    proof {
        crate::record_shapes::lemma_shapes_model_index(pair@, 0);
        crate::record_shapes::lemma_shapes_model_index(pair@, 1);
        assert(shapes_model(pair@) =~= seq![string_model(), string_model()]);
    }
    let t = ValueShape::Tuple(pair);
    assert(t@ == ShapeModel::Tuple(seq![string_model(), string_model()]));
    ValueShape::Option(Box::new(t))
}

fn find_shape(receiver: ValueShape) -> (r: Option<ValueShape>)
    ensures
        opt_shape_model(r) == find_model(receiver@),
{
    match receiver {
        ValueShape::Scalar(name) => if str_eq(name.as_str(), "String") {
            Some(ValueShape::Option(Box::new(i64_shape())))
        } else {
            None
        },
        ValueShape::Array(value) => Some(ValueShape::Option(value)),
        ValueShape::SetType(value) => Some(ValueShape::Option(value)),
        ValueShape::Iterator(value) => Some(ValueShape::Option(value)),
        _ => None,
    }
}

fn element_shape(receiver: ValueShape) -> (r: Option<ValueShape>)
    ensures
        opt_shape_model(r) == element_model(receiver@),
{
    match receiver {
        ValueShape::Array(value) => Some(ValueShape::Option(value)),
        _ => None,
    }
}

fn get_shape(receiver: ValueShape) -> (r: Option<ValueShape>)
    ensures
        opt_shape_model(r) == get_model(receiver@),
{
    match receiver {
        ValueShape::MapType { value, .. } => Some(ValueShape::Option(value)),
        _ => None,
    }
}

fn get_or_shape(receiver: ValueShape) -> (r: Option<ValueShape>)
    ensures
        opt_shape_model(r) == get_or_model(receiver@),
{
    match receiver {
        ValueShape::MapType { value, .. } => Some(*value),
        _ => None,
    }
}

fn values_shape(receiver: ValueShape) -> (r: Option<ValueShape>)
    ensures
        opt_shape_model(r) == values_model(receiver@),
{
    match receiver {
        ValueShape::Array(value) => Some(ValueShape::Iterator(value)),
        ValueShape::SetType(value) => Some(ValueShape::Iterator(value)),
        ValueShape::MapType { value, .. } => Some(ValueShape::Iterator(value)),
        _ => None,
    }
}

fn collect_array_shape(receiver: ValueShape) -> (r: Option<ValueShape>)
    ensures
        opt_shape_model(r) == collect_array_model(receiver@),
{
    match receiver {
        ValueShape::Iterator(value) => Some(ValueShape::Array(value)),
        _ => None,
    }
}

fn set_algebra_shape(receiver: ValueShape) -> (r: Option<ValueShape>)
    ensures
        opt_shape_model(r) == set_algebra_model(receiver@),
{
    match receiver {
        ValueShape::SetType(_) => Some(receiver),
        _ => None,
    }
}

fn map_shape(receiver: ValueShape, callback: Option<ValueShape>) -> (r: Option<ValueShape>)
    ensures
        opt_shape_model(r) == map_model(receiver@, opt_shape_model(callback)),
{
    match receiver {
        ValueShape::Array(_) => Some(ValueShape::Array(Box::new(shape_or_unknown(callback)))),
        ValueShape::SetType(_) => Some(ValueShape::SetType(Box::new(shape_or_unknown(callback)))),
        ValueShape::Iterator(_) => Some(ValueShape::Iterator(Box::new(shape_or_unknown(callback)))),
        ValueShape::Option(_) => Some(ValueShape::Option(Box::new(shape_or_unknown(callback)))),
        ValueShape::Result { err, .. } => {
            let ok = shape_or_unknown(callback);
            let r = ValueShape::Result { ok: Some(Box::new(ok)), err };
            Some(r)
        },
        _ => callback,
    }
}

fn map_err_shape(receiver: ValueShape, callback: Option<ValueShape>) -> (r: Option<ValueShape>)
    ensures
        opt_shape_model(r) == map_err_model(receiver@, opt_shape_model(callback)),
{
    match receiver {
        ValueShape::Result { ok, .. } => {
            let err = shape_or_unknown(callback);
            let r = ValueShape::Result { ok, err: Some(Box::new(err)) };
            Some(r)
        },
        _ => callback,
    }
}

fn group_by_shape(receiver: ValueShape, callback: Option<ValueShape>) -> (r: Option<ValueShape>)
    ensures
        opt_shape_model(r) == group_by_model(receiver@, opt_shape_model(callback)),
{
    match receiver {
        ValueShape::Array(element) => {
            let key = shape_or_unknown(callback);
            let value = ValueShape::Array(element);
            Some(ValueShape::MapType { key: Box::new(key), value: Box::new(value) })
        },
        _ => None,
    }
}

fn unwrap_or_method_shape(receiver: ValueShape, first: Option<ValueShape>) -> (r: Option<ValueShape>)
    ensures
        opt_shape_model(r) == unwrap_or_method_model(receiver@, opt_shape_model(first)),
{
    match receiver {
        ValueShape::Option(value) => Some(unwrap_or_shape(*value, first)),
        ValueShape::Result { ok: Some(ok), .. } => Some(unwrap_or_shape(*ok, first)),
        ValueShape::Result { ok: None, .. } => first,
        _ => None,
    }
}

fn ok_or_shape(receiver: ValueShape, first: Option<ValueShape>) -> (r: Option<ValueShape>)
    ensures
        opt_shape_model(r) == ok_or_model(receiver@, opt_shape_model(first)),
{
    match receiver {
        ValueShape::Option(value) => {
            let err = match first {
                Some(f) => Some(Box::new(f)),
                None => None,
            };
            let r = ValueShape::Result { ok: Some(value), err };
            Some(r)
        },
        _ => None,
    }
}

fn to_option_shape(receiver: ValueShape) -> (r: Option<ValueShape>)
    ensures
        opt_shape_model(r) == to_option_model(receiver@),
{
    match receiver {
        ValueShape::Result { ok, err } => {
            let ghost m = receiver@;
            match ok {
                Some(b) => {
                    assert(m->Result_0 == Some(Box::new((*b)@)));
                    let r = ValueShape::Option(b);
                    assert(r@ == ShapeModel::Option(Box::new((*b)@)));
                    assert(m is Result);
                    assert(to_option_model(m) == Some(ShapeModel::Option(Box::new((*b)@))));
                    Some(r)
                },
                None => {
                    assert(m->Result_0 is None);
                    let u = ValueShape::Unknown;
                    assert(u@ == ShapeModel::Unknown);
                    let r = ValueShape::Option(Box::new(u));
                    assert(r@ == ShapeModel::Option(Box::new(ShapeModel::Unknown)));
                    assert(to_option_model(m) == Some(ShapeModel::Option(Box::new(ShapeModel::Unknown))));
                    Some(r)
                },
            }
        },
        _ => {
            assert(to_option_model(receiver@) is None);
            None
        },
    }
}

fn to_error_option_shape(receiver: ValueShape) -> (r: Option<ValueShape>)
    ensures
        opt_shape_model(r) == to_error_option_model(receiver@),
{
    match receiver {
        ValueShape::Result { ok, err } => {
            let ghost m = receiver@;
            match err {
                Some(b) => {
                    assert(m->Result_1 == Some(Box::new((*b)@)));
                    Some(ValueShape::Option(b))
                },
                None => {
                    assert(m->Result_1 is None);
                    let u = ValueShape::Unknown;
                    assert(u@ == ShapeModel::Unknown);
                    Some(ValueShape::Option(Box::new(u)))
                },
            }
        },
        _ => {
            assert(to_error_option_model(receiver@) is None);
            None
        },
    }
}

fn flatten_shape(receiver: ValueShape) -> (r: Option<ValueShape>)
    ensures
        opt_shape_model(r) == flatten_model(receiver@),
{
    let ghost m = receiver@;
    match receiver {
        ValueShape::Option(value) => {
            let ghost vm = (*value)@;
            assert(m == ShapeModel::Option(Box::new(vm)));
            match *value {
                ValueShape::Option(inner) => {
                    assert(vm == ShapeModel::Option(Box::new((*inner)@)));
                    Some(ValueShape::Option(inner))
                },
                value => {
                    assert(!(vm is Option));
                    let r = ValueShape::Option(Box::new(value));
                    assert(r@ == ShapeModel::Option(Box::new(vm)));
                    Some(r)
                },
            }
        },
        ValueShape::Result { ok, err } => {
            let ghost err_model = m->Result_1;
            match ok {
                Some(b) => {
                    let ghost ok_model = (*b)@;
                    assert(m->Result_0 == Some(Box::new(ok_model)));
                    match *b {
                        ValueShape::Result { ok: ok2, err: inner } => {
                            let ghost inner_model = ok_model->Result_1;
                            let e = match inner {
                                Some(i) => {
                                    assert(inner_model == Some(Box::new((*i)@)));
                                    Some(i)
                                },
                                None => err,
                            };
                            let r = ValueShape::Result { ok: ok2, err: e };
                            assert(r@ == ShapeModel::Result(ok_model->Result_0, match inner_model {
                                Some(i) => Some(i),
                                None => err_model,
                            }));
                            Some(r)
                        },
                        other => {
                            assert(!(ok_model is Result));
                            let r = ValueShape::Result { ok: Some(Box::new(other)), err };
                            assert(r@ == ShapeModel::Result(Some(Box::new(ok_model)), err_model));
                            Some(r)
                        },
                    }
                },
                None => {
                    let r = ValueShape::Result { ok: None, err };
                    assert(r@ == ShapeModel::Result(None, err_model));
                    Some(r)
                },
            }
        },
        _ => {
            assert(flatten_model(m) is None);
            None
        },
    }
}

fn string_array_shape() -> (r: ValueShape)
    ensures
        r@ == array_of(string_model()),
{
    let e = string_shape();
    ValueShape::Array(Box::new(e))
}

fn optional_string_shape() -> (r: ValueShape)
    ensures
        r@ == ShapeModel::Option(Box::new(string_model())),
{
    let e = string_shape();
    ValueShape::Option(Box::new(e))
}

fn scalar_iterator_shape(name: &str) -> (r: ValueShape)
    ensures
        r@ == ShapeModel::Iterator(Box::new(ShapeModel::Scalar(name@))),
{
    let e = ValueShape::Scalar(name.to_owned());
    assert(e@ == ShapeModel::Scalar(name@));
    ValueShape::Iterator(Box::new(e))
}

/// The shape of what the built-in `method` returns.
pub fn hir_method_shape(
    receiver: ValueShape,
    method: &str,
    first: Option<ValueShape>,
    callback: Option<ValueShape>,
) -> (r: Option<ValueShape>)
    ensures
        opt_shape_model(r) == method_shape_model(
            receiver@,
            method@,
            opt_shape_model(first),
            opt_shape_model(callback),
        ),
{
    if is_string_method_exec(method) {
        Some(string_shape())
    } else if is_count_method_exec(method) {
        Some(i64_shape())
    } else if is_predicate_method_exec(method) {
        Some(bool_shape())
    } else if str_eq(method, "slice") {
        Some(receiver)
    } else if is_split_method_exec(method) {
        Some(string_array_shape())
    } else if str_eq(method, "split_once") {
        Some(split_once_shape())
    } else if str_eq(method, "strip_prefix") || str_eq(method, "strip_suffix") {
        Some(optional_string_shape())
    } else if str_eq(method, "find") {
        find_shape(receiver)
    } else if str_eq(method, "chars") {
        Some(scalar_iterator_shape("char"))
    } else if str_eq(method, "bytes") {
        Some(scalar_iterator_shape("u8"))
    } else if is_element_method_exec(method) {
        element_shape(receiver)
    } else if str_eq(method, "get") {
        get_shape(receiver)
    } else if str_eq(method, "get_or") {
        get_or_shape(receiver)
    } else if str_eq(method, "values") {
        values_shape(receiver)
    } else if str_eq(method, "collect_array") {
        collect_array_shape(receiver)
    } else if is_reorder_method_exec(method) {
        Some(receiver)
    } else if is_set_algebra_method_exec(method) {
        set_algebra_shape(receiver)
    } else if str_eq(method, "map") {
        map_shape(receiver, callback)
    } else if str_eq(method, "map_err") {
        map_err_shape(receiver, callback)
    } else if str_eq(method, "group_by") {
        group_by_shape(receiver, callback)
    } else if str_eq(method, "and_then") || str_eq(method, "or_else") {
        callback
    } else if str_eq(method, "unwrap_or") {
        unwrap_or_method_shape(receiver, first)
    } else if str_eq(method, "ok_or") {
        ok_or_shape(receiver, first)
    } else if str_eq(method, "to_option") {
        to_option_shape(receiver)
    } else if str_eq(method, "to_error_option") {
        to_error_option_shape(receiver)
    } else if str_eq(method, "flatten") {
        flatten_shape(receiver)
    } else {
        None
    }
}

/// The shape shared by all elements, or `Unknown` when they differ or there
/// are none.
pub open spec fn common_hir_model(shapes: Seq<ShapeModel>) -> ShapeModel {
    if shapes.len() > 0 && forall|i: int| 0 <= i < shapes.len() ==> #[trigger] shapes[i] == shapes[0] {
        shapes[0]
    } else {
        ShapeModel::Unknown
    }
}

/// The shape of a collection literal's elements.
pub fn common_hir_shape(shapes: Vec<ValueShape>) -> (r: ValueShape)
    ensures
        r@ == common_hir_model(shapes_model(shapes@)),
{
    let ghost models = shapes_model(shapes@);
    proof {
        crate::record_shapes::lemma_shapes_model_len(shapes@);
        assert forall|k: int| 0 <= k < shapes@.len() implies models[k] == (#[trigger] shapes@[k])@ by {
            crate::record_shapes::lemma_shapes_model_index(shapes@, k);
        }
    }
    if shapes.len() == 0 {
        return ValueShape::Unknown;
    }
    let mut i: usize = 0;
    while i < shapes.len()
        invariant
            models == shapes_model(shapes@),
            models.len() == shapes@.len(),
            shapes@.len() > 0,
            forall|k: int| 0 <= k < shapes@.len() ==> models[k] == (#[trigger] shapes@[k])@,
            i <= shapes.len(),
            forall|k: int| 0 <= k < i ==> #[trigger] models[k] == models[0],
        decreases shapes.len() - i,
    {
        if !shapes[i].same_as(&shapes[0]) {
            proof {
                assert(models[i as int] != models[0]);
                assert(!(forall|k: int| 0 <= k < models.len() ==> #[trigger] models[k] == models[0]));
            }
            return ValueShape::Unknown;
        }
        i = i + 1;
    }
    shapes[0].duplicate()
}

} // verus!
