use lib::field_slots::{sorted_slots, FieldSlotInfo, ScriptFieldSlots};
use lib::patterns::{enum_variant_path, join_with_colons, tuple_variant_field_name, PatternBindingFacts};
use lib::record_shapes::ValueShape;
use lib::script_types::{last_path_segment, type_hint_script_type, ScriptTypeFact};
use lib::value_types::{PrimitiveTag, RuntimeTypeFact};

fn strings(names: &[&str]) -> Vec<String> {
    names.iter().map(|n| n.to_string()).collect()
}

#[test]
fn script_type_facts() {
    let fact = ScriptTypeFact::new("geo::Point".to_string());
    assert_eq!(fact.type_path, "geo::Point");
    assert_eq!(fact.enum_variant, None);
    let fact = ScriptTypeFact::enum_variant("Shape".to_string(), "Circle".to_string());
    assert_eq!(fact.enum_variant, Some("Circle".to_string()));
}

#[test]
fn last_segment_after_double_colon() {
    assert_eq!(last_path_segment("a::b::Point"), "Point");
    assert_eq!(last_path_segment("Point"), "Point");
    assert_eq!(last_path_segment("a::"), "");
    assert_eq!(last_path_segment("a:::b"), "b");
}

#[test]
fn type_hints_resolve_exactly_or_by_unique_suffix() {
    let names = strings(&["geo::Point", "geo::Line", "draw::Line"]);
    assert_eq!(type_hint_script_type("geo::Point", false, &names), Some("geo::Point".to_string()));
    assert_eq!(type_hint_script_type("Point", true, &names), Some("geo::Point".to_string()));
    assert_eq!(type_hint_script_type("Point", false, &names), None);
    assert_eq!(type_hint_script_type("Line", true, &names), None);
    assert_eq!(type_hint_script_type("Circle", true, &names), None);
}

#[test]
fn enum_variant_paths() {
    assert_eq!(
        enum_variant_path(&strings(&["shapes", "Shape", "Circle"])),
        Some(("shapes::Shape".to_string(), "Circle".to_string()))
    );
    assert_eq!(enum_variant_path(&strings(&["Circle"])), None);
    assert_eq!(enum_variant_path(&strings(&[])), None);
    assert_eq!(join_with_colons(&strings(&["a", "b", "c"]), 2), "a::b");
}

#[test]
fn tuple_field_names_are_decimal() {
    assert_eq!(tuple_variant_field_name(0), "0");
    assert_eq!(tuple_variant_field_name(7), "7");
    assert_eq!(tuple_variant_field_name(10), "10");
    assert_eq!(tuple_variant_field_name(1234), "1234");
}

#[test]
fn pattern_facts_for_tuple_elements() {
    let facts = PatternBindingFacts::value(Some(RuntimeTypeFact::Tuple(vec![
        RuntimeTypeFact::Primitive(PrimitiveTag::I64),
        RuntimeTypeFact::Primitive(PrimitiveTag::Bool),
    ])));
    let second = facts.tuple_element(1);
    let from_shape = PatternBindingFacts::value_shape(Some(ValueShape::Scalar("bool".to_string())));
    assert_eq!(format!("{:?}", second), format!("{:?}", from_shape));
    let missing = facts.tuple_element(5);
    assert_eq!(format!("{:?}", missing), format!("{:?}", PatternBindingFacts::value_shape(None)));
    let with = PatternBindingFacts::value(None).with_script(Some(ScriptTypeFact::new("T".to_string())));
    assert!(format!("{:?}", with).contains("\"T\""));
}

#[test]
fn slots_are_ranks_in_name_order() {
    let slots = sorted_slots(strings(&["y", "x", "z", "x"]));
    assert_eq!(
        slots,
        vec![("x".to_string(), 0), ("x".to_string(), 1), ("y".to_string(), 2), ("z".to_string(), 3)]
    );
    assert_eq!(sorted_slots(vec![]), vec![]);
}

fn info(slot: usize, fact: Option<&str>, value_type: Option<RuntimeTypeFact>) -> FieldSlotInfo {
    FieldSlotInfo { slot, fact: fact.map(|f| ScriptTypeFact::new(f.to_string())), value_type }
}

fn sample_slots() -> ScriptFieldSlots {
    ScriptFieldSlots::new()
        .with_record_field("geo::Point".to_string(), "y".to_string(), info(1, None, Some(RuntimeTypeFact::Primitive(PrimitiveTag::I64))))
        .with_record_field("geo::Point".to_string(), "x".to_string(), info(0, None, Some(RuntimeTypeFact::Primitive(PrimitiveTag::I64))))
        .with_record_field("geo::Line".to_string(), "from".to_string(), info(0, Some("geo::Point"), None))
        .with_record_field("draw::Line".to_string(), "width".to_string(), info(0, None, None))
        .with_enum_field("Shape".to_string(), "Circle".to_string(), "0".to_string(), info(0, None, Some(RuntimeTypeFact::Primitive(PrimitiveTag::I64))))
}

#[test]
fn record_types_resolve_by_name_or_unique_suffix() {
    let slots = sample_slots();
    assert_eq!(slots.resolve_record_type_name("geo::Point"), Some("geo::Point".to_string()));
    assert_eq!(slots.resolve_record_type_name("Point"), Some("geo::Point".to_string()));
    assert_eq!(slots.resolve_record_type_name("Line"), None);
    assert_eq!(slots.resolve_record_type_name("Nothing"), None);
    assert_eq!(slots.record("Point", "y"), Some(1));
    assert_eq!(slots.record("Point", "z"), None);
    assert_eq!(slots.record_field_value_type("Point", "x"), Some(RuntimeTypeFact::Primitive(PrimitiveTag::I64)));
    assert_eq!(slots.record_field_fact("geo::Line", "from").map(|f| f.type_path), Some("geo::Point".to_string()));
    assert_eq!(slots.record_field_fact("geo::Point", "x"), None);
}

#[test]
fn record_fields_come_in_name_order() {
    let slots = sample_slots();
    let fields = slots.record_fields("Point");
    let names: Vec<&str> = fields.iter().map(|(n, _, _)| n.as_str()).collect();
    assert_eq!(names, vec!["x", "y"]);
    assert!(slots.record_fields("Line").is_empty());
}

#[test]
fn enum_fields_are_looked_up_exactly() {
    let slots = sample_slots();
    assert_eq!(slots.enum_variant("Shape", "Circle", "0"), Some(0));
    assert_eq!(slots.enum_variant("Shape", "Square", "0"), None);
    assert_eq!(slots.enum_variant_field_value_type("Shape", "Circle", "0"), Some(RuntimeTypeFact::Primitive(PrimitiveTag::I64)));
    assert_eq!(slots.enum_variant_field_fact("Shape", "Circle", "0"), None);
}

#[test]
fn replacing_a_field_keeps_one_entry() {
    let slots = ScriptFieldSlots::new()
        .with_record_field("P".to_string(), "a".to_string(), info(0, None, None))
        .with_record_field("P".to_string(), "a".to_string(), info(3, None, None));
    assert_eq!(slots.record("P", "a"), Some(3));
    assert_eq!(slots.record_fields("P").len(), 1);
}

#[test]
fn a_declared_record_field_reads_back() {
    let info = |slot: usize| FieldSlotInfo { slot, fact: None, value_type: None };
    let slots = ScriptFieldSlots::new()
        .with_record_field("geo::Point".to_string(), "x".to_string(), info(0))
        .with_record_field("geo::Point".to_string(), "y".to_string(), info(1));
    assert_eq!(slots.record("geo::Point", "x"), Some(0));
    assert_eq!(slots.record("Point", "y"), Some(1));
    let slots = slots.with_record_field("geo::Point".to_string(), "x".to_string(), info(5));
    assert_eq!(slots.record("geo::Point", "x"), Some(5));
    assert_eq!(slots.record("geo::Point", "y"), Some(1));
    assert_eq!(slots.record("geo::Point", "z"), None);
}
