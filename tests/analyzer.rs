use function_runner::analyzer::{AnalysisError, BluejaySchemaAnalyzer, MAX_SCALE, MIN_SCALE};
use function_runner::model::{
    FieldDefinition, FieldType, ResponseValue, SchemaModel, SelectionNode, TypeDefinition,
};

fn named(n: &str) -> FieldType {
    FieldType::Named(n.to_string())
}

fn list_of(t: FieldType) -> FieldType {
    FieldType::List(Box::new(t))
}

fn field(name: &str, field_type: FieldType, rate: Option<u64>) -> FieldDefinition {
    FieldDefinition { name: name.to_string(), field_type, rate }
}

fn object_type(name: &str, fields: Vec<FieldDefinition>) -> TypeDefinition {
    TypeDefinition { name: name.to_string(), fields }
}

fn schema(types: Vec<TypeDefinition>) -> SchemaModel {
    SchemaModel { query_type: "Query".to_string(), types }
}

fn leaf(name: &str) -> SelectionNode {
    SelectionNode { name: name.to_string(), selections: vec![] }
}

fn node(name: &str, selections: Vec<SelectionNode>) -> SelectionNode {
    SelectionNode { name: name.to_string(), selections }
}

fn object(entries: Vec<(&str, ResponseValue)>) -> ResponseValue {
    ResponseValue::Object(entries.into_iter().map(|(k, v)| (k.to_string(), v)).collect())
}

fn scalars(n: usize) -> ResponseValue {
    ResponseValue::List((0..n).map(|_| ResponseValue::Scalar).collect())
}

fn one_field_schema(name: &str, field_type: FieldType, rate: u64) -> SchemaModel {
    schema(vec![object_type("Query", vec![field(name, field_type, Some(rate))])])
}

#[test]
fn test_analyze_schema_definition() {
    let s = one_field_schema("field", named("String"), 5_000);
    let query = vec![leaf("field")];
    let input = object(vec![("field", ResponseValue::Scalar)]);
    let result = BluejaySchemaAnalyzer::analyze_schema_definition(&s, &query, &input);
    assert!(result.is_ok(), "Expected successful analysis but got an error: {:?}", result);
    assert_eq!(result.unwrap(), 1_000_000, "The scale factor did not match the expected value");
}

#[test]
fn test_analyze_schema_with_array_length_scaling() {
    let s = one_field_schema("cartLines", list_of(named("String")), 5_000);
    let query = vec![leaf("cartLines")];
    let input = object(vec![("cartLines", scalars(500))]);
    let result = BluejaySchemaAnalyzer::analyze_schema_definition(&s, &query, &input);
    assert!(result.is_ok(), "Expected successful analysis but got an error: {:?}", result);
    assert_eq!(
        result.unwrap(),
        2_500_000,
        "The scale factor did not match the expected value for array length scaling"
    );
}

#[test]
fn test_analyze_schema_with_array_length_scaling_to_max_scale_factor() {
    let s = one_field_schema("cartLines", list_of(named("String")), 5_000);
    let query = vec![leaf("cartLines")];
    let input = object(vec![("cartLines", scalars(1_000_000))]);
    let result = BluejaySchemaAnalyzer::analyze_schema_definition(&s, &query, &input);
    assert!(result.is_ok(), "Expected successful analysis but got an error: {:?}", result);
    assert_eq!(
        result.unwrap(),
        10_000_000,
        "The scale factor did not match the expected value for array length scaling"
    );
}

#[test]
fn test_no_double_counting_for_duplicate_fields_with_array() {
    let s = one_field_schema("field", list_of(named("String")), 50_000);
    let input = object(vec![("field", scalars(200))]);
    let twice = vec![leaf("field"), leaf("field")];
    let once = vec![leaf("field")];
    let result = BluejaySchemaAnalyzer::analyze_schema_definition(&s, &twice, &input);
    assert!(result.is_ok(), "Expected successful analysis but got an error: {:?}", result);
    let single = BluejaySchemaAnalyzer::analyze_schema_definition(&s, &once, &input).unwrap();
    assert_eq!(result.unwrap(), single);
    assert_eq!(single, 10_000_000);
}

#[test]
fn duplicate_selection_below_ceiling_counts_once() {
    let s = one_field_schema("field", list_of(named("String")), 10_000);
    let input = object(vec![("field", scalars(300))]);
    let twice = vec![leaf("field"), leaf("field")];
    let r = BluejaySchemaAnalyzer::analyze_schema_definition(&s, &twice, &input).unwrap();
    assert_eq!(r, 3_000_000);
}

#[test]
fn empty_query_reports_baseline() {
    let s = one_field_schema("field", named("String"), 5_000);
    let r = BluejaySchemaAnalyzer::analyze_schema_definition(&s, &vec![], &object(vec![]));
    assert_eq!(r.unwrap(), MIN_SCALE);
}

#[test]
fn unannotated_schema_reports_baseline() {
    let s = schema(vec![object_type("Query", vec![field("items", list_of(named("String")), None)])]);
    let input = object(vec![("items", scalars(5_000))]);
    let r = BluejaySchemaAnalyzer::analyze_schema_definition(&s, &vec![leaf("items")], &input);
    assert_eq!(r.unwrap(), MIN_SCALE);
}

fn cart_schema() -> SchemaModel {
    schema(vec![
        object_type("Query", vec![field("cart", named("Cart"), None)]),
        object_type("Cart", vec![field("lines", list_of(named("Line")), Some(10_000))]),
        object_type(
            "Line",
            vec![
                field("tags", list_of(named("String")), Some(20_000)),
                field("id", named("ID"), None),
            ],
        ),
    ])
}

fn line(tags: usize) -> ResponseValue {
    object(vec![("tags", scalars(tags)), ("id", ResponseValue::Scalar)])
}

#[test]
fn nested_lists_sum_every_occurrence() {
    // lines: 3 * 0.01; tags: (10 + 20 + 30) * 0.02
    let s = cart_schema();
    let query = vec![node("cart", vec![node("lines", vec![leaf("tags"), leaf("id")])])];
    let input = object(vec![("cart", object(vec![("lines", ResponseValue::List(vec![line(10), line(20), line(30)]))]))]);
    let r = BluejaySchemaAnalyzer::analyze_schema_definition(&s, &query, &input).unwrap();
    assert_eq!(r, 1_230_000);
}

#[test]
fn longer_list_never_lowers_the_factor() {
    let s = cart_schema();
    let query = vec![node("cart", vec![node("lines", vec![leaf("tags")])])];
    let short = object(vec![("cart", object(vec![("lines", ResponseValue::List(vec![line(40)]))]))]);
    let long = object(vec![("cart", object(vec![("lines", ResponseValue::List(vec![line(40), line(40)]))]))]);
    let a = BluejaySchemaAnalyzer::analyze_schema_definition(&s, &query, &short).unwrap();
    let b = BluejaySchemaAnalyzer::analyze_schema_definition(&s, &query, &long).unwrap();
    assert_eq!(a, 1_000_000);
    assert_eq!(b, 1_620_000);
    assert!(a <= b);
}

#[test]
fn merged_nested_selections_count_once() {
    let s = cart_schema();
    let once = vec![node("cart", vec![node("lines", vec![leaf("tags")])])];
    let twice = vec![
        node("cart", vec![node("lines", vec![leaf("tags")])]),
        node("cart", vec![node("lines", vec![leaf("tags")])]),
    ];
    let input = object(vec![("cart", object(vec![("lines", ResponseValue::List(vec![line(60), line(1)]))]))]);
    let a = BluejaySchemaAnalyzer::analyze_schema_definition(&s, &once, &input).unwrap();
    let b = BluejaySchemaAnalyzer::analyze_schema_definition(&s, &twice, &input).unwrap();
    assert_eq!(a, 1_240_000);
    assert_eq!(a, b);
}

#[test]
fn repeated_calls_agree() {
    let s = cart_schema();
    let query = vec![node("cart", vec![node("lines", vec![leaf("tags")])])];
    let input = object(vec![("cart", object(vec![("lines", ResponseValue::List(vec![line(70)]))]))]);
    let a = BluejaySchemaAnalyzer::analyze_schema_definition(&s, &query, &input).unwrap();
    let b = BluejaySchemaAnalyzer::analyze_schema_definition(&s, &query, &input).unwrap();
    assert_eq!(a, 1_410_000);
    assert_eq!(a, b);
}

#[test]
fn null_and_missing_values_cost_nothing() {
    let s = cart_schema();
    let query = vec![node("cart", vec![node("lines", vec![leaf("tags")])])];
    let null_cart = object(vec![("cart", ResponseValue::Null)]);
    let r = BluejaySchemaAnalyzer::analyze_schema_definition(&s, &query, &null_cart);
    assert_eq!(r.unwrap(), MIN_SCALE);
    let missing = object(vec![]);
    let r = BluejaySchemaAnalyzer::analyze_schema_definition(&s, &query, &missing);
    assert_eq!(r.unwrap(), MIN_SCALE);
}

#[test]
fn huge_rate_is_capped() {
    let s = one_field_schema("field", list_of(named("String")), u64::MAX);
    let input = object(vec![("field", scalars(3))]);
    let r = BluejaySchemaAnalyzer::analyze_schema_definition(&s, &vec![leaf("field")], &input);
    assert_eq!(r.unwrap(), MAX_SCALE);
}

#[test]
fn unknown_field_is_a_resolution_error() {
    let s = one_field_schema("field", named("String"), 5_000);
    let input = object(vec![("other", ResponseValue::Scalar)]);
    let r = BluejaySchemaAnalyzer::analyze_schema_definition(&s, &vec![leaf("other")], &input);
    match r {
        Err(AnalysisError::SchemaResolution { enclosing_type, field_name }) => {
            assert_eq!(enclosing_type, "Query");
            assert_eq!(field_name, "other");
        }
        other => panic!("unexpected {:?}", other),
    }
}

#[test]
fn list_value_for_scalar_field_is_a_shape_error() {
    let s = one_field_schema("field", named("String"), 5_000);
    let input = object(vec![("field", scalars(2))]);
    let r = BluejaySchemaAnalyzer::analyze_schema_definition(&s, &vec![leaf("field")], &input);
    match r {
        Err(AnalysisError::ShapeMismatch { field_name }) => assert_eq!(field_name, "field"),
        other => panic!("unexpected {:?}", other),
    }
}

#[test]
fn scalar_value_for_list_field_is_a_shape_error() {
    let s = one_field_schema("field", list_of(named("String")), 5_000);
    let input = object(vec![("field", ResponseValue::Scalar)]);
    let r = BluejaySchemaAnalyzer::analyze_schema_definition(&s, &vec![leaf("field")], &input);
    assert!(matches!(r, Err(AnalysisError::ShapeMismatch { .. })));
}

#[test]
fn deep_nesting_is_a_depth_error() {
    let mut v = ResponseValue::Scalar;
    for _ in 0..200 {
        v = ResponseValue::List(vec![v]);
    }
    let deep_type = (0..200).fold(named("String"), |t, _| list_of(t));
    let s2 = schema(vec![object_type("Query", vec![field("deep", deep_type, Some(1))])]);
    let input = object(vec![("deep", v)]);
    let r = BluejaySchemaAnalyzer::analyze_schema_definition(&s2, &vec![leaf("deep")], &input);
    assert!(matches!(r, Err(AnalysisError::DepthExceeded)));
}

#[test]
fn missing_query_type_is_an_error() {
    let s = SchemaModel { query_type: "Root".to_string(), types: vec![] };
    let r = BluejaySchemaAnalyzer::analyze_schema_definition(&s, &vec![], &object(vec![]));
    match r {
        Err(AnalysisError::UnknownQueryType { query_type }) => assert_eq!(query_type, "Root"),
        other => panic!("unexpected {:?}", other),
    }
}

#[test]
fn longer_top_level_list_never_lowers_the_factor() {
    let s = one_field_schema("cartLines", list_of(named("String")), 5_000);
    let query = vec![leaf("cartLines")];
    let mut last = 0;
    for n in [0usize, 100, 199, 200, 201, 500, 2_000, 3_000] {
        let input = object(vec![("cartLines", scalars(n))]);
        let r = BluejaySchemaAnalyzer::analyze_schema_definition(&s, &query, &input).unwrap();
        assert!(r >= last);
        last = r;
    }
    assert_eq!(last, MAX_SCALE);
}

#[test]
fn repeated_nested_selection_counts_once() {
    let s = cart_schema();
    let once = vec![node("cart", vec![node("lines", vec![leaf("tags")])])];
    let repeated = vec![node("cart", vec![node("lines", vec![leaf("tags"), leaf("tags"), leaf("tags")])])];
    let input = object(vec![("cart", object(vec![("lines", ResponseValue::List(vec![line(50), line(50)]))]))]);
    let a = BluejaySchemaAnalyzer::analyze_schema_definition(&s, &once, &input).unwrap();
    let b = BluejaySchemaAnalyzer::analyze_schema_definition(&s, &repeated, &input).unwrap();
    assert_eq!(a, 2_020_000);
    assert_eq!(a, b);
}
