use schema_harvester::generate::generate_node_type_for_array_values;
use schema_harvester::{
    generate, AnyNode, ArrayNode, Format, IntegerNode, Json, NodeType, NumberNode, ObjectNode,
    ObjectProperty, StringNode,
};

fn text(s: &str) -> Json {
    Json::String(s.to_string())
}

fn object(entries: Vec<(&str, Json)>) -> Json {
    Json::Object(entries.into_iter().map(|(k, v)| (k.to_string(), v)).collect())
}

fn string() -> NodeType {
    StringNode::default().into()
}

fn integer() -> NodeType {
    IntegerNode::new().into()
}

#[test]
fn test_null() {
    let dom = Json::Null;
    assert_eq!(generate(&dom), NodeType::Null);
}

#[test]
fn test_bool() {
    let dom = Json::Bool(true);
    assert_eq!(generate(&dom), NodeType::Boolean);
}

#[test]
fn test_integer() {
    let dom = Json::Integer(10);
    assert_eq!(generate(&dom), IntegerNode::new().into());
}

#[test]
fn test_number() {
    let dom = Json::Float(10.5f64.to_bits());
    assert_eq!(generate(&dom), NumberNode::new().into());
}

#[test]
fn test_string() {
    let dom = text("Schema-harvester");
    assert_eq!(generate(&dom), StringNode::default().into());
}

#[test]
fn test_array_merge_objects() {
    let dom = Json::Array(vec![
        text("one"),
        Json::Integer(1),
        object(vec![("a", Json::Integer(1))]),
        object(vec![("a", text("1"))]),
    ]);
    let actual = generate(&dom);
    let expected = ArrayNode::new_many(vec![
        string(),
        integer(),
        ObjectNode::new(vec![(
            "a".to_string(),
            ObjectProperty {
                required: true,
                node_type: AnyNode::new(vec![string(), integer()]).into(),
            },
        )])
        .into(),
    ])
    .into();

    assert_eq!(actual, expected);
}

#[test]
fn test_array_all_int() {
    let dom = Json::Array(vec![Json::Integer(10), Json::Integer(15), Json::Integer(25)]);
    assert_eq!(generate(&dom), ArrayNode::new(IntegerNode::new().into()).into());
}

#[test]
fn test_array_empty() {
    let dom = Json::Array(vec![]);
    assert_eq!(generate(&dom), ArrayNode::default().into());
}

#[test]
fn test_array_int_and_string() {
    let dom = Json::Array(vec![Json::Integer(42), text("Hello")]);

    assert_eq!(generate(&dom), ArrayNode::new_many(vec![integer(), string()]).into());
}

#[test]
fn generate_test_object() {
    let dom = object(vec![("name", text("Schokoladenbrunnen")), ("length", Json::Integer(100))]);
    let expected = ObjectNode::new(vec![
        ("name".to_string(), ObjectProperty::new(string())),
        ("length".to_string(), ObjectProperty::new(integer())),
    ])
    .into();

    assert_eq!(generate(&dom), expected);
}

#[test]
fn strings_carry_their_format() {
    assert_eq!(generate(&text("2023-01-01")), StringNode::formatted(Format::Date).into());
    assert_eq!(generate(&text("23:59:60Z")), StringNode::formatted(Format::Time).into());
    assert_eq!(
        generate(&text("2000-01-01T00:00:00.000Z")),
        StringNode::formatted(Format::DateTime).into()
    );
    assert_eq!(
        generate(&text("f3fa7e18-549f-4ee1-8aeb-1bb8cbf7e956")),
        StringNode::formatted(Format::Uuid).into()
    );
    assert_eq!(generate(&text("2023-02-29")), string());
}

#[test]
fn a_later_entry_of_the_same_name_wins() {
    let dom = object(vec![("a", Json::Integer(1)), ("a", text("x"))]);
    assert_eq!(
        generate(&dom),
        ObjectNode::new(vec![("a".to_string(), ObjectProperty::new(string()))]).into()
    );
}

#[test]
fn array_elements_fold_into_one_item() {
    let values = vec![text("2023-01-01"), text("plain"), Json::Null, Json::Array(vec![])];
    assert_eq!(
        generate_node_type_for_array_values(&values),
        NodeType::Any(AnyNode {
            nodes: vec![NodeType::Null, string(), ArrayNode::new_untyped().into()]
        })
    );
    let nested = vec![Json::Array(vec![Json::Integer(1)]), Json::Array(vec![text("1")])];
    assert_eq!(
        generate_node_type_for_array_values(&nested),
        ArrayNode::new_many(vec![integer(), string()]).into()
    );
    assert_eq!(generate_node_type_for_array_values(&vec![Json::Bool(false)]), NodeType::Boolean);
}
