use schema_harvester::render::format_str;
use schema_harvester::{
    generate, merge_node_type, render, render_json_schema, AnyNode, ArrayNode, Format,
    IntegerNode, Json, NodeType, NumberNode, ObjectNode, ObjectProperty, SchemaHypothesis,
    StringNode,
};
use serde_json::Value;

fn to_value(doc: &Json) -> Value {
    match doc {
        Json::Null => Value::Null,
        Json::Bool(b) => Value::Bool(*b),
        Json::Integer(i) => match i64::try_from(*i) {
            Ok(small) => Value::from(small),
            Err(_) => Value::from(*i as u64),
        },
        Json::Float(bits) => Value::from(f64::from_bits(*bits)),
        Json::String(s) => Value::String(s.clone()),
        Json::Array(items) => Value::Array(items.iter().map(to_value).collect()),
        Json::Object(entries) => {
            let mut map = serde_json::Map::new();
            for (key, value) in entries {
                map.insert(key.clone(), to_value(value));
            }
            Value::Object(map)
        }
    }
}

fn from_value(value: &Value) -> Json {
    match value {
        Value::Null => Json::Null,
        Value::Bool(b) => Json::Bool(*b),
        Value::Number(n) if n.is_f64() => Json::Float(n.as_f64().unwrap().to_bits()),
        Value::Number(n) => match n.as_i64() {
            Some(i) => Json::Integer(i as i128),
            None => Json::Integer(n.as_u64().unwrap() as i128),
        },
        Value::String(s) => Json::String(s.clone()),
        Value::Array(items) => Json::Array(items.iter().map(from_value).collect()),
        Value::Object(map) => {
            Json::Object(map.iter().map(|(k, v)| (k.clone(), from_value(v))).collect())
        }
    }
}

fn parse(text: &str) -> Value {
    serde_json::from_str(text).unwrap()
}

fn string() -> NodeType {
    StringNode::default().into()
}

fn integer() -> NodeType {
    IntegerNode::new().into()
}

fn generate_hypothesis(dom: &Value) -> SchemaHypothesis {
    SchemaHypothesis {
        id: "https:://github.com/elmarx/schema-harvester".to_string(),
        title: "Sample".to_string(),
        description: "Auto-generated schema".to_string(),
        root: Some(generate(&from_value(dom))),
    }
}

#[test]
fn test_any() {
    let node_type: NodeType = AnyNode::new(vec![string(), NodeType::Boolean]).into();

    let actual = to_value(&render(&node_type));

    assert_eq!(actual, parse(r#"{"anyOf": [{"type": "boolean"}, {"type": "string"}]}"#));
}

#[test]
fn test_any_one() {
    let node_type: NodeType = AnyNode::new(vec![string()]).into();

    let actual = to_value(&render(&node_type));

    assert_eq!(actual, parse(r#"{"anyOf": [{"type": "string"}]}"#));
}

#[test]
fn test_any_empty() {
    let node_type: NodeType = AnyNode::new(vec![]).into();

    let actual = to_value(&render(&node_type));

    assert_eq!(actual, parse(r#"{"anyOf": []}"#));
}

#[test]
fn test_any_complex_types() {
    let node_type: NodeType = AnyNode::new(vec![ObjectNode::new(vec![(
        "id".to_string(),
        ObjectProperty::new(integer()),
    )])
    .into()])
    .into();

    let actual = to_value(&render(&node_type));

    assert_eq!(
        actual,
        parse(
            r#"{"anyOf": [{"type": "object", "properties": {"id": {"type": "integer"}}, "required": ["id"]}]}"#
        )
    );
}

#[test]
fn test_array() {
    let hypothesis: NodeType = ArrayNode::new_many(vec![string(), integer()]).into();

    let actual = to_value(&render(&hypothesis));

    assert_eq!(
        actual,
        parse(r#"{"type": "array", "items": {"anyOf": [{"type": "integer"}, {"type": "string"}]}}"#)
    );
}

#[test]
fn test_array_single_type() {
    let hypothesis: NodeType = ArrayNode::new(string()).into();

    let actual = to_value(&render(&hypothesis));

    assert_eq!(actual, parse(r#"{"type": "array", "items": {"type": "string"}}"#));
}

#[test]
fn test_empty_array() {
    let hypothesis: NodeType = ArrayNode::default().into();

    let actual = to_value(&render(&hypothesis));

    assert_eq!(actual, parse(r#"{"type": "array"}"#));
}

#[test]
fn object_test_object() {
    let hypothesis: NodeType =
        ObjectNode::new(vec![("name".to_string(), ObjectProperty::new(string()))]).into();

    let actual = to_value(&render(&hypothesis));

    assert_eq!(
        actual,
        parse(r#"{"type": "object", "required": ["name"], "properties": {"name": {"type": "string"}}}"#)
    );
}

#[test]
fn test_render_schema() {
    let sample =
        SchemaHypothesis::new("id".to_owned(), "title".to_owned(), "description".to_owned());
    let actual = to_value(&render_json_schema(&sample));
    assert_eq!(
        actual,
        parse(
            r#"{"$schema": "http://json-schema.org/draft-07/schema#", "$id": "id", "title": "title", "description": "description"}"#
        )
    );
}

#[test]
fn render_string_without_type() {
    let node: NodeType = StringNode::default().into();

    let actual = to_value(&render(&node));

    assert_eq!(actual, parse(r#"{"type": "string"}"#));
}

#[test]
fn render_string_with_type() {
    let node: NodeType = StringNode::new(Some(Format::DateTime)).into();

    let actual = to_value(&render(&node));

    assert_eq!(actual, parse(r#"{"type": "string", "format": "date-time"}"#));
}

#[test]
fn test_distinct_object() {
    let document = parse(
        r#"[
      {
        "name": "BatchManagementRequirement",
        "value": false,
        "inputHint": "SINGLE_LINE",
        "label": {
          "de": "Batch Management Requirement",
          "en": "Batch Management Requirement"
        }
      },
      {
        "name": "Brand",
        "value": "MAGGI",
        "inputHint": "SINGLE_LINE",
        "label": {
          "en": "Brand",
          "de": "Marke (DSD)"
        }
      }
    ]"#,
    );

    let schema = generate_hypothesis(&document);

    let schema_json = to_value(&render_json_schema(&schema));

    let expected = parse(
        r#"{
        "$id": "https:://github.com/elmarx/schema-harvester",
        "$schema": "http://json-schema.org/draft-07/schema#",
        "title": "Sample",
        "description": "Auto-generated schema",
      "type": "array",
      "items": {
        "properties": {
          "inputHint": {
            "type": "string"
          },
          "label": {
            "properties": {
              "de": {
                "type": "string"
              },
              "en": {
                "type": "string"
              }
            },
            "required": [
              "de",
              "en"
            ],
            "type": "object"
          },
          "name": {
            "type": "string"
          },
          "value": {"anyOf": [{"type": "boolean"}, {"type": "string"}]}
        },
        "required": [
          "inputHint",
          "label",
          "name",
          "value"
        ],
        "type": "object"
      }
    }"#,
    );

    assert_eq!(schema_json, expected);
}

#[test]
fn test_single_object() {
    let document = parse(
        r#"[
      {
        "value": [
        {
          "id": 1
        }, {
          "name": "irgendwas"
        },
        "string",
        true,
        5
      ]
      }
    ]"#,
    );

    let schema = generate_hypothesis(&document);

    let schema_json = to_value(&render_json_schema(&schema));

    let expected = parse(
        r#"{
        "$id": "https:://github.com/elmarx/schema-harvester",
        "$schema": "http://json-schema.org/draft-07/schema#",
        "title": "Sample",
        "description": "Auto-generated schema",
      "type": "array",
      "items": {
        "properties": {
          "value": {
            "type": "array",
            "items": {
              "anyOf": [
                {"type": "boolean"},
                {"type": "integer"},
                {"type": "string"},
                {
                   "type": "object",
                    "properties": {
                      "id": { "type": "integer" },
                      "name": { "type": "string"}
                    },
                    "required": []
                }
              ]
            }
          }
        },
        "required": [
          "value"
        ],
        "type": "object"
      }
    }"#,
    );

    assert_eq!(schema_json, expected, "{}", serde_json::to_string_pretty(&schema_json).unwrap());
}

#[test]
fn test_single_nested_object() {
    let document = parse(
        r#"[
        {
           "value": "some string"
        },
        {
            "value": 42
        },
        {
            "value": {
                "a": "aaa"
            }
        },
        {
            "value": {
                "b": 111
            }
        }
    ]"#,
    );

    let schema = generate_hypothesis(&document);

    let schema_json = to_value(&render_json_schema(&schema));

    let expected = parse(
        r#"{
        "$id": "https:://github.com/elmarx/schema-harvester",
        "$schema": "http://json-schema.org/draft-07/schema#",
        "title": "Sample",
        "description": "Auto-generated schema",
          "type": "array",
          "items": {
              "type": "object",
              "properties": {
                  "value": {
                      "anyOf": [
                          {"type": "integer"},
                          {"type": "string"},
                          {
                             "type": "object",
                              "properties": {
                                "a": { "type": "string" },
                                "b": { "type": "integer"}
                              },
                              "required": []
                          }
                      ]
                  }
              },
              "required": ["value"]
          }
    }"#,
    );

    assert_eq!(schema_json, expected, "{}", serde_json::to_string_pretty(&schema_json).unwrap());
}

#[test]
fn test_array_merging() {
    let document = parse(r#"[[1], ["1"]]"#);

    let schema = generate_hypothesis(&document);

    let schema_json = to_value(&render_json_schema(&schema));

    let expected = parse(
        r#"{
        "$id": "https:://github.com/elmarx/schema-harvester",
        "$schema": "http://json-schema.org/draft-07/schema#",
        "title": "Sample",
        "description": "Auto-generated schema",
          "type": "array",
          "items": {
              "type": "array",
              "items": {"anyOf": [
                {"type": "integer"},
                {"type": "string"}
            ]}
          }
    }"#,
    );

    assert_eq!(schema_json, expected, "{}", serde_json::to_string_pretty(&schema_json).unwrap());
}

#[test]
fn arrays_observed_one_after_the_other_merge_their_items() {
    let first = generate(&from_value(&parse("[1]")));
    let second = generate(&from_value(&parse(r#"["1"]"#)));
    let merged = merge_node_type(first, second);
    assert_eq!(
        to_value(&render(&merged)),
        parse(r#"{"type":"array","items":{"anyOf":[{"type":"integer"},{"type":"string"}]}}"#)
    );
}

#[test]
fn an_empty_array_has_no_items_until_an_element_is_seen() {
    let empty = generate(&from_value(&parse("[]")));
    assert_eq!(to_value(&render(&empty)), parse(r#"{"type":"array"}"#));
    let still_empty = merge_node_type(empty, generate(&from_value(&parse("[]"))));
    assert_eq!(to_value(&render(&still_empty)), parse(r#"{"type":"array"}"#));
    let filled = merge_node_type(still_empty, generate(&from_value(&parse("[1.5]"))));
    assert_eq!(to_value(&render(&filled)), parse(r#"{"type":"array","items":{"type":"number"}}"#));
    let wider = merge_node_type(filled, generate(&from_value(&parse("[null, []]"))));
    assert_eq!(
        to_value(&render(&wider)),
        parse(
            r#"{"type":"array","items":{"anyOf":[{"type":"null"},{"type":"number"},{"type":"array"}]}}"#
        )
    );
}

#[test]
fn scalars_render_as_their_type() {
    assert_eq!(to_value(&render(&NodeType::Null)), parse(r#"{"type":"null"}"#));
    assert_eq!(to_value(&render(&NodeType::Boolean)), parse(r#"{"type":"boolean"}"#));
    assert_eq!(to_value(&render(&integer())), parse(r#"{"type":"integer"}"#));
    assert_eq!(to_value(&render(&NumberNode::new().into())), parse(r#"{"type":"number"}"#));
}

#[test]
fn formats_are_named_in_kebab_case() {
    assert_eq!(format_str(Format::DateTime), "date-time");
    assert_eq!(format_str(Format::Date), "date");
    assert_eq!(format_str(Format::Time), "time");
    assert_eq!(format_str(Format::Uuid), "uuid");
}

#[test]
fn entries_stand_in_a_fixed_order() {
    let node: NodeType = ObjectNode::new(vec![
        ("b".to_string(), ObjectProperty::new(integer()).optional()),
        ("a".to_string(), ObjectProperty::new(StringNode::formatted(Format::Uuid).into())),
    ])
    .into();
    let type_of = |name: &str| ("type".to_string(), Json::String(name.to_string()));
    assert_eq!(
        render(&node),
        Json::Object(vec![
            (
                "properties".to_string(),
                Json::Object(vec![
                    (
                        "a".to_string(),
                        Json::Object(vec![
                            ("format".to_string(), Json::String("uuid".to_string())),
                            type_of("string"),
                        ])
                    ),
                    ("b".to_string(), Json::Object(vec![type_of("integer")])),
                ])
            ),
            ("required".to_string(), Json::Array(vec![Json::String("a".to_string())])),
            type_of("object"),
        ])
    );
    let hypothesis = SchemaHypothesis::new("i".to_string(), "t".to_string(), "d".to_string())
        .merge(NodeType::Null);
    assert_eq!(
        render_json_schema(&hypothesis),
        Json::Object(vec![
            (
                "$schema".to_string(),
                Json::String("http://json-schema.org/draft-07/schema#".to_string())
            ),
            ("$id".to_string(), Json::String("i".to_string())),
            ("title".to_string(), Json::String("t".to_string())),
            ("description".to_string(), Json::String("d".to_string())),
            type_of("null"),
        ])
    );
}
