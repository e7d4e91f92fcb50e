use schema_harvester::equality::{is_canonical, node_eq};
use schema_harvester::merge::string::merge as merge_strings;
use schema_harvester::{
    merge_hypothesis, merge_node_type, AnyNode, ArrayNode, Format, IntegerNode, NodeType,
    NumberNode, ObjectNode, ObjectProperty, SchemaHypothesis, StringNode,
};

fn string() -> NodeType {
    StringNode::default().into()
}

fn integer() -> NodeType {
    IntegerNode::new().into()
}

fn hypothesis(root: NodeType) -> SchemaHypothesis {
    SchemaHypothesis {
        id: "id".to_string(),
        title: "title".to_string(),
        description: "description".to_string(),
        root: Some(root),
    }
}

fn object(properties: Vec<(&str, ObjectProperty)>) -> ObjectNode {
    ObjectNode::new(properties.into_iter().map(|(k, v)| (k.to_string(), v)).collect())
}

#[test]
fn merge_test_merge_string() {
    let a = hypothesis(string());
    let b = hypothesis(string());

    let actual = merge_hypothesis(a, b);

    assert_eq!(actual, hypothesis(string()));
}

#[test]
fn merge_test_merge_array_without_types() {
    let a: NodeType = ArrayNode::new_many(vec![]).into();
    let b: NodeType = ArrayNode::new_many(vec![]).into();

    assert_eq!(merge_node_type(a, b), ArrayNode::new_many(vec![]).into());
}

#[test]
fn merge_test_merge_array_with_same_types() {
    let a: NodeType = ArrayNode::new_many(vec![integer()]).into();
    let b: NodeType = ArrayNode::new_many(vec![integer()]).into();

    assert_eq!(merge_node_type(a, b), ArrayNode::new_many(vec![integer()]).into());
}

#[test]
fn merge_test_merge_array_with_one_empty_one_given() {
    let a: NodeType = ArrayNode::new_many(vec![]).into();
    let b: NodeType = ArrayNode::new_many(vec![integer()]).into();

    assert_eq!(merge_node_type(a, b), ArrayNode::new_many(vec![integer()]).into());
}

#[test]
fn merge_test_merge_array_with_different_types() {
    let a: NodeType = ArrayNode::new_many(vec![integer(), string()]).into();
    let b: NodeType = ArrayNode::new_many(vec![integer(), NodeType::Boolean]).into();

    assert_eq!(
        merge_node_type(a, b),
        ArrayNode::new_many(vec![integer(), string(), NodeType::Boolean]).into()
    );
}

#[test]
fn merge_test_merge_object_additional_property_b() {
    let a = hypothesis(object(vec![("id", ObjectProperty { required: true, node_type: string() })]).into());
    let b = hypothesis(
        object(vec![
            ("id", ObjectProperty { required: true, node_type: string() }),
            ("name", ObjectProperty { required: true, node_type: string() }),
        ])
        .into(),
    );

    let actual = merge_hypothesis(a, b);
    let expected = hypothesis(
        object(vec![
            ("id", ObjectProperty { required: true, node_type: string() }),
            ("name", ObjectProperty { required: false, node_type: string() }),
        ])
        .into(),
    );

    assert_eq!(actual, expected);
}

#[test]
fn merge_test_merge_object_property_missing_in_b() {
    let a = hypothesis(
        object(vec![
            ("id", ObjectProperty { required: true, node_type: string() }),
            ("name", ObjectProperty { required: true, node_type: string() }),
        ])
        .into(),
    );
    let b = hypothesis(object(vec![("id", ObjectProperty { required: true, node_type: string() })]).into());

    let actual = merge_hypothesis(a, b);
    let expected = hypothesis(
        object(vec![
            ("id", ObjectProperty { required: true, node_type: string() }),
            ("name", ObjectProperty { required: false, node_type: string() }),
        ])
        .into(),
    );

    assert_eq!(actual, expected);
}

#[test]
fn merge_test_merge_different_types() {
    let actual = merge_node_type(string(), integer());

    assert_eq!(actual, AnyNode::new(vec![string(), integer()]).into());
}

#[test]
fn merge_test_merge_any_and_type() {
    let a = AnyNode::new(vec![integer()]).into();
    let b = string();

    let actual = merge_node_type(a, b);

    assert_eq!(actual, AnyNode::new(vec![integer(), string()]).into());
}

#[test]
fn merge_test_merge_type_and_any() {
    let a = string();
    let b = AnyNode::new(vec![integer()]).into();

    let actual = merge_node_type(a, b);

    assert_eq!(actual, AnyNode::new(vec![integer(), string()]).into());
}

#[test]
fn merge_test_merge_existing_type_and_any() {
    let a = AnyNode::new(vec![string(), integer()]).into();
    let b = string();

    let actual = merge_node_type(a, b);

    assert_eq!(actual, AnyNode::new(vec![string(), integer()]).into());
}

#[test]
fn mod_test_merge_string() {
    let a = StringNode::default();
    let b = StringNode::default();

    let actual = merge_node_type(a.into(), b.into());

    assert_eq!(actual, StringNode::default().into());
}

#[test]
fn test_merge_string_with_same_format() {
    let a = StringNode::new(Some(Format::DateTime));
    let b = StringNode::new(Some(Format::DateTime));

    let actual = merge_node_type(a.into(), b.into());

    assert_eq!(actual, StringNode::new(Some(Format::DateTime)).into());
}

#[test]
fn test_merge_string_with_different_format() {
    let a = StringNode::new(Some(Format::DateTime));
    let b = StringNode::new(Some(Format::Time));

    let actual = merge_node_type(a.into(), b.into());

    assert_eq!(
        actual,
        AnyNode::new(vec![
            StringNode::new(Some(Format::DateTime)).into(),
            StringNode::new(Some(Format::Time)).into()
        ])
        .into()
    );
    match actual {
        NodeType::Any(union) => assert_eq!(
            union.nodes,
            vec![
                NodeType::String(StringNode { format: Some(Format::DateTime) }),
                NodeType::String(StringNode { format: Some(Format::Time) }),
            ]
        ),
        other => panic!("{:?}", other),
    }
}

#[test]
fn test_merge_string_with_format_and_no_format() {
    let a = StringNode::new(Some(Format::DateTime));
    let b = StringNode::new(None);

    let actual = merge_node_type(a.into(), b.into());

    assert_eq!(actual, StringNode::default().into());
}

#[test]
fn mod_test_merge_array_without_types() {
    let a = ArrayNode::new_untyped();
    let b = ArrayNode::new_untyped();

    assert_eq!(merge_node_type(a.into(), b.into()), ArrayNode::new_untyped().into());
}

#[test]
fn mod_test_merge_array_with_same_types() {
    let a = ArrayNode::new_many(vec![integer()]);
    let b = ArrayNode::new_many(vec![integer()]);

    assert_eq!(merge_node_type(a.into(), b.into()), ArrayNode::new_many(vec![integer()]).into());
}

#[test]
fn mod_test_merge_array_with_one_empty_one_given() {
    let a = ArrayNode::new_untyped();
    let b = ArrayNode::new_many(vec![integer()]);

    assert_eq!(merge_node_type(a.into(), b.into()), ArrayNode::new_many(vec![integer()]).into());
}

#[test]
fn mod_test_merge_array_with_different_types() {
    let a = ArrayNode::new_many(vec![integer(), string()]).into();
    let b = ArrayNode::new_many(vec![integer(), NodeType::Boolean]).into();

    assert_eq!(
        merge_node_type(a, b),
        ArrayNode::new_many(vec![integer(), string(), NodeType::Boolean]).into()
    );
}

#[test]
fn test_merge_array_with_objects() {
    let a = ArrayNode::new_many(vec![object(vec![(
        "id",
        ObjectProperty { node_type: integer(), required: true },
    )])
    .into()]);
    let b = ArrayNode::new_many(vec![object(vec![(
        "name",
        ObjectProperty { node_type: string(), required: true },
    )])
    .into()]);

    assert_eq!(
        merge_node_type(a.into(), b.into()),
        ArrayNode::new_many(vec![object(vec![
            ("id", ObjectProperty { node_type: integer(), required: false }),
            ("name", ObjectProperty { node_type: string(), required: false }),
        ])
        .into()])
        .into()
    );
}

#[test]
fn mod_test_merge_object_additional_property_b() {
    let a = object(vec![("id", ObjectProperty::new(string()))]);
    let b = object(vec![
        ("id", ObjectProperty::new(string())),
        ("name", ObjectProperty::new(string())),
    ]);

    let actual = merge_node_type(a.into(), b.into());

    let expected = object(vec![
        ("id", ObjectProperty::new(string())),
        ("name", ObjectProperty::new(string()).optional()),
    ])
    .into();

    assert_eq!(actual, expected);
}

#[test]
fn mod_test_merge_object_property_missing_in_b() {
    let a = object(vec![
        ("id", ObjectProperty::new(string())),
        ("name", ObjectProperty::new(string())),
    ]);
    let b = object(vec![("id", ObjectProperty::new(string()))]);

    let actual = merge_node_type(a.into(), b.into());
    let expected = object(vec![
        ("id", ObjectProperty::new(string())),
        ("name", ObjectProperty::new(string()).optional()),
    ])
    .into();

    assert_eq!(actual, expected);
}

#[test]
fn mod_test_merge_different_types() {
    let a = StringNode::default().into();
    let b = IntegerNode::new().into();

    let actual = merge_node_type(a, b);

    assert_eq!(actual, AnyNode::new(vec![string(), integer()]).into());
}

#[test]
fn mod_test_merge_any_and_type() {
    let a = AnyNode::new(vec![integer()]).into();
    let b = StringNode::default().into();

    let actual = merge_node_type(a, b);

    assert_eq!(actual, AnyNode::new(vec![integer(), string()]).into());
}

#[test]
fn mod_test_merge_type_and_any() {
    let a = StringNode::default().into();
    let b = AnyNode::new(vec![integer()]).into();

    let actual = merge_node_type(a, b);

    assert_eq!(actual, AnyNode::new(vec![integer(), string()]).into());
}

#[test]
fn mod_test_merge_existing_type_and_any() {
    let a = AnyNode::new(vec![string(), integer()]).into();
    let b = StringNode::default().into();

    let actual = merge_node_type(a, b);

    assert_eq!(actual, AnyNode::new(vec![string(), integer()]).into());
}

fn samples() -> Vec<NodeType> {
    vec![
        NodeType::Null,
        NodeType::Boolean,
        integer(),
        NumberNode::new().into(),
        string(),
        StringNode::formatted(Format::Date).into(),
        StringNode::formatted(Format::Uuid).into(),
        ArrayNode::new_untyped().into(),
        ArrayNode::new(integer()).into(),
        ArrayNode::new_many(vec![integer(), string()]).into(),
        object(vec![]).into(),
        object(vec![("id", ObjectProperty::new(integer()))]).into(),
        object(vec![("id", ObjectProperty::new(string())), ("name", ObjectProperty::new(string()))])
            .into(),
        AnyNode::new(vec![]).into(),
        AnyNode::new(vec![integer()]).into(),
        AnyNode::new(vec![StringNode::formatted(Format::Date).into(), NodeType::Null]).into(),
        AnyNode::new(vec![object(vec![("a", ObjectProperty::new(integer()))]).into(), string()])
            .into(),
    ]
}

#[test]
fn merge_is_idempotent() {
    for t in samples() {
        assert_eq!(merge_node_type(t.clone(), t.clone()), t);
    }
}

#[test]
fn merge_is_commutative() {
    for a in samples() {
        for b in samples() {
            assert_eq!(
                merge_node_type(a.clone(), b.clone()),
                merge_node_type(b.clone(), a.clone()),
                "{:?} {:?}",
                a,
                b
            );
        }
    }
}

#[test]
fn required_is_never_regained() {
    let first: NodeType = object(vec![("id", ObjectProperty::new(integer()))]).into();
    let second: NodeType =
        object(vec![("id", ObjectProperty::new(integer())), ("name", ObjectProperty::new(string()))])
            .into();
    let expected: NodeType = object(vec![
        ("id", ObjectProperty::new(integer())),
        ("name", ObjectProperty::new(string()).optional()),
    ])
    .into();

    let merged = merge_node_type(first.clone(), second);
    assert_eq!(merged, expected);

    let again = merge_node_type(merged, first);
    assert_eq!(again, expected);
}

#[test]
fn unions_hold_one_member_of_a_kind() {
    let a: NodeType = AnyNode::new(vec![integer()]).into();
    assert_eq!(merge_node_type(a, string()), AnyNode::new(vec![integer(), string()]).into());

    let a: NodeType =
        AnyNode::new(vec![object(vec![("a", ObjectProperty::new(integer()))]).into()]).into();
    let b: NodeType = object(vec![("b", ObjectProperty::new(string()))]).into();
    let merged = merge_node_type(a, b);
    match &merged {
        NodeType::Any(union) => {
            assert_eq!(union.nodes.len(), 1);
            assert_eq!(
                union.nodes[0],
                object(vec![
                    ("a", ObjectProperty::new(integer()).optional()),
                    ("b", ObjectProperty::new(string()).optional()),
                ])
                .into()
            );
        }
        other => panic!("{:?}", other),
    }
}

#[test]
fn union_members_stand_in_the_order_of_their_kinds() {
    let union = AnyNode::new(vec![
        AnyNode::new(vec![integer()]).into(),
        object(vec![]).into(),
        ArrayNode::new_untyped().into(),
        StringNode::formatted(Format::Uuid).into(),
        StringNode::formatted(Format::DateTime).into(),
        NumberNode::new().into(),
        integer(),
        NodeType::Boolean,
        NodeType::Null,
        integer(),
    ]);
    assert_eq!(
        union.nodes,
        vec![
            NodeType::Null,
            NodeType::Boolean,
            integer(),
            NumberNode::new().into(),
            StringNode::formatted(Format::DateTime).into(),
            StringNode::formatted(Format::Uuid).into(),
            ArrayNode::new_untyped().into(),
            object(vec![]).into(),
            AnyNode::new(vec![integer()]).into(),
        ]
    );
}

#[test]
fn an_unformatted_string_takes_the_place_of_formatted_ones() {
    let dates = merge_node_type(
        StringNode::formatted(Format::Date).into(),
        StringNode::formatted(Format::Time).into(),
    );
    assert_eq!(merge_node_type(dates.clone(), string()), AnyNode::new(vec![string()]).into());
    assert_eq!(merge_node_type(string(), dates), AnyNode::new(vec![string()]).into());
    assert_eq!(
        AnyNode::new(vec![string(), StringNode::formatted(Format::Date).into()]).nodes,
        vec![string()]
    );
}

#[test]
fn strings_merge_by_format() {
    assert_eq!(
        merge_strings(StringNode::formatted(Format::Date), StringNode::formatted(Format::Date)),
        StringNode::formatted(Format::Date).into()
    );
    assert_eq!(merge_strings(StringNode::formatted(Format::Date), StringNode::default()), string());
    assert_eq!(merge_strings(StringNode::default(), StringNode::formatted(Format::Date)), string());
    assert_eq!(
        merge_strings(StringNode::formatted(Format::Uuid), StringNode::formatted(Format::Date)),
        NodeType::Any(AnyNode {
            nodes: vec![
                StringNode::formatted(Format::Date).into(),
                StringNode::formatted(Format::Uuid).into()
            ]
        })
    );
}

#[test]
fn objects_keep_their_properties_in_order_of_the_names() {
    let node = object(vec![
        ("b", ObjectProperty::new(integer())),
        ("a", ObjectProperty::new(string())),
        ("b", ObjectProperty::new(NodeType::Null)),
    ]);
    assert_eq!(
        node.properties,
        vec![
            ("a".to_string(), ObjectProperty::new(string())),
            ("b".to_string(), ObjectProperty::new(NodeType::Null)),
        ]
    );
}

#[test]
fn a_hypothesis_takes_the_first_type_as_it_is() {
    let start = SchemaHypothesis::new("id".to_string(), "title".to_string(), "description".to_string());
    assert_eq!(start.root, None);
    let one = start.merge(integer());
    assert_eq!(one.root, Some(integer()));
    assert_eq!(one.id, "id");
    assert_eq!(one.title, "title");
    assert_eq!(one.description, "description");
    let same = one.clone().merge(integer());
    assert!(!same.differs_from(&one));
    let two = one.clone().merge(string());
    assert!(two.differs_from(&one));
    assert_eq!(two.root, Some(AnyNode::new(vec![integer(), string()]).into()));
}

#[test]
fn canonical_form_is_checked() {
    for t in samples() {
        assert!(is_canonical(&t), "{:?}", t);
        assert!(node_eq(&t, &t.clone()));
    }
    let unsorted = NodeType::Object(ObjectNode {
        properties: vec![
            ("b".to_string(), ObjectProperty::new(integer())),
            ("a".to_string(), ObjectProperty::new(integer())),
        ],
    });
    assert!(!is_canonical(&unsorted));
    let twice = NodeType::Any(AnyNode { nodes: vec![integer(), integer()] });
    assert!(!is_canonical(&twice));
    let backwards = NodeType::Any(AnyNode { nodes: vec![string(), integer()] });
    assert!(!is_canonical(&backwards));
    let both = NodeType::Any(AnyNode {
        nodes: vec![string(), StringNode::formatted(Format::Date).into()],
    });
    assert!(!is_canonical(&both));
    let inside = NodeType::Array(ArrayNode { items: Some(Box::new(twice)) });
    assert!(!is_canonical(&inside));
    assert!(!node_eq(&integer(), &string()));
    assert!(!node_eq(
        &object(vec![("a", ObjectProperty::new(integer()))]).into(),
        &object(vec![("a", ObjectProperty::new(integer()).optional())]).into()
    ));
}

#[test]
fn types_sort_by_their_variant_first() {
    let mut nodes = vec![
        AnyNode::new(vec![]).into(),
        object(vec![]).into(),
        ArrayNode::new(integer()).into(),
        ArrayNode::new_untyped().into(),
        StringNode::formatted(Format::Uuid).into(),
        StringNode::formatted(Format::Time).into(),
        StringNode::formatted(Format::Date).into(),
        StringNode::formatted(Format::DateTime).into(),
        string(),
        NumberNode::new().into(),
        integer(),
        NodeType::Boolean,
        NodeType::Null,
    ];
    let mut expected: Vec<NodeType> = nodes.clone();
    expected.reverse();
    nodes.sort();
    assert_eq!(nodes, expected);
}
