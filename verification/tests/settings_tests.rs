use schema_harvester::settings::{
    kafka_sink_source_from_env, rdkafka_prop, sink_properties, source_properties, visible_topics,
    Kafka, KafkaPropertyValue, KafkaSink, KafkaSource,
};
use schema_harvester::utils::{insert_if_absent, position, upsert};

fn pairs(list: Vec<(&str, &str)>) -> Vec<(String, String)> {
    list.into_iter().map(|(k, v)| (k.to_string(), v.to_string())).collect()
}

#[test]
fn test_kafka_sink_source_merges_into_defaults() {
    let env_vars = vec![
        ("XYZ".to_string(), "short".to_string()),
        ("KAFKA_BOOTSTRAP_SERVERS".to_string(), "localhost:9092".to_string()),
        ("KAFKA_SOURCE_SASL_USERNAME".to_string(), "read-only-harvester".to_string()),
        ("KAFKA_SINK_SASL_USERNAME".to_string(), "read-write-harvester".to_string()),
        ("KAFKA_SSL_CA_LOCATION".to_string(), "/var/run/secrets/ca.pem".to_string()),
    ];

    let (actual_source, actual_sink) = kafka_sink_source_from_env(env_vars);
    let expected_source: Vec<_> = vec![
        ("bootstrap.servers", "localhost:9092"),
        ("sasl.username", "read-only-harvester"),
        ("ssl.ca.location", "/var/run/secrets/ca.pem"),
    ]
    .into_iter()
    .map(|(k, v)| (k.into(), v.into()))
    .collect();

    let expected_sink: Vec<_> = vec![
        ("bootstrap.servers", "localhost:9092"),
        ("sasl.username", "read-write-harvester"),
        ("ssl.ca.location", "/var/run/secrets/ca.pem"),
    ]
    .into_iter()
    .map(|(k, v)| (k.into(), v.into()))
    .collect();

    assert_eq!(actual_source, expected_source);
    assert_eq!(actual_sink, expected_sink);
}

#[test]
fn test_uspert_with_insert() {
    let mut sample = vec![("a".to_string(), "1".to_string()), ("b".to_string(), "2".to_string())];

    // element not yet present, should be inserted
    upsert(&mut sample, "c".to_string(), "3".to_string());

    let expected = vec![
        ("a".to_string(), "1".to_string()),
        ("b".to_string(), "2".to_string()),
        ("c".to_string(), "3".to_string()),
    ];
    assert_eq!(sample, expected);
}

#[test]
fn test_upsert_with_replace() {
    let mut sample = vec![("a".to_string(), "1".to_string()), ("b".to_string(), "2".to_string())];

    // element already present, should be updated
    upsert(&mut sample, "b".to_string(), "3".to_string());

    let expected = vec![("a".to_string(), "1".to_string()), ("b".to_string(), "3".to_string())];
    assert_eq!(sample, expected);
}

#[test]
fn test_insert_with_element_already_present() {
    let mut sample = vec![("a".to_string(), "1".to_string()), ("b".to_string(), "2".to_string())];

    // element already present, should not be overriden
    insert_if_absent(&mut sample, "b".to_string(), "3".to_string());

    let expected = vec![("a".to_string(), "1".to_string()), ("b".to_string(), "2".to_string())];
    assert_eq!(sample, expected);
}

#[test]
fn test_insert_with_element_not_yet_present() {
    let mut sample = vec![("a".to_string(), "1".to_string()), ("b".to_string(), "2".to_string())];

    // element not yet present, should be inserted
    insert_if_absent(&mut sample, "c".to_string(), "3".to_string());

    let expected = vec![
        ("a".to_string(), "1".to_string()),
        ("b".to_string(), "2".to_string()),
        ("c".to_string(), "3".to_string()),
    ];
    assert_eq!(sample, expected);
}

#[test]
fn property_names_are_dotted_and_lower_case() {
    assert_eq!(rdkafka_prop("BOOTSTRAP_SERVERS"), "bootstrap.servers");
    assert_eq!(rdkafka_prop("SSL_CA_LOCATION"), "ssl.ca.location");
    assert_eq!(rdkafka_prop("already.lower"), "already.lower");
    assert_eq!(rdkafka_prop(""), "");
    assert_eq!(rdkafka_prop("_"), ".");
}

#[test]
fn a_later_default_overrides_and_a_later_specific_does_not() {
    let (source, sink) = kafka_sink_source_from_env(pairs(vec![
        ("KAFKA_SOURCE_GROUP_ID", "first"),
        ("KAFKA_GROUP_ID", "default"),
        ("KAFKA_SINK_GROUP_ID", "late"),
        ("KAFKA_SOURCE_GROUP_ID", "second"),
        ("KAFKA", "no prefix"),
        ("kafka_lower", "ignored"),
        ("KAFKA_", "empty"),
    ]));
    assert_eq!(source, pairs(vec![("group.id", "default"), ("", "empty")]));
    assert_eq!(sink, pairs(vec![("group.id", "default"), ("", "empty")]));
}

#[test]
fn the_first_of_equal_keys_is_found_and_replaced() {
    let mut sample = pairs(vec![("a", "1"), ("b", "2"), ("a", "3")]);
    assert_eq!(position(&sample, &"a".to_string()), Some(0));
    assert_eq!(position(&sample, &"b".to_string()), Some(1));
    assert_eq!(position(&sample, &"c".to_string()), None);
    upsert(&mut sample, "a".to_string(), "9".to_string());
    assert_eq!(sample, pairs(vec![("a", "9"), ("b", "2"), ("a", "3")]));
}

#[test]
fn topics_that_start_with_an_underscore_are_left_out() {
    let names: Vec<String> =
        vec!["events", "__consumer_offsets", "_schemas", "orders_", ""].into_iter().map(String::from).collect();
    assert_eq!(visible_topics(&names), vec!["events".to_string(), "orders_".to_string(), String::new()]);
    assert_eq!(visible_topics(&vec![]), Vec::<String>::new());
}

#[test]
fn property_values_are_taken_as_text() {
    assert_eq!(KafkaPropertyValue::String("all".to_string()).to_text(), "all");
    assert_eq!(KafkaPropertyValue::Bool(true).to_text(), "true");
    assert_eq!(KafkaPropertyValue::Bool(false).to_text(), "false");
    assert_eq!(KafkaPropertyValue::Integer(-42).to_text(), "-42");
    assert_eq!(KafkaPropertyValue::Integer(i64::MIN).to_text(), "-9223372036854775808");
}

#[test]
fn the_environment_goes_over_the_own_and_the_own_over_the_shared() {
    let shared = Kafka {
        properties: vec![
            ("bootstrap.servers".to_string(), KafkaPropertyValue::String("shared:9092".to_string())),
            ("enable.idempotence".to_string(), KafkaPropertyValue::Bool(true)),
            ("retries".to_string(), KafkaPropertyValue::Integer(3)),
        ],
    };
    let source = KafkaSource {
        properties: vec![
            ("group.id".to_string(), KafkaPropertyValue::String("harvester".to_string())),
            ("retries".to_string(), KafkaPropertyValue::Integer(5)),
        ],
    };
    let sink = KafkaSink { topic: "schemas".to_string(), properties: vec![] };
    let from_env = pairs(vec![("bootstrap.servers", "env:9092"), ("sasl.username", "reader")]);

    assert_eq!(
        source_properties(&shared, &source, &from_env),
        pairs(vec![
            ("bootstrap.servers", "env:9092"),
            ("enable.idempotence", "true"),
            ("retries", "5"),
            ("group.id", "harvester"),
            ("sasl.username", "reader"),
        ])
    );
    assert_eq!(
        sink_properties(&shared, &sink, &vec![]),
        pairs(vec![
            ("bootstrap.servers", "shared:9092"),
            ("enable.idempotence", "true"),
            ("retries", "3"),
        ])
    );
}
