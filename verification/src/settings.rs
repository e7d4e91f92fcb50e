//! Client properties taken from the environment: variables that start with
//! `KAFKA_` configure the source and the sink of a stream.

use vstd::prelude::*;
use crate::utils::{insert_if_absent, inserted_if_absent, pairs_of, upsert, upserted};

verus! {

/// What `str::to_lowercase` returns for a string.
pub uninterp spec fn lowercase(s: Seq<char>) -> Seq<char>;

/// `s` with every `from` replaced by `to`.
pub open spec fn replaced(s: Seq<char>, from: char, to: Seq<char>) -> Seq<char>
    decreases s.len(),
{
    if s.len() == 0 {
        s
    } else if s[0] == from {
        to + replaced(s.drop_first(), from, to)
    } else {
        seq![s[0]] + replaced(s.drop_first(), from, to)
    }
}

/// `s` begins with `prefix`.
pub open spec fn starts_with(s: Seq<char>, prefix: Seq<char>) -> bool {
    prefix.len() <= s.len() && s.subrange(0, prefix.len() as int) == prefix
}

/// The name of the client property that a variable name stands for:
/// underscores become dots, and the result is put in lower case.
pub open spec fn property_name(s: Seq<char>) -> Seq<char> {
    lowercase(replaced(s, '_', "."@))
}

/// Calls `str::to_lowercase`; its result is a function of the string alone.
#[verifier::external_body]
fn to_lowercase(s: &str) -> (r: String)
    ensures
        r@ == lowercase(s@),
{
    s.to_lowercase()
}

/// Calls `str::replace` with a character as the pattern: every occurrence of
/// the character is replaced by the given string.
#[verifier::external_body]
fn replace_char(s: &str, from: char, to: &str) -> (r: String)
    ensures
        r@ == replaced(s@, from, to@),
{
    s.replace(from, to)
}

/// Calls `str::strip_prefix`: the rest of the string behind the prefix, if
/// the string starts with it.
#[verifier::external_body]
fn strip_prefix<'a>(s: &'a str, prefix: &str) -> (r: Option<&'a str>)
    ensures
        r is Some <==> starts_with(s@, prefix@),
        r is Some ==> r->0@ == s@.subrange(prefix@.len() as int, s@.len() as int),
{
    s.strip_prefix(prefix)
}

/// The name of the client property that a variable name stands for.
pub fn rdkafka_prop(s: &str) -> (r: String)
    ensures
        r@ == property_name(s@),
{
    let dotted = replace_char(s, '_', ".");
    to_lowercase(dotted.as_str())
}

/// The rest of `s` behind `prefix`.
pub open spec fn rest(s: Seq<char>, prefix: Seq<char>) -> Seq<char> {
    s.subrange(prefix.len() as int, s.len() as int)
}

/// The properties of source and sink after one more variable. A variable for
/// the source, or for the sink, sets a property there unless it is set; a
/// variable for both sets it in both, whatever was there; any other variable
/// changes nothing.
pub open spec fn after_variable(
    state: (Seq<(Seq<char>, Seq<char>)>, Seq<(Seq<char>, Seq<char>)>),
    name: Seq<char>,
    value: Seq<char>,
) -> (Seq<(Seq<char>, Seq<char>)>, Seq<(Seq<char>, Seq<char>)>) {
    if starts_with(name, "KAFKA_SOURCE_"@) {
        (inserted_if_absent(state.0, property_name(rest(name, "KAFKA_SOURCE_"@)), value), state.1)
    } else if starts_with(name, "KAFKA_SINK_"@) {
        (state.0, inserted_if_absent(state.1, property_name(rest(name, "KAFKA_SINK_"@)), value))
    } else if starts_with(name, "KAFKA_"@) {
        (
            upserted(state.0, property_name(rest(name, "KAFKA_"@)), value),
            upserted(state.1, property_name(rest(name, "KAFKA_"@)), value),
        )
    } else {
        state
    }
}

/// The properties of source and sink after the first `n` variables.
pub open spec fn after_variables(vars: Seq<(Seq<char>, Seq<char>)>, n: int) -> (
    Seq<(Seq<char>, Seq<char>)>,
    Seq<(Seq<char>, Seq<char>)>,
)
    decreases n,
{
    if n <= 0 {
        (Seq::empty(), Seq::empty())
    } else {
        after_variable(after_variables(vars, n - 1), vars[n - 1].0, vars[n - 1].1)
    }
}

/// The properties of the source and of the sink that the given variables
/// of the environment set, in this order.
pub fn kafka_sink_source_from_env(env_vars: Vec<(String, String)>) -> (r: (
    Vec<(String, String)>,
    Vec<(String, String)>,
))
    ensures
        (pairs_of(r.0@), pairs_of(r.1@)) == after_variables(
            pairs_of(env_vars@),
            env_vars.len() as int,
        ),
{
    let mut source: Vec<(String, String)> = Vec::new();
    let mut sink: Vec<(String, String)> = Vec::new();
    let ghost vars = pairs_of(env_vars@);
    assert(pairs_of(source@) =~= Seq::empty() && pairs_of(sink@) =~= Seq::empty());
    let mut i: usize = 0;
    while i < env_vars.len()
        invariant
            i <= env_vars.len(),
            vars == pairs_of(env_vars@),
            (pairs_of(source@), pairs_of(sink@)) == after_variables(vars, i as int),
        decreases env_vars.len() - i,
    {
        let name = env_vars[i].0.as_str();
        let value = &env_vars[i].1;
        assert(vars[i as int] == (name@, value@));
        if let Some(source_prop) = strip_prefix(name, "KAFKA_SOURCE_") {
            insert_if_absent(&mut source, rdkafka_prop(source_prop), value.clone());
        } else if let Some(sink_prop) = strip_prefix(name, "KAFKA_SINK_") {
            insert_if_absent(&mut sink, rdkafka_prop(sink_prop), value.clone());
        } else if let Some(default_prop) = strip_prefix(name, "KAFKA_") {
            let prop = rdkafka_prop(default_prop);
            upsert(&mut sink, prop.clone(), value.clone());
            upsert(&mut source, prop, value.clone());
        }
        i = i + 1;
    }
    (source, sink)
}


/// The topics among the first `n` of a list that are open to harvesting:
/// those whose name does not start with an underscore.
pub open spec fn visible(names: Seq<String>, n: int) -> Seq<Seq<char>>
    decreases n,
{
    if n <= 0 {
        Seq::empty()
    } else if starts_with(names[n - 1]@, "_"@) {
        visible(names, n - 1)
    } else {
        visible(names, n - 1).push(names[n - 1]@)
    }
}

/// The names of a list of strings.
pub open spec fn names_of(list: Seq<String>) -> Seq<Seq<char>> {
    Seq::new(list.len(), |i: int| list[i]@)
}

/// The topics that are open to harvesting, in the order of the list.
pub fn visible_topics(names: &Vec<String>) -> (r: Vec<String>)
    ensures
        names_of(r@) == visible(names@, names.len() as int),
{
    let mut out: Vec<String> = Vec::new();
    assert(names_of(out@) =~= Seq::empty());
    let mut i: usize = 0;
    while i < names.len()
        invariant
            i <= names.len(),
            names_of(out@) == visible(names@, i as int),
        decreases names.len() - i,
    {
        let ghost before = names_of(out@);
        if strip_prefix(names[i].as_str(), "_").is_none() {
            out.push(names[i].clone());
            assert(names_of(out@) =~= before.push(names[i as int]@));
        }
        i = i + 1;
    }
    out
}


/// The value of a client property as a configuration file may give it.
#[derive(Debug, PartialEq, Eq)]
pub enum KafkaPropertyValue {
    String(String),
    Bool(bool),
    Integer(i64),
}

/// The properties that source and sink share.
#[derive(Debug, PartialEq, Eq)]
pub struct Kafka {
    pub properties: Vec<(String, KafkaPropertyValue)>,
}

/// The properties of the source alone.
#[derive(Debug, PartialEq, Eq)]
pub struct KafkaSource {
    pub properties: Vec<(String, KafkaPropertyValue)>,
}

/// The properties of the sink alone, and the topic that schemas are
/// published to.
#[derive(Debug, PartialEq, Eq)]
pub struct KafkaSink {
    pub topic: String,
    pub properties: Vec<(String, KafkaPropertyValue)>,
}

/// What `i64::to_string` returns for a number.
pub uninterp spec fn decimal(i: int) -> Seq<char>;

/// Calls `i64::to_string`; its result is a function of the number alone.
#[verifier::external_body]
fn integer_to_string(i: i64) -> (r: String)
    ensures
        r@ == decimal(i as int),
{
    i.to_string()
}

impl KafkaPropertyValue {
    /// The text that a client takes the value as.
    pub open spec fn text(&self) -> Seq<char> {
        match self {
            KafkaPropertyValue::String(s) => s@,
            KafkaPropertyValue::Bool(b) => if *b {
                "true"@
            } else {
                "false"@
            },
            KafkaPropertyValue::Integer(i) => decimal(*i as int),
        }
    }

    /// The text that a client takes the value as.
    pub fn to_text(&self) -> (r: String)
        ensures
            r@ == self.text(),
    {
        match self {
            KafkaPropertyValue::String(s) => s.clone(),
            KafkaPropertyValue::Bool(b) => if *b {
                "true".to_owned()
            } else {
                "false".to_owned()
            },
            KafkaPropertyValue::Integer(i) => integer_to_string(*i),
        }
    }
}

/// The names and texts of a list of configured properties.
pub open spec fn texts_of(layer: Seq<(String, KafkaPropertyValue)>) -> Seq<(Seq<char>, Seq<char>)> {
    Seq::new(layer.len(), |i: int| (layer[i].0@, layer[i].1.text()))
}

/// `base` with the first `n` properties of `layer` set, one after the
/// other: a property of the layer takes the place of one of the same name.
pub open spec fn overlaid(
    base: Seq<(Seq<char>, Seq<char>)>,
    layer: Seq<(Seq<char>, Seq<char>)>,
    n: int,
) -> Seq<(Seq<char>, Seq<char>)>
    decreases n,
{
    if n <= 0 {
        base
    } else {
        upserted(overlaid(base, layer, n - 1), layer[n - 1].0, layer[n - 1].1)
    }
}

/// The properties of a client: the shared ones, over them its own, over
/// them those that the environment sets.
pub open spec fn layered(
    shared: Seq<(String, KafkaPropertyValue)>,
    own: Seq<(String, KafkaPropertyValue)>,
    env: Seq<(String, String)>,
) -> Seq<(Seq<char>, Seq<char>)> {
    overlaid(
        overlaid(
            overlaid(Seq::empty(), texts_of(shared), shared.len() as int),
            texts_of(own),
            own.len() as int,
        ),
        pairs_of(env),
        env.len() as int,
    )
}

/// Sets the configured properties of a layer in `list`.
fn overlay_configured(list: &mut Vec<(String, String)>, layer: &Vec<(String, KafkaPropertyValue)>)
    ensures
        pairs_of(final(list)@) == overlaid(pairs_of(old(list)@), texts_of(layer@), layer.len() as int),
{
    let ghost base = pairs_of(list@);
    let mut i: usize = 0;
    while i < layer.len()
        invariant
            i <= layer.len(),
            pairs_of(list@) == overlaid(base, texts_of(layer@), i as int),
        decreases layer.len() - i,
    {
        upsert(list, layer[i].0.clone(), layer[i].1.to_text());
        i = i + 1;
    }
}

/// Sets the properties of a layer in `list`.
fn overlay_pairs(list: &mut Vec<(String, String)>, layer: &Vec<(String, String)>)
    ensures
        pairs_of(final(list)@) == overlaid(pairs_of(old(list)@), pairs_of(layer@), layer.len() as int),
{
    let ghost base = pairs_of(list@);
    let mut i: usize = 0;
    while i < layer.len()
        invariant
            i <= layer.len(),
            pairs_of(list@) == overlaid(base, pairs_of(layer@), i as int),
        decreases layer.len() - i,
    {
        upsert(list, layer[i].0.clone(), layer[i].1.clone());
        i = i + 1;
    }
}

/// The properties that the client of the source is made with.
pub fn source_properties(
    default_config: &Kafka,
    source_config: &KafkaSource,
    from_env: &Vec<(String, String)>,
) -> (r: Vec<(String, String)>)
    ensures
        pairs_of(r@) == layered(default_config.properties@, source_config.properties@, from_env@),
{
    let mut out: Vec<(String, String)> = Vec::new();
    assert(pairs_of(out@) =~= Seq::empty());
    overlay_configured(&mut out, &default_config.properties);
    overlay_configured(&mut out, &source_config.properties);
    overlay_pairs(&mut out, from_env);
    out
}

/// The properties that the client of the sink is made with.
pub fn sink_properties(
    default_config: &Kafka,
    sink_config: &KafkaSink,
    from_env: &Vec<(String, String)>,
) -> (r: Vec<(String, String)>)
    ensures
        pairs_of(r@) == layered(default_config.properties@, sink_config.properties@, from_env@),
{
    let mut out: Vec<(String, String)> = Vec::new();
    assert(pairs_of(out@) =~= Seq::empty());
    overlay_configured(&mut out, &default_config.properties);
    overlay_configured(&mut out, &sink_config.properties);
    overlay_pairs(&mut out, from_env);
    out
}

} // verus!
