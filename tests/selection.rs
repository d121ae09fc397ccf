use permissive_json_pointer::{
    contained_in, contains_selector, is_simple, select_values, simplify_selectors,
    sub_selectors_of, Document, Value,
};

fn s(text: &str) -> String {
    text.to_string()
}

fn to_value(j: &serde_json::Value) -> Value {
    match j {
        serde_json::Value::Null => Value::Null,
        serde_json::Value::Bool(b) => Value::Bool(*b),
        serde_json::Value::Number(n) => Value::Number(n.clone()),
        serde_json::Value::String(t) => Value::String(t.clone()),
        serde_json::Value::Array(a) => Value::Array(a.iter().map(to_value).collect()),
        serde_json::Value::Object(m) => Value::Object(to_document(m)),
    }
}

fn to_document(m: &serde_json::Map<String, serde_json::Value>) -> Document {
    let mut d = Document::new();
    for (k, v) in m {
        d.insert(k.clone(), to_value(v));
    }
    d
}

fn from_value(v: &Value) -> serde_json::Value {
    match v {
        Value::Null => serde_json::Value::Null,
        Value::Bool(b) => serde_json::Value::Bool(*b),
        Value::Number(n) => serde_json::Value::Number(n.clone()),
        Value::String(t) => serde_json::Value::String(t.clone()),
        Value::Array(a) => serde_json::Value::Array(a.iter().map(from_value).collect()),
        Value::Object(d) => from_document(d),
    }
}

fn from_document(d: &Document) -> serde_json::Value {
    serde_json::Value::Object(d.entries.iter().map(|(k, v)| (k.clone(), from_value(v))).collect())
}

fn json(text: &str) -> serde_json::Value {
    serde_json::from_str(text).unwrap()
}

fn doc(text: &str) -> Document {
    to_document(json(text).as_object().unwrap())
}

fn select(value: &Document, selectors: Vec<String>) -> serde_json::Value {
    from_document(&select_values(value, selectors))
}

const DOG: &str = r#"{
    "name": "peanut",
    "age": 8,
    "race": {
        "name": "bernese mountain",
        "avg_age": 12,
        "size": "80cm"
    }
}"#;

const DOGGOS: &str = r#"{
    "doggos": [
        {
            "jean": {
                "age": 8,
                "race": {
                    "name": "bernese mountain",
                    "size": "80cm"
                }
            }
        },
        {
            "marc": {
                "age": 4,
                "race": {
                    "name": "golden retriever",
                    "size": "60cm"
                }
            }
        }
    ]
}"#;

#[test]
fn test_contained_in() {
    assert!(contained_in("animaux", "animaux"));
    assert!(contained_in("animaux.chien", "animaux"));
    assert!(contained_in("animaux.chien.race.bouvier bernois.fourrure.couleur", "animaux"));
    assert!(contained_in("animaux.chien.race.bouvier bernois.fourrure.couleur", "animaux.chien"));
    assert!(contained_in(
        "animaux.chien.race.bouvier bernois.fourrure.couleur",
        "animaux.chien.race.bouvier bernois"
    ));
    assert!(contained_in(
        "animaux.chien.race.bouvier bernois.fourrure.couleur",
        "animaux.chien.race.bouvier bernois.fourrure"
    ));
    assert!(contained_in(
        "animaux.chien.race.bouvier bernois.fourrure.couleur",
        "animaux.chien.race.bouvier bernois.fourrure.couleur"
    ));

    // -- the wrongs
    assert!(!contained_in("chien", "chat"));
    assert!(!contained_in("animaux", "animaux.chien"));
    assert!(!contained_in("animaux.chien", "animaux.chat"));

    // -- the strange edge cases
    assert!(!contained_in("animaux.chien", "anima"));
    assert!(!contained_in("animaux.chien", "animau"));
    assert!(!contained_in("animaux.chien", "animaux."));
    assert!(!contained_in("animaux.chien", "animaux.c"));
    assert!(!contained_in("animaux.chien", "animaux.ch"));
    assert!(!contained_in("animaux.chien", "animaux.chi"));
    assert!(!contained_in("animaux.chien", "animaux.chie"));
}

#[test]
fn test_simplify_selectors() {
    assert_eq!(
        simplify_selectors(vec![s("person.name"), s("person.dog")]),
        vec![s("person.dog"), s("person.name")],
    );
    assert_eq!(
        simplify_selectors(vec![s("person"), s("person.name"), s("person.dog")]),
        vec![s("person")],
    );
    assert_eq!(
        simplify_selectors(vec![s("person.name"), s("person"), s("person.dog")]),
        vec![s("person")],
    );
    assert_eq!(
        simplify_selectors(vec![s("person.name"), s("person.dog"), s("person")]),
        vec![s("person")],
    );
    assert_eq!(
        simplify_selectors(vec![s("family.brother.dog"), s("family.brother")]),
        vec![s("family.brother")],
    );
    assert_eq!(
        simplify_selectors(vec![
            s("family.brother.dog"),
            s("family.brother"),
            s("family.brother.cat")
        ]),
        vec![s("family.brother")],
    );
}

#[test]
fn simple_key() {
    let value = doc(DOG);

    assert_eq!(select(&value, vec![s("name")]), json(r#"{"name": "peanut"}"#));
    assert_eq!(select(&value, vec![s("age")]), json(r#"{"age": 8}"#));
    assert_eq!(
        select(&value, vec![s("name"), s("age")]),
        json(r#"{"name": "peanut", "age": 8}"#)
    );
    assert_eq!(
        select(&value, vec![s("race")]),
        json(r#"{"race": {"name": "bernese mountain", "avg_age": 12, "size": "80cm"}}"#)
    );
    assert_eq!(
        select(&value, vec![s("name"), s("age"), s("race")]),
        json(
            r#"{
                "name": "peanut",
                "age": 8,
                "race": {"name": "bernese mountain", "avg_age": 12, "size": "80cm"}
            }"#
        )
    );
}

#[test]
fn complex_key() {
    let value = doc(DOG);

    assert_eq!(
        select(&value, vec![s("race")]),
        json(r#"{"race": {"name": "bernese mountain", "avg_age": 12, "size": "80cm"}}"#)
    );
    assert_eq!(
        select(&value, vec![s("race.name")]),
        json(r#"{"race": {"name": "bernese mountain"}}"#)
    );
    assert_eq!(
        select(&value, vec![s("race.name"), s("race.size")]),
        json(r#"{"race": {"name": "bernese mountain", "size": "80cm"}}"#)
    );
    assert_eq!(
        select(
            &value,
            vec![s("race.name"), s("race.size"), s("race.avg_age"), s("race.size"), s("age")]
        ),
        json(
            r#"{
                "age": 8,
                "race": {"name": "bernese mountain", "avg_age": 12, "size": "80cm"}
            }"#
        )
    );
    assert_eq!(
        select(&value, vec![s("race.name"), s("race")]),
        json(r#"{"race": {"name": "bernese mountain", "avg_age": 12, "size": "80cm"}}"#)
    );
    assert_eq!(
        select(&value, vec![s("race"), s("race.name")]),
        json(r#"{"race": {"name": "bernese mountain", "avg_age": 12, "size": "80cm"}}"#)
    );
}

#[test]
fn multi_level_nested() {
    let value = doc(
        r#"{
            "jean": {
                "age": 8,
                "race": {"name": "bernese mountain", "size": "80cm"}
            }
        }"#,
    );

    assert_eq!(
        select(&value, vec![s("jean")]),
        json(
            r#"{"jean": {"age": 8, "race": {"name": "bernese mountain", "size": "80cm"}}}"#
        )
    );
    assert_eq!(select(&value, vec![s("jean.age")]), json(r#"{"jean": {"age": 8}}"#));
    assert_eq!(
        select(&value, vec![s("jean.race.size")]),
        json(r#"{"jean": {"race": {"size": "80cm"}}}"#)
    );
    assert_eq!(
        select(&value, vec![s("jean.race.name"), s("jean.age")]),
        json(r#"{"jean": {"age": 8, "race": {"name": "bernese mountain"}}}"#)
    );
    assert_eq!(
        select(&value, vec![s("jean.race")]),
        json(r#"{"jean": {"race": {"name": "bernese mountain", "size": "80cm"}}}"#)
    );
}

#[test]
fn array_and_deep_nested() {
    let value = doc(DOGGOS);

    assert_eq!(
        select(&value, vec![s("doggos.jean")]),
        json(
            r#"{"doggos": [
                {"jean": {"age": 8, "race": {"name": "bernese mountain", "size": "80cm"}}}
            ]}"#
        )
    );
    assert_eq!(
        select(&value, vec![s("doggos.marc")]),
        json(
            r#"{"doggos": [
                {"marc": {"age": 4, "race": {"name": "golden retriever", "size": "60cm"}}}
            ]}"#
        )
    );
    assert_eq!(
        select(&value, vec![s("doggos.marc.race")]),
        json(
            r#"{"doggos": [
                {"marc": {"race": {"name": "golden retriever", "size": "60cm"}}}
            ]}"#
        )
    );
    assert_eq!(
        select(&value, vec![s("doggos.marc.race.name"), s("doggos.marc.age")]),
        json(
            r#"{"doggos": [
                {"marc": {"age": 4, "race": {"name": "golden retriever"}}}
            ]}"#
        )
    );
    assert_eq!(
        select(
            &value,
            vec![
                s("doggos.marc.race.name"),
                s("doggos.marc.age"),
                s("doggos.jean.race.name"),
                s("other.field"),
            ]
        ),
        json(
            r#"{"doggos": [
                {"jean": {"race": {"name": "bernese mountain"}}},
                {"marc": {"age": 4, "race": {"name": "golden retriever"}}}
            ]}"#
        )
    );
}

#[test]
fn all_conflict_variation() {
    let value = doc(
        r#"{
            "pet.dog.name": "jean",
            "pet.dog": {"name": "bob"},
            "pet": {"dog.name": "michel"},
            "pet": {"dog": {"name": "milan"}}
        }"#,
    );

    assert_eq!(
        select(&value, vec![s("pet.dog.name")]),
        json(
            r#"{
                "pet.dog.name": "jean",
                "pet.dog": {"name": "bob"},
                "pet": {"dog.name": "michel"},
                "pet": {"dog": {"name": "milan"}}
            }"#
        )
    );
}
