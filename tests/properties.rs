use permissive_json_pointer::{
    contained_in, contains_selector, create_array, create_value, is_simple, select_values,
    simplify_selectors, sub_selectors_of, Document, Value,
};

fn s(text: &str) -> String {
    text.to_string()
}

fn to_value(j: &serde_json::Value) -> Value {
    match j {
        serde_json::Value::Null => Value::Null,
        serde_json::Value::Bool(b) => Value::Bool(*b),
        serde_json::Value::Number(n) => Value::Number(n.clone()),
        serde_json::Value::String(t) => Value::String(t.clone()),
        serde_json::Value::Array(a) => Value::Array(a.iter().map(to_value).collect()),
        serde_json::Value::Object(m) => Value::Object(to_document(m)),
    }
}

fn to_document(m: &serde_json::Map<String, serde_json::Value>) -> Document {
    let mut d = Document::new();
    for (k, v) in m {
        d.insert(k.clone(), to_value(v));
    }
    d
}

fn from_value(v: &Value) -> serde_json::Value {
    match v {
        Value::Null => serde_json::Value::Null,
        Value::Bool(b) => serde_json::Value::Bool(*b),
        Value::Number(n) => serde_json::Value::Number(n.clone()),
        Value::String(t) => serde_json::Value::String(t.clone()),
        Value::Array(a) => serde_json::Value::Array(a.iter().map(from_value).collect()),
        Value::Object(d) => from_document(d),
    }
}

fn from_document(d: &Document) -> serde_json::Value {
    serde_json::Value::Object(d.entries.iter().map(|(k, v)| (k.clone(), from_value(v))).collect())
}

fn json(text: &str) -> serde_json::Value {
    serde_json::from_str(text).unwrap()
}

fn doc(text: &str) -> Document {
    to_document(json(text).as_object().unwrap())
}

fn select(value: &Document, selectors: Vec<String>) -> serde_json::Value {
    from_document(&select_values(value, selectors))
}

fn project(value: &Document, selectors: Vec<String>) -> serde_json::Value {
    from_document(&create_value(value, &selectors))
}

const DOG: &str = r#"{
    "name": "peanut",
    "age": 8,
    "race": {"name": "bernese mountain", "avg_age": 12, "size": "80cm"}
}"#;

#[test]
fn end_to_end_nested_fields() {
    let value = doc(DOG);
    assert_eq!(
        select(&value, vec![s("race.name"), s("race.size")]),
        json(r#"{"race": {"name": "bernese mountain", "size": "80cm"}}"#)
    );
}

#[test]
fn end_to_end_array_element_vanishes() {
    let value = doc(r#"{"doggos": [{"jean": {"age": 8}}, {"marc": {"age": 4}}]}"#);
    assert_eq!(
        select(&value, vec![s("doggos.marc.age")]),
        json(r#"{"doggos": [{"marc": {"age": 4}}]}"#)
    );
}

#[test]
fn array_filter_map_drops_unselected_element() {
    let value = doc(r#"{"doggos": [{"jean": {"age": 8}}, {"marc": {"age": 4, "size": 3}}]}"#);
    let res = select(&value, vec![s("doggos.marc")]);
    assert_eq!(res, json(r#"{"doggos": [{"marc": {"age": 4, "size": 3}}]}"#));
    assert_eq!(res["doggos"].as_array().unwrap().len(), 1);
}

#[test]
fn literal_dotted_key_is_not_split() {
    let value = doc(r#"{"pet.dog.name": "jean", "other": 1}"#);
    assert_eq!(
        select(&value, vec![s("pet.dog.name")]),
        json(r#"{"pet.dog.name": "jean"}"#)
    );
}

#[test]
fn literal_dotted_key_kept_whole_by_projector() {
    let value = doc(r#"{"a.b": {"c": 1, "d": 2}}"#);
    assert_eq!(
        project(&value, vec![s("a.b"), s("a.b.c")]),
        json(r#"{"a.b": {"c": 1, "d": 2}}"#)
    );
}

#[test]
fn ancestor_dominates_descendant_in_projection() {
    let value = doc(DOG);
    assert_eq!(project(&value, vec![s("race")]), project(&value, vec![s("race"), s("race.name")]));
    assert_eq!(
        project(&value, vec![s("race.name"), s("race")]),
        json(r#"{"race": {"name": "bernese mountain", "avg_age": 12, "size": "80cm"}}"#)
    );
}

#[test]
fn adding_selectors_keeps_selected_content() {
    let value = doc(DOG);
    assert_eq!(select(&value, vec![s("race.name")]), json(r#"{"race": {"name": "bernese mountain"}}"#));
    assert_eq!(
        select(&value, vec![s("race.name"), s("age")]),
        json(r#"{"age": 8, "race": {"name": "bernese mountain"}}"#)
    );
}

#[test]
fn emptied_containers_are_pruned() {
    let value = doc(r#"{"a": {"b": {"c": 1}}, "list": [[{"x": 1}], [], 3, {"y": 2}], "z": 4}"#);
    assert_eq!(select(&value, vec![s("a.b.missing")]), json(r#"{}"#));
    assert_eq!(select(&value, vec![s("list.x")]), json(r#"{"list": [[{"x": 1}]]}"#));
    assert_eq!(select(&value, vec![s("list.nothing")]), json(r#"{}"#));
}

#[test]
fn whole_copy_keeps_empty_containers() {
    let value = doc(r#"{"a": {}, "b": []}"#);
    assert_eq!(select(&value, vec![s("a"), s("b")]), json(r#"{"a": {}, "b": []}"#));
}

#[test]
fn no_selectors_give_empty_document() {
    let value = doc(DOG);
    assert_eq!(select(&value, vec![]), json(r#"{}"#));
    assert!(select_values(&value, vec![]).is_empty());
}

#[test]
fn unmatched_selectors_contribute_nothing() {
    let value = doc(DOG);
    assert_eq!(select(&value, vec![s("other.field"), s("nope")]), json(r#"{}"#));
    assert_eq!(select(&value, vec![s("name.first")]), json(r#"{}"#));
}

#[test]
fn normalization_is_idempotent() {
    let once = simplify_selectors(vec![s("b.c"), s("a"), s("b"), s("a.x"), s("c.d"), s("c.e")]);
    assert_eq!(once, vec![s("a"), s("b"), s("c.d"), s("c.e")]);
    assert_eq!(simplify_selectors(once.clone()), once);
}

#[test]
fn normalization_subsumes_descendant_in_either_order() {
    assert_eq!(simplify_selectors(vec![s("a"), s("a.b")]), vec![s("a")]);
    assert_eq!(simplify_selectors(vec![s("a.b"), s("a")]), vec![s("a")]);
    assert_eq!(simplify_selectors(vec![s("a"), s("a")]), vec![s("a")]);
}

#[test]
fn normalization_respects_segment_boundaries() {
    assert_eq!(
        simplify_selectors(vec![s("animauxx"), s("animaux")]),
        vec![s("animaux"), s("animauxx")]
    );
    assert_eq!(simplify_selectors(vec![]), Vec::<String>::new());
}

#[test]
fn sort_orders_by_code_point() {
    assert_eq!(simplify_selectors(vec![s("b"), s("é"), s("B"), s("a")]), vec![s("B"), s("a"), s("b"), s("é")]);
}

#[test]
fn simple_and_complex_keys() {
    assert!(is_simple("race"));
    assert!(is_simple(""));
    assert!(!is_simple("race.name"));
    assert!(!is_simple("."));
}

#[test]
fn membership_and_sub_selectors() {
    let sel = vec![s("race.name"), s("race"), s("racer.x"), s("race.size.cm")];
    assert!(contains_selector(&sel, "race"));
    assert!(!contains_selector(&sel, "rac"));
    assert_eq!(sub_selectors_of(&sel, "race"), vec![s("name"), s("size.cm")]);
    assert_eq!(sub_selectors_of(&sel, "age"), Vec::<String>::new());
    assert!(contained_in("race", "race"));
    assert!(!contained_in("racer", "race"));
}

#[test]
fn array_projection_on_its_own() {
    let items: Vec<Value> = json(r#"[{"a": 1, "b": 2}, 5, {"b": 3}, [{"a": 4}]]"#)
        .as_array()
        .unwrap()
        .iter()
        .map(to_value)
        .collect();
    let out = create_array(&items, &vec![s("a")]);
    assert_eq!(
        serde_json::Value::Array(out.iter().map(from_value).collect()),
        json(r#"[{"a": 1}, [{"a": 4}]]"#)
    );
}

#[test]
fn deep_clone_copies_everything() {
    let value = doc(r#"{"n": null, "t": true, "x": 1.5, "s": "str", "a": [1, {"b": []}]}"#);
    let copy = value.deep_clone();
    assert_eq!(from_document(&copy), from_document(&value));
    assert_eq!(copy.len(), 5);
}

#[test]
fn insert_replaces_existing_key() {
    let mut d = Document::new();
    d.insert(s("a"), Value::Bool(true));
    d.insert(s("b"), Value::Null);
    d.insert(s("a"), Value::String(s("x")));
    assert_eq!(d.len(), 2);
    assert_eq!(from_document(&d), json(r#"{"a": "x", "b": null}"#));
    assert_eq!(d.entries[0].0, "a");
}

#[test]
fn normalization_covers_and_is_minimal() {
    let out = simplify_selectors(vec![s("x.y.z"), s("w"), s("x.y"), s("x.q"), s("w.v")]);
    assert_eq!(out, vec![s("w"), s("x.q"), s("x.y")]);
}

#[test]
fn normalization_with_character_below_separator() {
    assert_eq!(
        simplify_selectors(vec![s("a.c"), s("a b"), s("a")]),
        vec![s("a"), s("a b"), s("a.c")]
    );
    let value = doc(r#"{"a": {"c": 1, "d": 2}, "a b": 3}"#);
    assert_eq!(
        select(&value, vec![s("a.c"), s("a b"), s("a")]),
        json(r#"{"a": {"c": 1, "d": 2}, "a b": 3}"#)
    );
}
