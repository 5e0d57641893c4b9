use transformer_rs::convert::{process_array_convertible_objs, split_obj_to_array};
use transformer_rs::value::Value;

fn t(s: &str) -> Value {
    Value::Text(String::from(s))
}

fn obj(fields: Vec<(&str, Value)>) -> Value {
    Value::Object(fields.into_iter().map(|(k, v)| (String::from(k), v)).collect())
}

fn arr(items: Vec<Value>) -> Value {
    Value::Array(items)
}

#[test]
fn split_with_no_recorded_paths_is_exhausted() {
    let mut output = obj(vec![("r", obj(vec![]))]);
    let mut visited: Vec<String> = Vec::new();
    let result = split_obj_to_array(&mut output, 1, &mut visited, "/r", "r");
    assert_eq!(
        result.err().unwrap().message(),
        "Failed to split object to array; could not get path to the spread array"
    );
}

#[test]
fn split_with_unrelated_path_is_a_mismatch() {
    let mut output = obj(vec![("r", obj(vec![("x", arr(vec![t("a")]))]))]);
    let mut visited: Vec<String> = vec![String::from("/q/x")];
    let result = split_obj_to_array(&mut output, 1, &mut visited, "/r", "r");
    assert_eq!(
        result.err().unwrap().message(),
        "Failed to split object to array; could not relate /q/x to the object being split"
    );
}

#[test]
fn split_with_missing_target_in_copy() {
    // the recorded path names a field the copies do not hold
    let mut output = obj(vec![("r", obj(vec![("x", arr(vec![t("a")]))]))]);
    let mut visited: Vec<String> = vec![String::from("/r"), String::from("/r/y")];
    let result = split_obj_to_array(&mut output, 1, &mut visited, "/r", "r");
    assert_eq!(
        result.err().unwrap().message(),
        "Failed to split object to array; could not find /y in a copy"
    );
}

#[test]
fn walk_reports_a_vanished_key() {
    // the snapshot says the key is decorated, the live output lacks it
    let snapshot = obj(vec![("a", t("x"))]);
    let mut output = obj(vec![]);
    let mut visited: Vec<String> = Vec::new();
    let mut lens: Vec<usize> = Vec::new();
    let result = process_array_convertible_objs(
        &snapshot,
        &mut output,
        "",
        "[r]",
        &mut visited,
        &mut lens,
    );
    assert_eq!(
        result.err().unwrap().message(),
        "Failed to process array convertible object; couldn't find field name [r]"
    );
}

#[test]
fn walk_reports_a_parent_that_is_no_object() {
    let snapshot = obj(vec![("a", t("x"))]);
    let mut output = t("scalar");
    let mut visited: Vec<String> = Vec::new();
    let mut lens: Vec<usize> = Vec::new();
    let result = process_array_convertible_objs(
        &snapshot,
        &mut output,
        "",
        "[r]",
        &mut visited,
        &mut lens,
    );
    assert_eq!(
        result.err().unwrap().message(),
        "Failed to process array convertible object; the parent at  is not an object"
    );
}

#[test]
fn walk_reports_a_missing_parent() {
    let snapshot = obj(vec![("a", t("x"))]);
    let mut output = obj(vec![]);
    let mut visited: Vec<String> = Vec::new();
    let mut lens: Vec<usize> = Vec::new();
    let result = process_array_convertible_objs(
        &snapshot,
        &mut output,
        "/nope",
        "[r]",
        &mut visited,
        &mut lens,
    );
    assert_eq!(
        result.err().unwrap().message(),
        "Failed to process array convertible object; could not find the parent object at /nope"
    );
}

#[test]
fn messages_render_snapshots_as_json() {
    let v = obj(vec![("k", arr(vec![t("a"), Value::Null, Value::Bool(true)]))]);
    assert_eq!(v.to_json_string(), "{\"k\":[\"a\",null,true]}");
    assert_eq!(
        v.to_pretty_string(),
        "{\n  \"k\": [\n    \"a\",\n    null,\n    true\n  ]\n}"
    );
}

#[test]
fn rendering_escapes_special_characters() {
    let v = t("a\"b\\c\nd\te\u{1}");
    assert_eq!(v.to_json_string(), "\"a\\\"b\\\\c\\nd\\te\\u0001\"");
}

#[test]
fn malformed_key_message_names_the_key() {
    // no key can actually trip the unbalanced-bracket failure, since
    // the bracket form is only recognised when balanced; the message
    // itself is still fixed
    let e = transformer_rs::errors::TransformError::MalformedKey(String::from("[oops"));
    assert_eq!(
        e.message(),
        "Bad key format; array convertible objects notation should like \"[example_key]\": [oops"
    );
}
