use transformer_rs::resolve::resolve_output_field_value;
use transformer_rs::value::Value;

fn t(s: &str) -> Value {
    Value::Text(String::from(s))
}

fn n(s: &str) -> Value {
    Value::Number(String::from(s))
}

fn obj(fields: Vec<(&str, Value)>) -> Value {
    Value::Object(fields.into_iter().map(|(k, v)| (String::from(k), v)).collect())
}

fn arr(items: Vec<Value>) -> Value {
    Value::Array(items)
}

fn toks(parts: &[&str]) -> Vec<String> {
    parts.iter().map(|p| String::from(*p)).collect()
}

fn shipment_one() -> Value {
    obj(vec![
        ("tracking_number", t("1234567")),
        (
            "items",
            arr(vec![
                obj(vec![("sku", t("SKU-123")), ("quantity", n("4"))]),
                obj(vec![("sku", t("SKU-343")), ("quantity", n("3"))]),
            ]),
        ),
    ])
}

fn input_doc() -> Value {
    obj(vec![
        ("retailer", obj(vec![("id", t("12342"))])),
        (
            "order",
            obj(vec![
                ("po_number", t("573832")),
                (
                    "shipments",
                    arr(vec![
                        shipment_one(),
                        obj(vec![
                            ("tracking_number", t("98776")),
                            (
                                "items",
                                arr(vec![
                                    obj(vec![("sku", t("SKU-1453")), ("quantity", n("1"))]),
                                    obj(vec![("sku", t("SKU-543")), ("quantity", n("1"))]),
                                ]),
                            ),
                        ]),
                    ]),
                ),
            ]),
        ),
        ("user_id", n("2331212")),
        ("order_id", t("34554543")),
        (
            "product",
            obj(vec![
                ("id", t("654654")),
                ("length", n("50")),
                ("alternative_size", n("33")),
                (
                    "details",
                    obj(vec![("name", t("Red Shoes")), ("manufacture", t("company"))]),
                ),
            ]),
        ),
        ("ids", arr(vec![t("34554543"), t("7643534"), t("512342")])),
    ])
}

#[test]
fn test_resolve_output_field_value_ok() {
    let input = input_doc();

    // regular field
    let result = resolve_output_field_value(&toks(&["ids"]), &input);
    assert!(result.is_ok());
    assert_eq!(
        result.unwrap(),
        arr(vec![t("34554543"), t("7643534"), t("512342")])
    );

    // nested field
    let result = resolve_output_field_value(&toks(&["product", "details", "name"]), &input);
    assert!(result.is_ok());
    assert_eq!(result.unwrap(), t("Red Shoes"));

    // field in an array
    let result = resolve_output_field_value(&toks(&["order", "shipments", "tracking_number"]), &input);
    assert!(result.is_ok());
    assert_eq!(result.unwrap(), arr(vec![t("1234567"), t("98776")]));

    // field in an array of arrays
    let result = resolve_output_field_value(&toks(&["order", "shipments", "items"]), &input);
    assert!(result.is_ok());
    assert_eq!(
        result.unwrap(),
        arr(vec![
            obj(vec![("sku", t("SKU-123")), ("quantity", n("4"))]),
            obj(vec![("sku", t("SKU-343")), ("quantity", n("3"))]),
            obj(vec![("sku", t("SKU-1453")), ("quantity", n("1"))]),
            obj(vec![("sku", t("SKU-543")), ("quantity", n("1"))]),
        ])
    );

    // field in an array of arrays of objs
    let result = resolve_output_field_value(&toks(&["order", "shipments", "items", "sku"]), &input);
    assert!(result.is_ok());
    assert_eq!(
        result.unwrap(),
        arr(vec![t("SKU-123"), t("SKU-343"), t("SKU-1453"), t("SKU-543")])
    );
}

#[test]
fn test_resolve_output_field_value_err() {
    let input = input_doc();

    // field in an obj
    let result = resolve_output_field_value(&toks(&["idsss"]), &input);
    assert!(result.is_err());
    assert_eq!(
        result.err().unwrap().message(),
        format!(
            "Failed to resolve mapping value; couldn't find field name idsss in the obj {}",
            input.to_pretty_string()
        )
    );

    // field in an array of objs
    let result =
        resolve_output_field_value(&toks(&["order", "shipments", "tracking_nomber"]), &input);
    assert!(result.is_err());
    assert_eq!(
        result.err().unwrap().message(),
        format!(
            "Failed to resolve mapping value; couldn't find field name tracking_nomber in the obj {}",
            shipment_one().to_pretty_string()
        )
    );
}

#[test]
fn resolve_flattens_across_nested_arrays() {
    // two outer elements, two inner elements each: four leaves in one
    // flat array
    let input = input_doc();
    let result =
        resolve_output_field_value(&toks(&["order", "shipments", "items", "quantity"]), &input);
    assert_eq!(
        result.unwrap(),
        arr(vec![n("4"), n("3"), n("1"), n("1")])
    );
}

#[test]
fn resolve_empty_path_returns_whole_input() {
    let input = input_doc();
    let result = resolve_output_field_value(&toks(&[]), &input);
    assert_eq!(result.unwrap(), input_doc());
}

#[test]
fn resolve_scalar_swallows_remaining_segments() {
    let input = input_doc();
    let result = resolve_output_field_value(&toks(&["order_id", "whatever"]), &input);
    assert_eq!(result.unwrap(), t("34554543"));
}
