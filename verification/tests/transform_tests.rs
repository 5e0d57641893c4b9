use transformer_rs::substitute::traverse_mut;
use transformer_rs::transform;
use transformer_rs::value::Value;

fn t(s: &str) -> Value {
    Value::Text(String::from(s))
}

fn n(s: &str) -> Value {
    Value::Number(String::from(s))
}

fn obj(fields: Vec<(&str, Value)>) -> Value {
    Value::Object(fields.into_iter().map(|(k, v)| (String::from(k), v)).collect())
}

fn arr(items: Vec<Value>) -> Value {
    Value::Array(items)
}

fn input_doc() -> Value {
    obj(vec![
        ("retailer", obj(vec![("id", t("12342"))])),
        (
            "order",
            obj(vec![
                ("po_number", t("573832")),
                (
                    "shipments",
                    arr(vec![
                        obj(vec![
                            ("tracking_number", t("1234567")),
                            (
                                "items",
                                arr(vec![
                                    obj(vec![("sku", t("SKU-123")), ("quantity", n("4"))]),
                                    obj(vec![("sku", t("SKU-343")), ("quantity", n("3"))]),
                                ]),
                            ),
                        ]),
                        obj(vec![
                            ("tracking_number", t("98776")),
                            (
                                "items",
                                arr(vec![
                                    obj(vec![("sku", t("SKU-1453")), ("quantity", n("1"))]),
                                    obj(vec![("sku", t("SKU-543")), ("quantity", n("1"))]),
                                ]),
                            ),
                        ]),
                    ]),
                ),
            ]),
        ),
        ("user_id", n("2331212")),
        ("order_id", t("34554543")),
        (
            "product",
            obj(vec![
                ("id", t("654654")),
                ("length", n("50")),
                ("alternative_size", n("33")),
                (
                    "details",
                    obj(vec![("name", t("Red Shoes")), ("manufacture", t("company"))]),
                ),
            ]),
        ),
        ("ids", arr(vec![t("34554543"), t("7643534"), t("512342")])),
    ])
}

#[test]
fn transformer_bad_output_structure() {
    let input = input_doc();
    let transformed_result = transform(&input, &obj(vec![]));
    assert!(transformed_result.is_err());

    assert_eq!(
        transformed_result.err().unwrap().message(),
        "output should be in an array of object structure"
    );
}

#[test]
fn transformer_bad_output_array_element_structure() {
    let input = input_doc();
    let transformed_output = transform(&input, &arr(vec![arr(vec![])]));
    assert!(transformed_output.is_err());

    assert_eq!(
        transformed_output.err().unwrap().message(),
        "output array elements should be in object structure: []"
    );
}

#[test]
fn transformer_output_array_obj_element_without_name() {
    let input = input_doc();
    let transformed_output = transform(&input, &arr(vec![obj(vec![])]));
    assert!(transformed_output.is_err());

    assert_eq!(
        transformed_output.err().unwrap().message(),
        "failed to get the name of the output: {}"
    );
}

#[test]
fn test_traverse_mut_err() {
    let input = input_doc();

    let mut output = arr(vec![arr(vec![])]);
    let result = traverse_mut(&input, &mut output, "", "");

    assert!(result.is_err());
    assert_eq!(
        result.err().unwrap().message(),
        "Traversing output object failed; output object field should be string: [[]]"
    )
}

#[test]
fn substitution_resolves_the_worked_example() {
    // the nested-template walk: every leaf path resolved against the
    // input, arrays broadcast and flattened
    let input = input_doc();
    let mut template = obj(vec![(
        "order",
        obj(vec![(
            "sub_order",
            obj(vec![
                ("item_ids", t("/ids")),
                ("account_id", t("/retailer/id")),
                ("fulfillment_line_item_id", t("/order/po_number")),
                (
                    "details",
                    obj(vec![
                        (".trackings", t("/order/shipments/tracking_number")),
                        ("quantity", t("/order/shipments/items/quantity")),
                    ]),
                ),
                ("product", obj(vec![("id", t("/product/id"))])),
            ]),
        )]),
    )]);
    let result = traverse_mut(&input, &mut template, "", "");
    assert!(result.is_ok());
    let expected = obj(vec![(
        "order",
        obj(vec![(
            "sub_order",
            obj(vec![
                ("item_ids", arr(vec![t("34554543"), t("7643534"), t("512342")])),
                ("account_id", t("12342")),
                ("fulfillment_line_item_id", t("573832")),
                (
                    "details",
                    obj(vec![
                        (".trackings", arr(vec![t("1234567"), t("98776")])),
                        ("quantity", arr(vec![n("4"), n("3"), n("1"), n("1")])),
                    ]),
                ),
                ("product", obj(vec![("id", t("654654"))])),
            ]),
        )]),
    )]);
    assert_eq!(template, expected);
}

#[test]
fn transform_literal_scenario() {
    // input {"ids":["a","b","c"]}, template [{"r":{"x":"/ids"}}]
    let input = obj(vec![("ids", arr(vec![t("a"), t("b"), t("c")]))]);
    let template = arr(vec![obj(vec![(
        "r",
        obj(vec![("x", t("/ids"))]),
    )])]);
    let result = transform(&input, &template).unwrap();
    let expected = arr(vec![obj(vec![(
        "r",
        obj(vec![("x", arr(vec![t("a"), t("b"), t("c")]))]),
    )])]);
    assert_eq!(result, expected);
}

#[test]
fn transform_array_split_scenario() {
    // input {"ids":["a","b"]}, template [{"[r]":{"...x":"/ids","y":"'z'"}}]
    let input = obj(vec![("ids", arr(vec![t("a"), t("b")]))]);
    let template = arr(vec![obj(vec![(
        "[r]",
        obj(vec![("...x", t("/ids")), ("y", t("'z'"))]),
    )])]);
    let result = transform(&input, &template).unwrap();
    let expected = arr(vec![obj(vec![(
        "r",
        arr(vec![
            obj(vec![("x", t("a")), ("y", t("z"))]),
            obj(vec![("x", t("b")), ("y", t("z"))]),
        ]),
    )])]);
    assert_eq!(result, expected);
}

#[test]
fn transform_hard_coded_value_ignores_input() {
    let template = arr(vec![obj(vec![(
        "product",
        obj(vec![("id", t("'123345'"))]),
    )])]);
    let expected = arr(vec![obj(vec![(
        "product",
        obj(vec![("id", t("123345"))]),
    )])]);
    let result_one = transform(&input_doc(), &template).unwrap();
    let result_two = transform(&obj(vec![("unrelated", n("1"))]), &template).unwrap();
    assert_eq!(result_one, expected);
    assert_eq!(result_two, expected);
}

#[test]
fn transform_multi_spread_pairs_elements() {
    // two co-located spread arrays of equal length pair up element by
    // element
    let input = obj(vec![
        ("xs", arr(vec![n("1"), n("2")])),
        ("ys", arr(vec![t("u"), t("v")])),
    ]);
    let template = arr(vec![obj(vec![(
        "[r]",
        obj(vec![("...a", t("/xs")), ("...b", t("/ys"))]),
    )])]);
    let result = transform(&input, &template).unwrap();
    let expected = arr(vec![obj(vec![(
        "r",
        arr(vec![
            obj(vec![("a", n("1")), ("b", t("u"))]),
            obj(vec![("a", n("2")), ("b", t("v"))]),
        ]),
    )])]);
    assert_eq!(result, expected);
}

#[test]
fn transform_split_keeps_plain_fields_in_every_copy() {
    let input = obj(vec![("ids", arr(vec![t("a"), t("b"), t("c")]))]);
    let template = arr(vec![obj(vec![(
        "[r]",
        obj(vec![
            ("first", t("'k'")),
            ("...x", t("/ids")),
            ("last", t("'w'")),
        ]),
    )])]);
    let result = transform(&input, &template).unwrap();
    let copy = |v: Value| {
        obj(vec![("first", t("k")), ("x", v), ("last", t("w"))])
    };
    let expected = arr(vec![obj(vec![(
        "r",
        arr(vec![copy(t("a")), copy(t("b")), copy(t("c"))]),
    )])]);
    assert_eq!(result, expected);
}

#[test]
fn transform_missing_field_is_reported() {
    let input = obj(vec![("a", n("1"))]);
    let template = arr(vec![obj(vec![("r", obj(vec![("x", t("/nope"))]))])]);
    let result = transform(&input, &template);
    assert!(result.is_err());
    assert_eq!(
        result.err().unwrap().message(),
        format!(
            "Failed to resolve mapping value; couldn't find field name nope in the obj {}",
            input.to_pretty_string()
        )
    );
}

#[test]
fn transform_err_array_convertible_obj_no_spread_array_field() {
    let input = input_doc();
    let template = arr(vec![obj(vec![(
        "[order]",
        obj(vec![("q", t("'z'"))]),
    )])]);
    let transformed_output = transform(&input, &template);
    assert!(transformed_output.is_err());
    assert_eq!(
        transformed_output.err().unwrap().message(),
        "Failed to process array convertible object; a array convertible object [order] is detected but no spread array field was found"
    );
}

#[test]
fn transform_err_no_array_convertible_obj_and_spread_array_field() {
    // a spread field without an array-convertible ancestor is renamed
    // and otherwise ignored
    let input = obj(vec![("ids", arr(vec![t("a")]))]);
    let template = arr(vec![obj(vec![(
        "r",
        obj(vec![("...x", t("/ids"))]),
    )])]);
    let transformed_output = transform(&input, &template);
    assert!(transformed_output.is_ok());
}

#[test]
fn transform_malformed_template_leaf() {
    let input = input_doc();
    let template = arr(vec![obj(vec![("r", obj(vec![("x", n("5"))]))])]);
    let result = transform(&input, &template);
    assert_eq!(
        result.err().unwrap().message(),
        "Traversing output object failed; output object field should be string: 5"
    );
}

#[test]
fn transform_nested_convertible_objects() {
    // an inner array-convertible object is split first, on the way out;
    // the outer one then distributes its own spread array
    let input = obj(vec![("xs", arr(vec![t("1"), t("2")]))]);
    let template = arr(vec![obj(vec![(
        "[a]",
        obj(vec![
            ("[b]", obj(vec![("...x", t("/xs"))])),
            ("...y", t("/xs")),
        ]),
    )])]);
    let result = transform(&input, &template).unwrap();
    let b_split = || {
        arr(vec![
            obj(vec![("x", t("1"))]),
            obj(vec![("x", t("2"))]),
        ])
    };
    let expected = arr(vec![obj(vec![(
        "a",
        arr(vec![
            obj(vec![("b", b_split()), ("y", t("1"))]),
            obj(vec![("b", b_split()), ("y", t("2"))]),
        ]),
    )])]);
    assert_eq!(result, expected);
}
