use transformer_rs::decorate::{
    clean_key, clean_path, format_key, is_obj_to_be_converted_to_array, is_to_be_spread_array,
};

#[test]
fn test_clean_key() {
    assert_eq!(clean_key("").unwrap(), "");
    assert_eq!(clean_key("key").unwrap(), "key");
    assert_eq!(clean_key("...key").unwrap(), "key");
}

#[test]
fn test_clean_path() {
    assert_eq!(clean_path("").unwrap(), "");
    assert_eq!(clean_path("/obj").unwrap(), "/obj");
    assert_eq!(clean_path("/obj/obj").unwrap(), "/obj/obj");
    assert_eq!(clean_path("obj/obj").unwrap(), "/obj/obj");
    assert_eq!(clean_path("/[obj]/...array").unwrap(), "/obj/array");
    assert_eq!(clean_path("/[obj]/obj/...array").unwrap(), "/obj/obj/array");
}

#[test]
fn test_is_obj_to_be_converted_to_array() {
    assert_eq!(is_obj_to_be_converted_to_array("[obj]"), true);
    assert_eq!(is_obj_to_be_converted_to_array("obj"), false);
    assert_eq!(is_obj_to_be_converted_to_array("[obj"), false);
    assert_eq!(is_obj_to_be_converted_to_array("obj]"), false);
}

#[test]
fn test_is_to_be_spread_array() {
    assert_eq!(is_to_be_spread_array("...array"), true);
    assert_eq!(is_to_be_spread_array("array"), false);
}

#[test]
fn test_format_key() {
    assert_eq!(format_key("", ""), "");
    assert_eq!(format_key("", "key"), "/key");
    assert_eq!(format_key("/xpath/xpath", ""), "/xpath/xpath");
    assert_eq!(format_key("/xpath", "key"), "/xpath/key");
}

#[test]
fn clean_key_is_idempotent_on_singly_decorated_keys() {
    for k in ["", "key", "...key", "[order]", "a...b", "[a...b]"] {
        let once = clean_key(k).unwrap().to_owned();
        let twice = clean_key(&once).unwrap().to_owned();
        assert_eq!(twice, once);
    }
}

#[test]
fn clean_key_strips_one_layer_only() {
    assert_eq!(clean_key("......key").unwrap(), "...key");
    assert_eq!(clean_key("[[key]]").unwrap(), "[key]");
}
