//! Property declaration validity checks.

use ridb::property::{Property, PropertyType};

fn bare(property_type: PropertyType) -> Property {
    Property {
        property_type,
        items: None,
        max_items: None,
        min_items: None,
        max_length: None,
        min_length: None,
        properties: None,
        default: None,
    }
}

#[test]
fn test_property_defaults() {
    let default_property = bare(PropertyType::String);
    assert_eq!(default_property.property_type, PropertyType::String);
    assert!(default_property.items.is_none());
    assert!(default_property.max_items.is_none());
    assert!(default_property.min_items.is_none());
    assert!(default_property.max_length.is_none());
    assert!(default_property.min_length.is_none());
    assert!(default_property.properties.is_none());
    assert!(default_property.is_valid().unwrap());
}

#[test]
fn test_property_array_items_required() {
    let default_property = bare(PropertyType::Array);
    assert_eq!(default_property.property_type, PropertyType::Array);
    assert!(default_property.items.is_none());
    assert!(default_property.max_items.is_none());
    assert!(default_property.min_items.is_none());
    assert!(default_property.max_length.is_none());
    assert!(default_property.min_length.is_none());
    assert!(default_property.properties.is_none());
    let result = default_property.is_valid();
    match result {
        Ok(_) => panic!("Expected an error, but got Ok"),
        Err(js_val) => assert_eq!(
            js_val.message, "Validation Error: Items is empty",
            "Error: Expected 'Validation Error: Items is empty'"
        ),
    }
}

#[test]
fn test_property_array_items_with_max_min_items_wrong() {
    let prop = bare(PropertyType::String);
    let mut default_property = bare(PropertyType::Array);
    default_property.items = Some(vec![prop]);
    default_property.max_items = Some(-1);
    default_property.min_items = Some(-1);
    let result = default_property.is_valid();
    match result {
        Ok(_js_val) => panic!("Expected an error, but got Ok"),
        Err(js_val) => assert_eq!(
            js_val.message, "Validation Error: Min property not valid",
            "Error: Expected 'Validation Error: Min property not valid'"
        ),
    }
}

#[test]
fn test_property_array_items_with_max_min_items_wrong_min_higher() {
    let prop = bare(PropertyType::String);
    let mut default_property2 = bare(PropertyType::Array);
    default_property2.items = Some(vec![prop]);
    default_property2.max_items = Some(1);
    default_property2.min_items = Some(2);
    let result = default_property2.is_valid();
    match result {
        Ok(_) => panic!("Expected an error, but got Ok"),
        Err(js_val) => assert_eq!(
            js_val.message, "Validation Error: Min higher than max",
            "Error: Expected 'Validation Error: Min higher than max'"
        ),
    }
}

#[test]
fn test_property_array_items_with_max_min_items_wrong_min_lower0() {
    let prop = bare(PropertyType::String);
    let mut default_property2 = bare(PropertyType::Array);
    default_property2.items = Some(vec![prop]);
    default_property2.max_items = Some(1);
    default_property2.min_items = Some(-1);
    let result = default_property2.is_valid();
    match result {
        Ok(_) => panic!("Expected an error, but got Ok"),
        Err(js_val) => assert_eq!(
            js_val.message, "Validation Error: Min property not valid",
            "Error: Expected 'Validation Error: Min property not valid'"
        ),
    }
}

#[test]
fn test_property_number_ok() {
    let default_property2 = bare(PropertyType::Number);
    let result = default_property2.is_valid();
    match result {
        Ok(_) => {}
        Err(_) => panic!("Expected an error, but got Ok"),
    }
}

#[test]
fn test_property_boolean_ok() {
    let default_property2 = bare(PropertyType::Boolean);
    let result = default_property2.is_valid();
    match result {
        Ok(_) => {}
        Err(_) => panic!("Expected an error, but got Ok"),
    }
}

#[test]
fn test_property_string_with_max_min_length_wrong_min_higher() {
    let mut default_property2 = bare(PropertyType::String);
    default_property2.max_length = Some(1);
    default_property2.min_length = Some(2);
    let result = default_property2.is_valid();
    match result {
        Ok(_) => panic!("Expected an error, but got Ok"),
        Err(js_val) => assert_eq!(
            js_val.message, "Validation Error: Min higher than max",
            "Error: Expected 'Validation Error: Min higher than max'"
        ),
    }
}

#[test]
fn test_property_string_with_max_min_length_wrong_min_lower0() {
    let mut default_property2 = bare(PropertyType::String);
    default_property2.max_length = Some(1);
    default_property2.min_length = Some(-1);
    let result = default_property2.is_valid();
    match result {
        Ok(_) => panic!("Expected an error, but got Ok"),
        Err(js_val) => assert_eq!(
            js_val.message, "Validation Error: Min property not valid",
            "Error: Expected 'Validation Error: Min property not valid'"
        ),
    }
}

#[test]
fn test_property_object_no_props_err() {
    let result = bare(PropertyType::Object).is_valid();
    match result {
        Ok(_) => panic!("Expected an error, but got Ok"),
        Err(js_val) => assert_eq!(
            js_val.message, "Validation Error: Properties empty",
            "Error: Expected 'Validation Error: Properties empty'"
        ),
    }
}

#[test]
fn test_property_object_props_empty_err() {
    let mut p = bare(PropertyType::Object);
    p.properties = Some(Vec::new());
    let result = p.is_valid();
    match result {
        Ok(_) => panic!("Expected an error, but got Ok"),
        Err(js_val) => assert_eq!(
            js_val.message, "Validation Error: Properties empty",
            "Error: Expected 'Validation Error: Properties empty'"
        ),
    }
}
