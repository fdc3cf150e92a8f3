use cocoa_archive::object::{NsColor, NsFont, NsObject};
use cocoa_archive::serializer::{
    construct_and_insert_top_store, construct_class_metadata, intern_value, populate_objects,
    serialize, values_equal, CocoaSerializer, Key, KeyValueStore, NsColorSerializer,
    NsFontSerializer, Value,
};

fn string(s: &str) -> Value {
    Value::String(s.to_string())
}

fn as_array(v: &Value) -> &Vec<Value> {
    match v {
        Value::Array(items) => items,
        other => panic!("not an array: {:?}", other),
    }
}

fn as_dict(v: &Value) -> &KeyValueStore {
    match v {
        Value::Dictionary(store) => store,
        other => panic!("not a dictionary: {:?}", other),
    }
}

fn assert_string(v: &Value, expected: &str) {
    match v {
        Value::String(s) => assert_eq!(s, expected),
        other => panic!("not a string: {:?}", other),
    }
}

fn assert_ref(v: &Value, expected: u64) {
    match v {
        Value::Ref(uid) => assert_eq!(*uid, expected),
        other => panic!("not a reference: {:?}", other),
    }
}

fn assert_data(v: &Value, expected: &[u8]) {
    match v {
        Value::Data(d) => assert_eq!(d.as_slice(), expected),
        other => panic!("not data: {:?}", other),
    }
}

fn assert_integer(v: &Value, expected: i32) {
    match v {
        Value::Integer(i) => assert_eq!(*i, expected),
        other => panic!("not an integer: {:?}", other),
    }
}

fn assert_class_metadata(v: &Value, class: &str, classes: &[&str]) {
    let store = as_dict(v);
    assert_eq!(store.entries().len(), 2);
    assert_string(store.get(Key::Classname).unwrap(), class);
    let names = as_array(store.get(Key::Classes).unwrap());
    assert_eq!(names.len(), classes.len());
    for (name, expected) in names.iter().zip(classes) {
        assert_string(name, expected);
    }
}

#[test]
fn key_names() {
    let cases = [
        (Key::NsName, "NSName"),
        (Key::NsSize, "NSSize"),
        (Key::NsfFlags, "NSfFlags"),
        (Key::Classes, "$classes"),
        (Key::Classname, "$classname"),
        (Key::Class, "$class"),
        (Key::Objects, "$objects"),
        (Key::Top, "$top"),
        (Key::Root, "root"),
        (Key::Archiver, "$archiver"),
        (Key::Version, "$version"),
        (Key::NsRgb, "NSRGB"),
        (Key::NsLinearExposure, "NSLinearExposure"),
        (Key::NsComponents, "NSComponents"),
        (Key::NsColorSpace, "NSColorSpace"),
    ];
    for (key, name) in cases {
        assert_eq!(key.name(), name);
    }
}

#[test]
fn key_names_are_distinct() {
    let keys = [
        Key::NsName, Key::NsSize, Key::NsfFlags, Key::Classes, Key::Classname, Key::Class,
        Key::Objects, Key::Top, Key::Root, Key::Archiver, Key::Version, Key::NsRgb,
        Key::NsLinearExposure, Key::NsComponents, Key::NsColorSpace,
    ];
    for (i, a) in keys.iter().enumerate() {
        for b in &keys[i + 1..] {
            assert_ne!(a.name(), b.name());
        }
    }
}

#[test]
fn store_get_gives_back_the_last_insert() {
    let mut store = KeyValueStore::new();
    assert!(store.get(Key::Root).is_none());
    store.insert(Key::Root, Value::Integer(1));
    store.insert(Key::Top, Value::Integer(2));
    assert_integer(store.get(Key::Root).unwrap(), 1);
    store.insert(Key::Root, Value::Integer(3));
    assert_integer(store.get(Key::Root).unwrap(), 3);
    assert_integer(store.get(Key::Top).unwrap(), 2);
    assert!(store.get(Key::Class).is_none());
    assert_eq!(store.entries().len(), 2);
    assert_eq!(store.entries()[0].0, Key::Root);
    assert_eq!(store.entries()[1].0, Key::Top);
}

#[test]
fn values_equal_compares_structure() {
    assert!(values_equal(&string("a"), &string("a")));
    assert!(!values_equal(&string("a"), &string("b")));
    assert!(!values_equal(&Value::Integer(1), &Value::Ref(1)));
    assert!(values_equal(&Value::Real(5), &Value::Real(5)));
    assert!(!values_equal(&Value::Data(vec![1, 2]), &Value::Data(vec![1, 2, 3])));
    assert!(values_equal(
        &Value::Array(vec![string("x"), Value::Integer(2)]),
        &Value::Array(vec![string("x"), Value::Integer(2)])
    ));
    assert!(!values_equal(
        &Value::Array(vec![string("x")]),
        &Value::Array(vec![string("x"), Value::Integer(2)])
    ));
}

#[test]
fn values_equal_ignores_dictionary_order() {
    let mut a = KeyValueStore::new();
    a.insert(Key::Root, Value::Integer(1));
    a.insert(Key::Top, string("t"));
    let mut b = KeyValueStore::new();
    b.insert(Key::Top, string("t"));
    b.insert(Key::Root, Value::Integer(1));
    assert!(values_equal(&Value::Dictionary(a), &Value::Dictionary(b)));

    let mut c = KeyValueStore::new();
    c.insert(Key::Root, Value::Integer(1));
    let mut d = KeyValueStore::new();
    d.insert(Key::Root, Value::Integer(1));
    d.insert(Key::Top, string("t"));
    assert!(!values_equal(&Value::Dictionary(c), &Value::Dictionary(d)));
}

#[test]
fn intern_value_reuses_equal_objects() {
    let mut objects = vec![string("$null"), string("a")];
    assert_ref(&intern_value(string("a"), &mut objects), 1);
    assert_eq!(objects.len(), 2);
    assert_ref(&intern_value(string("b"), &mut objects), 2);
    assert_eq!(objects.len(), 3);
    assert_ref(&intern_value(string("b"), &mut objects), 2);
    assert_ref(&intern_value(string("$null"), &mut objects), 0);
    assert_eq!(objects.len(), 3);
}

#[test]
fn class_metadata_of_font_and_color() {
    assert_class_metadata(&construct_class_metadata::<NsFont>(), "NSFont", &["NSFont", "NSObject"]);
    assert_class_metadata(&construct_class_metadata::<NsColor>(), "NSColor", &["NSColor", "NSObject"]);
    assert_eq!(NsFont::class(), "NSFont");
    assert_eq!(NsColor::classes(), &["NSColor", "NSObject"]);
}

#[test]
fn top_store_refers_to_the_root() {
    let mut store = KeyValueStore::new();
    construct_and_insert_top_store(7, &mut store);
    let top = as_dict(store.get(Key::Top).unwrap());
    assert_eq!(top.entries().len(), 1);
    assert_ref(top.get(Key::Root).unwrap(), 7);
}

#[test]
fn font_serialization_layout() {
    let size = 12.0f64.to_bits();
    let store = serialize(&NsFontSerializer, NsFont::new("Helvetica".to_string(), size));
    assert_eq!(store.entries().len(), 2);
    let objects = as_array(store.get(Key::Objects).unwrap());
    assert_eq!(objects.len(), 4);
    assert_string(&objects[0], "$null");
    assert_class_metadata(&objects[1], "NSFont", &["NSFont", "NSObject"]);
    assert_string(&objects[2], "Helvetica");
    let root = as_dict(&objects[3]);
    assert_eq!(root.entries().len(), 4);
    assert_ref(root.get(Key::Class).unwrap(), 1);
    assert_ref(root.get(Key::NsName).unwrap(), 2);
    match root.get(Key::NsSize).unwrap() {
        Value::Real(bits) => assert_eq!(f64::from_bits(*bits), 12.0),
        other => panic!("not a real: {:?}", other),
    }
    assert_integer(root.get(Key::NsfFlags).unwrap(), 16);
    let top = as_dict(store.get(Key::Top).unwrap());
    assert_ref(top.get(Key::Root).unwrap(), 3);
}

#[test]
fn font_named_null_reuses_the_null_object() {
    let store = serialize(&NsFontSerializer, NsFont::new("$null".to_string(), 0));
    let objects = as_array(store.get(Key::Objects).unwrap());
    assert_eq!(objects.len(), 3);
    let root = as_dict(&objects[2]);
    assert_ref(root.get(Key::NsName).unwrap(), 0);
    assert_ref(as_dict(store.get(Key::Top).unwrap()).get(Key::Root).unwrap(), 2);
}

fn red() -> NsColor {
    NsColor {
        red: "1".to_string(),
        green: "0".to_string(),
        blue: "0".to_string(),
        alpha: "1".to_string(),
    }
}

#[test]
fn color_components_text() {
    assert_eq!(red().components(), "1 0 0 1");
    let color = NsColor {
        red: "0.5".to_string(),
        green: "0.25".to_string(),
        blue: "1".to_string(),
        alpha: "0.75".to_string(),
    };
    assert_eq!(color.components(), "0.5 0.25 1 0.75");
}

#[test]
fn color_serialization_layout() {
    let store = serialize(&NsColorSerializer, red());
    let objects = as_array(store.get(Key::Objects).unwrap());
    assert_eq!(objects.len(), 3);
    assert_string(&objects[0], "$null");
    assert_class_metadata(&objects[1], "NSColor", &["NSColor", "NSObject"]);
    let root = as_dict(&objects[2]);
    assert_eq!(root.entries().len(), 5);
    assert_ref(root.get(Key::Class).unwrap(), 1);
    assert_data(root.get(Key::NsRgb).unwrap(), b"1 0 0 1\0");
    assert_integer(root.get(Key::NsColorSpace).unwrap(), 1);
    assert_data(root.get(Key::NsLinearExposure).unwrap(), b"0");
    assert_data(root.get(Key::NsComponents).unwrap(), b"1 0 0 1");
    assert_ref(as_dict(store.get(Key::Top).unwrap()).get(Key::Root).unwrap(), 2);
}

#[test]
fn construct_object_data_of_font_interns_the_name() {
    let mut objects = vec![string("$null"), string("Courier")];
    let mut root = KeyValueStore::new();
    NsFontSerializer.construct_object_data(&NsFont::new("Courier".to_string(), 3), &mut objects, &mut root);
    assert_eq!(objects.len(), 2);
    assert_ref(root.get(Key::NsName).unwrap(), 1);
    match root.get(Key::NsSize).unwrap() {
        Value::Real(bits) => assert_eq!(*bits, 3),
        other => panic!("not a real: {:?}", other),
    }
}

#[test]
fn populate_objects_appends_the_root_store_last() {
    let mut objects = vec![string("$null")];
    populate_objects(&NsColorSerializer, &red(), &mut objects);
    assert_eq!(objects.len(), 3);
    let root = as_dict(&objects[2]);
    assert_ref(root.get(Key::Class).unwrap(), 1);
}

#[test]
fn font_default_flags() {
    let font = NsFont::new("Menlo".to_string(), 1);
    assert_eq!(font.flags, NsFont::DEFAULT_FLAGS);
    assert_eq!(NsFont::DEFAULT_FLAGS, 16);
    assert_eq!(font.name, "Menlo");
    assert_eq!(font.size, 1);
}

#[test]
fn reals_compare_as_doubles() {
    let pos = Value::Real(0.0f64.to_bits());
    let neg = Value::Real((-0.0f64).to_bits());
    let nan = Value::Real(f64::NAN.to_bits());
    assert!(values_equal(&pos, &neg));
    assert!(!values_equal(&nan, &Value::Real(f64::NAN.to_bits())));
    assert!(values_equal(&Value::Real(1.5f64.to_bits()), &Value::Real(1.5f64.to_bits())));
    assert!(!values_equal(&Value::Real(1.5f64.to_bits()), &Value::Real(2.5f64.to_bits())));
    assert!(!values_equal(&Value::Real(f64::INFINITY.to_bits()), &Value::Real(f64::NEG_INFINITY.to_bits())));
    assert!(values_equal(&Value::Real(f64::INFINITY.to_bits()), &Value::Real(f64::INFINITY.to_bits())));
}

#[test]
fn intern_value_reuses_the_other_zero_and_never_a_nan() {
    let mut objects = vec![Value::Real(0.0f64.to_bits())];
    assert_ref(&intern_value(Value::Real((-0.0f64).to_bits()), &mut objects), 0);
    assert_eq!(objects.len(), 1);
    assert_ref(&intern_value(Value::Real(f64::NAN.to_bits()), &mut objects), 1);
    assert_ref(&intern_value(Value::Real(f64::NAN.to_bits()), &mut objects), 2);
    assert_eq!(objects.len(), 3);
}

#[test]
fn arrays_of_reals_compare_as_doubles() {
    let a = Value::Array(vec![Value::Real(0.0f64.to_bits()), string("x")]);
    let b = Value::Array(vec![Value::Real((-0.0f64).to_bits()), string("x")]);
    assert!(values_equal(&a, &b));
}
