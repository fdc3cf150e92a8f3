use cocoa_archive::archiver::{ArchiveError, ArchiveFormat, ArchiveTarget, ArchiverVariant};
use cocoa_archive::serializer::{Key, KeyValueStore, Value};

fn as_dict(v: &Value) -> &KeyValueStore {
    match v {
        Value::Dictionary(store) => store,
        other => panic!("not a dictionary: {:?}", other),
    }
}

fn objects_len(root: &KeyValueStore) -> usize {
    match root.get(Key::Objects).unwrap() {
        Value::Array(items) => items.len(),
        other => panic!("not an array: {:?}", other),
    }
}

fn assert_archive_header(root: &KeyValueStore) {
    match root.get(Key::Archiver).unwrap() {
        Value::String(s) => assert_eq!(s, "NSKeyedArchiver"),
        other => panic!("not a string: {:?}", other),
    }
    match root.get(Key::Version).unwrap() {
        Value::Integer(v) => assert_eq!(*v, 100000),
        other => panic!("not an integer: {:?}", other),
    }
    assert_eq!(root.entries().len(), 4);
}

#[test]
fn color_archive_root() {
    let target = ArchiveTarget::Color {
        red: "1".to_string(),
        green: "0".to_string(),
        blue: "0".to_string(),
        alpha: "1".to_string(),
    };
    let value = ArchiverVariant::KeyedArchiver.archive_value(target);
    let root = as_dict(&value);
    assert_archive_header(root);
    assert_eq!(objects_len(root), 3);
    match as_dict(root.get(Key::Top).unwrap()).get(Key::Root).unwrap() {
        Value::Ref(uid) => assert_eq!(*uid, 2),
        other => panic!("not a reference: {:?}", other),
    }
}

#[test]
fn font_archive_root() {
    let target = ArchiveTarget::Font { name: "Helvetica".to_string(), size: 12.0f64.to_bits() };
    let value = ArchiverVariant::default().archive_value(target);
    let root = as_dict(&value);
    assert_archive_header(root);
    assert_eq!(objects_len(root), 4);
    match as_dict(root.get(Key::Top).unwrap()).get(Key::Root).unwrap() {
        Value::Ref(uid) => assert_eq!(*uid, 3),
        other => panic!("not a reference: {:?}", other),
    }
}

#[test]
fn defaults() {
    assert!(matches!(ArchiveFormat::default(), ArchiveFormat::Binary));
    assert!(matches!(ArchiverVariant::default(), ArchiverVariant::KeyedArchiver));
}

#[test]
fn archive_error_messages() {
    let err = ArchiveError::PropertyList("bad value".to_string());
    assert_eq!(err.message(), "failed while serializing a property list archive: bad value");
    let io = std::io::Error::new(std::io::ErrorKind::Other, "disk full");
    let err = ArchiveError::Base64(io);
    assert_eq!(
        err.message(),
        "failed while serializing a base64-encoded property list archive: disk full"
    );
    assert!(format!("{:?}", err).contains("Base64"));
}

#[test]
fn archive_target_debug() {
    let target = ArchiveTarget::Font { name: "Menlo".to_string(), size: 0 };
    assert!(format!("{:?}", target).contains("Menlo"));
}
