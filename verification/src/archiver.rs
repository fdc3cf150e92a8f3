//! Keyed archives of Cocoa objects.

use crate::object::{NsColor, NsFont, NsObject};
use crate::serializer::{
    class_metadata, holds_match, interned, serialize, serialized, top_store, Key, KeyValueStore,
    NsColorSerializer, NsFontSerializer, Value, ValueModel, values_match, lemma_color_object_data,
    lemma_font_object_data, lemma_interned_resolves,
};
use vstd::prelude::*;
use vstd::string::to_string_from_display_ensures;
use vstd::utf8::encode_utf8;

verus! {

/// Supported archive formats.
#[derive(Debug, Clone, Copy)]
#[non_exhaustive]
pub enum ArchiveFormat {
    /// The binary property list format.
    Binary,
    /// The base64-encoded binary property list format.
    Base64,
}

impl Default for ArchiveFormat {
    fn default() -> (format: Self)
        ensures
            format is Binary,
    {
        ArchiveFormat::Binary
    }
}

/// Supported Cocoa objects that can be archived.
#[derive(Debug)]
#[non_exhaustive]
pub enum ArchiveTarget {
    /// A color object; this maps to the Cocoa `NSColor` class. Each component
    /// is held as the decimal text that stands for it in the archive.
    Color {
        /// The red component.
        red: String,
        /// The green component.
        green: String,
        /// The blue component.
        blue: String,
        /// The alpha component.
        alpha: String,
    },
    /// A font object; this maps to the Cocoa `NSFont` class.
    Font {
        /// The name of the font.
        name: String,
        /// The size of the font, as the IEEE 754 bit pattern of a double.
        size: u64,
    },
}

/// The archivers that this crate provides.
#[derive(Debug, Clone, Copy)]
#[non_exhaustive]
pub enum ArchiverVariant {
    /// An archiver that archives property list data as key-value pairs; this
    /// archiver corresponds to the Apple `NSKeyedArchiver` archiver.
    KeyedArchiver,
}

impl Default for ArchiverVariant {
    fn default() -> (variant: Self)
        ensures
            variant is KeyedArchiver,
    {
        ArchiverVariant::KeyedArchiver
    }
}

/// The root of a keyed archive whose top-level dictionary holds `store`:
/// `store` with `$archiver` set to `NSKeyedArchiver` and `$version` to 100000.
pub open spec fn keyed_archive(store: Map<Key, ValueModel>) -> ValueModel {
    ValueModel::Dictionary(
        store.insert(Key::Archiver, ValueModel::String("NSKeyedArchiver"@)).insert(
            Key::Version,
            ValueModel::Integer(100000),
        ),
    )
}

/// The root of the keyed archive of `target`.
pub open spec fn archive_model(target: ArchiveTarget) -> ValueModel {
    match target {
        ArchiveTarget::Color { red, green, blue, alpha } => keyed_archive(
            serialized(&NsColorSerializer, NsColor { red, green, blue, alpha }),
        ),
        ArchiveTarget::Font { name, size } => keyed_archive(
            serialized(&NsFontSerializer, NsFont { name, size, flags: NsFont::DEFAULT_FLAGS }),
        ),
    }
}

impl ArchiverVariant {
    /// Returns the root of the keyed archive whose top-level dictionary is
    /// `store`.
    fn ns_keyed_archive(&self, store: KeyValueStore) -> (root: Value)
        ensures
            root.model() == keyed_archive(store.model()),
    {
        let mut store = store;
        store.insert(Key::Archiver, Value::String(String::from_str("NSKeyedArchiver")));
        store.insert(Key::Version, Value::Integer(100000));
        Value::Dictionary(store)
    }

    /// Returns the root of the archive of `target`, the property list that an
    /// archive holds.
    pub fn archive_value(&self, target: ArchiveTarget) -> (root: Value)
        ensures
            root.model() == archive_model(target),
    {
        let store = match target {
            ArchiveTarget::Color { red, green, blue, alpha } => serialize(
                &NsColorSerializer,
                NsColor { red, green, blue, alpha },
            ),
            ArchiveTarget::Font { name, size } => serialize(&NsFontSerializer, NsFont::new(name, size)),
        };
        match self {
            ArchiverVariant::KeyedArchiver => self.ns_keyed_archive(store),
        }
    }
}

/// The shape of a keyed archive of an object of class `T`: `$archiver` and
/// `$version` are set; `$objects` starts with the string `$null` and the class
/// hierarchy object of `T`, and ends with the root store, which refers to
/// the class hierarchy object under `$class`; `$top` refers to the root store
/// under `root`.
pub open spec fn has_keyed_archive_layout<T: NsObject>(root: ValueModel) -> bool {
    &&& root matches ValueModel::Dictionary(top)
    &&& top.dom().contains(Key::Archiver)
    &&& top[Key::Archiver] == ValueModel::String("NSKeyedArchiver"@)
    &&& top.dom().contains(Key::Version)
    &&& top[Key::Version] == ValueModel::Integer(100000)
    &&& top.dom().contains(Key::Objects)
    &&& top[Key::Objects] matches ValueModel::Array(objects)
    &&& objects.len() >= 3
    &&& objects[0] == ValueModel::String("$null"@)
    &&& objects[1] == class_metadata::<T>()
    &&& objects[objects.len() - 1] matches ValueModel::Dictionary(root_store)
    &&& root_store.dom().contains(Key::Class)
    &&& root_store[Key::Class] == ValueModel::Ref(1)
    &&& top.dom().contains(Key::Top)
    &&& top[Key::Top] == top_store((objects.len() - 1) as u64)
}

/// Every archive has the layout of a keyed archive of the class of its
/// target: `$null` first, the class hierarchy object next, the root store
/// last, and `$top` referring to the root store.
pub proof fn lemma_archive_layout(target: ArchiveTarget)
    ensures
        target is Color ==> has_keyed_archive_layout::<NsColor>(archive_model(target)),
        target is Font ==> has_keyed_archive_layout::<NsFont>(archive_model(target)),
{
    reveal_strlit("$null");
    let null_only = seq![ValueModel::String("$null"@)];
    match target {
        ArchiveTarget::Color { .. } => {
            let meta = class_metadata::<NsColor>();
            assert(!holds_match(null_only, meta)) by {
                assert(!values_match(null_only[0], meta));
            }
            let (with_class, class_ref) = interned(meta, null_only);
            assert(with_class == null_only.push(meta));
            assert(class_ref == ValueModel::Ref(1));
        },
        ArchiveTarget::Font { name, size } => {
            let meta = class_metadata::<NsFont>();
            assert(!holds_match(null_only, meta)) by {
                assert(!values_match(null_only[0], meta));
            }
            let (with_class, class_ref) = interned(meta, null_only);
            assert(with_class == null_only.push(meta));
            let (with_name, name_ref) = interned(ValueModel::String(name@), with_class);
            if holds_match(with_class, ValueModel::String(name@)) {
                assert(with_name == with_class);
            } else {
                assert(with_name == with_class.push(ValueModel::String(name@)));
            }
        },
    }
}

/// In the archive of a color, the root store (the last object) holds the
/// UTF-8 bytes of the target's red, green, blue and alpha texts, in that
/// order and separated by single spaces, under `NSComponents`; the same bytes
/// and a NUL under `NSRGB`; the color space 1; and the byte `0` (48) under
/// `NSLinearExposure`.
pub proof fn lemma_color_archive_contents(red: String, green: String, blue: String, alpha: String)
    ensures
        ({
            let root = archive_model(ArchiveTarget::Color { red, green, blue, alpha });
            let text = red@ + " "@ + green@ + " "@ + blue@ + " "@ + alpha@;
            &&& root matches ValueModel::Dictionary(top)
            &&& top.dom().contains(Key::Objects)
            &&& top[Key::Objects] matches ValueModel::Array(objects)
            &&& objects.len() >= 1
            &&& objects[objects.len() - 1] matches ValueModel::Dictionary(root_store)
            &&& root_store.dom().contains(Key::NsComponents)
            &&& root_store[Key::NsComponents] == ValueModel::Data(encode_utf8(text))
            &&& root_store.dom().contains(Key::NsRgb)
            &&& root_store[Key::NsRgb] == ValueModel::Data(encode_utf8(text) + seq![0u8])
            &&& root_store.dom().contains(Key::NsColorSpace)
            &&& root_store[Key::NsColorSpace] == ValueModel::Integer(1)
            &&& root_store.dom().contains(Key::NsLinearExposure)
            &&& root_store[Key::NsLinearExposure] == ValueModel::Data(seq![48u8])
        }),
{
    let color = NsColor { red, green, blue, alpha };
    let null_only = seq![ValueModel::String("$null"@)];
    let (with_class, class_ref) = interned(class_metadata::<NsColor>(), null_only);
    lemma_color_object_data(color, with_class, Map::empty().insert(Key::Class, class_ref));
}

/// In the archive of a font, the root store (the last object) holds the
/// target's size under `NSSize`, the default flags 16 under `NSfFlags`, and
/// under `NSName` a reference to an object of the archive that is the
/// target's name, whole.
pub proof fn lemma_font_archive_contents(name: String, size: u64)
    ensures
        ({
            let root = archive_model(ArchiveTarget::Font { name, size });
            &&& root matches ValueModel::Dictionary(top)
            &&& top.dom().contains(Key::Objects)
            &&& top[Key::Objects] matches ValueModel::Array(objects)
            &&& objects.len() >= 1
            &&& objects[objects.len() - 1] matches ValueModel::Dictionary(root_store)
            &&& root_store.dom().contains(Key::NsSize)
            &&& root_store[Key::NsSize] == ValueModel::Real(size)
            &&& root_store.dom().contains(Key::NsfFlags)
            &&& root_store[Key::NsfFlags] == ValueModel::Integer(16)
            &&& root_store.dom().contains(Key::NsName)
            &&& root_store[Key::NsName] matches ValueModel::Ref(i)
            &&& i < objects.len()
            &&& objects[i as int] == ValueModel::String(name@)
        }),
{
    let font = NsFont { name, size, flags: NsFont::DEFAULT_FLAGS };
    let null_only = seq![ValueModel::String("$null"@)];
    let (with_class, class_ref) = interned(class_metadata::<NsFont>(), null_only);
    lemma_interned_resolves(class_metadata::<NsFont>(), null_only);
    lemma_font_object_data(font, with_class, Map::empty().insert(Key::Class, class_ref));
}

/// The I/O error of std, carried through as it came from the writer that an
/// archive was written to.
#[verifier::external_type_specification]
#[verifier::external_body]
pub struct ExIoError(std::io::Error);

/// Errors that may occur while archiving a Cocoa object.
#[derive(Debug)]
#[non_exhaustive]
pub enum ArchiveError {
    /// Failed while serializing a property list archive.
    PropertyList(String),
    /// Failed while serializing a base64-encoded property list archive.
    Base64(std::io::Error),
}

impl ArchiveError {
    /// Returns the message that describes the error: what was being
    /// serialized, a colon and a space, then the cause (the text of the I/O
    /// error as its `Display` writes it).
    pub fn message(&self) -> (message: String)
        ensures
            self matches ArchiveError::PropertyList(cause) ==> message@
                == "failed while serializing a property list archive: "@ + cause@,
            self matches ArchiveError::Base64(cause) ==> exists|text: String|
                to_string_from_display_ensures::<std::io::Error>(&cause, text) && message@
                    == "failed while serializing a base64-encoded property list archive: "@ + text@,
    {
        match self {
            ArchiveError::PropertyList(cause) => {
                let mut message = String::from_str("failed while serializing a property list archive: ");
                message.append(cause.as_str());
                message
            },
            ArchiveError::Base64(cause) => {
                let text = cause.to_string();
                let mut message = String::from_str(
                    "failed while serializing a base64-encoded property list archive: ",
                );
                message.append(text.as_str());
                message
            },
        }
    }
}

} // verus!
