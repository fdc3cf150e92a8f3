//! The Cocoa objects that can be archived, with their class hierarchies.

use vstd::prelude::*;

verus! {

/// A Cocoa class: its name and the names of its class hierarchy, the class
/// itself first.
pub trait NsObject {
    /// The class name.
    spec fn spec_class() -> Seq<char>;

    /// The names of the class hierarchy.
    spec fn spec_classes() -> Seq<Seq<char>>;

    /// Returns the class name.
    fn class() -> (name: &'static str)
        ensures
            name@ == Self::spec_class(),
    ;

    /// Returns the names of the class hierarchy.
    fn classes() -> (names: &'static [&'static str])
        ensures
            names@.len() == Self::spec_classes().len(),
            forall|i: int| 0 <= i < names@.len() ==> #[trigger] names@[i]@ == Self::spec_classes()[i],
    ;
}

/// A font: its name, its size and its font flags.
pub struct NsFont {
    /// The font name.
    pub name: String,
    /// The font size in points, as the IEEE 754 bit pattern of a double.
    pub size: u64,
    /// The font flags.
    pub flags: u32,
}

impl NsFont {
    /// The font flags of a new font.
    pub const DEFAULT_FLAGS: u32 = 16;

    /// Creates a font with the default flags.
    pub fn new(name: String, size: u64) -> (font: Self)
        ensures
            font.name@ == name@,
            font.size == size,
            font.flags == Self::DEFAULT_FLAGS,
    {
        Self { name, size, flags: Self::DEFAULT_FLAGS }
    }
}

impl NsObject for NsFont {
    open spec fn spec_class() -> Seq<char> {
        "NSFont"@
    }

    open spec fn spec_classes() -> Seq<Seq<char>> {
        seq!["NSFont"@, "NSObject"@]
    }

    fn class() -> (name: &'static str) {
        "NSFont"
    }

    fn classes() -> (names: &'static [&'static str]) {
        let names: &'static [&'static str] = &["NSFont", "NSObject"];
        names
    }
}

/// A color: its red, green, blue and alpha components, each held as the
/// decimal text that stands for it in an archive.
pub struct NsColor {
    /// The red component.
    pub red: String,
    /// The green component.
    pub green: String,
    /// The blue component.
    pub blue: String,
    /// The alpha component.
    pub alpha: String,
}

/// The components of a color separated by single spaces, red first.
pub open spec fn components_text(red: Seq<char>, green: Seq<char>, blue: Seq<char>, alpha: Seq<char>) -> Seq<char> {
    red + " "@ + green + " "@ + blue + " "@ + alpha
}

impl NsColor {
    /// The text of the four components, separated by single spaces.
    pub open spec fn spec_components(&self) -> Seq<char> {
        components_text(self.red@, self.green@, self.blue@, self.alpha@)
    }

    /// Returns the four components separated by single spaces: `"red green blue alpha"`.
    pub fn components(&self) -> (text: String)
        ensures
            text@ == self.spec_components(),
    {
        let mut text = self.red.clone();
        text.append(" ");
        text.append(self.green.as_str());
        text.append(" ");
        text.append(self.blue.as_str());
        text.append(" ");
        text.append(self.alpha.as_str());
        text
    }
}

impl NsObject for NsColor {
    open spec fn spec_class() -> Seq<char> {
        "NSColor"@
    }

    open spec fn spec_classes() -> Seq<Seq<char>> {
        seq!["NSColor"@, "NSObject"@]
    }

    fn class() -> (name: &'static str) {
        "NSColor"
    }

    fn classes() -> (names: &'static [&'static str]) {
        let names: &'static [&'static str] = &["NSColor", "NSObject"];
        names
    }
}

} // verus!
