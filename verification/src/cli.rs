//! The arguments that every command of the command-line tool accepts.

use crate::archiver::ArchiveFormat;
use vstd::prelude::*;
use vstd::string::StringSliceAdditionalSpecFns;
use vstd::utf8::{decode_utf8, encode_utf8, encode_utf8_decode_utf8};

verus! {

/// An argument that every command accepts.
pub enum GenericArgument {
    /// The output format.
    Format(Format),
}

/// An output format named on the command line.
pub enum Format {
    /// A binary property list.
    Binary,
    /// A base64-encoded binary property list.
    Base64,
}

/// Returns whether `a` and `b` are the same text.
pub fn str_equal(a: &str, b: &str) -> (same: bool)
    ensures
        same == (a@ == b@),
{
    broadcast use encode_utf8_decode_utf8;

    let x = a.as_bytes();
    let y = b.as_bytes();
    if x.len() != y.len() {
        return false;
    }
    let mut i: usize = 0;
    while i < x.len()
        invariant
            x@ == a.spec_bytes(),
            y@ == b.spec_bytes(),
            x@.len() == y@.len(),
            i <= x@.len(),
            forall|j: int| 0 <= j < i ==> x@[j] == y@[j],
        decreases x@.len() - i,
    {
        if x[i] != y[i] {
            return false;
        }
        i = i + 1;
    }
    assert(x@ =~= y@);
    assert(decode_utf8(encode_utf8(a@)) == a@);
    assert(decode_utf8(encode_utf8(b@)) == b@);
    true
}

/// The message for an argument `arg` given without a value.
pub open spec fn missing_value_message(arg: Seq<char>) -> Seq<char> {
    "missing value for argument: "@ + arg
}

/// The message for a format `value` that is neither `base64` nor `binary`.
pub open spec fn invalid_format_message(value: Seq<char>) -> Seq<char> {
    "invalid format: "@ + value
}

/// The message for an argument `arg` that the command `cmd` does not know.
pub open spec fn unknown_argument_message(cmd: Seq<char>, arg: Seq<char>) -> Seq<char> {
    "unknown argument \""@ + arg + "\" for command \""@ + cmd + "\""@
}

/// Whether `arg` names the format argument.
pub open spec fn is_format_argument(arg: Seq<char>) -> bool {
    arg == "-f"@ || arg == "--format"@
}

/// Parses the generic argument `arg` of the command `cmd`, with the value
/// that follows it. The format argument (`-f` or `--format`) takes `base64`
/// or `binary`.
pub fn parse_generic_argument(cmd: &str, arg: &str, value: Option<String>) -> (res: Result<
    GenericArgument,
    String,
>)
    ensures
        value is None ==> (res matches Err(message) && message@ == missing_value_message(arg@)),
        value matches Some(v) ==> {
            if is_format_argument(arg@) {
                if v@ == "base64"@ {
                    res matches Ok(GenericArgument::Format(Format::Base64))
                } else if v@ == "binary"@ {
                    res matches Ok(GenericArgument::Format(Format::Binary))
                } else {
                    (res matches Err(message) && message@ == invalid_format_message(v@))
                }
            } else {
                (res matches Err(message) && message@ == unknown_argument_message(cmd@, arg@))
            }
        },
{
    let value = match value {
        Some(value) => value,
        None => {
            let mut message = String::from_str("missing value for argument: ");
            message.append(arg);
            return Err(message);
        },
    };

    if str_equal(arg, "-f") || str_equal(arg, "--format") {
        if str_equal(value.as_str(), "base64") {
            Ok(GenericArgument::Format(Format::Base64))
        } else if str_equal(value.as_str(), "binary") {
            Ok(GenericArgument::Format(Format::Binary))
        } else {
            let mut message = String::from_str("invalid format: ");
            message.append(value.as_str());
            Err(message)
        }
    } else {
        let mut message = String::from_str("unknown argument \"");
        message.append(arg);
        message.append("\" for command \"");
        message.append(cmd);
        message.append("\"");
        Err(message)
    }
}

/// The archive format that a generic argument selects.
pub open spec fn selected_format(argument: GenericArgument) -> ArchiveFormat {
    match argument {
        GenericArgument::Format(Format::Binary) => ArchiveFormat::Binary,
        GenericArgument::Format(Format::Base64) => ArchiveFormat::Base64,
    }
}

/// Returns the archive format that the generic arguments select: that of the
/// last of them, or the binary format when there is none.
pub fn output_format(generic_arguments: &[GenericArgument]) -> (format: ArchiveFormat)
    ensures
        generic_arguments@.len() == 0 ==> format == ArchiveFormat::Binary,
        generic_arguments@.len() > 0 ==> format == selected_format(generic_arguments@.last()),
{
    let mut format = ArchiveFormat::default();
    let mut i: usize = 0;
    while i < generic_arguments.len()
        invariant
            i <= generic_arguments@.len(),
            i == 0 ==> format == ArchiveFormat::Binary,
            i > 0 ==> format == selected_format(generic_arguments@[i - 1]),
        decreases generic_arguments@.len() - i,
    {
        format = match &generic_arguments[i] {
            GenericArgument::Format(Format::Binary) => ArchiveFormat::Binary,
            GenericArgument::Format(Format::Base64) => ArchiveFormat::Base64,
        };
        i = i + 1;
    }
    format
}

} // verus!
