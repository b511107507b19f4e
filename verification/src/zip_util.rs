//! A file unpacked into memory, and its text.

use vstd::prelude::*;
use vstd::string::StringSliceAdditionalSpecFns;
use vstd::utf8::valid_utf8;

verus! {

/// The standard library's cursor over a buffer in memory.
#[verifier::external_type_specification]
#[verifier::external_body]
#[verifier::reject_recursive_types(T)]
pub struct ExCursor<T>(std::io::Cursor<T>);

/// A file that was unpacked into memory.
pub type PseudoFile = std::io::Cursor<Vec<u8>>;

/// The bytes of the file, whatever has been read of it.
pub uninterp spec fn file_bytes(file: std::io::Cursor<Vec<u8>>) -> Seq<u8>;

/// `std::io::Cursor::get_ref`: the buffer that the cursor reads from. The
/// contract only gives its content its name.
#[verifier::external_body]
fn get_ref(file: &std::io::Cursor<Vec<u8>>) -> (buffer: &Vec<u8>)
    ensures
        buffer@ == file_bytes(*file),
{
    file.get_ref()
}

/// `std::str::from_utf8`, an error turned into `None`.
///
/// The contract claims what the documentation says: bytes that are UTF-8
/// are handed back as the text that they encode, and no others are.
#[verifier::external_body]
fn from_utf8<'a>(bytes: &'a [u8]) -> (text: Option<&'a str>)
    ensures
        text is Some <==> valid_utf8(bytes@),
        text matches Some(t) ==> t.spec_bytes() == bytes@,
{
    std::str::from_utf8(bytes).ok()
}

/// The text of the file, which must be UTF-8.
pub fn pseudofile_to_str(file: &PseudoFile) -> (text: &str)
    requires
        valid_utf8(file_bytes(*file)),
    ensures
        text.spec_bytes() == file_bytes(*file),
{
    match from_utf8(get_ref(file).as_slice()) {
        Some(text) => text,
        None => "",
    }
}

/// The text of the file, if it is UTF-8.
pub fn pseudofile_text(file: &PseudoFile) -> (text: Option<&str>)
    ensures
        text is Some <==> valid_utf8(file_bytes(*file)),
        text matches Some(t) ==> t.spec_bytes() == file_bytes(*file),
{
    match from_utf8(get_ref(file).as_slice()) {
        Some(_) => Some(pseudofile_to_str(file)),
        None => None,
    }
}

} // verus!
