//! Well-known partition type GUIDs, taken from the `gpt` crate's catalog, and
//! their case-insensitive comparison.
use vstd::prelude::*;

verus! {

/// ASCII text of the EFI system partition type GUID,
/// `C12A7328-F81F-11D2-BA4B-00A0C93EC93B`.
pub open spec fn esp_guid_text() -> Seq<u8> {
    seq![
        67u8, 49, 50, 65, 55, 51, 50, 56, 45, 70, 56, 49,
        70, 45, 49, 49, 68, 50, 45, 66, 65, 52, 66, 45,
        48, 48, 65, 48, 67, 57, 51, 69, 67, 57, 51, 66,
    ]
}

/// ASCII text of the x86-64 Linux root partition type GUID,
/// `4F68BCE3-E8CD-4DB1-96E7-FBCAF984B709`.
pub open spec fn linux_root_guid_text() -> Seq<u8> {
    seq![
        52u8, 70, 54, 56, 66, 67, 69, 51, 45, 69, 56, 67,
        68, 45, 52, 68, 66, 49, 45, 57, 54, 69, 55, 45,
        70, 66, 67, 65, 70, 57, 56, 52, 66, 55, 48, 57,
    ]
}

/// Relies on `gpt::partition_types::EFI`, whose `guid` field holds the text
/// `C12A7328-F81F-11D2-BA4B-00A0C93EC93B`.
#[verifier::external_body]
pub(crate) fn esp_type_guid() -> (r: Vec<u8>)
    ensures
        r@ == esp_guid_text(),
{
    gpt::partition_types::EFI.guid.as_bytes().to_vec()
}

/// Relies on `gpt::partition_types::LINUX_ROOT_X64`, whose `guid` field holds
/// the text `4F68BCE3-E8CD-4DB1-96E7-FBCAF984B709`.
#[verifier::external_body]
pub(crate) fn linux_root_type_guid() -> (r: Vec<u8>)
    ensures
        r@ == linux_root_guid_text(),
{
    gpt::partition_types::LINUX_ROOT_X64.guid.as_bytes().to_vec()
}

/// An ASCII letter in upper case; every other byte as it is.
pub open spec fn ascii_upper(b: u8) -> u8 {
    if 97 <= b && b <= 122 {
        (b - 32) as u8
    } else {
        b
    }
}

/// Two GUID texts name the same GUID: equal up to the case of ASCII letters.
pub open spec fn same_guid(a: Seq<u8>, b: Seq<u8>) -> bool {
    &&& a.len() == b.len()
    &&& forall|i: int| 0 <= i < a.len() ==> ascii_upper(#[trigger] a[i]) == ascii_upper(b[i])
}

fn upper_byte(b: u8) -> (r: u8)
    ensures
        r == ascii_upper(b),
{
    if 97 <= b && b <= 122 {
        b - 32
    } else {
        b
    }
}

/// Compares two GUID texts, ignoring the case of ASCII letters.
pub fn guid_eq(a: &[u8], b: &[u8]) -> (r: bool)
    ensures
        r == same_guid(a@, b@),
{
    if a.len() != b.len() {
        return false;
    }
    let mut i: usize = 0;
    while i < a.len()
        invariant
            a@.len() == b@.len(),
            0 <= i <= a@.len(),
            forall|k: int| 0 <= k < i ==> ascii_upper(#[trigger] a@[k]) == ascii_upper(b@[k]),
        decreases a@.len() - i,
    {
        if upper_byte(a[i]) != upper_byte(b[i]) {
            return false;
        }
        i = i + 1;
    }
    true
}

/// Whether a type GUID text names the EFI system partition type.
pub fn is_esp_type(guid: &[u8]) -> (r: bool)
    ensures
        r == same_guid(guid@, esp_guid_text()),
{
    let esp = esp_type_guid();
    guid_eq(guid, esp.as_slice())
}

} // verus!
