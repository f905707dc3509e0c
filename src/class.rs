//! The Soundex class table: which consonants sound alike.

use vstd::prelude::*;

verus! {

/// The class digit (as an ASCII byte `'1'`..`'6'`) of an uppercase ASCII
/// letter, or `None` for vowels, `H`, `W` and every other byte.
pub open spec fn class_of(c: u8) -> Option<u8> {
    if c == 66 || c == 70 || c == 80 || c == 86 {
        // B F P V
        Some(49u8)
    } else if c == 67 || c == 71 || c == 74 || c == 75 || c == 81 || c == 83 || c == 88 || c
        == 90 {
        // C G J K Q S X Z
        Some(50u8)
    } else if c == 68 || c == 84 {
        // D T
        Some(51u8)
    } else if c == 76 {
        // L
        Some(52u8)
    } else if c == 77 || c == 78 {
        // M N
        Some(53u8)
    } else if c == 82 {
        // R
        Some(54u8)
    } else {
        None
    }
}

/// Looks up the class digit of a byte in the Soundex table.
pub fn american_soundex_code(c: u8) -> (r: Option<u8>)
    ensures
        r == class_of(c),
        r matches Some(d) ==> 49 <= d <= 54,
{
    match c {
        // B F P V
        66 | 70 | 80 | 86 => Some(49),
        // C G J K Q S X Z
        67 | 71 | 74 | 75 | 81 | 83 | 88 | 90 => Some(50),
        // D T
        68 | 84 => Some(51),
        // L
        76 => Some(52),
        // M N
        77 | 78 => Some(53),
        // R
        82 => Some(54),
        _ => None,
    }
}

} // verus!
