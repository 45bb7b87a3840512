use vstd::prelude::*;
use vstd::string::StringSliceAdditionalSpecFns;

verus! {

/// Whether every byte is an ASCII digit.
pub open spec fn all_ascii_digits(bytes: Seq<u8>) -> bool {
    forall|i: int| 0 <= i < bytes.len() ==> 0x30 <= #[trigger] bytes[i] <= 0x39
}

/// Whether a file of the chunks directory of a block is a chunks file by its
/// name: the name is made of digits.
pub fn is_chunk_file_name(file_name: &str) -> (r: bool)
    ensures
        r == all_ascii_digits(file_name.spec_bytes()),
{
    let bytes: &[u8] = file_name.as_bytes();
    let mut i: usize = 0;
    while i < bytes.len()
        invariant
            i <= bytes@.len(),
            bytes@ == file_name.spec_bytes(),
            forall|j: int| 0 <= j < i ==> 0x30 <= #[trigger] bytes@[j] <= 0x39,
        decreases bytes@.len() - i,
    {
        if bytes[i] < 0x30 || bytes[i] > 0x39 {
            return false;
        }
        i = i + 1;
    }
    true
}

} // verus!
