//! Recognition of ELF binaries by their magic number.  Opening and reading
//! the file stay with the caller, who hands the first four bytes in.

use vstd::prelude::*;

verus! {

/// Declares std's `io::ErrorKind` so that an error can carry it through.
#[verifier::external_type_specification]
#[verifier::external_body]
pub struct ExErrorKind(std::io::ErrorKind);

/// Why a file could not be checked for the ELF magic.
pub enum IsElfError {
    Io { kind: std::io::ErrorKind, when: &'static str },
}

/// The four magic bytes opening every ELF file.
pub open spec fn spec_is_elf_header(h: Seq<u8>) -> bool {
    h == seq![0x7fu8, 0x45u8, 0x4cu8, 0x46u8]
}

/// Does a file starting with these four bytes hold an ELF binary?
pub fn is_elf(start_bytes: &[u8; 4]) -> (r: bool)
    ensures
        r == spec_is_elf_header(start_bytes@),
{
    if start_bytes[0] == 0x7f && start_bytes[1] == 0x45 && start_bytes[2] == 0x4c
        && start_bytes[3] == 0x46 {
        assert(start_bytes@ =~= seq![0x7fu8, 0x45u8, 0x4cu8, 0x46u8]);
        true
    } else {
        assert(start_bytes@ != seq![0x7fu8, 0x45u8, 0x4cu8, 0x46u8]) by {
            let magic = seq![0x7fu8, 0x45u8, 0x4cu8, 0x46u8];
            assert(magic[0] == 0x7fu8 && magic[1] == 0x45u8 && magic[2] == 0x4cu8 && magic[3]
                == 0x46u8);
        }
        false
    }
}

} // verus!
