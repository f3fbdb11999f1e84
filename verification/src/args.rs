use vstd::prelude::*;

verus! {

/// The command-line options: the target device and the EFI and swap sizes.
pub struct Args {
    pub device: String,
    pub efi: String,
    pub swap: String,
}

impl Default for Args {
    /// The values taken when an option is not given.
    fn default() -> (r: Self)
        ensures
            r.device@ == "/dev/sda"@,
            r.efi@ == "1GiB"@,
            r.swap@ == "8GiB"@,
    {
        Args {
            device: crate::text::string_of(&crate::text::chars_of("/dev/sda")),
            efi: crate::text::string_of(&crate::text::chars_of("1GiB")),
            swap: crate::text::string_of(&crate::text::chars_of("8GiB")),
        }
    }
}

} // verus!
