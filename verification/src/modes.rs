use vstd::prelude::*;

verus! {

/// How the patterns are interpreted.
#[derive(Clone, Copy, PartialEq, Eq, Debug, Structural)]
pub enum RegexMode {
    Fixed,
    Basic,
    Extended,
    Perl,
}

/// What to do with files that look binary.
#[derive(Clone, Copy, PartialEq, Eq, Debug, Structural)]
pub enum BinaryMode {
    Binary,
    Text,
    WithoutMatch,
}

/// When to colorize output.
#[derive(Clone, Copy, PartialEq, Eq, Debug, Structural)]
pub enum ColorMode {
    Always,
    Never,
    Auto,
}

/// What to do with directories named on the command line or met while searching.
#[derive(Clone, Copy, PartialEq, Eq, Debug, Structural)]
pub enum DirectoryMode {
    Read,
    Skip,
    Recurse,
}

/// What to do with devices, FIFOs and sockets.
#[derive(Clone, Copy, PartialEq, Eq, Debug, Structural)]
pub enum DeviceMode {
    Default,
    Read,
    Skip,
}

/// The regex flavour selected by `-F`, `-E` and `-P`; `-F` wins over `-E`,
/// which wins over `-P`, and basic regular expressions are the default.
pub fn regex_mode(fixed_strings: bool, extended_regexp: bool, perl_regexp: bool) -> (m: RegexMode)
    ensures
        m == (if fixed_strings {
            RegexMode::Fixed
        } else if extended_regexp {
            RegexMode::Extended
        } else if perl_regexp {
            RegexMode::Perl
        } else {
            RegexMode::Basic
        }),
{
    if fixed_strings {
        RegexMode::Fixed
    } else if extended_regexp {
        RegexMode::Extended
    } else if perl_regexp {
        RegexMode::Perl
    } else {
        RegexMode::Basic
    }
}

} // verus!
