//! The style configuration: an immutable value describing indentation,
//! casing, and label-placement preferences for one format pass.

use vstd::prelude::*;

verus! {

/// How one indentation level is rendered.
///
/// For `Tabs`, `charlen` is the display width of a tab; it is documentation
/// only and does not change how many characters are written (one tab per
/// level).  For `Spaces`, `amount` spaces are written per level.
pub enum Indentation {
    Tabs { charlen: u32 },
    Spaces { amount: u32 },
}

/// A casing policy for one category of token: render its ASCII letters in
/// lower case or in upper case.  Characters outside `a..=z` / `A..=Z` pass
/// through unchanged.
pub enum Casing {
    Lower,
    Upper,
}

/// The style configuration for a format pass.  It is read-only for the
/// duration of the pass; no component mutates it.
///
/// The fields from `line_length_limit` on are declared configuration slots
/// that the current formatting logic does not act on.
pub struct Settings {
    pub indentation: Indentation,
    pub inline_labels: bool,
    pub lowercase_instructions: bool,
    pub lowercase_registers: bool,
    pub lowercase_names: bool,
    pub line_length_limit: Option<u32>,
    pub allow_multiline_instructions: bool,
    pub align_assembler_directives: bool,
    pub align_labels_to_start_of_line: bool,
    pub align_instruction_statements: bool,
}

impl Settings {
    /// The documented defaults: tabs of width 4, labels on their own line,
    /// everything lowercased, line length 120, no multiline instructions,
    /// all alignment options on.
    pub open spec fn spec_default() -> Settings {
        Settings {
            indentation: Indentation::Tabs { charlen: 4 },
            inline_labels: false,
            lowercase_instructions: true,
            lowercase_registers: true,
            lowercase_names: true,
            line_length_limit: Some(120),
            allow_multiline_instructions: false,
            align_assembler_directives: true,
            align_labels_to_start_of_line: true,
            align_instruction_statements: true,
        }
    }

    /// The casing policy selected by one of the boolean casing flags.
    pub open spec fn spec_casing(lowercase: bool) -> Casing {
        if lowercase {
            Casing::Lower
        } else {
            Casing::Upper
        }
    }

    /// Turns one of the boolean casing flags into a [`Casing`] policy.
    pub fn casing(lowercase: bool) -> (c: Casing)
        ensures
            c == Self::spec_casing(lowercase),
    {
        if lowercase {
            Casing::Lower
        } else {
            Casing::Upper
        }
    }
}

impl Default for Settings {
    /// Constructs the documented default configuration.
    fn default() -> (s: Settings)
        ensures
            s == Settings::spec_default(),
    {
        Settings {
            indentation: Indentation::Tabs { charlen: 4 },
            inline_labels: false,
            lowercase_instructions: true,
            lowercase_registers: true,
            lowercase_names: true,
            line_length_limit: Some(120),
            allow_multiline_instructions: false,
            align_assembler_directives: true,
            align_labels_to_start_of_line: true,
            align_instruction_statements: true,
        }
    }
}

} // verus!
