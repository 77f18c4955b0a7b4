//! The mathematical model of the formatter.
//!
//! Every executable function of the library is specified against the
//! functions in this module.  The central one is [`line_spec`]: given one
//! trimmed input line, the indentation level in force, and the configuration,
//! it gives the text appended to the output, the text appended to the
//! diagnostic log, and the indentation level after the line.

use vstd::prelude::*;
use crate::config::{Casing, Indentation, Settings};

verus! {

/// Whitespace as the formatter understands it.
pub open spec fn is_space(c: char) -> bool {
    c == ' ' || c == '\t' || c == '\n' || c == '\r'
}

/// ASCII lower-casing of one character; everything else passes through.
pub open spec fn lower_char(c: char) -> char {
    if 'A' <= c && c <= 'Z' {
        ((c as int) + 32) as char
    } else {
        c
    }
}

/// ASCII upper-casing of one character; everything else passes through.
pub open spec fn upper_char(c: char) -> char {
    if 'a' <= c && c <= 'z' {
        ((c as int) - 32) as char
    } else {
        c
    }
}

/// One character rendered under a casing policy.
pub open spec fn cased_char(c: char, casing: Casing) -> char {
    match casing {
        Casing::Lower => lower_char(c),
        Casing::Upper => upper_char(c),
    }
}

/// A whole sequence rendered under a casing policy.
pub open spec fn cased_seq(s: Seq<char>, casing: Casing) -> Seq<char> {
    s.map_values(|c: char| cased_char(c, casing))
}

/// The characters rendered for `level` indentation levels: one tab per level,
/// or `amount` spaces per level.
pub open spec fn indent_text(ind: Indentation, level: nat) -> Seq<char> {
    match ind {
        Indentation::Tabs { charlen: _ } => Seq::new(level, |i: int| '\t'),
        Indentation::Spaces { amount } => Seq::new(level * (amount as nat), |i: int| ' '),
    }
}

/// The index of the first non-whitespace character at or after `i`, or
/// `s.len()` if the rest of `s` is whitespace.
pub open spec fn first_ns(s: Seq<char>, i: int) -> int
    recommends
        0 <= i <= s.len(),
    decreases s.len() - i,
{
    if i < 0 || i >= s.len() {
        s.len() as int
    } else if is_space(s[i]) {
        first_ns(s, i + 1)
    } else {
        i
    }
}

/// One past the index of the last non-whitespace character strictly before
/// `j`, or `0` if everything before `j` is whitespace.
pub open spec fn last_ns(s: Seq<char>, j: int) -> int
    recommends
        0 <= j <= s.len(),
    decreases j,
{
    if j <= 0 {
        0
    } else if is_space(s[j - 1]) {
        last_ns(s, j - 1)
    } else {
        j
    }
}

/// `s` with leading and trailing whitespace removed.
pub open spec fn spec_trim(s: Seq<char>) -> Seq<char> {
    let lo = first_ns(s, 0);
    let hi = last_ns(s, s.len() as int);
    if lo < hi {
        s.subrange(lo, hi)
    } else {
        Seq::<char>::empty()
    }
}

/// The section-directive keyword, including its trailing space.
pub open spec fn section_kw() -> Seq<char> {
    seq!['s', 'e', 'c', 't', 'i', 'o', 'n', ' ']
}

/// Whether the scan of `s` terminates a header token at index `i`: a colon
/// (label terminator), or the accumulated token is exactly `section `.
pub open spec fn term_at(s: Seq<char>, i: int) -> bool {
    s[i] == ':' || (i == 7 && s.subrange(0, 8) == section_kw())
}

/// The least index `>= i` where the header scan of `s` terminates, if any.
pub open spec fn find_term(s: Seq<char>, i: int) -> Option<int>
    recommends
        1 <= i,
    decreases s.len() - i,
{
    if i < 1 || i >= s.len() {
        None
    } else if term_at(s, i) {
        Some(i)
    } else {
        find_term(s, i + 1)
    }
}

/// One past the last character copied verbatim after a section directive:
/// characters are copied from `from` up to and including the first line
/// terminator, or to the end of `s` if there is none.
pub open spec fn copy_end(s: Seq<char>, from: int) -> int
    recommends
        0 <= from <= s.len(),
    decreases s.len() - from,
{
    if from < 0 || from >= s.len() {
        s.len() as int
    } else if s[from] == '\n' {
        from + 1
    } else {
        copy_end(s, from + 1)
    }
}

/// The index of the space separating the mnemonic from its operands, or
/// `s.len()` if the line is a bare mnemonic.
pub open spec fn mnemonic_end(s: Seq<char>, i: int) -> int
    recommends
        0 <= i <= s.len(),
    decreases s.len() - i,
{
    if i < 0 || i >= s.len() {
        s.len() as int
    } else if s[i] == ' ' {
        i
    } else {
        mnemonic_end(s, i + 1)
    }
}

/// The rendering of the operand region of an instruction line (everything
/// after the space that follows the mnemonic):
/// - the spaces separating operand tokens are not copied;
/// - a `;` drops the rest of its token (an inline comment);
/// - every comma is followed by exactly one space in the output;
/// - every other character is rendered under the register casing policy.
pub open spec fn render_ops(s: Seq<char>, casing: Casing) -> Seq<char>
    decreases s.len(),
{
    if s.len() == 0 {
        Seq::<char>::empty()
    } else if s[0] == ' ' {
        render_ops(s.skip(1), casing)
    } else if s[0] == ';' {
        proof {
            lemma_skip_token_len(s);
        }
        render_ops(skip_token(s), casing)
    } else if s[0] == ',' {
        seq![',', ' '] + render_ops(s.skip(1), casing)
    } else {
        seq![cased_char(s[0], casing)] + render_ops(s.skip(1), casing)
    }
}

/// Drops characters up to (but not including) the next token boundary, used
/// to discard the remainder of a token after a `;` comment marker.
pub open spec fn skip_token(s: Seq<char>) -> Seq<char>
    decreases s.len(),
{
    if s.len() == 0 || s[0] == ' ' {
        s
    } else {
        skip_token(s.skip(1))
    }
}

/// Skipping the rest of a token strictly shortens a sequence that does not
/// start at a token boundary.
pub proof fn lemma_skip_token_len(s: Seq<char>)
    requires
        s.len() > 0,
        s[0] != ' ',
    ensures
        skip_token(s).len() < s.len(),
    decreases s.len(),
{
    lemma_skip_token_le(s.skip(1));
}

/// Skipping the rest of a token never lengthens a sequence.
pub proof fn lemma_skip_token_le(s: Seq<char>)
    ensures
        skip_token(s).len() <= s.len(),
    decreases s.len(),
{
    if s.len() > 0 && s[0] != ' ' {
        lemma_skip_token_le(s.skip(1));
    }
}

/// The diagnostic recorded for a colon with no identifier in front of it.
pub open spec fn colon_diag() -> Seq<char> {
    "Parsing Error: Colon without an identifier in front of it."@
}

/// What one trimmed input line contributes: text appended to the output,
/// text appended to the diagnostic log, and the indentation level after the
/// line.
///
/// In priority order: an empty line passes through as a bare line terminator;
/// a line starting with a colon is malformed and degrades to indentation plus
/// a colon, with a diagnostic; a line whose scan terminates a header token
/// (label colon, or the `section ` keyword) sets the indentation level to 1,
/// renders the header under the identifier casing policy, copies a section
/// directive's trailing text verbatim, and recurses on whatever trimmed text
/// remains on the same line; anything else is an instruction, rendered as an
/// indented mnemonic followed by its operands.
pub open spec fn line_spec(s: Seq<char>, ind: nat, cfg: Settings) -> (Seq<char>, Seq<char>, nat)
    decreases s.len(),
{
    if s.len() == 0 {
        (seq!['\n'], Seq::<char>::empty(), ind)
    } else if s[0] == ':' {
        (indent_text(cfg.indentation, ind) + seq![':', '\n'], colon_diag(), ind)
    } else {
        match find_term(s, 1) {
            Some(t) => {
                let header = cased_seq(s.subrange(0, t + 1), Settings::spec_casing(cfg.lowercase_names));
                let e = if s[t] == ':' {
                    t + 1
                } else {
                    copy_end(s, t + 1)
                };
                let copied = s.subrange(t + 1, e);
                let rest = spec_trim(s.subrange(e, s.len() as int));
                let sep = if cfg.inline_labels {
                    seq![' ']
                } else {
                    seq!['\n']
                };
                if rest.len() > 0 {
                    proof {
                        lemma_find_term_some(s, 1, t);
                        if s[t] != ':' {
                            lemma_copy_end_bounds(s, t + 1);
                        }
                        lemma_line_spec_rest_len(s, e);
                    }
                    let r = line_spec(rest, 1, cfg);
                    (header + copied + sep + r.0, r.1, r.2)
                } else {
                    (header + copied + sep, Seq::<char>::empty(), 1)
                }
            },
            None => {
                let m = mnemonic_end(s, 0);
                let body = if m < s.len() {
                    cased_seq(s.subrange(0, m), Settings::spec_casing(cfg.lowercase_instructions))
                        + seq![' ']
                        + render_ops(s.subrange(m + 1, s.len() as int), Settings::spec_casing(cfg.lowercase_registers))
                } else {
                    cased_seq(s, Settings::spec_casing(cfg.lowercase_instructions))
                };
                (indent_text(cfg.indentation, ind) + body + seq!['\n'], Seq::<char>::empty(), ind)
            },
        }
    }
}

/// What a whole document contributes, threading the indentation level across
/// the lines: each raw line is trimmed and then formatted by [`line_spec`].
pub open spec fn doc_spec(lines: Seq<Seq<char>>, ind: nat, cfg: Settings) -> (Seq<char>, Seq<char>, nat)
    decreases lines.len(),
{
    if lines.len() == 0 {
        (Seq::<char>::empty(), Seq::<char>::empty(), ind)
    } else {
        let r = line_spec(spec_trim(lines[0]), ind, cfg);
        let rest = doc_spec(lines.skip(1), r.2, cfg);
        (r.0 + rest.0, r.1 + rest.1, rest.2)
    }
}

/// `first_ns` stays within the bounds of the sequence.
pub proof fn lemma_first_ns_bounds(s: Seq<char>, i: int)
    requires
        0 <= i <= s.len(),
    ensures
        i <= first_ns(s, i) <= s.len(),
    decreases s.len() - i,
{
    if i < s.len() && is_space(s[i]) {
        lemma_first_ns_bounds(s, i + 1);
    }
}

/// `last_ns` stays within the bounds of the sequence.
pub proof fn lemma_last_ns_bounds(s: Seq<char>, j: int)
    requires
        0 <= j <= s.len(),
    ensures
        0 <= last_ns(s, j) <= j,
    decreases j,
{
    if j > 0 && is_space(s[j - 1]) {
        lemma_last_ns_bounds(s, j - 1);
    }
}

/// Trimming never lengthens a sequence.
pub proof fn lemma_trim_len(s: Seq<char>)
    ensures
        spec_trim(s).len() <= s.len(),
{
    lemma_first_ns_bounds(s, 0);
    lemma_last_ns_bounds(s, s.len() as int);
}

/// The recursion of `line_spec` is on the trimmed remainder after a header
/// token of at least two characters, so the measure shrinks.
pub proof fn lemma_line_spec_rest_len(s: Seq<char>, e: int)
    requires
        1 <= e <= s.len(),
    ensures
        spec_trim(s.subrange(e, s.len() as int)).len() < s.len(),
{
    lemma_trim_len(s.subrange(e, s.len() as int));
}

/// `find_term` returns an index inside the sequence where a terminator
/// stands, and no earlier position from the start of the scan is one.
pub proof fn lemma_find_term_some(s: Seq<char>, i: int, t: int)
    requires
        1 <= i,
        find_term(s, i) == Some(t),
    ensures
        i <= t < s.len(),
        term_at(s, t),
        forall|k: int| i <= k < t ==> !term_at(s, k),
    decreases s.len() - i,
{
    if i < s.len() && !term_at(s, i) {
        lemma_find_term_some(s, i + 1, t);
    }
}

/// When `find_term` finds nothing, no position from the start of the scan is
/// a terminator.
pub proof fn lemma_find_term_none(s: Seq<char>, i: int)
    requires
        1 <= i,
        find_term(s, i) is None,
    ensures
        forall|k: int| i <= k < s.len() ==> !term_at(s, k),
    decreases s.len() - i,
{
    if i < s.len() {
        lemma_find_term_none(s, i + 1);
    }
}

/// `copy_end` stays within bounds and is past its starting point.
pub proof fn lemma_copy_end_bounds(s: Seq<char>, from: int)
    requires
        0 <= from <= s.len(),
    ensures
        from <= copy_end(s, from) <= s.len(),
    decreases s.len() - from,
{
    if from < s.len() && s[from] != '\n' {
        lemma_copy_end_bounds(s, from + 1);
    }
}

/// `mnemonic_end` stays within bounds.
pub proof fn lemma_mnemonic_end_bounds(s: Seq<char>, i: int)
    requires
        0 <= i <= s.len(),
    ensures
        i <= mnemonic_end(s, i) <= s.len(),
    decreases s.len() - i,
{
    if i < s.len() && s[i] != ' ' {
        lemma_mnemonic_end_bounds(s, i + 1);
    }
}

} // verus!
