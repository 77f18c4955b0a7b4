//! Laws of the formatter, proved against the model in [`crate::model`].

use vstd::prelude::*;
use crate::config::{Casing, Settings};
use crate::model::{
    cased_char, cased_seq, copy_end, doc_spec, find_term, indent_text, line_spec, lower_char,
    render_ops, skip_token, spec_trim, lemma_find_term_some, lemma_copy_end_bounds,
    lemma_line_spec_rest_len, lemma_skip_token_len,
};

verus! {

/// A line that the classifier treats as a label or section header: nonempty,
/// not a bare leading colon, and the scan finds a terminator.
pub open spec fn is_header_line(s: Seq<char>) -> bool {
    s.len() > 0 && s[0] != ':' && find_term(s, 1) is Some
}

/// Blank-line preservation: an empty input line always yields exactly one
/// empty output line, appends no diagnostic, and leaves the indentation
/// level untouched, regardless of configuration.
pub proof fn lemma_blank_line_preserved(ind: nat, cfg: Settings)
    ensures
        line_spec(Seq::<char>::empty(), ind, cfg).0 == seq!['\n'],
        line_spec(Seq::<char>::empty(), ind, cfg).1 == Seq::<char>::empty(),
        line_spec(Seq::<char>::empty(), ind, cfg).2 == ind,
{
}

/// Once the indentation level is 1 it stays 1: no line, of any
/// classification, ever lowers or raises it again.
pub proof fn lemma_indent_sticky(s: Seq<char>, cfg: Settings)
    ensures
        line_spec(s, 1, cfg).2 == 1,
    decreases s.len(),
{
    if s.len() > 0 && s[0] != ':' {
        match find_term(s, 1) {
            Some(t) => {
                lemma_find_term_some(s, 1, t);
                let e = if s[t] == ':' {
                    t + 1
                } else {
                    copy_end(s, t + 1)
                };
                if s[t] != ':' {
                    lemma_copy_end_bounds(s, t + 1);
                }
                let rest = spec_trim(s.subrange(e, s.len() as int));
                if rest.len() > 0 {
                    lemma_line_spec_rest_len(s, e);
                    lemma_indent_sticky(rest, cfg);
                }
            },
            None => {},
        }
    }
}

/// Processing a header line sets the indentation level to exactly 1,
/// whatever it was before.
pub proof fn lemma_header_sets_indent(s: Seq<char>, ind: nat, cfg: Settings)
    requires
        is_header_line(s),
    ensures
        line_spec(s, ind, cfg).2 == 1,
{
    let t = find_term(s, 1)->0;
    lemma_find_term_some(s, 1, t);
    let e = if s[t] == ':' {
        t + 1
    } else {
        copy_end(s, t + 1)
    };
    if s[t] != ':' {
        lemma_copy_end_bounds(s, t + 1);
    }
    let rest = spec_trim(s.subrange(e, s.len() as int));
    if rest.len() > 0 {
        lemma_indent_sticky(rest, cfg);
    }
}

/// Processing a non-header line leaves the indentation level unchanged.
pub proof fn lemma_nonheader_keeps_indent(s: Seq<char>, ind: nat, cfg: Settings)
    requires
        !is_header_line(s),
    ensures
        line_spec(s, ind, cfg).2 == ind,
{
}

/// Formatting a concatenation of documents is formatting the first and then
/// the second, with the indentation level threaded through.
pub proof fn lemma_doc_concat(a: Seq<Seq<char>>, b: Seq<Seq<char>>, ind: nat, cfg: Settings)
    ensures
        doc_spec(a + b, ind, cfg).0 == doc_spec(a, ind, cfg).0 + doc_spec(
            b,
            doc_spec(a, ind, cfg).2,
            cfg,
        ).0,
        doc_spec(a + b, ind, cfg).1 == doc_spec(a, ind, cfg).1 + doc_spec(
            b,
            doc_spec(a, ind, cfg).2,
            cfg,
        ).1,
        doc_spec(a + b, ind, cfg).2 == doc_spec(b, doc_spec(a, ind, cfg).2, cfg).2,
{
    lemma_doc_concat_rec(a, b, ind, cfg);
}

proof fn lemma_doc_concat_rec(a: Seq<Seq<char>>, b: Seq<Seq<char>>, ind: nat, cfg: Settings)
    ensures
        doc_spec(a + b, ind, cfg).0 == doc_spec(a, ind, cfg).0 + doc_spec(
            b,
            doc_spec(a, ind, cfg).2,
            cfg,
        ).0,
        doc_spec(a + b, ind, cfg).1 == doc_spec(a, ind, cfg).1 + doc_spec(
            b,
            doc_spec(a, ind, cfg).2,
            cfg,
        ).1,
        doc_spec(a + b, ind, cfg).2 == doc_spec(b, doc_spec(a, ind, cfg).2, cfg).2,
    decreases a.len(),
{
    if a.len() == 0 {
        assert(a + b =~= b);
        assert(doc_spec(a, ind, cfg).0 + doc_spec(b, ind, cfg).0 =~= doc_spec(b, ind, cfg).0);
        assert(doc_spec(a, ind, cfg).1 + doc_spec(b, ind, cfg).1 =~= doc_spec(b, ind, cfg).1);
    } else {
        let r = line_spec(spec_trim(a[0]), ind, cfg);
        assert((a + b)[0] == a[0]);
        assert((a + b).skip(1) =~= a.skip(1) + b);
        lemma_doc_concat_rec(a.skip(1), b, r.2, cfg);
        let mid = doc_spec(a.skip(1), r.2, cfg);
        let tail = doc_spec(b, mid.2, cfg);
        assert(r.0 + (mid.0 + tail.0) =~= (r.0 + mid.0) + tail.0);
        assert(r.1 + (mid.1 + tail.1) =~= (r.1 + mid.1) + tail.1);
    }
}

/// A document whose indentation level has reached 1 keeps it at 1 to the end.
pub proof fn lemma_doc_indent_sticky(lines: Seq<Seq<char>>, cfg: Settings)
    ensures
        doc_spec(lines, 1, cfg).2 == 1,
    decreases lines.len(),
{
    if lines.len() > 0 {
        let s = spec_trim(lines[0]);
        if is_header_line(s) {
            lemma_header_sets_indent(s, 1, cfg);
        }
        lemma_doc_indent_sticky(lines.skip(1), cfg);
    }
}

/// Header indentation: once any label or `section` header has been
/// processed, the indentation level in force after every later prefix of the
/// document is exactly 1.  Together with `lemma_nonheader_emits_indent` this
/// says every later non-header line is emitted behind one level of
/// indentation.
pub proof fn lemma_header_indentation(lines: Seq<Seq<char>>, i: int, k: int, cfg: Settings)
    requires
        0 <= i < k <= lines.len(),
        is_header_line(spec_trim(lines[i])),
    ensures
        doc_spec(lines.subrange(0, k), 0, cfg).2 == 1,
{
    let pre0 = lines.subrange(0, i);
    let hdr = seq![lines[i]];
    let mid = lines.subrange(i + 1, k);
    assert(lines.subrange(0, k) =~= (pre0 + hdr) + mid);
    lemma_doc_concat(pre0 + hdr, mid, 0, cfg);
    lemma_doc_concat(pre0, hdr, 0, cfg);
    let lvl = doc_spec(pre0, 0, cfg).2;
    assert(hdr.skip(1) =~= Seq::<Seq<char>>::empty());
    lemma_header_sets_indent(spec_trim(lines[i]), lvl, cfg);
    assert(doc_spec(Seq::<Seq<char>>::empty(), 1, cfg).2 == 1);
    assert(doc_spec(hdr, lvl, cfg).2 == doc_spec(
        hdr.skip(1),
        line_spec(spec_trim(hdr[0]), lvl, cfg).2,
        cfg,
    ).2);
    assert(doc_spec(hdr, lvl, cfg).2 == 1);
    assert(doc_spec(pre0 + hdr, 0, cfg).2 == 1);
    lemma_doc_indent_sticky(mid, cfg);
    assert(doc_spec((pre0 + hdr) + mid, 0, cfg).2 == 1);
}

/// A non-blank, non-header line is emitted behind the indentation in force:
/// its output starts with the rendered indentation units for the current
/// level.
pub proof fn lemma_nonheader_emits_indent(s: Seq<char>, ind: nat, cfg: Settings)
    requires
        s.len() > 0,
        !is_header_line(s),
    ensures
        line_spec(s, ind, cfg).0.len() >= indent_text(cfg.indentation, ind).len(),
        line_spec(s, ind, cfg).0.subrange(0, indent_text(cfg.indentation, ind).len() as int)
            == indent_text(cfg.indentation, ind),
{
    let it = indent_text(cfg.indentation, ind);
    if s[0] == ':' {
        assert((it + seq![':', '\n']).subrange(0, it.len() as int) =~= it);
    } else {
        let out = line_spec(s, ind, cfg).0;
        assert(out.subrange(0, it.len() as int) =~= it);
    }
}

/// Two texts that are the same rendering up to letter case: equal length,
/// and at every position the characters agree once lower-cased.  Since only
/// ASCII letters have distinct cases, all other characters — in particular
/// line terminators, colons, commas and spaces — are exactly equal, so the
/// two texts have the same line count and the same token boundaries.
pub open spec fn case_agnostic_eq(a: Seq<char>, b: Seq<char>) -> bool {
    a.len() == b.len() && forall|i: int|
        0 <= i < a.len() ==> lower_char(a[i]) == lower_char(b[i])
}

/// Two configurations that agree on everything but the casing flags.
pub open spec fn same_except_casing(c1: Settings, c2: Settings) -> bool {
    c1.indentation == c2.indentation && c1.inline_labels == c2.inline_labels
        && c1.line_length_limit == c2.line_length_limit && c1.allow_multiline_instructions
        == c2.allow_multiline_instructions && c1.align_assembler_directives
        == c2.align_assembler_directives && c1.align_labels_to_start_of_line
        == c2.align_labels_to_start_of_line && c1.align_instruction_statements
        == c2.align_instruction_statements
}

/// Texts that agree up to letter case agree exactly on everything that is
/// not a letter: in particular their line terminators stand at the same
/// positions, so they have the same line structure.
pub proof fn lemma_agnostic_same_terminators(a: Seq<char>, b: Seq<char>)
    requires
        case_agnostic_eq(a, b),
    ensures
        forall|i: int| 0 <= i < a.len() ==> ((a[i] == '\n') == (b[i] == '\n')),
{
}

/// The same text rendered under two casing policies differs only in letter
/// case.
pub proof fn lemma_cased_agnostic(x: Seq<char>, p1: Casing, p2: Casing)
    ensures
        case_agnostic_eq(cased_seq(x, p1), cased_seq(x, p2)),
{
}

/// `case_agnostic_eq` is compatible with concatenation.
pub proof fn lemma_agnostic_concat(a1: Seq<char>, b1: Seq<char>, a2: Seq<char>, b2: Seq<char>)
    requires
        case_agnostic_eq(a1, a2),
        case_agnostic_eq(b1, b2),
    ensures
        case_agnostic_eq(a1 + b1, a2 + b2),
{
    assert forall|i: int| 0 <= i < (a1 + b1).len() implies lower_char((a1 + b1)[i]) == lower_char(
        (a2 + b2)[i],
    ) by {
        if i < a1.len() {
            assert((a1 + b1)[i] == a1[i] && (a2 + b2)[i] == a2[i]);
        } else {
            assert((a1 + b1)[i] == b1[i - a1.len()] && (a2 + b2)[i] == b2[i - a1.len()]);
        }
    }
}

/// The operand rendering under two casing policies differs only in letter
/// case.
pub proof fn lemma_render_ops_agnostic(s: Seq<char>, p1: Casing, p2: Casing)
    ensures
        case_agnostic_eq(render_ops(s, p1), render_ops(s, p2)),
    decreases s.len(),
{
    if s.len() == 0 {
    } else if s[0] == ' ' {
        lemma_render_ops_agnostic(s.skip(1), p1, p2);
    } else if s[0] == ';' {
        lemma_skip_token_len(s);
        lemma_render_ops_agnostic(skip_token(s), p1, p2);
    } else if s[0] == ',' {
        lemma_render_ops_agnostic(s.skip(1), p1, p2);
        lemma_agnostic_concat(seq![',', ' '], render_ops(s.skip(1), p1), seq![',', ' '], render_ops(s.skip(1), p2));
    } else {
        lemma_render_ops_agnostic(s.skip(1), p1, p2);
        lemma_agnostic_concat(
            seq![cased_char(s[0], p1)],
            render_ops(s.skip(1), p1),
            seq![cased_char(s[0], p2)],
            render_ops(s.skip(1), p2),
        );
    }
}

/// Case invariance of structure: changing only casing flags changes neither
/// the diagnostics, nor the indentation level, nor the shape of the output —
/// the two outputs have the same length and agree everywhere up to letter
/// case (so line counts, classification and token boundaries are identical);
/// only the case of rendered letters differs.
pub proof fn lemma_case_invariance(s: Seq<char>, ind: nat, c1: Settings, c2: Settings)
    requires
        same_except_casing(c1, c2),
    ensures
        case_agnostic_eq(line_spec(s, ind, c1).0, line_spec(s, ind, c2).0),
        line_spec(s, ind, c1).1 == line_spec(s, ind, c2).1,
        line_spec(s, ind, c1).2 == line_spec(s, ind, c2).2,
    decreases s.len(),
{
    if s.len() == 0 {
    } else if s[0] == ':' {
    } else {
        match find_term(s, 1) {
            Some(t) => {
                lemma_find_term_some(s, 1, t);
                let e = if s[t] == ':' {
                    t + 1
                } else {
                    copy_end(s, t + 1)
                };
                if s[t] != ':' {
                    lemma_copy_end_bounds(s, t + 1);
                }
                let header1 = cased_seq(s.subrange(0, t + 1), Settings::spec_casing(c1.lowercase_names));
                let header2 = cased_seq(s.subrange(0, t + 1), Settings::spec_casing(c2.lowercase_names));
                lemma_cased_agnostic(
                    s.subrange(0, t + 1),
                    Settings::spec_casing(c1.lowercase_names),
                    Settings::spec_casing(c2.lowercase_names),
                );
                let copied = s.subrange(t + 1, e);
                let rest = spec_trim(s.subrange(e, s.len() as int));
                let sep: Seq<char> = if c1.inline_labels {
                    seq![' ']
                } else {
                    seq!['\n']
                };
                lemma_agnostic_concat(header1, copied, header2, copied);
                lemma_agnostic_concat(header1 + copied, sep, header2 + copied, sep);
                if rest.len() > 0 {
                    lemma_line_spec_rest_len(s, e);
                    lemma_case_invariance(rest, 1, c1, c2);
                    lemma_agnostic_concat(
                        header1 + copied + sep,
                        line_spec(rest, 1, c1).0,
                        header2 + copied + sep,
                        line_spec(rest, 1, c2).0,
                    );
                }
            },
            None => {
                let m = crate::model::mnemonic_end(s, 0);
                crate::model::lemma_mnemonic_end_bounds(s, 0);
                let it = indent_text(c1.indentation, ind);
                if m < s.len() {
                    let mn1 = cased_seq(s.subrange(0, m), Settings::spec_casing(c1.lowercase_instructions));
                    let mn2 = cased_seq(s.subrange(0, m), Settings::spec_casing(c2.lowercase_instructions));
                    let ops1 = render_ops(s.subrange(m + 1, s.len() as int), Settings::spec_casing(c1.lowercase_registers));
                    let ops2 = render_ops(s.subrange(m + 1, s.len() as int), Settings::spec_casing(c2.lowercase_registers));
                    lemma_cased_agnostic(
                        s.subrange(0, m),
                        Settings::spec_casing(c1.lowercase_instructions),
                        Settings::spec_casing(c2.lowercase_instructions),
                    );
                    lemma_render_ops_agnostic(
                        s.subrange(m + 1, s.len() as int),
                        Settings::spec_casing(c1.lowercase_registers),
                        Settings::spec_casing(c2.lowercase_registers),
                    );
                    lemma_agnostic_concat(mn1, seq![' '], mn2, seq![' ']);
                    lemma_agnostic_concat(mn1 + seq![' '], ops1, mn2 + seq![' '], ops2);
                    lemma_agnostic_concat(it, mn1 + seq![' '] + ops1, it, mn2 + seq![' '] + ops2);
                    lemma_agnostic_concat(
                        it + (mn1 + seq![' '] + ops1),
                        seq!['\n'],
                        it + (mn2 + seq![' '] + ops2),
                        seq!['\n'],
                    );
                    assert(line_spec(s, ind, c1).0 =~= it + (mn1 + seq![' '] + ops1) + seq!['\n']);
                    assert(line_spec(s, ind, c2).0 =~= it + (mn2 + seq![' '] + ops2) + seq!['\n']);
                } else {
                    let mn1 = cased_seq(s, Settings::spec_casing(c1.lowercase_instructions));
                    let mn2 = cased_seq(s, Settings::spec_casing(c2.lowercase_instructions));
                    lemma_cased_agnostic(
                        s,
                        Settings::spec_casing(c1.lowercase_instructions),
                        Settings::spec_casing(c2.lowercase_instructions),
                    );
                    lemma_agnostic_concat(it, mn1, it, mn2);
                    lemma_agnostic_concat(it + mn1, seq!['\n'], it + mn2, seq!['\n']);
                }
            },
        }
    }
}

} // verus!
