//! Idempotence of the formatter.
//!
//! Formatting an already-correctly-formatted document reproduces it
//! unchanged.  This holds for configurations that lowercase identifiers and
//! put labels on their own line, and for input lines whose formatted text is
//! classified the same way when read back (see [`stable_line`]); the lemmas
//! here prove it line by line and then for whole documents.

use vstd::prelude::*;
use crate::config::{Casing, Settings};
use crate::model::{
    cased_char, cased_seq, copy_end, doc_spec, find_term, first_ns, indent_text, is_space,
    last_ns, line_spec, mnemonic_end, render_ops, section_kw, skip_token, spec_trim, term_at,
    lemma_find_term_some, lemma_find_term_none, lemma_copy_end_bounds, lemma_line_spec_rest_len,
    lemma_first_ns_bounds, lemma_last_ns_bounds, lemma_skip_token_len,
};
use crate::props::lemma_doc_concat;

verus! {

/// A text with no line terminator in it.
pub open spec fn no_nl(s: Seq<char>) -> bool {
    forall|i: int| 0 <= i < s.len() ==> s[i] != '\n'
}

/// `first_ns` lands on the first non-whitespace position: pinning it down
/// from the shape of the sequence.
pub proof fn lemma_first_ns_pin(s: Seq<char>, i: int, j: int)
    requires
        0 <= i <= j <= s.len(),
        forall|k: int| i <= k < j ==> is_space(s[k]),
        j == s.len() || !is_space(s[j]),
    ensures
        first_ns(s, i) == j,
    decreases j - i,
{
    if i < j {
        lemma_first_ns_pin(s, i + 1, j);
    }
}

/// `last_ns` lands just past the last non-whitespace position: pinning it
/// down from the shape of the sequence.
pub proof fn lemma_last_ns_pin(s: Seq<char>, j: int, e: int)
    requires
        0 <= j <= e <= s.len(),
        forall|k: int| j <= k < e ==> is_space(s[k]),
        j == 0 || !is_space(s[j - 1]),
    ensures
        last_ns(s, e) == j,
    decreases e - j,
{
    if j < e {
        lemma_last_ns_pin(s, j, e - 1);
    }
}

/// A sequence that is already trimmed is its own trim.
pub proof fn lemma_trim_id(s: Seq<char>)
    requires
        s.len() == 0 || (!is_space(s[0]) && !is_space(s[s.len() - 1])),
    ensures
        spec_trim(s) == s,
{
    if s.len() == 0 {
        lemma_first_ns_pin(s, 0, 0);
        lemma_last_ns_pin(s, 0, 0);
        assert(spec_trim(s) =~= s);
    } else {
        lemma_first_ns_pin(s, 0, 0);
        lemma_last_ns_pin(s, s.len() as int, s.len() as int);
        assert(spec_trim(s) =~= s);
    }
}

/// The trim of a trimmed middle wrapped in whitespace is that middle.
pub proof fn lemma_trim_wrapped(s: Seq<char>, lo: int, hi: int)
    requires
        0 <= lo <= hi <= s.len(),
        forall|k: int| 0 <= k < lo ==> is_space(s[k]),
        forall|k: int| hi <= k < s.len() ==> is_space(s[k]),
        lo < hi ==> !is_space(s[lo]) && !is_space(s[hi - 1]),
        lo == hi ==> lo == 0,
    ensures
        spec_trim(s) == s.subrange(lo, hi),
{
    if lo < hi {
        lemma_first_ns_pin(s, 0, lo);
        lemma_last_ns_pin(s, hi, s.len() as int);
        assert(spec_trim(s) =~= s.subrange(lo, hi));
    } else {
        lemma_first_ns_pin(s, 0, s.len() as int);
        lemma_last_ns_pin(s, 0, s.len() as int);
        assert(spec_trim(s) =~= s.subrange(lo, hi));
    }
}

/// `copy_end` when the region holds no line terminator at all: it runs to
/// the end.
pub proof fn lemma_copy_end_no_nl(s: Seq<char>, from: int)
    requires
        0 <= from <= s.len(),
        forall|k: int| from <= k < s.len() ==> s[k] != '\n',
    ensures
        copy_end(s, from) == s.len(),
    decreases s.len() - from,
{
    if from < s.len() {
        lemma_copy_end_no_nl(s, from + 1);
    }
}

/// `copy_end` stops just past a line terminator when the first one in the
/// region stands at `e - 1`.
pub proof fn lemma_copy_end_at(s: Seq<char>, from: int, e: int)
    requires
        0 <= from < e <= s.len(),
        forall|k: int| from <= k < e - 1 ==> s[k] != '\n',
        s[e - 1] == '\n',
    ensures
        copy_end(s, from) == e,
    decreases e - from,
{
    if from < e - 1 {
        lemma_copy_end_at(s, from + 1, e);
    }
}

/// The lines of a text, split at line terminators: each line excludes its
/// terminator; a final fragment without one is a line of its own.
pub open spec fn lines_of(t: Seq<char>) -> Seq<Seq<char>>
    decreases t.len(),
{
    if t.len() == 0 {
        Seq::<Seq<char>>::empty()
    } else {
        let e = copy_end(t, 0);
        let head = if t[e - 1] == '\n' {
            t.subrange(0, e - 1)
        } else {
            t.subrange(0, e)
        };
        proof {
            lemma_copy_end_lb(t, 0);
            lemma_copy_end_bounds(t, 0);
        }
        seq![head] + lines_of(t.subrange(e, t.len() as int))
    }
}

/// `copy_end` always advances past its starting point inside the sequence.
pub proof fn lemma_copy_end_lb(s: Seq<char>, from: int)
    requires
        0 <= from < s.len(),
    ensures
        copy_end(s, from) > from,
{
    if s[from] != '\n' {
        lemma_copy_end_bounds(s, from + 1);
    }
}

/// What `copy_end` gives: everything strictly before it, except possibly its
/// last character, is not a line terminator, and when it stops short of the
/// end it stops just past one.
pub proof fn lemma_copy_end_char(s: Seq<char>, from: int)
    requires
        0 <= from <= s.len(),
    ensures
        from <= copy_end(s, from) <= s.len(),
        forall|k: int| from <= k < copy_end(s, from) - 1 ==> s[k] != '\n',
        copy_end(s, from) < s.len() ==> s[copy_end(s, from) - 1] == '\n',
    decreases s.len() - from,
{
    if from < s.len() && s[from] != '\n' {
        lemma_copy_end_char(s, from + 1);
    }
}

/// Splitting into lines distributes over concatenation when the first part
/// is terminator-terminated.
pub proof fn lemma_lines_of_append(a: Seq<char>, b: Seq<char>)
    requires
        a.len() == 0 || a[a.len() - 1] == '\n',
    ensures
        lines_of(a + b) == lines_of(a) + lines_of(b),
    decreases a.len(),
{
    if a.len() == 0 {
        assert(a + b =~= b);
        assert(lines_of(a) + lines_of(b) =~= lines_of(b));
    } else {
        let t = a + b;
        let ea = copy_end(a, 0);
        lemma_copy_end_lb(a, 0);
        lemma_copy_end_char(a, 0);
        assert(a[ea - 1] == '\n');
        lemma_copy_end_at(t, 0, ea);
        assert(copy_end(t, 0) == ea);
        assert(t.subrange(0, ea - 1) =~= a.subrange(0, ea - 1));
        assert(t.subrange(ea, t.len() as int) =~= a.subrange(ea, a.len() as int) + b);
        lemma_lines_of_append(a.subrange(ea, a.len() as int), b);
        assert(seq![t.subrange(0, ea - 1)] + (lines_of(a.subrange(ea, a.len() as int)) + lines_of(
            b,
        )) =~= (seq![a.subrange(0, ea - 1)] + lines_of(a.subrange(ea, a.len() as int))) + lines_of(
            b,
        ));
    }
}

/// The lines of one terminator-terminated piece of text with no interior
/// terminator: the piece itself.
pub proof fn lemma_lines_of_single(a: Seq<char>)
    requires
        no_nl(a),
    ensures
        lines_of(a + seq!['\n']) == seq![a],
{
    let t = a + seq!['\n'];
    lemma_copy_end_at(t, 0, t.len() as int);
    assert(t.subrange(0, t.len() - 1) =~= a);
    assert(t.subrange(t.len() as int, t.len() as int) =~= Seq::<char>::empty());
    assert(lines_of(t.subrange(t.len() as int, t.len() as int)) =~= Seq::<Seq<char>>::empty());
    assert(lines_of(t) =~= seq![a] + Seq::<Seq<char>>::empty());
    assert(seq![a] + Seq::<Seq<char>>::empty() =~= seq![a]);
}

/// Casing one character keeps its character class: only letters change, so
/// whitespace and punctuation are untouched, and casing twice is casing once.
pub proof fn lemma_cased_class(c: char, p: Casing)
    ensures
        is_space(cased_char(c, p)) == is_space(c),
        (cased_char(c, p) == ':') == (c == ':'),
        (cased_char(c, p) == ',') == (c == ','),
        (cased_char(c, p) == ';') == (c == ';'),
        (cased_char(c, p) == '\n') == (c == '\n'),
        (cased_char(c, p) == ' ') == (c == ' '),
        cased_char(cased_char(c, p), p) == cased_char(c, p),
{
}

/// Casing a sequence twice under one policy is casing it once, and the
/// character classes are kept pointwise.
pub proof fn lemma_cased_seq_fixed(x: Seq<char>, p: Casing)
    ensures
        cased_seq(x, p).len() == x.len(),
        cased_seq(cased_seq(x, p), p) == cased_seq(x, p),
        forall|i: int| 0 <= i < x.len() ==> #[trigger] cased_seq(x, p)[i] == cased_char(x[i], p),
{
    assert forall|i: int| 0 <= i < x.len() implies #[trigger] cased_seq(x, p)[i] == cased_char(
        x[i],
        p,
    ) by {}
    assert forall|c: char| #[trigger] cased_char(cased_char(c, p), p) == cased_char(c, p) by {
        lemma_cased_class(c, p);
    }
    assert(cased_seq(cased_seq(x, p), p) =~= cased_seq(x, p));
}

/// What `skip_token` leaves is a suffix of its input.
pub proof fn lemma_skip_token_suffix(s: Seq<char>)
    ensures
        skip_token(s) == s.skip(s.len() - skip_token(s).len()),
        skip_token(s).len() <= s.len(),
    decreases s.len(),
{
    if s.len() == 0 || s[0] == ' ' {
        assert(skip_token(s) =~= s.skip(0));
    } else {
        lemma_skip_token_suffix(s.skip(1));
        assert(s.skip(1).skip(s.skip(1).len() - skip_token(s.skip(1)).len()) =~= s.skip(
            s.len() - skip_token(s).len(),
        ));
    }
}

/// The shape of a rendered operand region: no comment markers, colons or
/// line terminators; every space sits right after a comma; every comma is
/// followed by a space; and the casing policy is already applied, so casing
/// again changes nothing.
pub open spec fn ops_normal(x: Seq<char>, p: Casing) -> bool {
    &&& forall|i: int|
        0 <= i < x.len() ==> #[trigger] x[i] != ';' && x[i] != '\n' && x[i] != ':'
    &&& forall|i: int| 0 <= i < x.len() && #[trigger] x[i] == ' ' ==> i > 0 && x[i - 1] == ','
    &&& forall|i: int| 0 <= i < x.len() && #[trigger] x[i] == ',' ==> i + 1 < x.len() && x[i + 1]
        == ' '
    &&& forall|i: int| 0 <= i < x.len() ==> #[trigger] cased_char(x[i], p) == x[i]
}

/// The rendering of an operand region free of colons and line terminators is
/// in the normal shape above.
pub proof fn lemma_render_ops_normal(s: Seq<char>, p: Casing)
    requires
        forall|i: int| 0 <= i < s.len() ==> #[trigger] s[i] != ':' && s[i] != '\n',
    ensures
        ops_normal(render_ops(s, p), p),
    decreases s.len(),
{
    if s.len() == 0 {
    } else if s[0] == ' ' {
        lemma_render_ops_normal(s.skip(1), p);
    } else if s[0] == ';' {
        lemma_skip_token_len(s);
        lemma_skip_token_suffix(s);
        lemma_render_ops_normal(skip_token(s), p);
    } else if s[0] == ',' {
        lemma_render_ops_normal(s.skip(1), p);
        let rec = render_ops(s.skip(1), p);
        let x = seq![',', ' '] + rec;
        assert forall|i: int| 0 <= i < x.len() implies #[trigger] x[i] != ';' && x[i] != '\n' && x[
            i
        ] != ':' by {
            if i >= 2 {
                assert(x[i] == rec[i - 2]);
            }
        }
        assert forall|i: int| 0 <= i < x.len() && #[trigger] x[i] == ' ' implies i > 0 && x[i - 1]
            == ',' by {
            if i >= 2 {
                assert(x[i] == rec[i - 2]);
                assert(rec[i - 2] == ' ' ==> i - 2 > 0 && rec[i - 3] == ',');
            }
        }
        assert forall|i: int| 0 <= i < x.len() && #[trigger] x[i] == ',' implies i + 1 < x.len()
            && x[i + 1] == ' ' by {
            if i >= 2 {
                assert(x[i] == rec[i - 2]);
                assert(rec[i - 2] == ',' ==> i - 1 < rec.len() && rec[i - 1] == ' ');
            }
        }
        assert forall|i: int| 0 <= i < x.len() implies #[trigger] cased_char(x[i], p) == x[i] by {
            lemma_cased_class(x[i], p);
            if i >= 2 {
                assert(x[i] == rec[i - 2]);
            }
        }
    } else {
        lemma_render_ops_normal(s.skip(1), p);
        let rec = render_ops(s.skip(1), p);
        let c = cased_char(s[0], p);
        let x = seq![c] + rec;
        lemma_cased_class(s[0], p);
        assert forall|i: int| 0 <= i < x.len() implies #[trigger] x[i] != ';' && x[i] != '\n' && x[
            i
        ] != ':' by {
            if i >= 1 {
                assert(x[i] == rec[i - 1]);
            }
        }
        assert forall|i: int| 0 <= i < x.len() && #[trigger] x[i] == ' ' implies i > 0 && x[i - 1]
            == ',' by {
            if i >= 1 {
                assert(x[i] == rec[i - 1]);
                assert(rec[i - 1] == ' ' ==> i - 1 > 0 && rec[i - 2] == ',');
            }
        }
        assert forall|i: int| 0 <= i < x.len() && #[trigger] x[i] == ',' implies i + 1 < x.len()
            && x[i + 1] == ' ' by {
            if i >= 1 {
                assert(x[i] == rec[i - 1]);
                assert(rec[i - 1] == ',' ==> i < rec.len() && rec[i] == ' ');
            } else {
                assert(x[0] == c && c != ',');
            }
        }
        assert forall|i: int| 0 <= i < x.len() implies #[trigger] cased_char(x[i], p) == x[i] by {
            lemma_cased_class(s[0], p);
            if i >= 1 {
                assert(x[i] == rec[i - 1]);
                lemma_cased_class(x[i], p);
            }
        }
    }
}

/// The normal shape, except that a final comma may have lost its trailing
/// space — which is what trimming the end of a rendered line does to it.
pub open spec fn ops_normal_tail(x: Seq<char>, p: Casing) -> bool {
    &&& forall|i: int|
        0 <= i < x.len() ==> #[trigger] x[i] != ';' && x[i] != '\n' && x[i] != ':'
    &&& forall|i: int| 0 <= i < x.len() && #[trigger] x[i] == ' ' ==> i > 0 && x[i - 1] == ','
    &&& forall|i: int| 0 <= i < x.len() && #[trigger] x[i] == ',' ==> i + 1 == x.len() || x[i + 1]
        == ' '
    &&& forall|i: int| 0 <= i < x.len() ==> #[trigger] cased_char(x[i], p) == x[i]
}

/// Re-rendering a region in normal shape gives it back, restoring the space
/// after a final comma if trimming took it.
pub proof fn lemma_render_ops_roundtrip(x: Seq<char>, p: Casing)
    requires
        ops_normal_tail(x, p),
    ensures
        render_ops(x, p) == x + (if x.len() > 0 && x[x.len() - 1] == ',' {
            seq![' ']
        } else {
            Seq::<char>::empty()
        }),
    decreases x.len(),
{
    let tail: Seq<char> = if x.len() > 0 && x[x.len() - 1] == ',' {
        seq![' ']
    } else {
        Seq::<char>::empty()
    };
    if x.len() == 0 {
        assert(render_ops(x, p) =~= x + tail);
    } else if x[0] == ',' {
        if x.len() == 1 {
            assert(render_ops(x.skip(1), p) =~= Seq::<char>::empty());
            assert(render_ops(x, p) =~= x + tail);
        } else {
            assert(x[1] == ' ');
            let y = x.skip(2);
            assert(x.skip(1)[0] == ' ');
            assert(x.skip(1).skip(1) =~= y);
            assert forall|i: int| 0 <= i < y.len() && #[trigger] y[i] == ' ' implies i > 0 && y[i
                - 1] == ',' by {
                assert(y[i] == x[i + 2]);
                if i > 0 {
                    assert(y[i - 1] == x[i + 1]);
                } else {
                    assert(x[2] == ' ' ==> x[1] == ',');
                }
            }
            assert forall|i: int| 0 <= i < y.len() && #[trigger] y[i] == ',' implies i + 1
                == y.len() || y[i + 1] == ' ' by {
                assert(y[i] == x[i + 2]);
                if i + 1 < y.len() {
                    assert(y[i + 1] == x[i + 3]);
                }
            }
            assert forall|i: int| 0 <= i < y.len() implies #[trigger] y[i] != ';' && y[i] != '\n'
                && y[i] != ':' && cased_char(y[i], p) == y[i] by {
                assert(y[i] == x[i + 2]);
            }
            lemma_render_ops_roundtrip(y, p);
            if y.len() > 0 {
                assert(y[y.len() - 1] == x[x.len() - 1]);
            }
            assert(render_ops(x.skip(1), p) == render_ops(y, p));
            assert(render_ops(x, p) == seq![',', ' '] + render_ops(y, p));
            assert(render_ops(x, p) =~= x + tail);
        }
    } else {
        assert(x[0] != ' ');
        assert(x[0] != ';');
        let y = x.skip(1);
        assert forall|i: int| 0 <= i < y.len() && #[trigger] y[i] == ' ' implies i > 0 && y[i - 1]
            == ',' by {
            assert(y[i] == x[i + 1]);
            if i > 0 {
                assert(y[i - 1] == x[i]);
            } else {
                assert(x[1] == ' ' ==> x[0] == ',');
            }
        }
        assert forall|i: int| 0 <= i < y.len() && #[trigger] y[i] == ',' implies i + 1 == y.len()
            || y[i + 1] == ' ' by {
            assert(y[i] == x[i + 1]);
            if i + 1 < y.len() {
                assert(y[i + 1] == x[i + 2]);
            }
        }
        assert forall|i: int| 0 <= i < y.len() implies #[trigger] y[i] != ';' && y[i] != '\n' && y[
            i
        ] != ':' && cased_char(y[i], p) == y[i] by {
            assert(y[i] == x[i + 1]);
        }
        lemma_render_ops_roundtrip(y, p);
        assert(cased_char(x[0], p) == x[0]);
        if y.len() > 0 {
            assert(y[y.len() - 1] == x[x.len() - 1]);
        }
        assert(render_ops(x, p) =~= x + tail);
    }
}

/// `find_term` pinned down: nothing before `t` is a terminator and `t` is
/// one, so the scan stops exactly there.
pub proof fn lemma_find_term_pin_some(s: Seq<char>, i: int, t: int)
    requires
        1 <= i <= t < s.len(),
        term_at(s, t),
        forall|k: int| i <= k < t ==> !term_at(s, k),
    ensures
        find_term(s, i) == Some(t),
    decreases t - i,
{
    if i < t {
        lemma_find_term_pin_some(s, i + 1, t);
    }
}

/// `find_term` pinned down: no position is a terminator, so the scan finds
/// none.
pub proof fn lemma_find_term_pin_none(s: Seq<char>, i: int)
    requires
        1 <= i,
        forall|k: int| i <= k < s.len() ==> !term_at(s, k),
    ensures
        find_term(s, i) is None,
    decreases s.len() - i,
{
    if i < s.len() {
        lemma_find_term_pin_none(s, i + 1);
    }
}

/// What `mnemonic_end` gives: no space before it, and a space at it unless
/// the line ends first.
pub proof fn lemma_mnemonic_end_char(s: Seq<char>, i: int)
    requires
        0 <= i <= s.len(),
    ensures
        i <= mnemonic_end(s, i) <= s.len(),
        forall|k: int| i <= k < mnemonic_end(s, i) ==> s[k] != ' ',
        mnemonic_end(s, i) < s.len() ==> s[mnemonic_end(s, i)] == ' ',
    decreases s.len() - i,
{
    if i < s.len() && s[i] != ' ' {
        lemma_mnemonic_end_char(s, i + 1);
    }
}

/// `mnemonic_end` pinned down from the shape of the sequence.
pub proof fn lemma_mnemonic_end_pin(s: Seq<char>, i: int, m: int)
    requires
        0 <= i <= m <= s.len(),
        forall|k: int| i <= k < m ==> s[k] != ' ',
        m == s.len() || s[m] == ' ',
    ensures
        mnemonic_end(s, i) == m,
    decreases m - i,
{
    if i < m {
        lemma_mnemonic_end_pin(s, i + 1, m);
    }
}

/// Rendered indentation is whitespace without line terminators.
pub proof fn lemma_indent_chars(ind: crate::config::Indentation, level: nat)
    ensures
        forall|i: int|
            0 <= i < indent_text(ind, level).len() ==> is_space(#[trigger] indent_text(ind, level)[i])
                && indent_text(ind, level)[i] != '\n',
{
}

/// What `first_ns` and `last_ns` give: the trim of a sequence carries no
/// whitespace at either end, so trimming is idempotent.
pub proof fn lemma_trim_trimmed(s: Seq<char>)
    ensures
        spec_trim(s).len() == 0 || (!is_space(spec_trim(s)[0]) && !is_space(
            spec_trim(s)[spec_trim(s).len() - 1],
        )),
        spec_trim(spec_trim(s)) == spec_trim(s),
{
    lemma_first_ns_char(s, 0);
    lemma_last_ns_char(s, s.len() as int);
    let lo = first_ns(s, 0);
    let hi = last_ns(s, s.len() as int);
    lemma_first_ns_bounds(s, 0);
    lemma_last_ns_bounds(s, s.len() as int);
    if lo < hi {
        assert(!is_space(s[lo]));
        assert(!is_space(s[hi - 1]));
    }
    lemma_trim_id(spec_trim(s));
}

/// What `first_ns` gives: whitespace up to it, and none at it.
pub proof fn lemma_first_ns_char(s: Seq<char>, i: int)
    requires
        0 <= i <= s.len(),
    ensures
        i <= first_ns(s, i) <= s.len(),
        forall|k: int| i <= k < first_ns(s, i) ==> is_space(s[k]),
        first_ns(s, i) < s.len() ==> !is_space(s[first_ns(s, i)]),
    decreases s.len() - i,
{
    if i < s.len() && is_space(s[i]) {
        lemma_first_ns_char(s, i + 1);
    }
}

/// What `last_ns` gives: whitespace from it on, and none just before it.
pub proof fn lemma_last_ns_char(s: Seq<char>, j: int)
    requires
        0 <= j <= s.len(),
    ensures
        0 <= last_ns(s, j) <= j,
        forall|k: int| last_ns(s, j) <= k < j ==> is_space(s[k]),
        last_ns(s, j) > 0 ==> !is_space(s[last_ns(s, j) - 1]),
    decreases j,
{
    if j > 0 && is_space(s[j - 1]) {
        lemma_last_ns_char(s, j - 1);
    }
}

/// With labels on their own line, every line's rendering ends with a line
/// terminator.
pub proof fn lemma_line_ends_nl(s: Seq<char>, ind: nat, cfg: Settings)
    requires
        !cfg.inline_labels,
    ensures
        line_spec(s, ind, cfg).0.len() > 0,
        line_spec(s, ind, cfg).0[line_spec(s, ind, cfg).0.len() - 1] == '\n',
    decreases s.len(),
{
    if s.len() > 0 && s[0] != ':' {
        match find_term(s, 1) {
            Some(t) => {
                lemma_find_term_some(s, 1, t);
                let e = if s[t] == ':' {
                    t + 1
                } else {
                    copy_end(s, t + 1)
                };
                if s[t] != ':' {
                    lemma_copy_end_bounds(s, t + 1);
                }
                let rest = spec_trim(s.subrange(e, s.len() as int));
                if rest.len() > 0 {
                    lemma_line_spec_rest_len(s, e);
                    lemma_line_ends_nl(rest, 1, cfg);
                }
            },
            None => {},
        }
    }
}

/// Whether a line classified as an instruction reads back as the same
/// instruction.  A bare mnemonic always does.  One with operands does
/// unless its rendered mnemonic spells the `section` keyword (the reread
/// would classify the line as a directive), unless every operand token
/// renders to nothing (the reread would see a bare mnemonic), or unless the
/// rendered operands end in whitespace other than a comma's space (trimming
/// the reread line would drop it).
pub open spec fn instr_stable(s: Seq<char>, cfg: Settings) -> bool {
    let m = mnemonic_end(s, 0);
    if m == s.len() {
        true
    } else {
        let mn = cased_seq(s.subrange(0, m), Settings::spec_casing(cfg.lowercase_instructions));
        let ops = render_ops(
            s.subrange(m + 1, s.len() as int),
            Settings::spec_casing(cfg.lowercase_registers),
        );
        mn != seq!['s', 'e', 'c', 't', 'i', 'o', 'n'] && ops.len() > 0 && (ops[ops.len() - 1]
            == ' ' || !is_space(ops[ops.len() - 1]))
    }
}

/// Whether formatting this trimmed line yields text that reads back as the
/// same line: blank lines, malformed colons and headers always do; an
/// instruction does when [`instr_stable`] holds; a header's same-line
/// remainder must read back too.
pub open spec fn stable_line(s: Seq<char>, cfg: Settings) -> bool
    decreases s.len(),
{
    if s.len() == 0 || s[0] == ':' {
        true
    } else {
        match find_term(s, 1) {
            Some(t) => {
                let e = if s[t] == ':' {
                    t + 1
                } else {
                    copy_end(s, t + 1)
                };
                let rest = spec_trim(s.subrange(e, s.len() as int));
                if rest.len() == 0 {
                    true
                } else {
                    proof {
                        lemma_find_term_some(s, 1, t);
                        if s[t] != ':' {
                            lemma_copy_end_bounds(s, t + 1);
                        }
                        lemma_line_spec_rest_len(s, e);
                    }
                    stable_line(rest, cfg)
                }
            },
            None => instr_stable(s, cfg),
        }
    }
}

/// What one line contributes to a document: formatting a singleton document
/// is trimming and formatting its line.
pub proof fn lemma_doc_singleton(l: Seq<char>, ind: nat, cfg: Settings)
    ensures
        doc_spec(seq![l], ind, cfg).0 == line_spec(spec_trim(l), ind, cfg).0,
        doc_spec(seq![l], ind, cfg).1 == line_spec(spec_trim(l), ind, cfg).1,
        doc_spec(seq![l], ind, cfg).2 == line_spec(spec_trim(l), ind, cfg).2,
{
    let r = line_spec(spec_trim(l), ind, cfg);
    assert(seq![l].skip(1) =~= Seq::<Seq<char>>::empty());
    assert(doc_spec(Seq::<Seq<char>>::empty(), r.2, cfg).0 =~= Seq::<char>::empty());
    assert(seq![l][0] == l);
    assert(r.0 + Seq::<char>::empty() =~= r.0);
    assert(r.1 + Seq::<char>::empty() =~= r.1);
}

/// The header line a label or directive emits: the cased header token, plus
/// a directive's verbatim remainder.
pub open spec fn header_line(s: Seq<char>, t: int, cfg: Settings) -> Seq<char> {
    let e = if s[t] == ':' {
        t + 1
    } else {
        copy_end(s, t + 1)
    };
    cased_seq(s.subrange(0, t + 1), Settings::spec_casing(cfg.lowercase_names)) + s.subrange(
        t + 1,
        e,
    )
}

/// Reading a lowercased header line back gives the same rendering again:
/// it is classified as a header (as a label, or as a directive when the
/// lowering made the `section` keyword appear), is already trimmed, and is
/// re-emitted unchanged with the indentation level set to 1.
#[verifier::rlimit(100)]
#[verifier::spinoff_prover]
pub proof fn lemma_reparse_header(s: Seq<char>, t: int, ind2: nat, cfg: Settings)
    requires
        cfg.lowercase_names,
        !cfg.inline_labels,
        spec_trim(s) == s,
        no_nl(s),
        s.len() > 0,
        s[0] != ':',
        find_term(s, 1) == Some(t),
    ensures
        ({
            let h = header_line(s, t, cfg);
            spec_trim(h) == h && no_nl(h) && line_spec(h, ind2, cfg).0 == h + seq!['\n']
                && line_spec(h, ind2, cfg).1 == Seq::<char>::empty() && line_spec(h, ind2, cfg).2
                == 1
        }),
{
    let p = Settings::spec_casing(cfg.lowercase_names);
    lemma_find_term_some(s, 1, t);
    lemma_trim_trimmed(s);
    assert(!is_space(s[0]));
    let hd = cased_seq(s.subrange(0, t + 1), p);
    lemma_cased_seq_fixed(s.subrange(0, t + 1), p);
    assert(forall|i: int| 0 <= i < t + 1 ==> #[trigger] hd[i] == cased_char(s[i], p));
    assert forall|i: int| 0 <= i < t + 1 implies #[trigger] cased_char(s[i], p) != '\n' && (
    cased_char(s[i], p) == ':') == (s[i] == ':') && is_space(cased_char(s[i], p)) == is_space(
        s[i],
    ) && (cased_char(s[i], p) == ' ') == (s[i] == ' ') by {
        lemma_cased_class(s[i], p);
    }
    if s[t] == ':' {
        // A label: the header line is the cased token, colon included.
        let h = hd;
        assert(header_line(s, t, cfg) =~= h);
        assert(h.len() == t + 1);
        assert(h[t] == cased_char(s[t], p));
        lemma_cased_class(s[t], p);
        assert(h[t] == ':');
        assert(h[0] != ':' && !is_space(h[0]));
        lemma_trim_id(h);
        assert forall|k: int| 1 <= k < t implies s[k] != ':' by {
            assert(!term_at(s, k));
        }
        assert(forall|k: int| 1 <= k < t ==> h[k] != ':');
        let kw = section_kw();
        if t > 7 && h.subrange(0, 8) == kw {
            // The lowering made the directive keyword appear: the reread
            // takes the directive path, but re-emits the same characters.
            assert forall|k: int| 1 <= k < 7 implies !term_at(h, k) by {
                assert(h[k] == h.subrange(0, 8)[k]);
            }
            assert(term_at(h, 7));
            lemma_find_term_pin_some(h, 1, 7);
            assert(h[7] == kw[7]);
            assert(h[7] != ':');
            assert(no_nl(h));
            lemma_copy_end_no_nl(h, 8);
            let e2 = copy_end(h, 8);
            assert(e2 == h.len());
            assert(h.subrange(e2, h.len() as int) =~= Seq::<char>::empty());
            lemma_trim_id(Seq::<char>::empty());
            lemma_cased_seq_fixed(h.subrange(0, 8), p);
            assert forall|i: int| 0 <= i < 8 implies #[trigger] cased_seq(h.subrange(0, 8), p)[i]
                == h.subrange(0, 8)[i] by {
                lemma_cased_class(h.subrange(0, 8)[i], p);
                assert(h.subrange(0, 8)[i] == cased_char(s[i], p));
                lemma_cased_class(s[i], p);
            }
            assert(cased_seq(h.subrange(0, 8), p) =~= h.subrange(0, 8));
            assert(line_spec(h, ind2, cfg).0 =~= h + seq!['\n']);
        } else {
            // The reread sees the same label again.
            assert forall|k: int| 1 <= k < t implies !term_at(h, k) by {
                if k == 7 {
                    assert(h.subrange(0, 8) != kw);
                }
            }
            assert(term_at(h, t));
            lemma_find_term_pin_some(h, 1, t);
            assert(h.subrange(t + 1, h.len() as int) =~= Seq::<char>::empty());
            lemma_trim_id(Seq::<char>::empty());
            lemma_cased_seq_fixed(s.subrange(0, t + 1), p);
            assert(h.subrange(0, t + 1) =~= h);
            assert(cased_seq(h, p) == h);
            assert(line_spec(h, ind2, cfg).0 =~= h + seq!['\n']);
        }
        assert(no_nl(h));
    } else {
        // A section directive: the terminator is the keyword's space.
        assert(term_at(s, t));
        assert(t == 7 && s.subrange(0, 8) == section_kw());
        lemma_copy_end_no_nl(s, 8);
        let e = copy_end(s, 8);
        assert(e == s.len());
        let kw = section_kw();
        assert forall|i: int| 0 <= i < 8 implies #[trigger] hd[i] == kw[i] by {
            assert(s[i] == s.subrange(0, 8)[i]);
            lemma_cased_class(s[i], p);
        }
        assert(hd =~= kw);
        let h = header_line(s, t, cfg);
        assert(h =~= kw + s.subrange(8, s.len() as int));
        assert(s.len() >= 9) by {
            if s.len() == 8 {
                assert(s[7] == ' ');
                assert(is_space(s[s.len() - 1]));
            }
        }
        assert(h.len() == s.len());
        assert forall|i: int| 0 <= i < h.len() implies #[trigger] h[i] == (if i < 8 {
            kw[i]
        } else {
            s[i]
        }) by {
            if i >= 8 {
                assert(h[i] == s.subrange(8, s.len() as int)[i - 8]);
            }
        }
        assert(h =~= s);
        lemma_trim_id(h);
        assert(no_nl(h));
        assert(h[0] == 's' && h[0] != ':');
        assert forall|k: int| 1 <= k < 7 implies !term_at(h, k) by {
            assert(h[k] == kw[k]);
        }
        assert(h.subrange(0, 8) =~= kw);
        assert(term_at(h, 7));
        lemma_find_term_pin_some(h, 1, 7);
        assert(h[7] == ' ' && h[7] != ':');
        lemma_copy_end_no_nl(h, 8);
        assert(copy_end(h, 8) == h.len());
        assert(h.subrange(h.len() as int, h.len() as int) =~= Seq::<char>::empty());
        lemma_trim_id(Seq::<char>::empty());
        lemma_cased_seq_fixed(h.subrange(0, 8), p);
        assert forall|i: int| 0 <= i < 8 implies #[trigger] cased_seq(h.subrange(0, 8), p)[i] == h[
            i
        ] by {
            assert(h.subrange(0, 8)[i] == kw[i]);
            lemma_cased_class(kw[i], p);
        }
        assert(cased_seq(h.subrange(0, 8), p) =~= h.subrange(0, 8));
        assert(line_spec(h, ind2, cfg).0 =~= h.subrange(0, 8) + h.subrange(8, h.len() as int)
            + seq!['\n']);
        assert(h.subrange(0, 8) + h.subrange(8, h.len() as int) =~= h);
        assert(line_spec(h, ind2, cfg).0 =~= h + seq!['\n']);
    }
}

/// Reading a rendered instruction line back gives the same rendering again,
/// under the stability conditions of [`instr_stable`].
#[verifier::rlimit(100)]
#[verifier::spinoff_prover]
pub proof fn lemma_round_instr(s: Seq<char>, ind: nat, cfg: Settings)
    requires
        !cfg.inline_labels,
        spec_trim(s) == s,
        no_nl(s),
        s.len() > 0,
        s[0] != ':',
        find_term(s, 1) is None,
        instr_stable(s, cfg),
    ensures
        doc_spec(lines_of(line_spec(s, ind, cfg).0), ind, cfg).0 == line_spec(s, ind, cfg).0,
        doc_spec(lines_of(line_spec(s, ind, cfg).0), ind, cfg).1 == line_spec(s, ind, cfg).1,
        doc_spec(lines_of(line_spec(s, ind, cfg).0), ind, cfg).2 == line_spec(s, ind, cfg).2,
{
    let pi = Settings::spec_casing(cfg.lowercase_instructions);
    let pr = Settings::spec_casing(cfg.lowercase_registers);
    lemma_find_term_none(s, 1);
    assert forall|k: int| 0 <= k < s.len() implies s[k] != ':' by {
        if k >= 1 {
            assert(!term_at(s, k));
        }
    }
    lemma_trim_trimmed(s);
    assert(!is_space(s[0]) && !is_space(s[s.len() - 1]));
    let m = mnemonic_end(s, 0);
    lemma_mnemonic_end_char(s, 0);
    let it = indent_text(cfg.indentation, ind);
    lemma_indent_chars(cfg.indentation, ind);
    let r = line_spec(s, ind, cfg);
    let kw = section_kw();
    if m == s.len() {
        let body = cased_seq(s, pi);
        lemma_cased_seq_fixed(s, pi);
        assert forall|i: int| 0 <= i < body.len() implies #[trigger] body[i] != ':' && body[i]
            != ' ' && body[i] != '\n' && is_space(body[i]) == is_space(s[i]) by {
            lemma_cased_class(s[i], pi);
        }
        assert(r.0 =~= (it + body) + seq!['\n']);
        assert(no_nl(it + body)) by {
            assert forall|i: int| 0 <= i < (it + body).len() implies (it + body)[i] != '\n' by {
                if i < it.len() {
                    assert((it + body)[i] == it[i]);
                } else {
                    assert((it + body)[i] == body[i - it.len()]);
                }
            }
        }
        lemma_lines_of_single(it + body);
        assert(lines_of(r.0) == seq![it + body]);
        lemma_doc_singleton(it + body, ind, cfg);
        assert forall|k: int| 0 <= k < it.len() implies is_space(#[trigger] (it + body)[k]) by {
            assert((it + body)[k] == it[k]);
        }
        assert((it + body)[it.len() as int] == body[0]);
        assert((it + body)[(it + body).len() - 1] == body[body.len() - 1]);
        lemma_trim_wrapped(it + body, it.len() as int, (it + body).len() as int);
        assert((it + body).subrange(it.len() as int, (it + body).len() as int) =~= body);
        assert(spec_trim(it + body) == body);
        // The reread: a bare mnemonic again.
        assert forall|k: int| 1 <= k < body.len() implies !term_at(body, k) by {
            if k == 7 && body.subrange(0, 8) == kw {
                assert(body[7] == body.subrange(0, 8)[7]);
                assert(body[7] == ' ');
            }
        }
        lemma_find_term_pin_none(body, 1);
        lemma_mnemonic_end_pin(body, 0, body.len() as int);
        assert(line_spec(body, ind, cfg).0 =~= (it + body) + seq!['\n']);
        assert(doc_spec(lines_of(r.0), ind, cfg).0 =~= r.0);
    } else {
        let mn = cased_seq(s.subrange(0, m), pi);
        let region = s.subrange(m + 1, s.len() as int);
        let ops = render_ops(region, pr);
        assert(mn != seq!['s', 'e', 'c', 't', 'i', 'o', 'n']);
        assert(ops.len() > 0);
        lemma_cased_seq_fixed(s.subrange(0, m), pi);
        assert forall|i: int| 0 <= i < m implies #[trigger] mn[i] != ':' && mn[i] != ' ' && mn[i]
            != '\n' by {
            assert(s.subrange(0, m)[i] == s[i]);
            lemma_cased_class(s[i], pi);
        }
        assert(mn.len() == m >= 1);
        assert(!is_space(mn[0])) by {
            lemma_cased_class(s[0], pi);
        }
        assert forall|i: int| 0 <= i < region.len() implies #[trigger] region[i] != ':' && region[i]
            != '\n' by {
            assert(region[i] == s[m + 1 + i]);
        }
        lemma_render_ops_normal(region, pr);
        let body = mn + seq![' '] + ops;
        assert(r.0 =~= (it + body) + seq!['\n']);
        assert forall|i: int| 0 <= i < body.len() implies #[trigger] body[i] != '\n' && body[i]
            != ':' by {
            if i < mn.len() {
                assert(body[i] == mn[i]);
            } else if i == mn.len() {
                assert(body[i] == ' ');
            } else {
                assert(body[i] == ops[i - mn.len() - 1]);
            }
        }
        assert(no_nl(it + body)) by {
            assert forall|i: int| 0 <= i < (it + body).len() implies (it + body)[i] != '\n' by {
                if i < it.len() {
                    assert((it + body)[i] == it[i]);
                } else {
                    assert((it + body)[i] == body[i - it.len()]);
                }
            }
        }
        lemma_lines_of_single(it + body);
        assert(lines_of(r.0) == seq![it + body]);
        lemma_doc_singleton(it + body, ind, cfg);
        assert forall|k: int| 0 <= k < it.len() implies is_space(#[trigger] (it + body)[k]) by {
            assert((it + body)[k] == it[k]);
        }
        assert((it + body)[it.len() as int] == body[0] && body[0] == mn[0]);
        let last = ops[ops.len() - 1];
        let z: Seq<char> = if last == ' ' {
            body.subrange(0, body.len() - 1)
        } else {
            body
        };
        let ops2: Seq<char> = if last == ' ' {
            ops.subrange(0, ops.len() - 1)
        } else {
            ops
        };
        if last == ' ' {
            assert(ops.len() >= 2 && ops[ops.len() - 2] == ',') by {
                assert(ops[ops.len() - 1] == ' ');
            }
            assert((it + body)[(it + body).len() - 1] == last);
            assert((it + body)[(it + body).len() - 2] == ops[ops.len() - 2]);
            lemma_trim_wrapped(it + body, it.len() as int, (it + body).len() - 1);
            assert((it + body).subrange(it.len() as int, (it + body).len() - 1) =~= z);
            assert(spec_trim(it + body) == z);
        } else {
            assert(!is_space(last));
            assert((it + body)[(it + body).len() - 1] == last);
            lemma_trim_wrapped(it + body, it.len() as int, (it + body).len() as int);
            assert((it + body).subrange(it.len() as int, (it + body).len() as int) =~= z);
            assert(spec_trim(it + body) == z);
        }
        assert(z =~= mn + seq![' '] + ops2);
        assert(z.len() == mn.len() + 1 + ops2.len());
        assert forall|i: int| 0 <= i < z.len() implies #[trigger] z[i] == (if i < mn.len() {
            mn[i]
        } else if i == mn.len() {
            ' '
        } else {
            ops2[i - mn.len() - 1]
        }) by {}
        // The reread: an instruction with the same mnemonic and operands.
        assert(z[0] == mn[0] && z[0] != ':');
        assert forall|k: int| 1 <= k < z.len() implies !term_at(z, k) by {
            if k == 7 && z.subrange(0, 8) == kw {
                assert(z[7] == z.subrange(0, 8)[7]);
                assert(z[7] == ' ');
                if mn.len() > 7 {
                    assert(z[7] == mn[7]);
                } else if mn.len() < 7 {
                    assert(z[mn.len() as int] == ' ');
                    assert(z[mn.len() as int] == z.subrange(0, 8)[mn.len() as int]);
                    assert(z[mn.len() as int] == kw[mn.len() as int]);
                } else {
                    assert forall|i: int| 0 <= i < 7 implies mn[i] == seq![
                        's', 'e', 'c', 't', 'i', 'o', 'n',
                    ][i] by {
                        assert(z[i] == z.subrange(0, 8)[i]);
                        assert(z[i] == kw[i]);
                        assert(z[i] == mn[i]);
                    }
                    assert(mn =~= seq!['s', 'e', 'c', 't', 'i', 'o', 'n']);
                }
            }
        }
        lemma_find_term_pin_none(z, 1);
        lemma_mnemonic_end_pin(z, 0, mn.len() as int);
        assert(z.subrange(0, mn.len() as int) =~= mn);
        assert(cased_seq(z.subrange(0, mn.len() as int), pi) == mn) by {
            lemma_cased_seq_fixed(s.subrange(0, m), pi);
        }
        assert(z.subrange(mn.len() as int + 1, z.len() as int) =~= ops2);
        // The trimmed operands are still in normal shape, up to a bare final
        // comma, and re-render to the untrimmed operands.
        assert forall|i: int| 0 <= i < ops2.len() implies #[trigger] ops2[i] == ops[i] by {}
        assert(ops_normal_tail(ops2, pr)) by {
            assert forall|i: int|
                0 <= i < ops2.len() && #[trigger] ops2[i] == ',' implies i + 1 == ops2.len() || ops2[
                i + 1
            ] == ' ' by {
                assert(ops[i] == ',');
                if i + 1 < ops2.len() {
                    assert(ops2[i + 1] == ops[i + 1]);
                }
            }
            assert forall|i: int|
                0 <= i < ops2.len() && #[trigger] ops2[i] == ' ' implies i > 0 && ops2[i - 1]
                == ',' by {
                assert(ops[i] == ' ');
                if i > 0 {
                    assert(ops2[i - 1] == ops[i - 1]);
                }
            }
        }
        lemma_render_ops_roundtrip(ops2, pr);
        if last == ' ' {
            assert(ops2[ops2.len() - 1] == ops[ops.len() - 2]);
            assert(ops2[ops2.len() - 1] == ',');
            assert(render_ops(ops2, pr) == ops2 + seq![' ']);
            assert(ops2 + seq![' '] =~= ops);
        } else {
            if ops2[ops2.len() - 1] == ',' {
                assert(ops[ops.len() - 1] == ',');
                assert(false);
            }
            assert(render_ops(ops2, pr) == ops2 + Seq::<char>::empty());
            assert(ops2 + Seq::<char>::empty() =~= ops);
        }
        assert(render_ops(z.subrange(mn.len() as int + 1, z.len() as int), pr) == ops);
        assert(line_spec(z, ind, cfg).0 =~= (it + body) + seq!['\n']);
        assert(doc_spec(lines_of(r.0), ind, cfg).0 =~= r.0);
    }
}

/// Trimming keeps a text free of line terminators.
pub proof fn lemma_trim_no_nl(x: Seq<char>)
    requires
        no_nl(x),
    ensures
        no_nl(spec_trim(x)),
{
    lemma_first_ns_bounds(x, 0);
    lemma_last_ns_bounds(x, x.len() as int);
    let lo = first_ns(x, 0);
    let hi = last_ns(x, x.len() as int);
    if lo < hi {
        assert forall|i: int| 0 <= i < spec_trim(x).len() implies spec_trim(x)[i] != '\n' by {
            assert(spec_trim(x)[i] == x[lo + i]);
        }
    }
}

/// Idempotence, line by line: reading the rendering of one stable trimmed
/// line back — as the lines of its text, each trimmed again — and formatting
/// them from the same indentation level reproduces the rendering exactly,
/// and ends at the same level.
pub proof fn lemma_line_round_trip(s: Seq<char>, ind: nat, cfg: Settings)
    requires
        cfg.lowercase_names,
        !cfg.inline_labels,
        spec_trim(s) == s,
        no_nl(s),
        stable_line(s, cfg),
    ensures
        doc_spec(lines_of(line_spec(s, ind, cfg).0), ind, cfg).0 == line_spec(s, ind, cfg).0,
        doc_spec(lines_of(line_spec(s, ind, cfg).0), ind, cfg).2 == line_spec(s, ind, cfg).2,
    decreases s.len(),
{
    let r = line_spec(s, ind, cfg);
    if s.len() == 0 {
        assert(Seq::<char>::empty() + seq!['\n'] =~= seq!['\n']);
        lemma_lines_of_single(Seq::<char>::empty());
        assert(lines_of(r.0) == seq![Seq::<char>::empty()]);
        lemma_doc_singleton(Seq::<char>::empty(), ind, cfg);
        lemma_trim_id(Seq::<char>::empty());
        assert(doc_spec(lines_of(r.0), ind, cfg).0 =~= r.0);
    } else if s[0] == ':' {
        let it = indent_text(cfg.indentation, ind);
        lemma_indent_chars(cfg.indentation, ind);
        let content = it + seq![':'];
        assert(r.0 =~= content + seq!['\n']);
        assert(no_nl(content)) by {
            assert forall|i: int| 0 <= i < content.len() implies content[i] != '\n' by {
                if i < it.len() {
                    assert(content[i] == it[i]);
                } else {
                    assert(content[i] == ':');
                }
            }
        }
        lemma_lines_of_single(content);
        assert(lines_of(r.0) == seq![content]);
        lemma_doc_singleton(content, ind, cfg);
        assert forall|k: int| 0 <= k < it.len() implies is_space(#[trigger] content[k]) by {
            assert(content[k] == it[k]);
        }
        assert(content[it.len() as int] == ':');
        lemma_trim_wrapped(content, it.len() as int, content.len() as int);
        assert(content.subrange(it.len() as int, content.len() as int) =~= seq![':']);
        assert(spec_trim(content) == seq![':']);
        assert(line_spec(seq![':'], ind, cfg).0 =~= content + seq!['\n']);
        assert(doc_spec(lines_of(r.0), ind, cfg).0 =~= r.0);
    } else {
        match find_term(s, 1) {
            Some(t) => {
                lemma_find_term_some(s, 1, t);
                let e = if s[t] == ':' {
                    t + 1
                } else {
                    copy_end(s, t + 1)
                };
                if s[t] != ':' {
                    lemma_copy_end_bounds(s, t + 1);
                }
                let rest = spec_trim(s.subrange(e, s.len() as int));
                let h = header_line(s, t, cfg);
                lemma_reparse_header(s, t, ind, cfg);
                if rest.len() == 0 {
                    assert(r.0 =~= h + seq!['\n']);
                    lemma_lines_of_single(h);
                    assert(lines_of(r.0) == seq![h]);
                    lemma_doc_singleton(h, ind, cfg);
                    assert(doc_spec(lines_of(r.0), ind, cfg).0 =~= r.0);
                } else {
                    lemma_line_spec_rest_len(s, e);
                    let r2 = line_spec(rest, 1, cfg);
                    assert(r.0 =~= (h + seq!['\n']) + r2.0);
                    lemma_trim_trimmed(s.subrange(e, s.len() as int));
                    assert(spec_trim(rest) == rest);
                    assert(no_nl(s.subrange(e, s.len() as int))) by {
                        assert forall|i: int|
                            0 <= i < s.subrange(e, s.len() as int).len() implies s.subrange(
                            e,
                            s.len() as int,
                        )[i] != '\n' by {
                            assert(s.subrange(e, s.len() as int)[i] == s[e + i]);
                        }
                    }
                    lemma_trim_no_nl(s.subrange(e, s.len() as int));
                    lemma_line_round_trip(rest, 1, cfg);
                    lemma_lines_of_single(h);
                    lemma_lines_of_append(h + seq!['\n'], r2.0);
                    assert((h + seq!['\n'])[(h + seq!['\n']).len() - 1] == '\n');
                    assert(lines_of(r.0) =~~= seq![h] + lines_of(r2.0));
                    lemma_doc_concat(seq![h], lines_of(r2.0), ind, cfg);
                    lemma_doc_singleton(h, ind, cfg);
                    assert(doc_spec(seq![h], ind, cfg).0 == h + seq!['\n']);
                    assert(doc_spec(seq![h], ind, cfg).2 == 1);
                    assert(doc_spec(lines_of(r.0), ind, cfg).0 =~= (h + seq!['\n']) + r2.0);
                    assert(doc_spec(lines_of(r.0), ind, cfg).2 == r2.2);
                }
            },
            None => {
                lemma_round_instr(s, ind, cfg);
            },
        }
    }
}

/// Idempotence: formatting an already-correctly-formatted document under
/// the same configuration reproduces it unchanged.  Formally: format a
/// stable document, split the result into lines, and format those from the
/// same starting level; the text — and the final indentation level — are
/// the same again.  The configuration must lowercase identifiers and keep
/// labels on their own line, and every line must be stable in the sense of
/// [`stable_line`]; outside those bounds the formatter is not idempotent.
pub proof fn lemma_format_idempotent(lines: Seq<Seq<char>>, ind: nat, cfg: Settings)
    requires
        cfg.lowercase_names,
        !cfg.inline_labels,
        forall|i: int|
            0 <= i < lines.len() ==> no_nl(#[trigger] lines[i]) && stable_line(
                spec_trim(lines[i]),
                cfg,
            ),
    ensures
        doc_spec(lines_of(doc_spec(lines, ind, cfg).0), ind, cfg).0 == doc_spec(lines, ind, cfg).0,
        doc_spec(lines_of(doc_spec(lines, ind, cfg).0), ind, cfg).2 == doc_spec(lines, ind, cfg).2,
    decreases lines.len(),
{
    if lines.len() == 0 {
        assert(doc_spec(lines, ind, cfg).0 =~= Seq::<char>::empty());
    } else {
        let s0 = spec_trim(lines[0]);
        let r = line_spec(s0, ind, cfg);
        let tail = doc_spec(lines.skip(1), r.2, cfg);
        assert(doc_spec(lines, ind, cfg).0 == r.0 + tail.0);
        lemma_line_ends_nl(s0, ind, cfg);
        lemma_lines_of_append(r.0, tail.0);
        lemma_trim_trimmed(lines[0]);
        lemma_trim_no_nl(lines[0]);
        lemma_line_round_trip(s0, ind, cfg);
        assert forall|i: int|
            0 <= i < lines.skip(1).len() implies no_nl(#[trigger] lines.skip(1)[i]) && stable_line(
            spec_trim(lines.skip(1)[i]),
            cfg,
        ) by {
            assert(lines.skip(1)[i] == lines[i + 1]);
        }
        lemma_format_idempotent(lines.skip(1), r.2, cfg);
        lemma_doc_concat(lines_of(r.0), lines_of(tail.0), ind, cfg);
        assert(doc_spec(lines_of(doc_spec(lines, ind, cfg).0), ind, cfg).0 =~= r.0 + tail.0);
    }
}

} // verus!
