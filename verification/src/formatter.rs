//! The executable formatter, verified against the model in [`crate::model`].

use vstd::prelude::*;
use vstd::string::StrSliceExecFns;
use vstd::string::StringExecFns;
use crate::config::{Casing, Indentation, Settings};
use crate::model::{
    cased_char, cased_seq, copy_end, doc_spec, find_term, first_ns, indent_text, last_ns,
    line_spec, mnemonic_end, render_ops, section_kw, skip_token, spec_trim, term_at,
};

verus! {

/// Marks a cold path; has no effect.
pub fn probably_not() {
}

/// Passes a condition through unchanged while marking it as unlikely.
pub fn unlikely(cond: bool) -> (r: bool)
    ensures
        r == cond,
{
    if cond {
        probably_not();
    }
    cond
}

/// Renders one character under a casing policy.
pub fn to_cased_char(c: char, casing: &Casing) -> (r: char)
    ensures
        r == cased_char(c, *casing),
{
    match casing {
        Casing::Lower => {
            if 'A' <= c && c <= 'Z' {
                (((c as u32) + 32) as u8) as char
            } else {
                c
            }
        },
        Casing::Upper => {
            if 'a' <= c && c <= 'z' {
                (((c as u32) - 32) as u8) as char
            } else {
                c
            }
        },
    }
}

/// Appends `indent_amount` rendered indentation units to the output: one tab
/// per level, or the configured number of spaces per level.
pub fn write_indent(indentation: &Indentation, indent_amount: u32, output: &mut Vec<char>)
    ensures
        final(output)@ == old(output)@ + indent_text(*indentation, indent_amount as nat),
{
    match indentation {
        Indentation::Tabs { charlen: _ } => {
            let mut k: u32 = 0;
            while k < indent_amount
                invariant
                    k <= indent_amount,
                    output@ == old(output)@ + Seq::new(k as nat, |i: int| '\t'),
                decreases indent_amount - k,
            {
                output.push('\t');
                k = k + 1;
                proof {
                    assert(output@ =~= old(output)@ + Seq::new(k as nat, |i: int| '\t'));
                }
            }
            proof {
                assert(output@ =~= old(output)@ + indent_text(*indentation, indent_amount as nat));
            }
        },
        Indentation::Spaces { amount } => {
            proof {
                assert((*amount as int) * (indent_amount as int) <= 0xffff_ffff * 0xffff_ffff)
                    by (nonlinear_arith)
                    requires
                        *amount as int <= 0xffff_ffff,
                        indent_amount as int <= 0xffff_ffff,
                ;
            }
            let total: u64 = (*amount as u64) * (indent_amount as u64);
            let mut k: u64 = 0;
            while k < total
                invariant
                    k <= total,
                    total == (*amount as u64) * (indent_amount as u64),
                    output@ == old(output)@ + Seq::new(k as nat, |i: int| ' '),
                decreases total - k,
            {
                output.push(' ');
                k = k + 1;
                proof {
                    assert(output@ =~= old(output)@ + Seq::new(k as nat, |i: int| ' '));
                }
            }
            proof {
                assert(total as nat == (indent_amount as nat) * (*amount as nat))
                    by (nonlinear_arith)
                    requires
                        total as int == (*amount as int) * (indent_amount as int),
                ;
                assert(output@ =~= old(output)@ + indent_text(*indentation, indent_amount as nat));
            }
        },
    }
}

/// The characters of a string slice, in order.
fn chars_of(s: &str) -> (v: Vec<char>)
    ensures
        v@ == s@,
{
    let n = s.unicode_len();
    let mut v: Vec<char> = Vec::new();
    let mut i: usize = 0;
    while i < n
        invariant
            i <= n,
            n == s@.len(),
            v@ == s@.subrange(0, i as int),
        decreases n - i,
    {
        v.push(s.get_char(i));
        i = i + 1;
        proof {
            assert(v@ =~= s@.subrange(0, i as int));
        }
    }
    proof {
        assert(v@ =~= s@);
    }
    v
}

/// Relies on `String`'s `FromIterator<char>` implementation: collecting an
/// iterator of characters builds the string of exactly those characters, in
/// order.
#[verifier::external_body]
fn string_from_chars(v: &Vec<char>) -> (s: String)
    ensures
        s@ == v@,
{
    v.iter().collect()
}

/// The index of the header terminator in the window `[lo, hi)` of `line`, as
/// `find_term` gives it: the first colon after the first character, or the
/// end of the `section ` keyword.
fn find_term_exec(line: &Vec<char>, lo: usize, hi: usize) -> (r: Option<usize>)
    requires
        lo < hi <= line@.len(),
    ensures
        ({
            let s = line@.subrange(lo as int, hi as int);
            match r {
                Some(u) => lo < u < hi && find_term(s, 1) == Some(u - lo),
                None => find_term(s, 1) is None,
            }
        }),
{
    let ghost s = line@.subrange(lo as int, hi as int);
    let mut i: usize = lo + 1;
    while i < hi
        invariant
            lo + 1 <= i <= hi <= line@.len(),
            s == line@.subrange(lo as int, hi as int),
            find_term(s, 1) == find_term(s, i - lo),
        decreases hi - i,
    {
        let c = line[i];
        let mut is_term: bool = c == ':';
        if !is_term && i - lo == 7 {
            if line[lo] == 's' && line[lo + 1] == 'e' && line[lo + 2] == 'c' && line[lo + 3] == 't'
                && line[lo + 4] == 'i' && line[lo + 5] == 'o' && line[lo + 6] == 'n' && c == ' ' {
                is_term = true;
                proof {
                    assert(s.subrange(0, 8) =~= section_kw());
                }
            } else {
                proof {
                    if s.subrange(0, 8) == section_kw() {
                        assert(s.subrange(0, 8)[0] == 's' && s.subrange(0, 8)[1] == 'e'
                            && s.subrange(0, 8)[2] == 'c' && s.subrange(0, 8)[3] == 't'
                            && s.subrange(0, 8)[4] == 'i' && s.subrange(0, 8)[5] == 'o'
                            && s.subrange(0, 8)[6] == 'n' && s.subrange(0, 8)[7] == ' ');
                    }
                }
            }
        }
        if is_term {
            proof {
                assert(term_at(s, i - lo));
            }
            return Some(i);
        }
        proof {
            assert(!term_at(s, i - lo));
        }
        i = i + 1;
    }
    None
}

/// The bounds of the trimmed middle of the window `[lo, hi)` of `line`:
/// everything before `r.0` and from `r.1` on is whitespace, as `spec_trim`
/// sees it.
fn trim_bounds(line: &Vec<char>, lo: usize, hi: usize) -> (r: (usize, usize))
    requires
        lo <= hi <= line@.len(),
    ensures
        ({
            let s = line@.subrange(lo as int, hi as int);
            lo <= r.0 <= hi && lo <= r.1 <= hi
                && spec_trim(s) == (if r.0 < r.1 {
                line@.subrange(r.0 as int, r.1 as int)
            } else {
                Seq::<char>::empty()
            })
        }),
{
    let ghost s = line@.subrange(lo as int, hi as int);
    let mut a: usize = lo;
    while a < hi && (line[a] == ' ' || line[a] == '\t' || line[a] == '\n' || line[a] == '\r')
        invariant
            lo <= a <= hi <= line@.len(),
            s == line@.subrange(lo as int, hi as int),
            first_ns(s, 0) == first_ns(s, a - lo),
        decreases hi - a,
    {
        a = a + 1;
    }
    proof {
        assert(first_ns(s, 0) == a - lo);
    }
    let mut b: usize = hi;
    while b > lo && (line[b - 1] == ' ' || line[b - 1] == '\t' || line[b - 1] == '\n' || line[b - 1]
        == '\r')
        invariant
            lo <= b <= hi <= line@.len(),
            s == line@.subrange(lo as int, hi as int),
            last_ns(s, (hi - lo) as int) == last_ns(s, (b - lo) as int),
        decreases b,
    {
        b = b - 1;
    }
    proof {
        assert(last_ns(s, (hi - lo) as int) == b - lo);
        if a < b {
            assert(spec_trim(s) =~= line@.subrange(a as int, b as int));
        }
    }
    (a, b)
}

/// Renders the operand region `[lo, hi)` of an instruction line and appends
/// it to the output, as `render_ops` gives it: token separators dropped,
/// `;` comments stripped, a space after every comma, everything else under
/// the register casing policy.
fn render_ops_exec(line: &Vec<char>, lo: usize, hi: usize, output: &mut Vec<char>, casing: &Casing)
    requires
        lo <= hi <= line@.len(),
    ensures
        final(output)@ == old(output)@ + render_ops(
            line@.subrange(lo as int, hi as int),
            *casing,
        ),
{
    let ghost full = line@.subrange(lo as int, hi as int);
    let mut p: usize = lo;
    while p < hi
        invariant
            lo <= p <= hi <= line@.len(),
            full == line@.subrange(lo as int, hi as int),
            output@ + render_ops(line@.subrange(p as int, hi as int), *casing) == old(output)@
                + render_ops(full, *casing),
        decreases hi - p,
    {
        let ghost cur = line@.subrange(p as int, hi as int);
        let c = line[p];
        if c == ' ' {
            proof {
                assert(cur.skip(1) =~= line@.subrange(p as int + 1, hi as int));
            }
            p = p + 1;
        } else if c == ';' {
            let mut q: usize = p;
            while q < hi && line[q] != ' '
                invariant
                    p <= q <= hi <= line@.len(),
                    skip_token(line@.subrange(p as int, hi as int)) == skip_token(
                        line@.subrange(q as int, hi as int),
                    ),
                decreases hi - q,
            {
                proof {
                    assert(line@.subrange(q as int, hi as int).skip(1) =~= line@.subrange(
                        q as int + 1,
                        hi as int,
                    ));
                }
                q = q + 1;
            }
            proof {
                assert(skip_token(line@.subrange(q as int, hi as int)) =~= line@.subrange(
                    q as int,
                    hi as int,
                ));
                assert(render_ops(cur, *casing) == render_ops(
                    line@.subrange(q as int, hi as int),
                    *casing,
                ));
            }
            p = q;
        } else if c == ',' {
            output.push(',');
            output.push(' ');
            proof {
                assert(cur.skip(1) =~= line@.subrange(p as int + 1, hi as int));
                assert(output@ + render_ops(line@.subrange(p as int + 1, hi as int), *casing)
                    =~= old(output)@ + render_ops(full, *casing));
            }
            p = p + 1;
        } else {
            let rc = to_cased_char(c, casing);
            output.push(rc);
            proof {
                assert(cur.skip(1) =~= line@.subrange(p as int + 1, hi as int));
                assert(output@ + render_ops(line@.subrange(p as int + 1, hi as int), *casing)
                    =~= old(output)@ + render_ops(full, *casing));
            }
            p = p + 1;
        }
    }
    proof {
        assert(line@.subrange(p as int, hi as int).len() == 0);
        assert(output@ =~= old(output)@ + render_ops(full, *casing));
    }
}

/// Formats the trimmed window `[lo, hi)` of `line` as one logical input
/// line, appending output and diagnostics and updating the indentation
/// level exactly as `line_spec` gives it.
#[verifier::rlimit(100)]
#[verifier::spinoff_prover]
fn parse_window(
    line: &Vec<char>,
    lo: usize,
    hi: usize,
    output: &mut Vec<char>,
    log_buffer: &mut String,
    indent_amount: &mut u32,
    settings: &Settings,
)
    requires
        lo <= hi <= line@.len(),
    ensures
        ({
            let r = line_spec(
                line@.subrange(lo as int, hi as int),
                *old(indent_amount) as nat,
                *settings,
            );
            final(output)@ == old(output)@ + r.0 && final(log_buffer)@ == old(log_buffer)@ + r.1
                && *final(indent_amount) as nat == r.2
        }),
    decreases hi - lo,
{
    let ghost s = line@.subrange(lo as int, hi as int);
    let ghost r = line_spec(s, *indent_amount as nat, *settings);
    if lo == hi {
        output.push('\n');
        proof {
            assert(output@ =~= old(output)@ + r.0);
        }
        return ;
    }
    let c0 = line[lo];
    if unlikely(c0 == ':') {
        log_buffer.append("Parsing Error: Colon without an identifier in front of it.");
        write_indent(&settings.indentation, *indent_amount, output);
        output.push(':');
        output.push('\n');
        proof {
            assert(output@ =~= old(output)@ + r.0);
        }
        return ;
    }
    match find_term_exec(line, lo, hi) {
        Some(t) => {
            *indent_amount = 1;
            let ghost t0 = t - lo;
            let ncas = Settings::casing(settings.lowercase_names);
            let mut k: usize = lo;
            while k < t + 1
                invariant
                    lo <= k <= t + 1 <= hi <= line@.len(),
                    s == line@.subrange(lo as int, hi as int),
                    t0 == t - lo,
                    ncas == Settings::spec_casing(settings.lowercase_names),
                    output@ == old(output)@ + cased_seq(s.subrange(0, k - lo), ncas),
                decreases t + 1 - k,
            {
                let rc = to_cased_char(line[k], &ncas);
                output.push(rc);
                k = k + 1;
                proof {
                    assert(output@ =~= old(output)@ + cased_seq(s.subrange(0, k - lo), ncas));
                }
            }
            let ghost header = cased_seq(s.subrange(0, t0 + 1), ncas);
            let mut j: usize = t + 1;
            if line[t] != ':' {
                let mut done: bool = false;
                while j < hi && !done
                    invariant
                        t + 1 <= j <= hi <= line@.len(),
                        s == line@.subrange(lo as int, hi as int),
                        t0 == t - lo,
                        lo < t,
                        output@ == old(output)@ + header + s.subrange(t0 + 1, j - lo),
                        !done ==> copy_end(s, t0 + 1) == copy_end(s, j - lo),
                        done ==> j - lo == copy_end(s, t0 + 1),
                    decreases hi - j,
                {
                    let c = line[j];
                    output.push(c);
                    j = j + 1;
                    if c == '\n' {
                        done = true;
                    }
                    proof {
                        assert(output@ =~= old(output)@ + header + s.subrange(t0 + 1, j - lo));
                    }
                }
                proof {
                    assert(j - lo == copy_end(s, t0 + 1));
                }
            }
            let ghost e = j - lo;
            let ghost copied = s.subrange(t0 + 1, e);
            proof {
                assert(s.subrange(e, s.len() as int) =~= line@.subrange(j as int, hi as int));
            }
            let (a, b) = trim_bounds(line, j, hi);
            if settings.inline_labels {
                output.push(' ');
            } else {
                output.push('\n');
            }
            let ghost sep: Seq<char> = if settings.inline_labels {
                seq![' ']
            } else {
                seq!['\n']
            };
            if a < b {
                proof {
                    assert(output@ =~= old(output)@ + (header + copied + sep));
                }
                parse_window(line, a, b, output, log_buffer, indent_amount, settings);
                proof {
                    let rr = line_spec(line@.subrange(a as int, b as int), 1, *settings);
                    assert(output@ =~= old(output)@ + (header + copied + sep + rr.0));
                }
            } else {
                proof {
                    assert(output@ =~= old(output)@ + (header + copied + sep));
                    assert(log_buffer@ =~= old(log_buffer)@ + Seq::<char>::empty());
                }
            }
        },
        None => {
            write_indent(&settings.indentation, *indent_amount, output);
            let ghost ind_part = indent_text(settings.indentation, *indent_amount as nat);
            let mut m: usize = lo;
            while m < hi && line[m] != ' '
                invariant
                    lo <= m <= hi <= line@.len(),
                    s == line@.subrange(lo as int, hi as int),
                    mnemonic_end(s, 0) == mnemonic_end(s, m - lo),
                decreases hi - m,
            {
                m = m + 1;
            }
            proof {
                assert(mnemonic_end(s, 0) == m - lo);
            }
            let icas = Settings::casing(settings.lowercase_instructions);
            let mut k: usize = lo;
            while k < m
                invariant
                    lo <= k <= m <= hi <= line@.len(),
                    s == line@.subrange(lo as int, hi as int),
                    icas == Settings::spec_casing(settings.lowercase_instructions),
                    output@ == old(output)@ + ind_part + cased_seq(s.subrange(0, k - lo), icas),
                decreases m - k,
            {
                let rc = to_cased_char(line[k], &icas);
                output.push(rc);
                k = k + 1;
                proof {
                    assert(output@ =~= old(output)@ + ind_part + cased_seq(
                        s.subrange(0, k - lo),
                        icas,
                    ));
                }
            }
            if m < hi {
                output.push(' ');
                let rcas = Settings::casing(settings.lowercase_registers);
                proof {
                    assert(s.subrange(m - lo + 1, s.len() as int) =~= line@.subrange(
                        m as int + 1,
                        hi as int,
                    ));
                }
                render_ops_exec(line, m + 1, hi, output, &rcas);
            }
            output.push('\n');
            proof {
                assert(output@ =~= old(output)@ + r.0);
                assert(log_buffer@ =~= old(log_buffer)@ + Seq::<char>::empty());
            }
        },
    }
}

/// Formats one already-trimmed logical line under the configuration,
/// appending its rendering to `output` and any diagnostics to `log_buffer`,
/// and updating the indentation level carried across lines — exactly as
/// `line_spec` gives it.
pub fn parse_str(
    value: &str,
    output: &mut String,
    log_buffer: &mut String,
    indent_amount: &mut u32,
    settings: &Settings,
)
    ensures
        ({
            let r = line_spec(value@, *old(indent_amount) as nat, *settings);
            final(output)@ == old(output)@ + r.0 && final(log_buffer)@ == old(log_buffer)@ + r.1
                && *final(indent_amount) as nat == r.2
        }),
{
    let cv = chars_of(value);
    let mut out: Vec<char> = Vec::new();
    proof {
        assert(cv@.subrange(0, cv@.len() as int) =~= value@);
    }
    parse_window(&cv, 0, cv.len(), &mut out, log_buffer, indent_amount, settings);
    let rendered = string_from_chars(&out);
    output.append(rendered.as_str());
    proof {
        assert(output@ =~= old(output)@ + line_spec(value@, *old(indent_amount) as nat, *settings).0);
    }
}

/// Formats a whole document: each raw line is trimmed and formatted in
/// order, with one indentation level threaded across all lines (starting at
/// 0), exactly as `doc_spec` gives it.  Returns the formatted text;
/// diagnostics are appended to `log_buffer`.
pub fn format(lines: &Vec<String>, log_buffer: &mut String, settings: &Settings) -> (res: String)
    ensures
        res@ == doc_spec(lines.deep_view(), 0, *settings).0,
        final(log_buffer)@ == old(log_buffer)@ + doc_spec(lines.deep_view(), 0, *settings).1,
{
    let ghost views = lines.deep_view();
    let mut out: Vec<char> = Vec::new();
    let mut indent_amount: u32 = 0;
    let mut idx: usize = 0;
    proof {
        assert(views.skip(0) =~= views);
    }
    while idx < lines.len()
        invariant
            idx <= lines.len(),
            views == lines.deep_view(),
            views.len() == lines.len(),
            out@ + doc_spec(views.skip(idx as int), indent_amount as nat, *settings).0 == doc_spec(
                views,
                0,
                *settings,
            ).0,
            log_buffer@ + doc_spec(views.skip(idx as int), indent_amount as nat, *settings).1
                == old(log_buffer)@ + doc_spec(views, 0, *settings).1,
        decreases lines.len() - idx,
    {
        let ghost rem = views.skip(idx as int);
        let cv = chars_of(lines[idx].as_str());
        proof {
            assert(rem[0] == views[idx as int]);
            assert(cv@ == views[idx as int]);
        }
        let n = cv.len();
        let (a, b) = trim_bounds(&cv, 0, n);
        proof {
            assert(cv@.subrange(0, n as int) =~= cv@);
        }
        if a < b {
            parse_window(&cv, a, b, &mut out, log_buffer, &mut indent_amount, settings);
        } else {
            proof {
                assert(cv@.subrange(0, 0) =~= Seq::<char>::empty());
            }
            parse_window(&cv, 0, 0, &mut out, log_buffer, &mut indent_amount, settings);
        }
        idx = idx + 1;
        proof {
            assert(rem.skip(1) =~= views.skip(idx as int));
            assert(out@ + doc_spec(views.skip(idx as int), indent_amount as nat, *settings).0
                =~= doc_spec(views, 0, *settings).0);
            assert(log_buffer@ + doc_spec(views.skip(idx as int), indent_amount as nat, *settings).1
                =~= old(log_buffer)@ + doc_spec(views, 0, *settings).1);
        }
    }
    proof {
        assert(out@ =~= doc_spec(views, 0, *settings).0);
        assert(log_buffer@ =~= old(log_buffer)@ + doc_spec(views, 0, *settings).1);
    }
    string_from_chars(&out)
}

} // verus!
