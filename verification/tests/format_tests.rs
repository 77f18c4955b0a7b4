use asmfmt::config::{Indentation, Settings};
use asmfmt::formatter::{parse_str, unlikely, write_indent};

fn lines(v: &[&str]) -> Vec<String> {
    v.iter().map(|s| s.to_string()).collect()
}

fn fmt_default(v: &[&str]) -> (String, String) {
    let mut log = String::new();
    let out = asmfmt::formatter::format(&lines(v), &mut log, &Settings::default());
    (out, log)
}

#[test]
fn blank_line_passes_through() {
    let (out, log) = fmt_default(&["", "inc eax", ""]);
    assert_eq!(out, "\ninc eax\n\n");
    assert_eq!(log, "");
}

#[test]
fn blank_line_keeps_indent_level() {
    let (out, _) = fmt_default(&["start:", "", "inc eax"]);
    assert_eq!(out, "start:\n\n\tinc eax\n");
}

#[test]
fn malformed_colon_recovers_with_diagnostic() {
    let (out, log) = fmt_default(&[":"]);
    assert_eq!(out, ":\n");
    assert_eq!(
        log,
        "Parsing Error: Colon without an identifier in front of it."
    );
}

#[test]
fn malformed_colon_does_not_halt_later_lines() {
    let (out, log) = fmt_default(&["loop:", ":", "inc eax"]);
    assert_eq!(out, "loop:\n\t:\n\tinc eax\n");
    assert_eq!(
        log,
        "Parsing Error: Colon without an identifier in front of it."
    );
}

#[test]
fn same_line_label_and_instruction() {
    let (out, log) = fmt_default(&["loop: inc eax"]);
    assert_eq!(out, "loop:\n\tinc eax\n");
    assert_eq!(log, "");
}

#[test]
fn section_directive_passthrough() {
    let (out, log) = fmt_default(&["section .text ; code", "mov eax, 1"]);
    assert_eq!(out, "section .text ; code\n\tmov eax, 1\n");
    assert_eq!(log, "");
}

#[test]
fn section_name_is_not_recased() {
    let (out, _) = fmt_default(&["section .TEXT ; Code"]);
    assert_eq!(out, "section .TEXT ; Code\n");
}

#[test]
fn comma_spacing_in_operands() {
    let (out, _) = fmt_default(&["mov eax,1"]);
    assert_eq!(out, "mov eax, 1\n");
}

#[test]
fn comma_already_spaced_is_kept() {
    let (out, _) = fmt_default(&["mov eax, 1"]);
    assert_eq!(out, "mov eax, 1\n");
}

#[test]
fn header_sets_indentation_for_later_lines() {
    let (out, _) = fmt_default(&["mov eax, 1", "start:", "mov ebx, 2", "int 0x80"]);
    assert_eq!(out, "mov eax, 1\nstart:\n\tmov ebx, 2\n\tint 0x80\n");
}

#[test]
fn default_casing_lowercases() {
    let (out, _) = fmt_default(&["MOV EAX, EBX", "Start:"]);
    assert_eq!(out, "MOV EAX, EBX\n".to_lowercase() + "start:\n");
}

#[test]
fn uppercase_flags_uppercase() {
    let settings = Settings {
        lowercase_instructions: false,
        lowercase_registers: false,
        lowercase_names: false,
        ..Default::default()
    };
    let mut log = String::new();
    let out = asmfmt::formatter::format(&lines(&["start:", "mov eax, 1"]), &mut log, &settings);
    assert_eq!(out, "START:\n\tMOV EAX, 1\n");
}

#[test]
fn casing_changes_only_letter_case() {
    let upper = Settings {
        lowercase_instructions: false,
        lowercase_registers: false,
        lowercase_names: false,
        ..Default::default()
    };
    let mut log = String::new();
    let input = lines(&["Start: Mov Eax,1", "section .data ; x", ":"]);
    let lower_out = asmfmt::formatter::format(&input, &mut String::new(), &Settings::default());
    let upper_out = asmfmt::formatter::format(&input, &mut log, &upper);
    assert_eq!(lower_out.to_lowercase(), upper_out.to_lowercase());
    assert_eq!(lower_out.len(), upper_out.len());
}

#[test]
fn spaces_indentation() {
    let settings = Settings {
        indentation: Indentation::Spaces { amount: 2 },
        ..Default::default()
    };
    let mut log = String::new();
    let out = asmfmt::formatter::format(&lines(&["start:", "inc eax"]), &mut log, &settings);
    assert_eq!(out, "start:\n  inc eax\n");
}

#[test]
fn tabs_width_is_documentation_only() {
    let settings = Settings {
        indentation: Indentation::Tabs { charlen: 8 },
        ..Default::default()
    };
    let mut log = String::new();
    let out = asmfmt::formatter::format(&lines(&["start:", "inc eax"]), &mut log, &settings);
    assert_eq!(out, "start:\n\tinc eax\n");
}

#[test]
fn inline_labels_use_a_space() {
    let settings = Settings {
        inline_labels: true,
        ..Default::default()
    };
    let mut log = String::new();
    let out = asmfmt::formatter::format(&lines(&["loop: inc eax"]), &mut log, &settings);
    assert_eq!(out, "loop: \tinc eax\n");
}

#[test]
fn operand_comment_is_stripped() {
    let (out, _) = fmt_default(&["mov eax ;comment"]);
    assert_eq!(out, "mov eax\n");
}

#[test]
fn spaced_comment_tokens_are_joined() {
    // Operand tokens after the first are concatenated without separators;
    // a token starting with `;` contributes nothing, later tokens still render.
    let (out, _) = fmt_default(&["inc eax ; note"]);
    assert_eq!(out, "inc eaxnote\n");
}

#[test]
fn untrimmed_input_lines_are_trimmed() {
    let (out, _) = fmt_default(&["   loop:  ", "\tinc eax "]);
    assert_eq!(out, "loop:\n\tinc eax\n");
}

#[test]
fn idempotent_on_formatted_document() {
    let doc = &[
        "section .text ; program",
        "start: mov eax,4",
        "mov ebx,1",
        "",
        "loop: dec ecx",
        "jnz loop",
    ];
    let first = fmt_default(doc).0;
    let relines: Vec<&str> = first.lines().collect();
    let second = fmt_default(&relines).0;
    assert_eq!(second, first);
}

#[test]
fn parse_str_appends_and_updates_indent() {
    let mut out = String::from("before\n");
    let mut log = String::new();
    let mut indent: u32 = 0;
    parse_str("loop: inc eax", &mut out, &mut log, &mut indent, &Settings::default());
    assert_eq!(out, "before\nloop:\n\tinc eax\n");
    assert_eq!(indent, 1);
    assert_eq!(log, "");
}

#[test]
fn parse_str_keeps_indent_on_instruction() {
    let mut out = String::new();
    let mut log = String::new();
    let mut indent: u32 = 0;
    parse_str("mov eax, 1", &mut out, &mut log, &mut indent, &Settings::default());
    assert_eq!(out, "mov eax, 1\n");
    assert_eq!(indent, 0);
}

#[test]
fn write_indent_tabs_and_spaces() {
    let mut out: Vec<char> = Vec::new();
    write_indent(&Indentation::Tabs { charlen: 4 }, 3, &mut out);
    assert_eq!(out.iter().collect::<String>(), "\t\t\t");
    let mut out2: Vec<char> = Vec::new();
    write_indent(&Indentation::Spaces { amount: 4 }, 2, &mut out2);
    assert_eq!(out2.iter().collect::<String>(), "        ");
}

#[test]
fn unlikely_passes_through() {
    assert!(unlikely(true));
    assert!(!unlikely(false));
}

#[test]
fn default_settings_fields() {
    let s = Settings::default();
    assert!(matches!(s.indentation, Indentation::Tabs { charlen: 4 }));
    assert!(!s.inline_labels);
    assert!(s.lowercase_instructions);
    assert!(s.lowercase_registers);
    assert!(s.lowercase_names);
    assert_eq!(s.line_length_limit, Some(120));
    assert!(!s.allow_multiline_instructions);
    assert!(s.align_assembler_directives);
    assert!(s.align_labels_to_start_of_line);
    assert!(s.align_instruction_statements);
}

#[test]
fn label_casing_follows_names_flag() {
    let settings = Settings {
        lowercase_names: false,
        ..Default::default()
    };
    let mut log = String::new();
    let out = asmfmt::formatter::format(&lines(&["foo:"]), &mut log, &settings);
    assert_eq!(out, "FOO:\n");
}

#[test]
fn empty_document_formats_to_empty() {
    let (out, log) = fmt_default(&[]);
    assert_eq!(out, "");
    assert_eq!(log, "");
}

#[test]
fn uppercase_section_mnemonic_is_not_a_directive() {
    // `section` matching is case-sensitive: an uppercase spelling is an
    // ordinary instruction on the first pass, so it does not set the
    // indentation level...
    let (out, _) = fmt_default(&["SECTION .text", "mov eax,1"]);
    assert_eq!(out, "section .text\nmov eax, 1\n");
    // ...but its lowercased rendering reads back as a directive, which is
    // why such lines are outside the formatter's idempotence guarantee.
    let relines: Vec<&str> = out.lines().collect();
    let (second, _) = fmt_default(&relines);
    assert_eq!(second, "section .text\n\tmov eax, 1\n");
}

#[test]
fn tab_kept_inside_operand_token() {
    // Operand tokens are split on plain spaces only; a tab travels with its
    // token, and a `;` drops the rest of that token.
    let (out, _) = fmt_default(&["mov a\t;x"]);
    assert_eq!(out, "mov a\t\n");
}

#[test]
fn inline_label_before_blank_line() {
    let settings = Settings {
        inline_labels: true,
        ..Default::default()
    };
    let mut log = String::new();
    let out = asmfmt::formatter::format(&lines(&["foo:", ""]), &mut log, &settings);
    assert_eq!(out, "foo: \n");
}
