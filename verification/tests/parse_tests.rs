use ptx::parse::{extract_after, parse_arch, parse_qualifiers, ArchReq};

fn quals(syntax: &str) -> Vec<(String, Vec<String>)> {
    parse_qualifiers(syntax)
        .into_iter()
        .map(|q| (q.name, q.values))
        .collect()
}

#[test]
fn parses_type_qualifier_list_across_lines() {
    let syntax = "bfe.type  d, a, b, c;\n\n.type = { .u32, .u64,\n          .s32, .s64 };";
    assert_eq!(
        quals(syntax),
        vec![("type".to_string(), vec![".u32".into(), ".u64".into(), ".s32".into(), ".s64".into()])]
    );
}

#[test]
fn parses_multiple_qualifier_lists_in_order() {
    let syntax = "ld.sem.scope.ss.type d, [a];\n\n.sem =   { .relaxed, .acquire };\n\
                  .scope = { .cta, .gpu, .sys };\n.ss =    { .global, .shared };\n\
                  .type =  { .b32, .b64 };";
    let q = quals(syntax);
    assert_eq!(q.iter().map(|(n, _)| n.as_str()).collect::<Vec<_>>(), ["sem", "scope", "ss", "type"]);
    assert_eq!(q[1].1, vec![".cta", ".gpu", ".sys"]);
}

#[test]
fn ignores_dotted_tokens_that_are_not_lists() {
    // Bare mnemonic qualifiers and operands must not be mistaken for lists.
    assert_eq!(quals("ret;").len(), 0);
    assert_eq!(quals("add.s32 d, a, b;").len(), 0);
}

#[test]
fn nested_brace_groups_stay_one_value() {
    // atom's .space list nests a sub-state-space group inside a value.
    let syntax = ".space = { .global, .shared{::cta, ::cluster} };";
    assert_eq!(
        quals(syntax),
        vec![(
            "space".to_string(),
            vec![".global".to_string(), ".shared{::cta, ::cluster}".to_string()]
        )]
    );
}

#[test]
fn keeps_first_definition_when_a_list_repeats() {
    // Instructions with several syntax forms redeclare the same qualifier.
    let syntax = ".type = { .b32 };\nfoo.type d;\n.type = { .b32, .b64 };";
    assert_eq!(quals(syntax), vec![("type".to_string(), vec![".b32".to_string()])]);
}

#[test]
fn empty_and_unbalanced_lists() {
    // A list with no values is skipped; a later list is still read.
    assert_eq!(quals(".a = { , };\n.b = { .x };"), vec![("b".to_string(), vec![".x".to_string()])]);
    // An unbalanced brace ends the scan.
    assert_eq!(quals(".a = { .x, .y\n.b = { .z };").len(), 0);
    // Whitespace inside a value collapses to single spaces.
    assert_eq!(
        quals(".r = { .rn  .ftz,\t.rz };"),
        vec![("r".to_string(), vec![".rn .ftz".to_string(), ".rz".to_string()])]
    );
    // A name must be followed by `=` and `{`.
    assert_eq!(quals(".a { .x };").len(), 0);
    assert_eq!(quals(".a = .x;").len(), 0);
}

#[test]
fn extracts_ptx_version() {
    let t = "Introduced in PTX ISA version 2.0.";
    assert_eq!(extract_after(t, "Introduced in PTX ISA version").as_deref(), Some("2.0"));
}

#[test]
fn version_extraction_edge_cases() {
    let p = "Introduced in PTX ISA version";
    assert_eq!(extract_after("No version here.", p), None);
    assert_eq!(extract_after("Introduced in PTX ISA version .", p), None);
    assert_eq!(extract_after("Introduced in PTX ISA version   7.8...", p).as_deref(), Some("7.8"));
    assert_eq!(
        extract_after("Introduced in PTX ISA version 3.1. Introduced in PTX ISA version 9.0.", p)
            .as_deref(),
        Some("3.1")
    );
}

#[test]
fn reads_a_plain_minimum_architecture() {
    assert_eq!(parse_arch("bfe requires sm_20 or higher."), ArchReq::Min("sm_20".into()));
    assert_eq!(parse_arch("Requires sm_90a."), ArchReq::Min("sm_90a".into()));
}

#[test]
fn universal_support_is_not_narrowed_by_later_variant_notes() {
    // The bug this guards: `add` is supported everywhere, but a later
    // sentence mentions sm_90 for add.u16x2. Reporting sm_90 as the floor
    // would make the card assert something false.
    let notes = "Supported on all target architectures. \
                 add.u16x2 and add.s16x2 require sm_90 or higher.";
    assert_eq!(parse_arch(notes), ArchReq::All);
}

#[test]
fn a_variant_sentence_does_not_override_the_base_requirement() {
    let notes = "Requires sm_70 or higher. The .u8 form requires sm_90 or higher.";
    assert_eq!(parse_arch(notes), ArchReq::Min("sm_70".into()));
}

#[test]
fn family_specific_lists_are_left_unknown_rather_than_guessed() {
    assert_eq!(parse_arch("Supported on following architectures:"), ArchReq::Unknown);
    assert_eq!(parse_arch("No architecture mentioned."), ArchReq::Unknown);
}

#[test]
fn lowest_architecture_wins_and_case_is_ignored() {
    assert_eq!(parse_arch("Requires sm_90 or sm_80 or sm_86."), ArchReq::Min("sm_80".into()));
    assert_eq!(parse_arch("SUPPORTED ON ALL TARGET ARCHITECTURES"), ArchReq::All);
    // A bare `sm_` and an overflowing number are ignored.
    assert_eq!(parse_arch("sm_ and sm_99999999999 and sm_35"), ArchReq::Min("sm_35".into()));
    assert_eq!(parse_arch("sm_x"), ArchReq::Unknown);
}

#[test]
fn qualifier_names_and_values_are_tidy() {
    let syntax = "op.sp.type d;\n.sp = {  .a  b ,\n  .shared{::cta,  ::cluster}, .c  };\n.type = { .u32 };";
    let q = parse_qualifiers(syntax);
    assert_eq!(q.len(), 2);
    for l in &q {
        assert!(l.name.chars().all(|c| c.is_ascii_alphanumeric() || c == '_'));
        assert!(syntax.contains(&format!(".{} =", l.name)));
        for v in &l.values {
            assert_eq!(v.split_whitespace().collect::<Vec<_>>().join(" "), *v);
        }
    }
    assert_eq!(q[0].values, vec![".a b", ".shared{::cta, ::cluster}", ".c"]);
}

#[test]
fn first_of_the_lowest_architecture_wins() {
    assert_eq!(parse_arch("Requires sm_90a or sm_90b or sm_100."), ArchReq::Min("sm_90a".into()));
    assert_eq!(parse_arch("Requires sm_99999999999 or sm_7."), ArchReq::Min("sm_7".into()));
    assert_eq!(parse_arch("Requires sm_ or smx_3."), ArchReq::Unknown);
}

#[test]
fn unbalanced_braces_end_the_scan() {
    assert_eq!(quals(".a = { .x }; .b = { .y, { .z };").len(), 1);
    assert_eq!(quals(".a = { .x, {.y}, .z }")[0].1, vec![".x", "{.y}", ".z"]);
}
