use ptx::deck::{build, Input};
use ptx::module::Module;
use ptx::parse::{ArchReq, Entry, Qualifier};
use ptx::report::{coverage, note_counts, parse_module_list, select_inputs};

fn entry(id: &str, section: &str) -> Entry {
    Entry {
        id: id.into(),
        section: section.into(),
        name: "bfe".into(),
        gloss: "Bit Field Extract.".into(),
        syntax: Some("bfe.type d, a, b, c;".into()),
        qualifiers: vec![Qualifier { name: "type".into(), values: vec![".u32".into()] }],
        description: vec![],
        semantics: None,
        since_ptx: Some("2.0".into()),
        arch: ArchReq::Min("sm_20".into()),
        examples: None,
    }
}

fn entries() -> Vec<Entry> {
    vec![
        entry("a", "9.7.1.20"),
        entry("b", "9.7.1"),
        entry("c", "10.1"),
        entry("d", "9.7.17.3"),
        entry("e", "intro"),
    ]
}

#[test]
fn selection_keeps_classified_entries_in_order() {
    let all = select_inputs(entries(), None);
    let ids: Vec<_> = all.iter().map(|i| i.entry.id.as_str()).collect();
    assert_eq!(ids, ["a", "c", "d"]);
    assert_eq!(all[0].module, Module::Core);
    assert_eq!(all[0].category, "ptx::integer-arithmetic");
    assert_eq!(all[1].module, Module::Concepts);
    assert_eq!(all[2].module, Module::Instructions);

    let only = vec![Module::Concepts, Module::Instructions];
    let some = select_inputs(entries(), Some(&only));
    let ids: Vec<_> = some.iter().map(|i| i.entry.id.as_str()).collect();
    assert_eq!(ids, ["c", "d"]);
    assert!(select_inputs(entries(), Some(&vec![])).is_empty());
}

#[test]
fn module_lists() {
    assert_eq!(parse_module_list("core,concepts"), Ok(vec![Module::Core, Module::Concepts]));
    assert_eq!(parse_module_list(" instructions , ,core "), Ok(vec![Module::Instructions, Module::Core]));
    assert_eq!(parse_module_list(""), Ok(vec![]));
    assert_eq!(parse_module_list("core,tensor,bogus"), Err("tensor".to_string()));
}

#[test]
fn coverage_counts_per_module() {
    let mut es = entries();
    es[3].syntax = None;
    es[3].arch = ArchReq::Unknown;
    es[3].qualifiers.clear();
    es[3].examples = Some("x".into());
    es[3].gloss = String::new();
    let inputs = select_inputs(es, None);
    let c = coverage(&inputs, Module::Instructions);
    assert_eq!(
        (c.count, c.gloss, c.syntax, c.qualifiers, c.sm, c.semantics, c.examples),
        (1, 0, 0, 0, 0, 0, 1)
    );
    let c = coverage(&inputs, Module::Core);
    assert_eq!(
        (c.count, c.gloss, c.syntax, c.qualifiers, c.sm, c.semantics, c.examples),
        (1, 1, 1, 1, 1, 0, 0)
    );
}

#[test]
fn note_counts_per_deck() {
    let inputs: Vec<Input> = select_inputs(entries(), None);
    let d = build(&inputs, "9.3");
    let r = note_counts(&d);
    let rows: Vec<_> = r.rows.iter().map(|x| (x.deck.as_str(), x.notes, x.cards)).collect();
    assert_eq!(
        rows,
        [
            ("PTX ISA::Concepts::Arch", 2, 2),
            ("PTX ISA::Concepts::Qualifiers", 1, 1),
            ("PTX ISA::Concepts::Recall", 1, 2),
            ("PTX ISA::Concepts::Syntax", 1, 1),
            ("PTX ISA::Core Instructions::Arch", 2, 2),
            ("PTX ISA::Core Instructions::Qualifiers", 1, 1),
            ("PTX ISA::Core Instructions::Recall", 1, 2),
            ("PTX ISA::Core Instructions::Syntax", 1, 1),
            ("PTX ISA::Instructions::Arch", 2, 2),
            ("PTX ISA::Instructions::Qualifiers", 1, 1),
            ("PTX ISA::Instructions::Recall", 1, 2),
            ("PTX ISA::Instructions::Syntax", 1, 1),
        ]
    );
    assert_eq!(r.total_notes, 15);
    assert_eq!(r.total_cards, 18);
}
