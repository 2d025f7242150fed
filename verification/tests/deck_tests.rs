use ptx::deck::{build, deck_id, esc, guid, kind_word, models, DeckDefinition, Input, NoteDef};
use ptx::module::Module;
use ptx::parse::{ArchReq, Entry, Qualifier};
use sha2::{Digest, Sha256};
use std::collections::{BTreeMap, BTreeSet};

fn entry() -> Entry {
    Entry {
        id: "integer-arithmetic-instructions-bfe".into(),
        section: "9.7.1.20".into(),
        name: "bfe".into(),
        gloss: "Bit Field Extract.".into(),
        syntax: Some("bfe.type  d, a, b, c;".into()),
        qualifiers: vec![Qualifier {
            name: "type".into(),
            values: vec![".u32".into(), ".s32".into()],
        }],
        description: vec![],
        semantics: None,
        since_ptx: Some("2.0".into()),
        arch: ArchReq::Min("sm_20".into()),
        examples: None,
    }
}

fn input(e: Entry) -> Vec<Input> {
    vec![Input { module: Module::Core, category: "ptx::integer-arithmetic".into(), entry: e }]
}

fn fields(n: &NoteDef) -> BTreeMap<String, String> {
    n.fields.iter().cloned().collect()
}

#[test]
fn guid_survives_content_changes() {
    // The whole point of the stability contract: reword every field and the
    // note must keep its identity so scheduling is preserved on re-import.
    let before = build(&input(entry()), "9.3");
    let mut changed = entry();
    changed.gloss = "Completely different wording.".into();
    changed.syntax = Some("bfe.type d, a, b, c; // reworded".into());
    changed.arch = ArchReq::Min("sm_50".into());
    let after = build(&input(changed), "9.4");

    let g = |d: &DeckDefinition| d.notes.iter().map(|n| n.guid.clone()).collect::<Vec<_>>();
    assert_eq!(g(&before), g(&after));
}

#[test]
fn guid_differs_per_card_kind_and_qualifier() {
    let mut e = entry();
    e.qualifiers.push(Qualifier { name: "rnd".into(), values: vec![".rn".into()] });
    let d = build(&input(e), "9.3");
    let guids: BTreeSet<_> = d.notes.iter().map(|n| &n.guid).collect();
    assert_eq!(guids.len(), d.notes.len(), "every note needs a distinct guid");
}

#[test]
fn builds_the_expected_subdeck_tree() {
    let d = build(&input(entry()), "9.3");
    let names: Vec<_> = d.decks.iter().map(|x| x.name.as_str()).collect();
    assert!(names.contains(&"PTX ISA"));
    assert!(names.contains(&"PTX ISA::Core Instructions"));
    assert!(names.contains(&"PTX ISA::Core Instructions::Recall"));
    assert!(names.contains(&"PTX ISA::Core Instructions::Qualifiers"));
    assert!(names.contains(&"PTX ISA::Core Instructions::Arch"));
}

#[test]
fn one_qualifier_note_per_qualifier() {
    let mut e = entry();
    e.qualifiers.push(Qualifier { name: "rnd".into(), values: vec![".rn".into()] });
    let d = build(&input(e), "9.3");
    let n = d.notes.iter().filter(|n| n.model == "PTX Qualifiers").count();
    assert_eq!(n, 2);
}

#[test]
fn entries_without_optional_data_skip_those_card_kinds() {
    let mut e = entry();
    e.syntax = None;
    e.qualifiers.clear();
    e.arch = ArchReq::Unknown;
    e.since_ptx = None;
    let d = build(&input(e), "9.3");
    assert_eq!(d.notes.len(), 1);
    assert_eq!(d.notes[0].model, "PTX Recall");
}

#[test]
fn no_template_depends_on_a_conditional_field() {
    // ankit-builder writes one card per template without evaluating
    // {{#Field}} sections, so a gated template would import as a blank
    // card. Every model must therefore be unconditional.
    for m in models() {
        for t in &m.templates {
            assert!(
                !t.front.contains("{{#") && !t.front.contains("{{^"),
                "template {}/{} is conditional and would produce blank cards",
                m.name,
                t.name
            );
        }
    }
}

#[test]
fn every_note_fills_every_field_of_its_model() {
    // A note missing a field its template renders would show an empty card.
    let by_name: BTreeMap<_, _> = models().into_iter().map(|m| (m.name.clone(), m)).collect();
    let mut e = entry();
    e.qualifiers.push(Qualifier { name: "rnd".into(), values: vec![".rn".into()] });
    for n in build(&input(e), "9.3").notes {
        let model = &by_name[&n.model];
        let f = fields(&n);
        for name in &model.fields {
            assert!(
                f.get(name).is_some_and(|v| !v.is_empty()),
                "note for model {} has empty field {name}",
                n.model
            );
        }
    }
}

#[test]
fn arch_and_version_are_independent_cards() {
    // An entry documented with an ISA version but no architecture floor
    // should yield the version card only.
    let mut e = entry();
    e.arch = ArchReq::Unknown;
    let d = build(&input(e), "9.3");
    let models: Vec<_> = d.notes.iter().map(|n| n.model.as_str()).collect();
    assert!(models.contains(&"PTX Version"));
    assert!(!models.contains(&"PTX Arch"));
}

#[test]
fn deck_ids_are_stable_and_positive() {
    let a = build(&input(entry()), "9.3");
    let b = build(&input(entry()), "9.3");
    assert_eq!(
        a.decks.iter().map(|d| d.id).collect::<Vec<_>>(),
        b.decks.iter().map(|d| d.id).collect::<Vec<_>>()
    );
    assert!(a.decks.iter().all(|d| d.id > 0));
}

#[test]
fn field_text_is_html_escaped() {
    let mut e = entry();
    e.syntax = Some("d = (a < b) && (c > 0);".into());
    let d = build(&input(e), "9.3");
    let note = d.notes.iter().find(|n| n.model == "PTX Syntax").unwrap();
    let s = &fields(note)["Syntax"];
    assert!(!s.contains('<') && !s.contains('>'));
    assert!(s.contains("&lt;") && s.contains("&gt;") && s.contains("&amp;&amp;"));
}

#[test]
fn production_card_names_the_entry_kind() {
    let mut sreg = entry();
    sreg.id = "special-registers-tid".into();
    sreg.section = "10.1".into();
    sreg.name = "%tid".into();
    let d = build(&input(sreg), "9.3");
    let recall = d.notes.iter().find(|n| n.model == "PTX Recall").unwrap();
    assert_eq!(fields(recall)["Kind"], "special register");
}

// --- further checks ------------------------------------------------------------

#[test]
fn guid_is_the_hex_prefix_of_a_sha256() {
    // SHA-256 of "ptx-cards/v1" "\x1f" "a" "\x1f" "recall", first 8 bytes.
    let g = guid(&["a", "recall"]);
    assert_eq!(g.len(), 16);
    assert!(g.chars().all(|c| c.is_ascii_hexdigit() && !c.is_ascii_uppercase()));
    assert_ne!(g, guid(&["a", "syntax"]));
    assert_ne!(g, guid(&["a", "recall", "x"]));
    assert_eq!(g, guid(&["a", "recall"]));
    // Computed independently from the framed bytes.
    let digest = Sha256::digest(b"ptx-cards/v1\x1fa\x1frecall");
    let expected: String = digest[..8].iter().map(|b| format!("{b:02x}")).collect();
    assert_eq!(g, expected);
}

#[test]
fn deck_ids_fall_in_range_and_depend_on_the_name() {
    let digest = Sha256::digest(b"ptx-cards/deck/v1PTX ISA");
    let n = i64::from_be_bytes(digest[..8].try_into().unwrap());
    assert_eq!(deck_id("PTX ISA"), (n.unsigned_abs() % 1_000_000_000_000) as i64 + 1_600_000_000_000);
    for name in ["PTX ISA", "PTX ISA::Concepts", "", "x"] {
        let id = deck_id(name);
        assert!((1_600_000_000_000..2_600_000_000_000).contains(&id), "{name}: {id}");
    }
    assert_ne!(deck_id("PTX ISA"), deck_id("PTX ISA::Concepts"));
}

#[test]
fn escaping_replaces_the_three_html_specials() {
    assert_eq!(esc("a & b < c > d"), "a &amp; b &lt; c &gt; d");
    assert_eq!(esc("&lt;"), "&amp;lt;");
    assert_eq!(esc(""), "");
    assert_eq!(esc("plain"), "plain");
}

#[test]
fn kind_words() {
    assert_eq!(kind_word("10.1"), "special register");
    assert_eq!(kind_word("11.2.3"), "directive");
    assert_eq!(kind_word("9.7.1.1"), "instruction");
    assert_eq!(kind_word("10"), "instruction");
}

#[test]
fn note_layout_of_a_full_entry() {
    let d = build(&input(entry()), "9.3");
    let kinds: Vec<_> = d.notes.iter().map(|n| n.model.as_str()).collect();
    assert_eq!(kinds, ["PTX Recall", "PTX Syntax", "PTX Qualifiers", "PTX Arch", "PTX Version"]);
    let q = &d.notes[2];
    assert_eq!(q.deck, "PTX ISA::Core Instructions::Qualifiers");
    assert_eq!(q.tags, ["ptx::core", "ptx::integer-arithmetic", "ptx::sm_20"]);
    let f = fields(q);
    assert_eq!(f["Values"], ".u32\n.s32");
    assert_eq!(f["Qualifier"], "type");
    // Field order is by name.
    let keys: Vec<_> = q.fields.iter().map(|(k, _)| k.as_str()).collect();
    assert_eq!(keys, ["Gloss", "Name", "Qualifier", "Section", "Values"]);
    assert_eq!(fields(&d.notes[3])["Sm"], "sm_20");
    assert_eq!(fields(&d.notes[4])["PtxVersion"], "2.0");
    // Version notes sit in the Arch subdeck.
    assert_eq!(d.notes[4].deck, "PTX ISA::Core Instructions::Arch");
}

#[test]
fn deck_tree_order_and_descriptions() {
    let d = build(&input(entry()), "9.3");
    let names: Vec<_> = d.decks.iter().map(|x| x.name.as_str()).collect();
    assert_eq!(
        names,
        [
            "PTX ISA",
            "PTX ISA::Core Instructions",
            "PTX ISA::Core Instructions::Recall",
            "PTX ISA::Core Instructions::Syntax",
            "PTX ISA::Core Instructions::Qualifiers",
            "PTX ISA::Core Instructions::Arch",
        ]
    );
    assert_eq!(
        d.decks[0].description,
        "NVIDIA PTX ISA 9.3, generated from the official documentation."
    );
    assert!(d.decks[1..].iter().all(|x| x.description.is_empty()));
    assert_eq!(d.package.name, "PTX ISA");
    assert_eq!(d.package.version, "9.3");
    assert_eq!(d.package.description, "NVIDIA PTX ISA 9.3 flashcards, generated from the official docs.");
    assert_eq!(d.models.len(), 5);
}

#[test]
fn all_architectures_tag_and_card() {
    let mut e = entry();
    e.arch = ArchReq::All;
    let d = build(&input(e), "9.3");
    let arch = d.notes.iter().find(|n| n.model == "PTX Arch").unwrap();
    assert_eq!(fields(arch)["Sm"], "all target architectures");
    assert!(arch.tags.contains(&"ptx::all-architectures".to_string()));
}

#[test]
fn two_inputs_share_the_root_deck_only_once() {
    let mut second = entry();
    second.id = "special-registers-tid".into();
    second.section = "10.1".into();
    let mut ins = input(entry());
    ins.push(Input { module: Module::Concepts, category: "ptx::special-registers".into(), entry: second });
    let d = build(&ins, "9.3");
    let names: BTreeSet<_> = d.decks.iter().map(|x| x.name.clone()).collect();
    assert_eq!(names.len(), d.decks.len());
    assert!(names.contains("PTX ISA::Concepts::Recall"));
    assert_eq!(d.notes.len(), 10);
}

fn unescape(t: &str) -> String {
    t.replace("&lt;", "<").replace("&gt;", ">").replace("&amp;", "&")
}

#[test]
fn escaping_round_trips_through_entity_decoding() {
    assert_eq!(esc("a<b&&c>d"), "a&lt;b&amp;&amp;c&gt;d");
    assert_eq!(esc("&lt;"), "&amp;lt;");
    for s in ["a<b&&c>d", "&lt;", "&amp;gt;", "plain", "", "<<>>&&"] {
        assert_eq!(unescape(&esc(s)), s);
    }
}

#[test]
fn guid_is_sixteen_lowercase_hex_digits() {
    for parts in [vec!["x", "recall"], vec!["integer-arithmetic-instructions-bfe", "qual", "type"], vec![]] {
        let g = guid(&parts);
        assert_eq!(g.len(), 16);
        assert!(g.chars().all(|c| c.is_ascii_digit() || ('a'..='f').contains(&c)), "{g}");
    }
}

#[test]
fn every_deck_comes_after_its_parent() {
    let mut inputs = input(entry());
    let mut concept = entry();
    concept.id = "special-registers-tid".into();
    concept.section = "10.1".into();
    inputs.push(Input { module: Module::Concepts, category: "ptx::special-registers".into(), entry: concept });
    let d = build(&inputs, "9.3");
    let names: Vec<&str> = d.decks.iter().map(|x| x.name.as_str()).collect();
    assert_eq!(names[0], "PTX ISA");
    for (j, n) in names.iter().enumerate().skip(1) {
        let parent = &n[..n.rfind("::").unwrap()];
        let i = names.iter().position(|m| *m == parent).expect("parent listed");
        assert!(i < j, "{parent} should come before {n}");
    }
}

#[test]
fn note_fields_are_sorted_by_name() {
    let d = build(&input(entry()), "9.3");
    for n in &d.notes {
        let keys: Vec<&str> = n.fields.iter().map(|(k, _)| k.as_str()).collect();
        let mut sorted = keys.clone();
        sorted.sort();
        sorted.dedup();
        assert_eq!(keys, sorted);
    }
}

#[test]
fn notes_of_an_entry_come_in_kind_order_with_its_tags() {
    let d = build(&input(entry()), "9.3");
    let models: Vec<&str> = d.notes.iter().map(|n| n.model.as_str()).collect();
    assert_eq!(models, ["PTX Recall", "PTX Syntax", "PTX Qualifiers", "PTX Arch", "PTX Version"]);
    for n in &d.notes {
        assert_eq!(n.tags, ["ptx::core", "ptx::integer-arithmetic", "ptx::sm_20"]);
    }
}

#[test]
fn every_deck_but_the_root_holds_notes_or_is_a_module_deck() {
    let d = build(&input(entry()), "9.3");
    for deck in d.decks.iter().skip(1) {
        assert!(deck.name == "PTX ISA::Core Instructions" || d.notes.iter().any(|n| n.deck == deck.name));
    }
}
