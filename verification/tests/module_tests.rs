use ptx::module::{classify, instruction_category, Module};

#[test]
fn instructions_split_core_from_specialised() {
    // bfe, integer arithmetic
    assert_eq!(classify("9.7.1.20").unwrap().0, Module::Core);
    // a tcgen05 instruction
    assert_eq!(classify("9.7.17.3").unwrap().0, Module::Instructions);
    // texture
    assert_eq!(classify("9.7.11.1").unwrap().0, Module::Instructions);
}

#[test]
fn category_tags_follow_section_number() {
    assert_eq!(classify("9.7.8.4").unwrap().1, "ptx::logic-shift");
    assert_eq!(classify("9.7.19.2").unwrap().1, "ptx::video");
}

#[test]
fn special_registers_and_directives_are_concepts() {
    assert_eq!(classify("10.1").unwrap(), (Module::Concepts, "ptx::special-registers".into()));
    assert_eq!(classify("11.4.2").unwrap(), (Module::Concepts, "ptx::directives".into()));
}

#[test]
fn category_headers_and_prose_chapters_are_skipped() {
    // 9.7.1 is the category heading itself, not an instruction.
    assert_eq!(classify("9.7.1"), None);
    // Chapter 8 is the memory consistency model: prose, no card entries.
    assert_eq!(classify("8.2"), None);
    assert_eq!(classify("intro"), None);
}

#[test]
fn section_pieces_follow_u32_parsing() {
    // A leading plus sign is accepted by u32 parsing, a minus sign is not.
    assert_eq!(classify("+9.7.+2.1").unwrap().1, "ptx::extended-precision");
    assert_eq!(classify("-9.7.2.1"), None);
    // Empty pieces and overflowing numbers fail the whole section number.
    assert_eq!(classify("9..7.2.1"), None);
    assert_eq!(classify("9.7.4294967296.1"), None);
    assert_eq!(classify(""), None);
    // A category beyond the known twenty is tagged "other".
    assert_eq!(classify("9.7.4294967295.1").unwrap(), (Module::Instructions, "ptx::other".into()));
}

#[test]
fn chapter_ten_needs_exactly_two_pieces() {
    assert_eq!(classify("10"), None);
    assert_eq!(classify("10.1.2"), None);
    assert_eq!(classify("11"), None);
    assert_eq!(classify("11.1").unwrap().0, Module::Concepts);
}

#[test]
fn core_categories() {
    for n in [1, 2, 3, 6, 8, 9, 13, 14, 18, 20] {
        assert_eq!(classify(&format!("9.7.{n}.1")).unwrap().0, Module::Core, "category {n}");
    }
    for n in [4, 5, 7, 10, 11, 12, 15, 16, 17, 19, 21] {
        assert_eq!(classify(&format!("9.7.{n}.1")).unwrap().0, Module::Instructions, "category {n}");
    }
    assert_eq!(instruction_category(14), "synchronization");
    assert_eq!(instruction_category(0), "other");
}

#[test]
fn slugs_round_trip() {
    for m in [Module::Core, Module::Instructions, Module::Concepts] {
        assert_eq!(Module::parse_slug(m.slug()), Some(m));
    }
    assert_eq!(Module::parse_slug("Core"), None);
    assert_eq!(Module::parse_slug(""), None);
    assert_eq!(Module::Core.deck_name(), "Core Instructions");
    assert_eq!(Module::Concepts.tag(), "ptx::concepts");
}
