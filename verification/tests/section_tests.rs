use ptx::parse::{parse, ArchReq};
use ptx::section::{parse_section, ElementData, SectionData};

const PAGE: &str = r#"<!DOCTYPE html>
<html><head><title>PTX</title></head><body>
<section id="integer-arithmetic-instructions-bfe">
<h3><span class="section-number">9.7.1.20. </span>Integer Arithmetic Instructions: bfe</h3>
<p class="rubric"><code class="docutils literal notranslate"><span class="pre">bfe</span></code></p>
<p>Bit Field Extract.</p>
<p class="rubric">Syntax</p>
<div class="highlight-text notranslate"><div class="highlight"><pre><span></span>bfe.type  d, a, b, c;

.type = { .u32, .u64,
          .s32, .s64 };
</pre></div></div>
<p class="rubric">Description</p>
<p>Extract bit field from a and place the result in d.</p>
<p>Second
   paragraph.</p>
<p class="rubric">PTX ISA Notes</p>
<p>Introduced in PTX ISA version 2.0.</p>
<p class="rubric">Target ISA Notes</p>
<p>bfe requires sm_20 or higher.</p>
<p class="rubric">Examples</p>
<div class="highlight"><pre>bfe.b32 d,a,start,len;</pre></div>
</section>
<section id="memory-consistency-model">
<h2><span class="section-number">8.2. </span>Memory model</h2>
<p>Prose without a name rubric.</p>
</section>
</body></html>"#;

#[test]
fn parses_an_entry_from_html() {
    let entries = parse(PAGE);
    assert_eq!(entries.len(), 1);
    let e = &entries[0];
    assert_eq!(e.id, "integer-arithmetic-instructions-bfe");
    assert_eq!(e.section, "9.7.1.20");
    assert_eq!(e.name, "bfe");
    assert_eq!(e.gloss, "Bit Field Extract.");
    assert_eq!(
        e.syntax.as_deref(),
        Some("bfe.type  d, a, b, c;\n\n.type = { .u32, .u64,\n          .s32, .s64 };")
    );
    assert_eq!(e.qualifiers.len(), 1);
    assert_eq!(e.qualifiers[0].name, "type");
    assert_eq!(e.qualifiers[0].values, [".u32", ".u64", ".s32", ".s64"]);
    assert_eq!(
        e.description,
        ["Extract bit field from a and place the result in d.", "Second paragraph."]
    );
    assert_eq!(e.semantics, None);
    assert_eq!(e.since_ptx.as_deref(), Some("2.0"));
    assert_eq!(e.arch, ArchReq::Min("sm_20".into()));
    assert_eq!(e.examples.as_deref(), Some("bfe.b32 d,a,start,len;"));
}

fn el(name: &str, classes: &[&str], text: &str) -> ElementData {
    ElementData {
        name: name.into(),
        classes: classes.iter().map(|c| c.to_string()).collect(),
        text: text.into(),
        section_number: None,
        code: None,
        pre: None,
    }
}

fn heading(number: &str) -> ElementData {
    let mut h = el("h2", &[], number);
    h.section_number = Some(number.into());
    h
}

fn name_rubric(name: &str) -> ElementData {
    let mut r = el("p", &["rubric"], name);
    r.code = Some(name.into());
    r
}

fn code(text: &str) -> ElementData {
    let mut d = el("div", &["highlight"], text);
    d.pre = Some(text.into());
    d
}

fn rubric(label: &str) -> ElementData {
    el("p", &["rubric"], label)
}

fn section(children: Vec<ElementData>) -> SectionData {
    SectionData { id: Some("some-id".into()), children }
}

#[test]
fn a_section_needs_id_number_name_and_gloss() {
    let full = || vec![heading("10.1."), name_rubric("%tid"), el("p", &[], "Thread id.")];
    assert!(parse_section(&section(full())).is_some());
    let mut no_id = section(full());
    no_id.id = None;
    assert!(parse_section(&no_id).is_none());
    let mut no_gloss = full();
    no_gloss.pop();
    assert!(parse_section(&section(no_gloss)).is_none());
    let mut rubric_gloss = full();
    rubric_gloss[2] = rubric("Thread id.");
    assert!(parse_section(&section(rubric_gloss)).is_none());
    let no_heading = vec![name_rubric("%tid"), el("p", &[], "Thread id.")];
    assert!(parse_section(&section(no_heading)).is_none());
    // A rubric whose text is longer than its code is not a name rubric.
    let mut long = name_rubric("%tid");
    long.text = "%tid register".into();
    assert!(parse_section(&section(vec![heading("10.1"), long, el("p", &[], "g")])).is_none());
}

#[test]
fn buckets_follow_their_labels() {
    let e = parse_section(&section(vec![
        heading("9.7.3.1."),
        name_rubric("add"),
        el("p", &[], "  Add   two values. "),
        el("p", &[], "stray paragraph before any label"),
        rubric("Syntax (alternative)"),
        code("alt.form;"),
        rubric("Syntax"),
        code("\n\nadd.type d, a, b;\n\n"),
        rubric("Description"),
        el("p", &[], "First."),
        el("div", &[], "not a paragraph"),
        el("p", &[], "   "),
        rubric("Example"),
        code("fallback example"),
        rubric("Examples"),
        el("p", &[], "no code here"),
        rubric("Description"),
        el("p", &[], "Second, under a repeated label."),
        rubric("Target ISA Notes"),
        el("div", &[], "sm_10 in a div is ignored"),
        el("p", &[], "Requires sm_80."),
    ]))
    .unwrap();
    assert_eq!(e.section, "9.7.3.1");
    assert_eq!(e.gloss, "Add two values.");
    // "Syntax" sorts before "Syntax (alternative)".
    assert_eq!(e.syntax.as_deref(), Some("add.type d, a, b;"));
    assert_eq!(e.description, ["First.", "Second, under a repeated label."]);
    // "Examples" is present, so "Example" is not consulted.
    assert_eq!(e.examples, None);
    assert_eq!(e.since_ptx, None);
    assert_eq!(e.arch, ArchReq::Min("sm_80".into()));
}

#[test]
fn example_label_is_the_fallback() {
    let e = parse_section(&section(vec![
        heading("11.1"),
        name_rubric(".maxntid"),
        el("p", &[], "Maximum threads."),
        rubric("Example"),
        code(".maxntid 256"),
        rubric("PTX ISA Notes"),
        el("p", &[], "Introduced in"),
        el("p", &[], "PTX ISA version 1.3."),
    ]))
    .unwrap();
    assert_eq!(e.examples.as_deref(), Some(".maxntid 256"));
    assert_eq!(e.syntax, None);
    assert!(e.qualifiers.is_empty());
    // The notes' paragraphs are joined by spaces before the version is read.
    assert_eq!(e.since_ptx.as_deref(), Some("1.3"));
    assert_eq!(e.arch, ArchReq::Unknown);
}

#[test]
fn code_block_keeps_indentation_between_the_trims() {
    let page = "<section id=\"x\"><h3><span class=\"section-number\">9.7.1.1. </span>x</h3>\
        <p class=\"rubric\"><code>op</code></p><p>Gloss.</p>\
        <p class=\"rubric\">Syntax</p><div><pre>  </pre></div>\
        <div><pre>\n\n  op.a  d;\n\tnext line   \n\n</pre></div></section>";
    let entries = parse(page);
    assert_eq!(entries.len(), 1);
    assert_eq!(entries[0].syntax.as_deref(), Some("  op.a  d;\n\tnext line"));
}
