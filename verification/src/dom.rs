//! Reading the HTML document with `scraper`.
//!
//! The HTML parser, the tree and the CSS selector engine are `scraper`'s. Here
//! the tree is copied out, as plain values, into what the section rules in
//! [`crate::section`] read: each selected section's id and, for each of its
//! direct child elements, the tag name, classes, text and the text of the
//! first descendant matching each of three selectors.
use crate::parse::{opt_view, strings_view};
use crate::text::{chars_of, string_of};
use crate::section::{els_view, sections_view, ElementData, ElementSpec, SectionData, SectionSpec};
use scraper::{ElementRef, Html, Selector};
use vstd::prelude::*;

verus! {

/// Whether `Selector::parse` accepts a text as a CSS selector. The parse reads
/// the text alone, so the answer depends on nothing else.
pub uninterp spec fn selector_valid(css: Seq<char>) -> bool;

/// The sections of the document `html` as `scraper` reads them, for the
/// selectors `css`: the elements matching `css[0]`, in document order, each
/// with its `id` attribute and its direct element children; of each child its
/// tag name, classes, descendant text, and the descendant text of its first
/// descendant matching `css[1]`, `css[2]` and `css[3]`. HTML parsing and
/// selector matching read their arguments alone.
pub uninterp spec fn html_sections(html: Seq<char>, css: Seq<Seq<char>>) -> Seq<SectionSpec>;

/// One child element as `scraper` reads it: tag name, classes, descendant
/// text, and the descendant text of its first descendant matching each of the
/// three inner selectors.
pub type RawElement = (String, Vec<String>, String, [Option<String>; 3]);

/// One section as `scraper` reads it: its `id` attribute and its children.
pub type RawSection = (Option<String>, Vec<RawElement>);

pub open spec fn raw_element_view(e: RawElement) -> ElementSpec {
    ElementSpec {
        name: e.0@,
        classes: strings_view(e.1@),
        text: e.2@,
        section_number: opt_view(e.3@[0]),
        code: opt_view(e.3@[1]),
        pre: opt_view(e.3@[2]),
    }
}

pub open spec fn raw_section_view(s: RawSection) -> SectionSpec {
    SectionSpec { id: opt_view(s.0), children: s.1@.map_values(|e: RawElement| raw_element_view(e)) }
}

pub open spec fn raw_sections_view(v: Seq<RawSection>) -> Seq<SectionSpec> {
    v.map_values(|s: RawSection| raw_section_view(s))
}

pub open spec fn css_view(css: [&str; 4]) -> Seq<Seq<char>> {
    css@.map_values(|c: &str| c@)
}

/// `Html::parse_document`, `Html::select`, `ElementRef::attr`,
/// `ElementRef::child_elements`, `Element::name`, `Element::classes`,
/// `ElementRef::select` and `ElementRef::text`, copied into plain values; the
/// four selectors are compiled with `Selector::parse`. The contract claims that
/// the result is `None` exactly when a selector does not compile, and otherwise
/// a function of the texts alone; what that function is, is not stated.
#[verifier::external_body]
fn read_sections(html: &str, css: [&str; 4]) -> (r: Option<Vec<RawSection>>)
    ensures
        r is Some <==> (forall|i: int| 0 <= i < 4 ==> selector_valid(#[trigger] css_view(css)[i])),
        r matches Some(v) ==> raw_sections_view(v@) == html_sections(html@, css_view(css)),
{
    let [Some(a), Some(n), Some(c), Some(p)] = css.map(|x| Selector::parse(x).ok()) else {
        return None;
    };
    Some(Html::parse_document(html).select(&a).map(|s| (
        s.attr("id").map(String::from),
        s.child_elements().map(|e| (
            e.value().name().to_string(),
            e.value().classes().map(String::from).collect(),
            e.text().collect(),
            [&n, &c, &p].map(|x| e.select(x).next().map(|d| d.text().collect())),
        )).collect(),
    )).collect())
}

fn copy_text(o: &Option<String>) -> (r: Option<String>)
    ensures
        opt_view(r) == opt_view(*o),
{
    match o {
        Some(t) => Some(string_of(&chars_of(t.as_str()))),
        None => None,
    }
}

fn element_data(e: RawElement) -> (r: ElementData)
    ensures
        r@ == raw_element_view(e),
{
    let (name, classes, text, firsts) = e;
    ElementData {
        name,
        classes,
        text,
        section_number: copy_text(&firsts[0]),
        code: copy_text(&firsts[1]),
        pre: copy_text(&firsts[2]),
    }
}

fn section_data(s: RawSection) -> (r: SectionData)
    ensures
        r@ == raw_section_view(s),
{
    let (id, raw) = s;
    let ghost rv = raw@;
    let mut children: Vec<ElementData> = Vec::new();
    for e in it: raw.into_iter()
        invariant
            it.seq() == rv,
            children@.len() == it.index(),
            forall|j: int| 0 <= j < it.index() ==> (#[trigger] children@[j])@ == raw_element_view(rv[j]),
    {
        children.push(element_data(e));
    }
    let r = SectionData { id, children };
    assert(els_view(r.children@) =~= rv.map_values(|e: RawElement| raw_element_view(e)));
    r
}

fn sections_data(raw: Vec<RawSection>) -> (r: Vec<SectionData>)
    ensures
        sections_view(r@) == raw_sections_view(raw@),
{
    let ghost rv = raw@;
    let mut out: Vec<SectionData> = Vec::new();
    for s in it: raw.into_iter()
        invariant
            it.seq() == rv,
            out@.len() == it.index(),
            forall|j: int| 0 <= j < it.index() ==> (#[trigger] out@[j])@ == raw_section_view(rv[j]),
    {
        out.push(section_data(s));
    }
    assert(sections_view(out@) =~= raw_sections_view(rv));
    out
}

/// The selector texts of a documented entry: `section[id]`, and inside its
/// children `span.section-number`, `code` and `pre`.
pub open spec fn entry_css() -> Seq<Seq<char>> {
    seq!["section[id]"@, "span.section-number"@, "code"@, "pre"@]
}

/// Whether all four selectors of an entry compile.
pub open spec fn selectors_compile() -> bool {
    forall|i: int| 0 <= i < 4 ==> selector_valid(#[trigger] entry_css()[i])
}

/// The `<section id=...>` elements of a page, in document order.
pub open spec fn page_sections(html: Seq<char>) -> Seq<SectionSpec> {
    html_sections(html, entry_css())
}

/// Every `<section id=...>` of a document, in document order, as the section
/// rules read it. Where one of the selectors does not compile there is nothing
/// to read and the result is empty.
pub fn document_sections(html: &str) -> (r: Vec<SectionData>)
    ensures
        selectors_compile() ==> sections_view(r@) == page_sections(html@),
        !selectors_compile() ==> r@.len() == 0,
{
    let css = ["section[id]", "span.section-number", "code", "pre"];
    assert(css_view(css) =~= entry_css());
    match read_sections(html, css) {
        Some(v) => sections_data(v),
        None => Vec::new(),
    }
}

} // verus!
