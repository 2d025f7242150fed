//! Entries from document sections.
//!
//! A section yields an entry when it has an id, a heading with a section
//! number, a name rubric (a `p.rubric` whose whole text is one `code`) and,
//! right after it, a gloss paragraph. The elements after the gloss are grouped
//! under the rubric labels that precede them.
use crate::parse::{
    opt_view, parse_arch, parse_qualifiers, quals_view, spec_extract_after, spec_is_syntax_label,
    spec_parse_arch, spec_parse_qualifiers, strings_view, ArchReq, ArchSpec, Entry, EntrySpec,
    QualSpec,
};
use crate::text::{
    chars_eq, chars_of, is_ws, join, lemma_trim_end, lemma_trim_end_char, lemma_trim_start_char,
    less_than, trim_start_char, lex_lt, normalize_ws, normalize_ws_vec, string_of, trim,
    trim_char, trim_char_vec, trim_end, trim_end_char, trim_end_char_vec, trim_end_vec, trim_vec,
};
use vstd::prelude::*;

verus! {

/// What the section rules read of one child element of a section.
pub struct ElementData {
    /// Tag name, e.g. `p`, `h2`, `div`.
    pub name: String,
    /// Class names.
    pub classes: Vec<String>,
    /// The element's descendant text, concatenated.
    pub text: String,
    /// Text of the first `span.section-number` descendant.
    pub section_number: Option<String>,
    /// Text of the first `code` descendant.
    pub code: Option<String>,
    /// Text of the first `pre` descendant.
    pub pre: Option<String>,
}

/// One `<section>`: its `id` attribute and its direct child elements.
pub struct SectionData {
    pub id: Option<String>,
    pub children: Vec<ElementData>,
}

/// [`ElementData`] with its text as characters.
pub struct ElementSpec {
    pub name: Seq<char>,
    pub classes: Seq<Seq<char>>,
    pub text: Seq<char>,
    pub section_number: Option<Seq<char>>,
    pub code: Option<Seq<char>>,
    pub pre: Option<Seq<char>>,
}

/// [`SectionData`] with its text as characters.
pub struct SectionSpec {
    pub id: Option<Seq<char>>,
    pub children: Seq<ElementSpec>,
}

impl View for ElementData {
    type V = ElementSpec;

    open spec fn view(&self) -> ElementSpec {
        ElementSpec {
            name: self.name@,
            classes: strings_view(self.classes@),
            text: self.text@,
            section_number: opt_view(self.section_number),
            code: opt_view(self.code),
            pre: opt_view(self.pre),
        }
    }
}

pub open spec fn els_view(v: Seq<ElementData>) -> Seq<ElementSpec> {
    v.map_values(|e: ElementData| e@)
}

impl View for SectionData {
    type V = SectionSpec;

    open spec fn view(&self) -> SectionSpec {
        SectionSpec { id: opt_view(self.id), children: els_view(self.children@) }
    }
}

pub open spec fn sections_view(v: Seq<SectionData>) -> Seq<SectionSpec> {
    v.map_values(|d: SectionData| d@)
}

// --- element predicates -------------------------------------------------------

/// An element's text as the page shows it: whitespace runs collapsed to one
/// space, no leading or trailing whitespace.
pub open spec fn text_of(raw: Seq<char>) -> Seq<char> {
    normalize_ws(raw)
}

/// Trimmed displayed text, as used for names, glosses and labels.
pub open spec fn label_text(raw: Seq<char>) -> Seq<char> {
    trim(text_of(raw))
}

pub open spec fn has_class(classes: Seq<Seq<char>>, c: Seq<char>) -> bool {
    exists|k: int| 0 <= k < classes.len() && classes[k] == c
}

pub open spec fn is_rubric(e: ElementSpec) -> bool {
    e.name == "p"@ && has_class(e.classes, "rubric"@)
}

pub open spec fn is_heading(e: ElementSpec) -> bool {
    e.name == "h1"@ || e.name == "h2"@ || e.name == "h3"@ || e.name == "h4"@ || e.name == "h5"@
}

/// A rubric whose whole text is its first `code`, and not empty.
pub open spec fn is_name_rubric(e: ElementSpec) -> bool {
    is_rubric(e) && match e.code {
        Some(c) => label_text(c) == label_text(e.text) && label_text(c).len() > 0,
        None => false,
    }
}

pub open spec fn first_heading(cs: Seq<ElementSpec>, k: int) -> Option<int>
    decreases cs.len() - k,
{
    if k < 0 || k >= cs.len() {
        None
    } else if is_heading(cs[k]) {
        Some(k)
    } else {
        first_heading(cs, k + 1)
    }
}

pub open spec fn first_name_rubric(cs: Seq<ElementSpec>, k: int) -> Option<int>
    decreases cs.len() - k,
{
    if k < 0 || k >= cs.len() {
        None
    } else if is_name_rubric(cs[k]) {
        Some(k)
    } else {
        first_name_rubric(cs, k + 1)
    }
}

/// The section number from the first heading: its `span.section-number`,
/// trimmed, without trailing dots.
pub open spec fn spec_section_number(cs: Seq<ElementSpec>) -> Option<Seq<char>> {
    match first_heading(cs, 0) {
        None => None,
        Some(h) => match cs[h].section_number {
            None => None,
            Some(raw) => Some(trim_end_char(label_text(raw), '.')),
        },
    }
}

// --- labelled buckets ---------------------------------------------------------

/// Label of the last rubric in `els`.
pub open spec fn current_label(els: Seq<ElementSpec>) -> Option<Seq<char>>
    decreases els.len(),
{
    if els.len() == 0 {
        None
    } else if is_rubric(els.last()) {
        Some(label_text(els.last().text))
    } else {
        current_label(els.drop_last())
    }
}

/// The non-rubric elements whose nearest preceding rubric is labelled `label`.
pub open spec fn nodes_under(els: Seq<ElementSpec>, label: Seq<char>) -> Seq<ElementSpec>
    decreases els.len(),
{
    if els.len() == 0 {
        Seq::empty()
    } else {
        let r = nodes_under(els.drop_last(), label);
        if !is_rubric(els.last()) && current_label(els.drop_last()) == Some(label) {
            r.push(els.last())
        } else {
            r
        }
    }
}

pub open spec fn has_label(els: Seq<ElementSpec>, label: Seq<char>) -> bool {
    exists|k: int| 0 <= k < els.len() && is_rubric(els[k]) && label_text(els[k].text) == label
}

/// The least syntax label among the rubrics of `els`, in `String` order.
pub open spec fn min_syntax_label(els: Seq<ElementSpec>) -> Option<Seq<char>>
    decreases els.len(),
{
    if els.len() == 0 {
        None
    } else {
        let b = min_syntax_label(els.drop_last());
        let e = els.last();
        let l = label_text(e.text);
        if is_rubric(e) && spec_is_syntax_label(l) && match b {
            Some(bl) => lex_lt(l, bl),
            None => true,
        } {
            Some(l)
        } else {
            b
        }
    }
}

/// The code block of an element: its first `pre`, without surrounding line
/// breaks and trailing whitespace, if that leaves anything.
pub open spec fn code_of(e: ElementSpec) -> Option<Seq<char>> {
    match e.pre {
        Some(raw) => {
            let t = trim_end(trim_char(raw, '\n'));
            if t.len() > 0 {
                Some(t)
            } else {
                None
            }
        },
        None => None,
    }
}

/// The first code block among `nodes`.
pub open spec fn first_code_block(nodes: Seq<ElementSpec>) -> Option<Seq<char>>
    decreases nodes.len(),
{
    if nodes.len() == 0 {
        None
    } else {
        match code_of(nodes[0]) {
            Some(t) => Some(t),
            None => first_code_block(nodes.drop_first()),
        }
    }
}

/// The non-empty paragraph texts among `nodes`.
pub open spec fn descriptions(nodes: Seq<ElementSpec>) -> Seq<Seq<char>>
    decreases nodes.len(),
{
    if nodes.len() == 0 {
        Seq::empty()
    } else {
        let r = descriptions(nodes.drop_last());
        let e = nodes.last();
        if e.name == "p"@ && label_text(e.text).len() > 0 {
            r.push(label_text(e.text))
        } else {
            r
        }
    }
}

/// The displayed texts of `nodes`, joined by spaces.
pub open spec fn joined(nodes: Seq<ElementSpec>) -> Seq<char> {
    join(nodes.map_values(|e: ElementSpec| text_of(e.text)), " "@)
}

/// The first paragraph among `nodes`.
pub open spec fn first_para(nodes: Seq<ElementSpec>) -> Option<ElementSpec>
    decreases nodes.len(),
{
    if nodes.len() == 0 {
        None
    } else if nodes[0].name == "p"@ {
        Some(nodes[0])
    } else {
        first_para(nodes.drop_first())
    }
}

pub open spec fn spec_arch_of(nodes: Seq<ElementSpec>) -> ArchSpec {
    match first_para(nodes) {
        Some(p) => spec_parse_arch(text_of(p.text)),
        None => ArchSpec::Unknown,
    }
}

/// The entry a section documents, if it documents one.
pub open spec fn spec_parse_section(d: SectionSpec) -> Option<EntrySpec> {
    let cs = d.children;
    match (d.id, spec_section_number(cs), first_name_rubric(cs, 0)) {
        (Some(id), Some(number), Some(ni)) => if ni + 1 < cs.len() && cs[ni + 1].name == "p"@
            && !has_class(cs[ni + 1].classes, "rubric"@) {
            let body = cs.skip(ni + 2);
            let syntax = match min_syntax_label(body) {
                Some(l) => first_code_block(nodes_under(body, l)),
                None => None,
            };
            Some(
                EntrySpec {
                    id,
                    section: number,
                    name: label_text(cs[ni].code->0),
                    gloss: label_text(cs[ni + 1].text),
                    syntax,
                    qualifiers: match syntax {
                        Some(s) => spec_parse_qualifiers(s),
                        None => Seq::empty(),
                    },
                    description: descriptions(nodes_under(body, "Description"@)),
                    semantics: first_code_block(nodes_under(body, "Semantics"@)),
                    since_ptx: if has_label(body, "PTX ISA Notes"@) {
                        spec_extract_after(
                            joined(nodes_under(body, "PTX ISA Notes"@)),
                            "Introduced in PTX ISA version"@,
                        )
                    } else {
                        None
                    },
                    arch: spec_arch_of(nodes_under(body, "Target ISA Notes"@)),
                    examples: if has_label(body, "Examples"@) {
                        first_code_block(nodes_under(body, "Examples"@))
                    } else {
                        first_code_block(nodes_under(body, "Example"@))
                    },
                },
            )
        } else {
            None
        },
        _ => None,
    }
}

/// The entries of the sections that document one, in order.
pub open spec fn spec_parse_sections(ds: Seq<SectionSpec>) -> Seq<EntrySpec>
    decreases ds.len(),
{
    if ds.len() == 0 {
        Seq::empty()
    } else {
        let r = spec_parse_sections(ds.drop_last());
        match spec_parse_section(ds.last()) {
            Some(e) => r.push(e),
            None => r,
        }
    }
}

// --- executable rules ---------------------------------------------------------

fn label_of(raw: &String) -> (r: Vec<char>)
    ensures
        r@ == label_text(raw@),
{
    let v = chars_of(raw.as_str());
    let n = normalize_ws_vec(&v);
    trim_vec(&n)
}

fn text_vec(raw: &String) -> (r: Vec<char>)
    ensures
        r@ == text_of(raw@),
{
    let v = chars_of(raw.as_str());
    normalize_ws_vec(&v)
}

fn has_class_named(classes: &Vec<String>, c: &str) -> (r: bool)
    ensures
        r == has_class(strings_view(classes@), c@),
{
    let target = c.to_owned();
    let mut k: usize = 0;
    while k < classes.len()
        invariant
            k <= classes.len(),
            target@ == c@,
            forall|j: int| 0 <= j < k ==> classes@[j]@ != c@,
        decreases classes.len() - k,
    {
        if classes[k] == target {
            assert(strings_view(classes@)[k as int] == c@);
            return true;
        }
        k = k + 1;
    }
    assert forall|j: int|
        0 <= j < strings_view(classes@).len() implies strings_view(classes@)[j] != c@ by {
        assert(strings_view(classes@)[j] == classes@[j]@);
    }
    false
}

fn name_is(e: &ElementData, n: &str) -> (r: bool)
    ensures
        r == (e.name@ == n@),
{
    let v = chars_of(e.name.as_str());
    crate::text::eq_str(&v, n)
}

fn rubric(e: &ElementData) -> (r: bool)
    ensures
        r == is_rubric(e@),
{
    name_is(e, "p") && has_class_named(&e.classes, "rubric")
}

fn heading(e: &ElementData) -> (r: bool)
    ensures
        r == is_heading(e@),
{
    name_is(e, "h1") || name_is(e, "h2") || name_is(e, "h3") || name_is(e, "h4") || name_is(
        e,
        "h5",
    )
}

fn name_rubric(e: &ElementData) -> (r: Option<Vec<char>>)
    ensures
        is_name_rubric(e@) <==> r is Some,
        r matches Some(n) ==> (e@.code is Some && n@ == label_text(e@.code->0)),
{
    if !rubric(e) {
        return None;
    }
    match &e.code {
        Some(c) => {
            let cl = label_of(c);
            let el = label_of(&e.text);
            if cl.len() > 0 && chars_eq(&cl, &el) {
                Some(cl)
            } else {
                None
            }
        },
        None => None,
    }
}

fn section_number_of(cs: &Vec<ElementData>) -> (r: Option<String>)
    ensures
        opt_view(r) == spec_section_number(els_view(cs@)),
{
    let ghost els = els_view(cs@);
    let mut k: usize = 0;
    while k < cs.len()
        invariant
            k <= cs.len(),
            els == els_view(cs@),
            first_heading(els, 0) == first_heading(els, k as int),
        decreases cs.len() - k,
    {
        if heading(&cs[k]) {
            return match &cs[k].section_number {
                Some(raw) => {
                    let l = label_of(raw);
                    let t = trim_end_char_vec(&l, '.');
                    Some(string_of(&t))
                },
                None => None,
            };
        }
        k = k + 1;
    }
    None
}

fn find_name_rubric(cs: &Vec<ElementData>) -> (r: Option<(usize, Vec<char>)>)
    ensures
        match r {
            Some((i, n)) => {
                &&& first_name_rubric(els_view(cs@), 0) == Some(i as int)
                &&& i < cs.len()
                &&& cs@[i as int]@.code matches Some(c)
                &&& n@ == label_text(cs@[i as int]@.code->0)
            },
            None => first_name_rubric(els_view(cs@), 0) is None,
        },
{
    let ghost els = els_view(cs@);
    let mut k: usize = 0;
    while k < cs.len()
        invariant
            k <= cs.len(),
            els == els_view(cs@),
            first_name_rubric(els, 0) == first_name_rubric(els, k as int),
        decreases cs.len() - k,
    {
        match name_rubric(&cs[k]) {
            Some(n) => {
                return Some((k, n));
            },
            None => {},
        }
        k = k + 1;
    }
    None
}

pub open spec fn idx_view(cs: Seq<ElementData>, idx: Seq<usize>) -> Seq<ElementSpec> {
    idx.map_values(|k: usize| cs[k as int]@)
}

spec fn chars_opt(o: Option<Vec<char>>) -> Option<Seq<char>> {
    match o {
        Some(v) => Some(v@),
        None => None,
    }
}

/// Indices of the elements from `start` on that sit under a rubric labelled
/// `label`.
fn bucket(cs: &Vec<ElementData>, start: usize, label: &Vec<char>) -> (r: Vec<usize>)
    requires
        start <= cs.len(),
    ensures
        idx_view(cs@, r@) == nodes_under(els_view(cs@).skip(start as int), label@),
        forall|j: int| 0 <= j < r.len() ==> r@[j] < cs.len(),
{
    let ghost els = els_view(cs@);
    let mut r: Vec<usize> = Vec::new();
    let mut cur: Option<Vec<char>> = None;
    let mut i = start;
    while i < cs.len()
        invariant
            start <= i <= cs.len(),
            els == els_view(cs@),
            chars_opt(cur) == current_label(els.subrange(start as int, i as int)),
            idx_view(cs@, r@) == nodes_under(els.subrange(start as int, i as int), label@),
            forall|j: int| 0 <= j < r.len() ==> r@[j] < cs.len(),
        decreases cs.len() - i,
    {
        let ghost pre = els.subrange(start as int, i as int);
        let ghost post = els.subrange(start as int, i + 1);
        assert(post.drop_last() =~= pre);
        assert(post.last() == cs@[i as int]@);
        let e = &cs[i];
        if rubric(e) {
            cur = Some(label_of(&e.text));
        } else {
            let under = match &cur {
                Some(l) => chars_eq(l, label),
                None => false,
            };
            if under {
                let ghost before = r@;
                r.push(i);
                assert(idx_view(cs@, r@) =~= idx_view(cs@, before).push(cs@[i as int]@));
            }
        }
        i = i + 1;
    }
    assert(els.subrange(start as int, cs.len() as int) =~= els.skip(start as int));
    r
}

fn label_present(cs: &Vec<ElementData>, start: usize, label: &str) -> (r: bool)
    requires
        start <= cs.len(),
    ensures
        r == has_label(els_view(cs@).skip(start as int), label@),
{
    let ghost els = els_view(cs@).skip(start as int);
    let target = chars_of(label);
    let mut i = start;
    while i < cs.len()
        invariant
            start <= i <= cs.len(),
            els == els_view(cs@).skip(start as int),
            target@ == label@,
            forall|k: int|
                0 <= k < i - start ==> !(is_rubric(els[k]) && label_text(els[k].text) == label@),
        decreases cs.len() - i,
    {
        assert(els[i - start] == cs@[i as int]@);
        if rubric(&cs[i]) {
            let l = label_of(&cs[i].text);
            if chars_eq(&l, &target) {
                return true;
            }
        }
        i = i + 1;
    }
    false
}

fn min_syntax(cs: &Vec<ElementData>, start: usize) -> (r: Option<Vec<char>>)
    requires
        start <= cs.len(),
    ensures
        chars_opt(r) == min_syntax_label(els_view(cs@).skip(start as int)),
{
    let ghost els = els_view(cs@);
    let mut best: Option<Vec<char>> = None;
    let mut i = start;
    while i < cs.len()
        invariant
            start <= i <= cs.len(),
            els == els_view(cs@),
            chars_opt(best) == min_syntax_label(els.subrange(start as int, i as int)),
        decreases cs.len() - i,
    {
        let ghost pre = els.subrange(start as int, i as int);
        let ghost post = els.subrange(start as int, i + 1);
        assert(post.drop_last() =~= pre);
        assert(post.last() == cs@[i as int]@);
        let e = &cs[i];
        if rubric(e) {
            let l = label_of(&e.text);
            if crate::parse::is_syntax_label(&l) {
                let better = match &best {
                    Some(b) => less_than(&l, b),
                    None => true,
                };
                if better {
                    best = Some(l);
                }
            }
        }
        i = i + 1;
    }
    assert(els.subrange(start as int, cs.len() as int) =~= els.skip(start as int));
    best
}

fn code_block(cs: &Vec<ElementData>, idx: &Vec<usize>) -> (r: Option<String>)
    requires
        forall|j: int| 0 <= j < idx.len() ==> idx@[j] < cs.len(),
    ensures
        opt_view(r) == first_code_block(idx_view(cs@, idx@)),
{
    let ghost nodes = idx_view(cs@, idx@);
    let mut j: usize = 0;
    assert(nodes.skip(0) =~= nodes);
    while j < idx.len()
        invariant
            j <= idx.len(),
            nodes == idx_view(cs@, idx@),
            forall|t: int| 0 <= t < idx.len() ==> idx@[t] < cs.len(),
            first_code_block(nodes) == first_code_block(nodes.skip(j as int)),
        decreases idx.len() - j,
    {
        assert(nodes.skip(j as int)[0] == cs@[idx@[j as int] as int]@);
        assert(nodes.skip(j as int).drop_first() =~= nodes.skip(j + 1));
        match &cs[idx[j]].pre {
            Some(raw) => {
                let v = chars_of(raw.as_str());
                let a = trim_char_vec(&v, '\n');
                let t = trim_end_vec(&a);
                if t.len() > 0 {
                    return Some(string_of(&t));
                }
            },
            None => {},
        }
        j = j + 1;
    }
    None
}

fn descriptions_of(cs: &Vec<ElementData>, idx: &Vec<usize>) -> (r: Vec<String>)
    requires
        forall|j: int| 0 <= j < idx.len() ==> idx@[j] < cs.len(),
    ensures
        strings_view(r@) == descriptions(idx_view(cs@, idx@)),
{
    let ghost nodes = idx_view(cs@, idx@);
    let mut r: Vec<String> = Vec::new();
    let mut j: usize = 0;
    while j < idx.len()
        invariant
            j <= idx.len(),
            nodes == idx_view(cs@, idx@),
            forall|t: int| 0 <= t < idx.len() ==> idx@[t] < cs.len(),
            strings_view(r@) == descriptions(nodes.take(j as int)),
        decreases idx.len() - j,
    {
        assert(nodes.take(j + 1).drop_last() =~= nodes.take(j as int));
        assert(nodes.take(j + 1).last() == cs@[idx@[j as int] as int]@);
        let e = &cs[idx[j]];
        if name_is(e, "p") {
            let t = label_of(&e.text);
            if t.len() > 0 {
                let ghost before = r@;
                let s = string_of(&t);
                r.push(s);
                assert(strings_view(r@) =~= strings_view(before).push(s@));
            }
        }
        j = j + 1;
    }
    assert(nodes.take(idx.len() as int) =~= nodes);
    r
}

fn joined_text(cs: &Vec<ElementData>, idx: &Vec<usize>) -> (r: Vec<char>)
    requires
        forall|j: int| 0 <= j < idx.len() ==> idx@[j] < cs.len(),
    ensures
        r@ == joined(idx_view(cs@, idx@)),
{
    let ghost nodes = idx_view(cs@, idx@);
    let ghost texts = nodes.map_values(|e: ElementSpec| text_of(e.text));
    let mut r: Vec<char> = Vec::new();
    let mut j: usize = 0;
    proof {
        reveal_strlit(" ");
    }
    while j < idx.len()
        invariant
            j <= idx.len(),
            nodes == idx_view(cs@, idx@),
            texts == nodes.map_values(|e: ElementSpec| text_of(e.text)),
            forall|t: int| 0 <= t < idx.len() ==> idx@[t] < cs.len(),
            r@ == join(texts.take(j as int), " "@),
            " "@ == seq![' '],
        decreases idx.len() - j,
    {
        let t = text_vec(&cs[idx[j]].text);
        assert(texts[j as int] == t@);
        assert(texts.take(j + 1).drop_last() =~= texts.take(j as int));
        if j > 0 {
            r.push(' ');
        }
        let ghost before = r@;
        let mut k: usize = 0;
        while k < t.len()
            invariant
                k <= t.len(),
                r@ == before + t@.take(k as int),
            decreases t.len() - k,
        {
            r.push(t[k]);
            k = k + 1;
            assert(r@ =~= before + t@.take(k as int));
        }
        assert(t@.take(t.len() as int) =~= t@);
        j = j + 1;
        if j == 1 {
            assert(join(texts.take(1), " "@) == texts.take(1)[0]);
        }
        assert(r@ =~= join(texts.take(j as int), " "@));
    }
    assert(texts.take(idx.len() as int) =~= texts);
    r
}

fn arch_of(cs: &Vec<ElementData>, idx: &Vec<usize>) -> (r: ArchReq)
    requires
        forall|j: int| 0 <= j < idx.len() ==> idx@[j] < cs.len(),
    ensures
        r@ == spec_arch_of(idx_view(cs@, idx@)),
{
    let ghost nodes = idx_view(cs@, idx@);
    let mut j: usize = 0;
    assert(nodes.skip(0) =~= nodes);
    while j < idx.len()
        invariant
            j <= idx.len(),
            nodes == idx_view(cs@, idx@),
            forall|t: int| 0 <= t < idx.len() ==> idx@[t] < cs.len(),
            first_para(nodes) == first_para(nodes.skip(j as int)),
        decreases idx.len() - j,
    {
        assert(nodes.skip(j as int)[0] == cs@[idx@[j as int] as int]@);
        assert(nodes.skip(j as int).drop_first() =~= nodes.skip(j + 1));
        let e = &cs[idx[j]];
        if name_is(e, "p") {
            let t = text_vec(&e.text);
            return parse_arch(string_of(&t).as_str());
        }
        j = j + 1;
    }
    ArchReq::Unknown
}

/// The entry a section documents, if it documents one.
pub fn parse_section(d: &SectionData) -> (r: Option<Entry>)
    ensures
        match r {
            Some(e) => spec_parse_section(d@) == Some(e@),
            None => spec_parse_section(d@) is None,
        },
{
    let cs = &d.children;
    let ghost els = els_view(cs@);
    let id = match &d.id {
        Some(s) => s.clone(),
        None => {
            return None;
        },
    };
    let section = match section_number_of(cs) {
        Some(s) => s,
        None => {
            return None;
        },
    };
    let (ni, name) = match find_name_rubric(cs) {
        Some(found) => found,
        None => {
            return None;
        },
    };
    if !(ni + 1 < cs.len() && name_is(&cs[ni + 1], "p") && !has_class_named(
        &cs[ni + 1].classes,
        "rubric",
    )) {
        return None;
    }
    let gloss = string_of(&label_of(&cs[ni + 1].text));
    let start = ni + 2;
    let syntax = match min_syntax(cs, start) {
        Some(l) => {
            let nodes = bucket(cs, start, &l);
            code_block(cs, &nodes)
        },
        None => None,
    };
    let qualifiers = match &syntax {
        Some(s) => parse_qualifiers(s.as_str()),
        None => {
            let v: Vec<crate::parse::Qualifier> = Vec::new();
            assert(quals_view(v@) =~= Seq::<QualSpec>::empty());
            v
        },
    };
    let description = descriptions_of(cs, &bucket(cs, start, &chars_of("Description")));
    let semantics = code_block(cs, &bucket(cs, start, &chars_of("Semantics")));
    let since_ptx = if label_present(cs, start, "PTX ISA Notes") {
        let notes = joined_text(cs, &bucket(cs, start, &chars_of("PTX ISA Notes")));
        crate::parse::extract_after(string_of(&notes).as_str(), "Introduced in PTX ISA version")
    } else {
        None
    };
    let arch = arch_of(cs, &bucket(cs, start, &chars_of("Target ISA Notes")));
    let examples = if label_present(cs, start, "Examples") {
        code_block(cs, &bucket(cs, start, &chars_of("Examples")))
    } else {
        code_block(cs, &bucket(cs, start, &chars_of("Example")))
    };
    let e = Entry {
        id,
        section,
        name: string_of(&name),
        gloss,
        syntax,
        qualifiers,
        description,
        semantics,
        since_ptx,
        arch,
        examples,
    };
    Some(e)
}

/// The entries of the sections that document one, in order.
pub fn parse_sections(ds: &Vec<SectionData>) -> (r: Vec<Entry>)
    ensures
        crate::parse::entries_view(r@) == spec_parse_sections(sections_view(ds@)),
{
    let ghost v = sections_view(ds@);
    let mut r: Vec<Entry> = Vec::new();
    let mut i: usize = 0;
    while i < ds.len()
        invariant
            i <= ds.len(),
            v == sections_view(ds@),
            crate::parse::entries_view(r@) == spec_parse_sections(v.take(i as int)),
        decreases ds.len() - i,
    {
        assert(v.take(i + 1).drop_last() =~= v.take(i as int));
        assert(v.take(i + 1).last() == ds@[i as int]@);
        match parse_section(&ds[i]) {
            Some(e) => {
                let ghost before = r@;
                r.push(e);
                assert(crate::parse::entries_view(r@) =~= crate::parse::entries_view(before).push(
                    e@,
                ));
            },
            None => {},
        }
        i = i + 1;
    }
    assert(v.take(ds.len() as int) =~= v);
    r
}

// --- code blocks ---------------------------------------------------------------------

/// `t` is a stretch of `raw` kept verbatim: before it only line breaks, after
/// it only whitespace; it neither starts with a line break nor ends with
/// whitespace, and is not empty.
pub open spec fn verbatim_block(raw: Seq<char>, t: Seq<char>) -> bool {
    exists|a: int, b: int|
        #![trigger raw.subrange(a, b)]
        0 <= a <= b <= raw.len() && t == raw.subrange(a, b) && (forall|i: int|
            0 <= i < a ==> raw[i] == '\n') && (forall|i: int| b <= i < raw.len() ==> is_ws(raw[i]))
            && t.len() > 0 && t[0] != '\n' && !is_ws(t.last())
}

proof fn lemma_code_of_verbatim(e: ElementSpec)
    ensures
        code_of(e) matches Some(t) ==> e.pre matches Some(raw) && verbatim_block(raw, t),
{
    if let Some(raw) = e.pre {
        lemma_trim_start_char(raw, '\n');
        let x = trim_start_char(raw, '\n');
        let a = choose|a: int|
            #![trigger raw.skip(a)]
            0 <= a <= raw.len() && trim_start_char(raw, '\n') == raw.skip(a) && (forall|i: int|
                0 <= i < a ==> raw[i] == '\n') && (a < raw.len() ==> raw[a] != '\n');
        lemma_trim_end_char(x, '\n');
        let y = trim_end_char(x, '\n');
        let b1 = choose|b: int|
            #![trigger x.take(b)]
            0 <= b <= x.len() && trim_end_char(x, '\n') == x.take(b) && (forall|i: int|
                b <= i < x.len() ==> x[i] == '\n') && (b > 0 ==> x[b - 1] != '\n');
        lemma_trim_end(y);
        let t = trim_end(y);
        let b2 = choose|b: int|
            #![trigger y.take(b)]
            0 <= b <= y.len() && trim_end(y) == y.take(b) && (forall|i: int|
                b <= i < y.len() ==> is_ws(y[i])) && (b > 0 ==> !is_ws(y[b - 1]));
        if t.len() > 0 {
            assert(t =~= raw.subrange(a, a + b2));
            assert forall|i: int| a + b2 <= i < raw.len() implies is_ws(raw[i]) by {
                assert(raw[i] == x[i - a]);
                if i - a < b1 {
                    assert(x[i - a] == y[i - a]);
                }
            }
            assert(t[0] == raw[a]);
            assert(t.last() == y[b2 - 1]);
            assert(verbatim_block(raw, t));
        }
    }
}

/// The code block of a run of elements is that of the first element whose
/// first `pre`, trimmed of line breaks at both ends and of whitespace at the
/// end, is not empty; it is that `pre`'s text verbatim between those trims.
/// There is none exactly when no element has such a `pre`.
pub proof fn law_first_code_block(nodes: Seq<ElementSpec>)
    ensures
        first_code_block(nodes) is None <==> forall|j: int| 0 <= j < nodes.len() ==> (#[trigger] code_of(nodes[j])) is None,
        first_code_block(nodes) matches Some(t) ==> exists|j: int|
            0 <= j < nodes.len() && #[trigger] code_of(nodes[j]) == Some(t) && (nodes[j].pre matches Some(raw)
                && verbatim_block(raw, t)) && forall|i: int| 0 <= i < j ==> (#[trigger] code_of(nodes[i])) is None,
    decreases nodes.len(),
{
    if nodes.len() > 0 {
        let rest = nodes.drop_first();
        law_first_code_block(rest);
        lemma_code_of_verbatim(nodes[0]);
        if code_of(nodes[0]) is None {
            assert forall|j: int| 0 < j < nodes.len() implies code_of(nodes[j]) == code_of(rest[j - 1]) by {}
            if let Some(t) = first_code_block(nodes) {
                let j = choose|j: int|
                    0 <= j < rest.len() && #[trigger] code_of(rest[j]) == Some(t) && (rest[j].pre matches Some(raw)
                        && verbatim_block(raw, t)) && forall|i: int| 0 <= i < j ==> (#[trigger] code_of(rest[i])) is None;
                assert(nodes[j + 1] == rest[j]);
                assert forall|i: int| 0 <= i < j + 1 implies (#[trigger] code_of(nodes[i])) is None by {
                    if i > 0 {
                        assert(nodes[i] == rest[i - 1]);
                    }
                }
            } else {
                assert forall|j: int| 0 <= j < nodes.len() implies (#[trigger] code_of(nodes[j])) is None by {
                    if j > 0 {
                        assert(nodes[j] == rest[j - 1]);
                    }
                }
            }
        }
    }
}

// --- what an entry reads from its section --------------------------------------------

/// Element `k` of `els` is not a rubric and the nearest rubric before it is
/// labelled `label`.
pub open spec fn under(els: Seq<ElementSpec>, label: Seq<char>, k: int) -> bool {
    0 <= k < els.len() && !is_rubric(els[k]) && current_label(els.take(k)) == Some(label)
}

/// `r` is the code block of the first element under `label` that has one, or
/// `None` when no element under `label` has one.
pub open spec fn first_block_under(els: Seq<ElementSpec>, label: Seq<char>, r: Option<Seq<char>>) -> bool {
    match r {
        Some(t) => exists|k: int|
            #[trigger] under(els, label, k) && code_of(els[k]) == Some(t) && forall|k2: int|
                0 <= k2 < k && #[trigger] under(els, label, k2) ==> code_of(els[k2]) is None,
        None => forall|k: int| #[trigger] under(els, label, k) ==> code_of(els[k]) is None,
    }
}

proof fn lemma_first_code_block_push(r: Seq<ElementSpec>, x: ElementSpec)
    ensures
        first_code_block(r.push(x)) == match first_code_block(r) {
            Some(t) => Some(t),
            None => code_of(x),
        },
    decreases r.len(),
{
    if r.len() == 0 {
        assert(r.push(x).drop_first() =~= Seq::<ElementSpec>::empty());
        assert(r.push(x)[0] == x);
        assert(first_code_block(Seq::<ElementSpec>::empty()) is None);
    } else {
        assert(r.push(x).drop_first() =~= r.drop_first().push(x));
        assert(r.push(x)[0] == r[0]);
        lemma_first_code_block_push(r.drop_first(), x);
    }
}

proof fn lemma_first_code_under(els: Seq<ElementSpec>, label: Seq<char>)
    ensures
        first_block_under(els, label, first_code_block(nodes_under(els, label))),
    decreases els.len(),
{
    if els.len() == 0 {
        assert(first_code_block(nodes_under(els, label)) is None);
    } else {
        let p = els.drop_last();
        let x = els.last();
        let n = p.len() as int;
        lemma_first_code_under(p, label);
        assert forall|k: int| 0 <= k < n implies under(els, label, k) == under(p, label, k) by {
            assert(els.take(k) =~= p.take(k));
            assert(els[k] == p[k]);
        }
        assert(els.take(n) =~= p);
        assert(under(els, label, n) == (!is_rubric(x) && current_label(p) == Some(label)));
        let r = nodes_under(p, label);
        if under(els, label, n) {
            lemma_first_code_block_push(r, x);
        }
        match first_code_block(nodes_under(p, label)) {
            Some(t) => {
                let k = choose|k: int|
                    #[trigger] under(p, label, k) && code_of(p[k]) == Some(t) && forall|k2: int|
                        0 <= k2 < k && #[trigger] under(p, label, k2) ==> code_of(p[k2]) is None;
                assert(under(els, label, k) && els[k] == p[k]);
                assert forall|k2: int| 0 <= k2 < k && #[trigger] under(els, label, k2) implies code_of(
                    els[k2],
                ) is None by {
                    assert(under(p, label, k2) && els[k2] == p[k2]);
                }
            },
            None => {
                if under(els, label, n) && code_of(x) is Some {
                    assert(els[n] == x);
                    assert forall|k2: int| 0 <= k2 < n && #[trigger] under(els, label, k2) implies code_of(
                        els[k2],
                    ) is None by {
                        assert(under(p, label, k2) && els[k2] == p[k2]);
                    }
                } else {
                    assert forall|k: int| #[trigger] under(els, label, k) implies code_of(els[k]) is None by {
                        if k < n {
                            assert(under(p, label, k) && els[k] == p[k]);
                        } else {
                            assert(els[k] == x);
                        }
                    }
                }
            },
        }
    }
}

proof fn lemma_first_para_push(r: Seq<ElementSpec>, x: ElementSpec)
    ensures
        first_para(r.push(x)) == match first_para(r) {
            Some(p) => Some(p),
            None => if x.name == "p"@ {
                Some(x)
            } else {
                None
            },
        },
    decreases r.len(),
{
    if r.len() == 0 {
        assert(r.push(x).drop_first() =~= Seq::<ElementSpec>::empty());
        assert(r.push(x)[0] == x);
        assert(first_para(Seq::<ElementSpec>::empty()) is None);
    } else {
        assert(r.push(x).drop_first() =~= r.drop_first().push(x));
        assert(r.push(x)[0] == r[0]);
        lemma_first_para_push(r.drop_first(), x);
    }
}

/// `r` is the first paragraph under `label`, or `None` when there is none.
pub open spec fn first_para_under(els: Seq<ElementSpec>, label: Seq<char>, r: Option<ElementSpec>) -> bool {
    match r {
        Some(p) => exists|k: int|
            #[trigger] under(els, label, k) && els[k].name == "p"@ && els[k] == p && forall|k2: int|
                0 <= k2 < k && #[trigger] under(els, label, k2) ==> els[k2].name != "p"@,
        None => forall|k: int| #[trigger] under(els, label, k) ==> els[k].name != "p"@,
    }
}

proof fn lemma_first_para_under(els: Seq<ElementSpec>, label: Seq<char>)
    ensures
        first_para_under(els, label, first_para(nodes_under(els, label))),
    decreases els.len(),
{
    if els.len() == 0 {
        assert(first_para(nodes_under(els, label)) is None);
    } else {
        let p = els.drop_last();
        let x = els.last();
        let n = p.len() as int;
        lemma_first_para_under(p, label);
        assert forall|k: int| 0 <= k < n implies under(els, label, k) == under(p, label, k) by {
            assert(els.take(k) =~= p.take(k));
            assert(els[k] == p[k]);
        }
        assert(els.take(n) =~= p);
        assert(under(els, label, n) == (!is_rubric(x) && current_label(p) == Some(label)));
        if under(els, label, n) {
            lemma_first_para_push(nodes_under(p, label), x);
        }
        match first_para(nodes_under(p, label)) {
            Some(q) => {
                let k = choose|k: int|
                    #[trigger] under(p, label, k) && p[k].name == "p"@ && p[k] == q && forall|k2: int|
                        0 <= k2 < k && #[trigger] under(p, label, k2) ==> p[k2].name != "p"@;
                assert(under(els, label, k) && els[k] == p[k]);
                assert forall|k2: int| 0 <= k2 < k && #[trigger] under(els, label, k2) implies els[k2].name
                    != "p"@ by {
                    assert(under(p, label, k2) && els[k2] == p[k2]);
                }
            },
            None => {
                if under(els, label, n) && x.name == "p"@ {
                    assert(els[n] == x);
                    assert forall|k2: int| 0 <= k2 < n && #[trigger] under(els, label, k2) implies els[k2].name
                        != "p"@ by {
                        assert(under(p, label, k2) && els[k2] == p[k2]);
                    }
                } else {
                    assert forall|k: int| #[trigger] under(els, label, k) implies els[k].name != "p"@ by {
                        if k < n {
                            assert(under(p, label, k) && els[k] == p[k]);
                        } else {
                            assert(els[k] == x);
                        }
                    }
                }
            },
        }
    }
}

/// Element `k` is a paragraph with text under a rubric labelled `label`.
pub open spec fn para_under(els: Seq<ElementSpec>, label: Seq<char>, k: int) -> bool {
    under(els, label, k) && els[k].name == "p"@ && label_text(els[k].text).len() > 0
}

/// `idx` lists, in increasing order, exactly the paragraphs with text under
/// `label`, and `d` holds their displayed texts.
pub open spec fn paragraphs_at(els: Seq<ElementSpec>, label: Seq<char>, d: Seq<Seq<char>>, idx: Seq<int>) -> bool {
    &&& idx.len() == d.len()
    &&& forall|j: int| 0 <= j < idx.len() ==> para_under(els, label, #[trigger] idx[j]) && d[j]
        == label_text(els[idx[j]].text)
    &&& forall|a: int, b: int| 0 <= a < b < idx.len() ==> #[trigger] idx[a] < #[trigger] idx[b]
    &&& forall|k: int| #[trigger] para_under(els, label, k) ==> exists|j: int| 0 <= j < idx.len() && idx[j] == k
}

/// The positions of the paragraphs with text under `label`.
pub open spec fn para_positions(els: Seq<ElementSpec>, label: Seq<char>) -> Seq<int>
    decreases els.len(),
{
    if els.len() == 0 {
        Seq::empty()
    } else {
        let r = para_positions(els.drop_last(), label);
        if para_under(els, label, els.len() - 1) {
            r.push(els.len() - 1)
        } else {
            r
        }
    }
}

#[verifier::spinoff_prover]
#[verifier::rlimit(60)]
proof fn lemma_descriptions_under(els: Seq<ElementSpec>, label: Seq<char>)
    ensures
        paragraphs_at(els, label, descriptions(nodes_under(els, label)), para_positions(els, label)),
        forall|j: int| 0 <= j < para_positions(els, label).len() ==> #[trigger] para_positions(els, label)[j] < els.len(),
    decreases els.len(),
{
    if els.len() > 0 {
        let p = els.drop_last();
        let x = els.last();
        let n = p.len() as int;
        lemma_descriptions_under(p, label);
        assert forall|k: int| 0 <= k < n implies under(els, label, k) == under(p, label, k) && els[k] == p[k] by {
            assert(els.take(k) =~= p.take(k));
        }
        assert forall|k: int| 0 <= k < n implies para_under(els, label, k) == para_under(p, label, k) by {
            assert(els.take(k) =~= p.take(k));
        }
        assert(els.take(n) =~= p);
        assert(els[n] == x);
        let dp = descriptions(nodes_under(p, label));
        let ip = para_positions(p, label);
        let d = descriptions(nodes_under(els, label));
        let ie = para_positions(els, label);
        if under(els, label, n) {
            assert(nodes_under(els, label) == nodes_under(p, label).push(x));
            assert(nodes_under(p, label).push(x).drop_last() =~= nodes_under(p, label));
        } else {
            assert(nodes_under(els, label) == nodes_under(p, label));
        }
        if para_under(els, label, n) {
            assert(d == dp.push(label_text(x.text)));
            assert(ie == ip.push(n));
        } else {
            assert(d == dp);
            assert(ie == ip);
        }
        assert forall|j: int| 0 <= j < ie.len() implies para_under(els, label, #[trigger] ie[j]) && d[j]
            == label_text(els[ie[j]].text) by {
            if j < ip.len() {
                assert(ie[j] == ip[j]);
                assert(para_under(p, label, ip[j]));
            }
        }
        assert forall|a: int, b: int| 0 <= a < b < ie.len() implies #[trigger] ie[a] < #[trigger] ie[b] by {
            if b < ip.len() {
                assert(ie[a] == ip[a] && ie[b] == ip[b]);
            } else {
                assert(ie[a] == ip[a]);
            }
        }
        assert forall|k: int| #[trigger] para_under(els, label, k) implies exists|j: int|
            0 <= j < ie.len() && ie[j] == k by {
            if k < n {
                assert(para_under(p, label, k));
                let j = choose|j: int| 0 <= j < ip.len() && ip[j] == k;
                assert(ie[j] == ip[j]);
            } else {
                assert(ie[ie.len() - 1] == n);
            }
        }
        assert forall|j: int| 0 <= j < ie.len() implies #[trigger] ie[j] < els.len() by {
            if j < ip.len() {
                assert(ie[j] == ip[j]);
            }
        }
    }
}

/// The elements of a section after its gloss paragraph.
pub open spec fn entry_body(d: SectionSpec) -> Seq<ElementSpec> {
    d.children.skip(first_name_rubric(d.children, 0)->0 + 2)
}

/// The code blocks of an entry come from the elements after its gloss: its
/// semantics is the code block of the first element under a rubric labelled
/// `Semantics` that has one, and `None` only when no such element has one; its
/// examples likewise under `Examples` (or `Example` when there is no
/// `Examples` rubric); its syntax likewise under the least syntax label, and
/// `None` when there is no syntax rubric. Its description is the displayed
/// text of every paragraph with text under `Description`, in page order. Its
/// architecture is read from the first paragraph under `Target ISA Notes`, and
/// is unknown when there is none.
pub proof fn law_entry_fields_come_from_their_rubrics(d: SectionSpec)
    ensures
        spec_parse_section(d) matches Some(e) ==> {
            let body = entry_body(d);
            &&& first_block_under(body, "Semantics"@, e.semantics)
            &&& has_label(body, "Examples"@) ==> first_block_under(body, "Examples"@, e.examples)
            &&& !has_label(body, "Examples"@) ==> first_block_under(body, "Example"@, e.examples)
            &&& match min_syntax_label(body) {
                Some(l) => first_block_under(body, l, e.syntax),
                None => e.syntax is None,
            }
            &&& exists|idx: Seq<int>| #[trigger] paragraphs_at(body, "Description"@, e.description, idx)
            &&& exists|q: Option<ElementSpec>| #[trigger] first_para_under(body, "Target ISA Notes"@, q)
                && e.arch == match q {
                    Some(para) => spec_parse_arch(text_of(para.text)),
                    None => ArchSpec::Unknown,
                }
        },
{
    let body = entry_body(d);
    lemma_first_code_under(body, "Semantics"@);
    lemma_first_code_under(body, "Examples"@);
    lemma_first_code_under(body, "Example"@);
    if let Some(l) = min_syntax_label(body) {
        lemma_first_code_under(body, l);
    }
    lemma_first_para_under(body, "Target ISA Notes"@);
    lemma_descriptions_under(body, "Description"@);
    let idx = para_positions(body, "Description"@);
    assert(paragraphs_at(body, "Description"@, descriptions(nodes_under(body, "Description"@)), idx));
    if let Some(e) = spec_parse_section(d) {
        assert(e.description == descriptions(nodes_under(body, "Description"@)));
        assert(paragraphs_at(body, "Description"@, e.description, idx));
    }
    let q = first_para(nodes_under(body, "Target ISA Notes"@));
    assert(first_para_under(body, "Target ISA Notes"@, q));
}

} // verus!
