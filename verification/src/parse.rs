//! Parser for the PTX ISA HTML document.
//!
//! The document is Sphinx-generated and highly regular. Every documented entry
//! (instruction, special register, directive) lives in its own `<section id=...>`
//! and opens with a "name rubric" -- a `<p class="rubric">` containing only the
//! entry name in a `<code>` -- immediately followed by a one-line gloss `<p>`.
//! The rest of the entry is a flat run of siblings delimited by further
//! `<p class="rubric">` labels: Syntax, Description, Semantics, Notes,
//! PTX ISA Notes, Target ISA Notes, Examples.
//!
//! This module holds the text-level rules: qualifier lists, version notes and
//! architecture notes. [`crate::section`] applies them to the sections of a
//! document.
use crate::module::parse_u32;
use crate::text::{
    ascii_lower, ascii_lower_vec, chars_of, contains, find, find_at, find_char_from,
    find_char_vec, find_from, has_prefix, in_class, is_ws, lemma_find_char_from,
    lemma_normalize_ws_single_spaced, single_spaced,
    lemma_find_from_is_first, lemma_run_end, normalize_ws, normalize_ws_vec, run_end,
    run_end_vec, slice, starts_with, string_of, trim_end_char, trim_end_char_vec,
    trim_start, trim_start_vec, CharClass,
};
use vstd::prelude::*;

verus! {

/// What the Target ISA Notes say about architecture support.
///
/// Only the *first* paragraph is authoritative for the base requirement. Later
/// paragraphs restrict individual variants -- `add` is "supported on all target
/// architectures" even though a later line says `add.u16x2` needs `sm_90` -- so
/// scanning the whole section would manufacture false requirements.
#[derive(Debug, Clone, PartialEq, Eq)]
pub enum ArchReq {
    /// "Supported on all target architectures."
    All,
    /// "Requires sm_NN or higher."
    Min(String),
    /// Anything else, e.g. "Supported on following architectures:" plus a list.
    /// Left unknown rather than guessed; these produce no architecture card.
    Unknown,
}

/// [`ArchReq`] with its text as characters.
pub enum ArchSpec {
    All,
    Min(Seq<char>),
    Unknown,
}

impl View for ArchReq {
    type V = ArchSpec;

    open spec fn view(&self) -> ArchSpec {
        match self {
            ArchReq::All => ArchSpec::All,
            ArchReq::Min(s) => ArchSpec::Min(s@),
            ArchReq::Unknown => ArchSpec::Unknown,
        }
    }
}

/// One `.name = { .a, .b }` qualifier list from a syntax block.
#[derive(Debug, Clone)]
pub struct Qualifier {
    /// Qualifier name without the leading dot, e.g. `type`, `sem`, `scope`.
    pub name: String,
    /// Permitted values, written as they appear, e.g. `.u32`.
    pub values: Vec<String>,
}

/// A qualifier list as text: its name and its values.
pub type QualSpec = (Seq<char>, Seq<Seq<char>>);

pub open spec fn strings_view(v: Seq<String>) -> Seq<Seq<char>> {
    v.map_values(|s: String| s@)
}

impl View for Qualifier {
    type V = QualSpec;

    open spec fn view(&self) -> QualSpec {
        (self.name@, strings_view(self.values@))
    }
}

pub open spec fn quals_view(v: Seq<Qualifier>) -> Seq<QualSpec> {
    v.map_values(|q: Qualifier| q@)
}

/// One documented entry: an instruction, special register, or directive.
#[derive(Debug, Clone)]
pub struct Entry {
    /// The HTML section id, e.g. `integer-arithmetic-instructions-bfe`.
    /// Stable across doc revisions, so it anchors note GUIDs.
    pub id: String,
    /// Dotted section number, e.g. `9.7.1.20`.
    pub section: String,
    /// Entry name as written in the doc, e.g. `bfe`, `%tid`, `.maxntid`.
    pub name: String,
    /// The one-line gloss NVIDIA gives right under the name, e.g. "Bit Field Extract."
    pub gloss: String,
    /// Contents of the Syntax code block, verbatim.
    pub syntax: Option<String>,
    /// Qualifier lists declared in the syntax block, in document order:
    /// `.type = { .u32, .s32 }` becomes `("type", [".u32", ".s32"])`. Covers
    /// `.type` but also `.sem`, `.scope`, `.ss`, `.rnd`, `.shape`, and friends.
    pub qualifiers: Vec<Qualifier>,
    /// Description prose, as plain text paragraphs.
    pub description: Vec<String>,
    /// Contents of the Semantics code block, verbatim.
    pub semantics: Option<String>,
    /// PTX ISA version the entry was introduced in, e.g. `2.0`.
    pub since_ptx: Option<String>,
    /// Target architecture requirement, from the Target ISA Notes.
    pub arch: ArchReq,
    /// Contents of the Examples code block, verbatim.
    pub examples: Option<String>,
}

/// [`Entry`] with its text as characters.
pub struct EntrySpec {
    pub id: Seq<char>,
    pub section: Seq<char>,
    pub name: Seq<char>,
    pub gloss: Seq<char>,
    pub syntax: Option<Seq<char>>,
    pub qualifiers: Seq<QualSpec>,
    pub description: Seq<Seq<char>>,
    pub semantics: Option<Seq<char>>,
    pub since_ptx: Option<Seq<char>>,
    pub arch: ArchSpec,
    pub examples: Option<Seq<char>>,
}

impl View for Entry {
    type V = EntrySpec;

    open spec fn view(&self) -> EntrySpec {
        EntrySpec {
            id: self.id@,
            section: self.section@,
            name: self.name@,
            gloss: self.gloss@,
            syntax: opt_view(self.syntax),
            qualifiers: quals_view(self.qualifiers@),
            description: strings_view(self.description@),
            semantics: opt_view(self.semantics),
            since_ptx: opt_view(self.since_ptx),
            arch: self.arch@,
            examples: opt_view(self.examples),
        }
    }
}

pub open spec fn entries_view(v: Seq<Entry>) -> Seq<EntrySpec> {
    v.map_values(|e: Entry| e@)
}

/// Every documented entry of the document, in document order: one per
/// `<section id=...>` of the page that documents an entry, nested sections
/// included.
pub fn parse(html: &str) -> (r: Vec<Entry>)
    ensures
        crate::dom::selectors_compile() ==> entries_view(r@)
            == crate::section::spec_parse_sections(crate::dom::page_sections(html@)),
        !crate::dom::selectors_compile() ==> r@.len() == 0,
{
    let sections = crate::dom::document_sections(html);
    let r = crate::section::parse_sections(&sections);
    proof {
        if !crate::dom::selectors_compile() {
            assert(crate::section::sections_view(sections@) =~= Seq::empty());
            assert(entries_view(r@).len() == r@.len());
        }
    }
    r
}

/// Rubric labels that introduce a code block rather than prose.
pub open spec fn spec_is_syntax_label(label: Seq<char>) -> bool {
    label == "Syntax"@ || starts_with(label, "Syntax ("@)
}

/// Special registers use "Syntax (predefined)".
pub fn is_syntax_label(label: &Vec<char>) -> (r: bool)
    ensures
        r == spec_is_syntax_label(label@),
{
    let syntax = chars_of("Syntax");
    crate::text::chars_eq(label, &syntax) || has_prefix(label, "Syntax (")
}

// --- qualifier lists ----------------------------------------------------------

/// Position of the `}` that closes the group whose brace nesting is `depth`
/// before position `k`.
pub open spec fn brace_scan(s: Seq<char>, k: int, depth: nat) -> Option<int>
    decreases s.len() - k,
{
    if k < 0 || k >= s.len() {
        None
    } else if s[k] == '{' {
        brace_scan(s, k + 1, depth + 1)
    } else if s[k] == '}' {
        if depth <= 1 {
            Some(k)
        } else {
            brace_scan(s, k + 1, (depth - 1) as nat)
        }
    } else {
        brace_scan(s, k + 1, depth)
    }
}

pub proof fn lemma_brace_scan(s: Seq<char>, k: int, depth: nat)
    requires
        0 <= k,
    ensures
        brace_scan(s, k, depth) matches Some(c) ==> k <= c < s.len() && s[c] == '}',
    decreases s.len() - k,
{
    if 0 <= k < s.len() {
        if s[k] == '{' {
            lemma_brace_scan(s, k + 1, depth + 1);
        } else if s[k] == '}' {
            if depth > 1 {
                lemma_brace_scan(s, k + 1, (depth - 1) as nat);
            }
        } else {
            lemma_brace_scan(s, k + 1, depth);
        }
    }
}

/// Index of the `}` matching the `{` at `open`, or `None` if unbalanced.
fn matching_brace(s: &Vec<char>, open: usize) -> (r: Option<usize>)
    requires
        open < s.len(),
        s@[open as int] == '{',
    ensures
        match r {
            Some(c) => brace_scan(s@, open as int, 0) == Some(c as int),
            None => brace_scan(s@, open as int, 0) is None,
        },
{
    let mut depth: usize = 0;
    let mut k = open;
    while k < s.len()
        invariant
            open <= k <= s.len(),
            s@[open as int] == '{',
            (k == open && depth == 0) || (k > open && depth >= 1),
            depth <= k - open,
            brace_scan(s@, open as int, 0) == brace_scan(s@, k as int, depth as nat),
        decreases s.len() - k,
    {
        let c = s[k];
        if c == '{' {
            depth = depth + 1;
        } else if c == '}' {
            depth = depth - 1;
            if depth == 0 {
                return Some(k);
            }
        }
        k = k + 1;
    }
    None
}

/// Brace nesting after reading `s`; a `}` at depth zero is ignored.
pub open spec fn brace_depth(s: Seq<char>) -> nat
    decreases s.len(),
{
    if s.len() == 0 {
        0
    } else {
        let d = brace_depth(s.drop_last());
        if s.last() == '{' {
            d + 1
        } else if s.last() == '}' {
            if d > 0 {
                (d - 1) as nat
            } else {
                0
            }
        } else {
            d
        }
    }
}

/// The pieces of `s` between commas that sit outside any nested brace group.
pub open spec fn split_top(s: Seq<char>) -> Seq<Seq<char>>
    decreases s.len(),
{
    if s.len() == 0 {
        seq![Seq::empty()]
    } else {
        let r = split_top(s.drop_last());
        let c = s.last();
        if c == ',' && brace_depth(s.drop_last()) == 0 {
            r.push(Seq::empty())
        } else {
            r.update(r.len() - 1, r.last().push(c))
        }
    }
}

pub proof fn lemma_split_top_nonempty(s: Seq<char>)
    ensures
        split_top(s).len() >= 1,
    decreases s.len(),
{
    if s.len() > 0 {
        lemma_split_top_nonempty(s.drop_last());
    }
}

/// Every comma of `v` sits inside a brace group.
pub open spec fn no_top_comma(v: Seq<char>) -> bool {
    forall|i: int| 0 <= i < v.len() && v[i] == ',' ==> brace_depth(#[trigger] v.take(i)) > 0
}

/// The pieces of a split hold no comma outside a brace group, and the brace
/// nesting after the last piece is the nesting after the whole text.
pub proof fn lemma_split_top_pieces(s: Seq<char>)
    ensures
        forall|k: int| 0 <= k < split_top(s).len() ==> no_top_comma(#[trigger] split_top(s)[k]),
        split_top(s).len() >= 1,
        brace_depth(split_top(s).last()) == brace_depth(s),
    decreases s.len(),
{
    if s.len() == 0 {
        assert(split_top(s)[0] =~= Seq::<char>::empty());
    } else {
        let p = s.drop_last();
        lemma_split_top_pieces(p);
        let r = split_top(p);
        let c = s.last();
        if c == ',' && brace_depth(p) == 0 {
            let r2 = r.push(Seq::<char>::empty());
            assert forall|k: int| 0 <= k < r2.len() implies no_top_comma(#[trigger] r2[k]) by {
                if k < r.len() {
                    assert(r2[k] == r[k]);
                }
            }
        } else {
            let l = r.last();
            let l2 = l.push(c);
            let r2 = r.update(r.len() - 1, l2);
            assert(l2.drop_last() =~= l);
            assert forall|i: int| 0 <= i < l2.len() && l2[i] == ',' implies brace_depth(
                #[trigger] l2.take(i),
            ) > 0 by {
                if i < l.len() {
                    assert(l2.take(i) =~= l.take(i));
                    assert(l[i] == ',');
                } else {
                    assert(l2.take(i) =~= l);
                }
            }
            assert forall|k: int| 0 <= k < r2.len() implies no_top_comma(#[trigger] r2[k]) by {
                if k < r.len() - 1 {
                    assert(r2[k] == r[k]);
                }
            }
        }
    }
}

/// Collapsing whitespace changes no brace nesting and moves no comma out of a
/// brace group.
pub proof fn lemma_normalize_ws_commas(s: Seq<char>)
    requires
        no_top_comma(s),
    ensures
        brace_depth(normalize_ws(s)) == brace_depth(s),
        no_top_comma(normalize_ws(s)),
    decreases s.len(),
{
    if s.len() > 0 {
        let p = s.drop_last();
        let c = s.last();
        assert forall|i: int| 0 <= i < p.len() && p[i] == ',' implies brace_depth(
            #[trigger] p.take(i),
        ) > 0 by {
            assert(p.take(i) =~= s.take(i));
            assert(s[i] == ',');
        }
        lemma_normalize_ws_commas(p);
        let n = normalize_ws(p);
        assert(brace_depth(s) == if c == '{' {
            brace_depth(p) + 1
        } else if c == '}' {
            if brace_depth(p) > 0 {
                (brace_depth(p) - 1) as nat
            } else {
                0
            }
        } else {
            brace_depth(p)
        });
        if !is_ws(c) {
            if c == ',' {
                assert(s.take(p.len() as int) =~= p);
                assert(s[p.len() as int] == ',');
            }
            if n.len() > 0 && is_ws(p.last()) {
                let n1 = n.push(' ');
                let r = n1.push(c);
                assert(n1.drop_last() =~= n);
                assert(r.drop_last() =~= n1);
                assert(brace_depth(n1) == brace_depth(n));
                assert forall|i: int| 0 <= i < r.len() && r[i] == ',' implies brace_depth(
                    #[trigger] r.take(i),
                ) > 0 by {
                    if i < n.len() {
                        assert(r.take(i) =~= n.take(i));
                        assert(n[i] == ',');
                    } else if i == n.len() {
                        assert(r[i] == ' ');
                    } else {
                        assert(r.take(i) =~= n1);
                    }
                }
            } else {
                let r = n.push(c);
                assert(r.drop_last() =~= n);
                assert forall|i: int| 0 <= i < r.len() && r[i] == ',' implies brace_depth(
                    #[trigger] r.take(i),
                ) > 0 by {
                    if i < n.len() {
                        assert(r.take(i) =~= n.take(i));
                        assert(n[i] == ',');
                    } else {
                        assert(r.take(i) =~= n);
                    }
                }
            }
        }
    }
}

pub open spec fn vecs_view(v: Seq<Vec<char>>) -> Seq<Seq<char>> {
    v.map_values(|p: Vec<char>| p@)
}

/// Split on commas that sit outside any nested brace group.
fn split_top_level(s: &Vec<char>) -> (r: Vec<Vec<char>>)
    ensures
        vecs_view(r@) == split_top(s@),
{
    let mut done: Vec<Vec<char>> = Vec::new();
    let mut cur: Vec<char> = Vec::new();
    let mut depth: usize = 0;
    let mut i: usize = 0;
    while i < s.len()
        invariant
            i <= s.len(),
            depth as nat == brace_depth(s@.take(i as int)),
            depth <= i,
            vecs_view(done@).push(cur@) == split_top(s@.take(i as int)),
        decreases s.len() - i,
    {
        let c = s[i];
        let ghost pre = s@.take(i as int);
        assert(s@.take(i + 1).drop_last() =~= pre);
        proof {
            lemma_split_top_nonempty(pre);
        }
        if c == ',' && depth == 0 {
            let piece = cur;
            let ghost before = done@;
            done.push(piece);
            cur = Vec::new();
            assert(done@ =~= before.push(piece));
            assert(vecs_view(done@) =~= vecs_view(before).push(piece@));
            assert(vecs_view(done@).push(cur@) =~= split_top(pre).push(Seq::empty()));
        } else {
            cur.push(c);
            assert(vecs_view(done@).push(cur@) =~= split_top(pre).update(
                split_top(pre).len() - 1,
                split_top(pre).last().push(c),
            ));
        }
        if c == '{' {
            depth = depth + 1;
        } else if c == '}' {
            if depth > 0 {
                depth = depth - 1;
            }
        }
        i = i + 1;
    }
    assert(s@.take(s.len() as int) =~= s@);
    let ghost before = done@;
    let last = cur;
    done.push(last);
    assert(done@ =~= before.push(last));
    assert(vecs_view(done@) =~= vecs_view(before).push(last@));
    done
}

/// Each piece with its whitespace collapsed, empty pieces dropped.
pub open spec fn clean_values(ps: Seq<Seq<char>>) -> Seq<Seq<char>>
    decreases ps.len(),
{
    if ps.len() == 0 {
        Seq::empty()
    } else {
        let r = clean_values(ps.drop_last());
        let w = normalize_ws(ps.last());
        if w.len() > 0 {
            r.push(w)
        } else {
            r
        }
    }
}

pub proof fn lemma_clean_values_nonempty(ps: Seq<Seq<char>>)
    requires
        forall|k: int| 0 <= k < ps.len() ==> no_top_comma(#[trigger] ps[k]),
    ensures
        forall|k: int|
            0 <= k < clean_values(ps).len() ==> #[trigger] clean_values(ps)[k].len() > 0
                && single_spaced(clean_values(ps)[k]) && no_top_comma(clean_values(ps)[k]),
    decreases ps.len(),
{
    if ps.len() > 0 {
        let init = ps.drop_last();
        assert forall|k: int| 0 <= k < init.len() implies no_top_comma(#[trigger] init[k]) by {
            assert(init[k] == ps[k]);
        }
        lemma_clean_values_nonempty(init);
        lemma_normalize_ws_single_spaced(ps.last());
        lemma_normalize_ws_commas(ps.last());
        let r = clean_values(init);
        assert forall|k: int|
            0 <= k < clean_values(ps).len() implies #[trigger] clean_values(ps)[k].len() > 0
            && single_spaced(clean_values(ps)[k]) && no_top_comma(clean_values(ps)[k]) by {
            if k < r.len() {
                assert(clean_values(ps)[k] == r[k]);
            }
        }
    }
}

fn clean_values_vec(ps: &Vec<Vec<char>>) -> (r: Vec<String>)
    ensures
        strings_view(r@) == clean_values(vecs_view(ps@)),
{
    let mut r: Vec<String> = Vec::new();
    let mut i: usize = 0;
    while i < ps.len()
        invariant
            i <= ps.len(),
            strings_view(r@) == clean_values(vecs_view(ps@).take(i as int)),
        decreases ps.len() - i,
    {
        assert(vecs_view(ps@).take(i + 1).drop_last() =~= vecs_view(ps@).take(i as int));
        assert(vecs_view(ps@).take(i + 1).last() == ps@[i as int]@);
        let w = normalize_ws_vec(&ps[i]);
        if w.len() > 0 {
            let ghost before = r@;
            let ws = string_of(&w);
            r.push(ws);
            assert(r@ =~= before.push(ws));
            assert(strings_view(r@) =~= strings_view(before).push(ws@));
        }
        i = i + 1;
    }
    assert(vecs_view(ps@).take(ps.len() as int) =~= vecs_view(ps@));
    r
}

pub open spec fn has_name(out: Seq<QualSpec>, name: Seq<char>) -> bool {
    exists|k: int| 0 <= k < out.len() && (#[trigger] out[k]).0 == name
}

fn has_qualifier(out: &Vec<Qualifier>, name: &String) -> (r: bool)
    ensures
        r == has_name(quals_view(out@), name@),
{
    let mut k: usize = 0;
    while k < out.len()
        invariant
            k <= out.len(),
            forall|j: int| 0 <= j < k ==> out@[j].name@ != name@,
        decreases out.len() - k,
    {
        if out[k].name == *name {
            assert(quals_view(out@)[k as int].0 == name@);
            return true;
        }
        k = k + 1;
    }
    assert forall|j: int| 0 <= j < quals_view(out@).len() implies (#[trigger] quals_view(
        out@,
    )[j]).0 != name@ by {
        assert(quals_view(out@)[j].0 == out@[j].name@);
    }
    false
}

/// The qualifier lists found from position `i` on, appended to `out`: the
/// next `.name`, then `=` and `{` (each after optional ASCII whitespace), then
/// the values up to the matching `}`. A list with no values, or whose name was
/// already seen, is skipped; an unbalanced `{` ends the scan.
pub open spec fn qual_scan(s: Seq<char>, i: int, out: Seq<QualSpec>) -> Seq<QualSpec>
    decreases s.len() - i,
{
    if i < 0 || i >= s.len() {
        out
    } else {
        match find_char_from(s, '.', i) {
            None => out,
            Some(start) => {
                proof {
                    lemma_find_char_from(s, '.', i);
                    lemma_run_end(s, start + 1, CharClass::NameChar);
                }
                let ne = run_end(s, start + 1, CharClass::NameChar);
                if ne == start + 1 {
                    qual_scan(s, start + 1, out)
                } else {
                    proof {
                        lemma_run_end(s, ne, CharClass::AsciiSpace);
                    }
                    let j = run_end(s, ne, CharClass::AsciiSpace);
                    if j >= s.len() || s[j] != '=' {
                        qual_scan(s, ne, out)
                    } else {
                        proof {
                            lemma_run_end(s, j + 1, CharClass::AsciiSpace);
                        }
                        let j2 = run_end(s, j + 1, CharClass::AsciiSpace);
                        if j2 >= s.len() || s[j2] != '{' {
                            qual_scan(s, ne, out)
                        } else {
                            match brace_scan(s, j2, 0) {
                                None => out,
                                Some(close) => {
                                    proof {
                                        lemma_brace_scan(s, j2, 0);
                                    }
                                    let name = s.subrange(start + 1, ne);
                                    let vals = clean_values(split_top(s.subrange(j2 + 1, close)));
                                    let out2 = if vals.len() > 0 && !has_name(out, name) {
                                        out.push((name, vals))
                                    } else {
                                        out
                                    };
                                    qual_scan(s, close + 1, out2)
                                },
                            }
                        }
                    }
                }
            },
        }
    }
}

/// The qualifier lists of a syntax block, in document order.
pub open spec fn spec_parse_qualifiers(syntax: Seq<char>) -> Seq<QualSpec> {
    qual_scan(syntax, 0, Seq::empty())
}

/// Pull every qualifier list out of a syntax block. The doc's shape is:
///
/// ```text
/// bfe.type  d, a, b, c;
///
/// .type = { .u32, .u64,
///           .s32, .s64 };
/// ```
///
/// A block may declare several lists (`.sem`, `.scope`, `.ss`, ...), and the
/// values wrap across lines, so this scans for each `.name = { ... }` in turn.
pub fn parse_qualifiers(syntax: &str) -> (r: Vec<Qualifier>)
    ensures
        quals_view(r@) == spec_parse_qualifiers(syntax@),
{
    let s = chars_of(syntax);
    let mut out: Vec<Qualifier> = Vec::new();
    let mut i: usize = 0;
    assert(quals_view(out@) =~= Seq::<QualSpec>::empty());
    while i < s.len()
        invariant
            i <= s.len(),
            s@ == syntax@,
            spec_parse_qualifiers(syntax@) == qual_scan(s@, i as int, quals_view(out@)),
        decreases s.len() - i,
    {
        let ghost old_out = quals_view(out@);
        let start = match find_char_vec(&s, '.', i) {
            Some(st) => st,
            None => {
                return out;
            },
        };
        proof {
            lemma_find_char_from(s@, '.', i as int);
        }
        let ne = run_end_vec(&s, start + 1, CharClass::NameChar);
        if ne == start + 1 {
            i = start + 1;
            continue ;
        }
        let j = run_end_vec(&s, ne, CharClass::AsciiSpace);
        if j >= s.len() || s[j] != '=' {
            i = ne;
            continue ;
        }
        let j2 = run_end_vec(&s, j + 1, CharClass::AsciiSpace);
        if j2 >= s.len() || s[j2] != '{' {
            i = ne;
            continue ;
        }
        let close = match matching_brace(&s, j2) {
            Some(c) => c,
            None => {
                return out;
            },
        };
        proof {
            lemma_brace_scan(s@, j2 as int, 0);
        }
        let name_chars = slice(&s, start + 1, ne);
        let name = string_of(&name_chars);
        let inner = slice(&s, j2 + 1, close);
        let pieces = split_top_level(&inner);
        let values = clean_values_vec(&pieces);
        // The doc repeats a qualifier list when an instruction has several
        // syntax forms; keep the first, which is the general one.
        if values.len() > 0 && !has_qualifier(&out, &name) {
            let q = Qualifier { name, values };
            let ghost before = out@;
            out.push(q);
            assert(out@ =~= before.push(q));
            assert(quals_view(out@) =~= quals_view(before).push(q@));
        }
        i = close + 1;
    }
    out
}

/// Names are distinct and non-empty, made of ASCII letters, digits and `_`;
/// every list has at least one value, and each value is non-empty text of
/// words separated by single spaces, with no comma outside a brace group.
pub open spec fn quals_well_formed(q: Seq<QualSpec>) -> bool {
    &&& forall|a: int, b: int| 0 <= a < b < q.len() ==> (#[trigger] q[a]).0 != (#[trigger] q[b]).0
    &&& forall|k: int| 0 <= k < q.len() ==> (#[trigger] q[k]).0.len() > 0 && q[k].1.len() > 0
    &&& forall|k: int, i: int|
        0 <= k < q.len() && 0 <= i < q[k].0.len() ==> in_class(
            CharClass::NameChar,
            #[trigger] q[k].0[i],
        )
    &&& forall|k: int, m: int|
        0 <= k < q.len() && 0 <= m < q[k].1.len() ==> (#[trigger] q[k].1[m]).len() > 0
            && single_spaced(q[k].1[m]) && no_top_comma(q[k].1[m])
}

/// At position `p` the text declares a list named `name`: a `.`, the name,
/// then `=` and `{`, each after optional ASCII whitespace.
pub open spec fn declares_at(s: Seq<char>, p: int, name: Seq<char>) -> bool {
    let ne = p + 1 + name.len();
    let j = run_end(s, ne, CharClass::AsciiSpace);
    let j2 = run_end(s, j + 1, CharClass::AsciiSpace);
    &&& 0 <= p && ne <= s.len()
    &&& s[p] == '.'
    &&& s.subrange(p + 1, ne) == name
    &&& j < s.len() && s[j] == '='
    &&& j2 < s.len() && s[j2] == '{'
}

/// The text declares a list named `name` somewhere.
pub open spec fn declared(s: Seq<char>, name: Seq<char>) -> bool {
    exists|p: int| declares_at(s, p, name)
}

/// Every list of `q` is declared somewhere in `s`.
pub open spec fn all_declared(s: Seq<char>, q: Seq<QualSpec>) -> bool {
    forall|k: int| 0 <= k < q.len() ==> declared(s, #[trigger] q[k].0)
}

/// `ps` gives, for each list of `q`, a position where it is declared in `s`,
/// the positions strictly increasing.
pub open spec fn positions_ok(s: Seq<char>, q: Seq<QualSpec>, ps: Seq<int>) -> bool {
    &&& ps.len() == q.len()
    &&& forall|k: int| 0 <= k < q.len() ==> declares_at(s, #[trigger] ps[k], q[k].0)
    &&& forall|a: int, b: int| 0 <= a < b < ps.len() ==> #[trigger] ps[a] < #[trigger] ps[b]
}

/// The lists of `q` are declared in `s` in the order they are listed.
pub open spec fn declared_in_order(s: Seq<char>, q: Seq<QualSpec>) -> bool {
    exists|ps: Seq<int>| positions_ok(s, q, ps)
}

/// Positions below `bound`.
pub open spec fn all_below(ps: Seq<int>, bound: int) -> bool {
    forall|k: int| 0 <= k < ps.len() ==> #[trigger] ps[k] < bound
}

pub proof fn lemma_qual_scan_order(s: Seq<char>, i: int, out: Seq<QualSpec>, ps: Seq<int>)
    requires
        0 <= i,
        positions_ok(s, out, ps),
        all_below(ps, i),
    ensures
        declared_in_order(s, qual_scan(s, i, out)),
    decreases s.len() - i,
{
    if i >= s.len() {
        return;
    }
    lemma_find_char_from(s, '.', i);
    if let Some(start) = find_char_from(s, '.', i) {
        lemma_run_end(s, start + 1, CharClass::NameChar);
        let ne = run_end(s, start + 1, CharClass::NameChar);
        if ne == start + 1 {
            lemma_qual_scan_order(s, start + 1, out, ps);
        } else {
            lemma_run_end(s, ne, CharClass::AsciiSpace);
            let j = run_end(s, ne, CharClass::AsciiSpace);
            if j >= s.len() || s[j] != '=' {
                lemma_qual_scan_order(s, ne, out, ps);
            } else {
                lemma_run_end(s, j + 1, CharClass::AsciiSpace);
                let j2 = run_end(s, j + 1, CharClass::AsciiSpace);
                if j2 >= s.len() || s[j2] != '{' {
                    lemma_qual_scan_order(s, ne, out, ps);
                } else if let Some(close) = brace_scan(s, j2, 0) {
                    lemma_brace_scan(s, j2, 0);
                    let name = s.subrange(start + 1, ne);
                    let vals = clean_values(split_top(s.subrange(j2 + 1, close)));
                    if vals.len() > 0 && !has_name(out, name) {
                        let out2 = out.push((name, vals));
                        let ps2 = ps.push(start);
                        assert(name.len() == ne - start - 1);
                        assert(declares_at(s, start, name));
                        assert forall|k: int| 0 <= k < out2.len() implies declares_at(
                            s,
                            #[trigger] ps2[k],
                            out2[k].0,
                        ) by {
                            if k < out.len() {
                                assert(ps2[k] == ps[k] && out2[k] == out[k]);
                            }
                        }
                        assert forall|a: int, b: int| 0 <= a < b < ps2.len() implies #[trigger] ps2[a]
                            < #[trigger] ps2[b] by {
                            if b == ps.len() {
                                assert(ps2[a] == ps[a]);
                                assert(ps[a] < i);
                            } else {
                                assert(ps2[a] == ps[a] && ps2[b] == ps[b]);
                            }
                        }
                        assert forall|k: int| 0 <= k < ps2.len() implies #[trigger] ps2[k] < close + 1 by {
                            if k < ps.len() {
                                assert(ps2[k] == ps[k]);
                                assert(ps[k] < i);
                            }
                        }
                        lemma_qual_scan_order(s, close + 1, out2, ps2);
                    } else {
                        assert forall|k: int| 0 <= k < ps.len() implies #[trigger] ps[k] < close + 1 by {
                            assert(ps[k] < i);
                        }
                        lemma_qual_scan_order(s, close + 1, out, ps);
                    }
                } else {
                    assert(positions_ok(s, out, ps));
                }
            }
        }
    } else {
        assert(positions_ok(s, out, ps));
    }
}

proof fn lemma_declared_push(
    s: Seq<char>,
    out: Seq<QualSpec>,
    name: Seq<char>,
    vals: Seq<Seq<char>>,
    p: int,
)
    requires
        all_declared(s, out),
        declares_at(s, p, name),
    ensures
        all_declared(s, out.push((name, vals))),
{
    let o2 = out.push((name, vals));
    assert(declared(s, name));
    assert forall|k: int| 0 <= k < o2.len() implies declared(s, #[trigger] o2[k].0) by {
        if k < out.len() {
            assert(o2[k] == out[k]);
        }
    }
}

pub proof fn lemma_qual_scan_well_formed(s: Seq<char>, i: int, out: Seq<QualSpec>)
    requires
        quals_well_formed(out),
        all_declared(s, out),
    ensures
        quals_well_formed(qual_scan(s, i, out)),
        all_declared(s, qual_scan(s, i, out)),
    decreases s.len() - i,
{
    if 0 <= i < s.len() {
        lemma_find_char_from(s, '.', i);
        if let Some(start) = find_char_from(s, '.', i) {
            lemma_run_end(s, start + 1, CharClass::NameChar);
            let ne = run_end(s, start + 1, CharClass::NameChar);
            if ne == start + 1 {
                lemma_qual_scan_well_formed(s, start + 1, out);
            } else {
                lemma_run_end(s, ne, CharClass::AsciiSpace);
                let j = run_end(s, ne, CharClass::AsciiSpace);
                if j >= s.len() || s[j] != '=' {
                    lemma_qual_scan_well_formed(s, ne, out);
                } else {
                    lemma_run_end(s, j + 1, CharClass::AsciiSpace);
                    let j2 = run_end(s, j + 1, CharClass::AsciiSpace);
                    if j2 >= s.len() || s[j2] != '{' {
                        lemma_qual_scan_well_formed(s, ne, out);
                    } else if let Some(close) = brace_scan(s, j2, 0) {
                        lemma_brace_scan(s, j2, 0);
                        let name = s.subrange(start + 1, ne);
                        let vals = clean_values(split_top(s.subrange(j2 + 1, close)));
                        lemma_split_top_pieces(s.subrange(j2 + 1, close));
                        lemma_clean_values_nonempty(split_top(s.subrange(j2 + 1, close)));
                        let out2 = if vals.len() > 0 && !has_name(out, name) {
                            out.push((name, vals))
                        } else {
                            out
                        };
                        if vals.len() > 0 && !has_name(out, name) {
                            assert forall|k: int, i: int|
                                0 <= k < out2.len() && 0 <= i < out2[k].0.len() implies in_class(
                                CharClass::NameChar,
                                #[trigger] out2[k].0[i],
                            ) by {
                                if k == out.len() {
                                    assert(out2[k].0[i] == s[start + 1 + i]);
                                } else {
                                    assert(out2[k] == out[k]);
                                }
                            }
                            assert forall|a: int, b: int|
                                0 <= a < b < out2.len() implies (#[trigger] out2[a]).0 != (
                            #[trigger] out2[b]).0 by {
                                if b == out.len() {
                                    if out2[a].0 == name {
                                        assert(out[a].0 == name);
                                    }
                                } else {
                                    assert(out2[a] == out[a] && out2[b] == out[b]);
                                }
                            }
                        }
                        assert(quals_well_formed(out2));
                        if vals.len() > 0 && !has_name(out, name) {
                            assert(name.len() == ne - start - 1);
                            assert(declares_at(s, start, name));
                            lemma_declared_push(s, out, name, vals, start);
                            assert(all_declared(s, out2));
                        } else {
                            assert(out2 == out);
                            assert(all_declared(s, out2));
                        }
                        lemma_qual_scan_well_formed(s, close + 1, out2);
                    }
                }
            }
        }
    }
}

// --- version and architecture notes -------------------------------------------

/// The version number that follows the first occurrence of `prefix` in `text`:
/// after optional whitespace, the run of digits and dots, without trailing
/// dots; `None` if `prefix` is absent or the run is empty.
pub open spec fn spec_extract_after(text: Seq<char>, prefix: Seq<char>) -> Option<Seq<char>> {
    match find(text, prefix) {
        None => None,
        Some(idx) => {
            let tail = trim_start(text.skip(idx + prefix.len()));
            let token = trim_end_char(
                tail.take(run_end(tail, 0, CharClass::VersionChar)),
                '.',
            );
            if token.len() > 0 {
                Some(token)
            } else {
                None
            }
        },
    }
}

pub open spec fn opt_view(o: Option<String>) -> Option<Seq<char>> {
    match o {
        Some(s) => Some(s@),
        None => None,
    }
}

pub fn extract_after(text: &str, prefix: &str) -> (r: Option<String>)
    ensures
        opt_view(r) == spec_extract_after(text@, prefix@),
{
    let t = chars_of(text);
    let p = chars_of(prefix);
    let idx = match find_at(&t, &p, 0) {
        Some(i) => i,
        None => {
            return None;
        },
    };
    proof {
        lemma_find_from_is_first(t@, p@, 0);
    }
    let rest = slice(&t, idx + p.len(), t.len());
    assert(rest@ =~= t@.skip(idx + p@.len()));
    let tail = trim_start_vec(&rest);
    proof {
        lemma_run_end(tail@, 0, CharClass::VersionChar);
    }
    let e = run_end_vec(&tail, 0, CharClass::VersionChar);
    let run = slice(&tail, 0, e);
    assert(run@ =~= tail@.take(e as int));
    let token = trim_end_char_vec(&run, '.');
    if token.len() > 0 {
        Some(string_of(&token))
    } else {
        None
    }
}

/// Scan state of [`lowest_sm`]: the smallest number seen so far, with its
/// `sm_NN` token.
pub type SmBest = Option<(u32, Seq<char>)>;

/// The `sm_NN` tokens from position `i` on, folded into `best`: a token is
/// `sm_`, at least one digit, and one ASCII letter if one follows. A token
/// replaces `best` only when its number is strictly smaller.
pub open spec fn sm_scan(t: Seq<char>, i: int, best: SmBest) -> SmBest
    decreases t.len() - i,
{
    match find_from(t, "sm_"@, i) {
        None => best,
        Some(start) => {
            proof {
                lemma_find_from_is_first(t, "sm_"@, i);
                reveal_strlit("sm_");
            }
            if i < 0 || start < i {
                best
            } else {
                let de = run_end(t, start + 3, CharClass::Digit);
                let digits = t.subrange(start + 3, de);
                let end = if de < t.len() && crate::text::is_alpha(t[de]) {
                    de + 1
                } else {
                    de
                };
                let best2 = if digits.len() > 0 {
                    match parse_u32(digits) {
                        Some(n) => if match best {
                            Some(b) => n < b.0,
                            None => true,
                        } {
                            Some((n, t.subrange(start, end)))
                        } else {
                            best
                        },
                        None => best,
                    }
                } else {
                    best
                };
                sm_scan(t, start + 3, best2)
            }
        },
    }
}

/// Lowest `sm_NN` named in a text, preserving family suffixes like `sm_90a`;
/// the first one wins a tie.
pub open spec fn spec_lowest_sm(t: Seq<char>) -> Option<Seq<char>> {
    match sm_scan(t, 0, None) {
        Some((_, s)) => Some(s),
        None => None,
    }
}

spec fn best_view(b: Option<(u32, Vec<char>)>) -> SmBest {
    match b {
        Some((n, s)) => Some((n, s@)),
        None => None,
    }
}

fn lowest_sm(text: &Vec<char>) -> (r: Option<String>)
    ensures
        opt_view(r) == spec_lowest_sm(text@),
{
    let pat = chars_of("sm_");
    proof {
        reveal_strlit("sm_");
    }
    assert(pat@.len() == 3);
    let mut best: Option<(u32, Vec<char>)> = None;
    let mut i: usize = 0;
    while i <= text.len()
        invariant
            pat@ == "sm_"@,
            pat@.len() == 3,
            sm_scan(text@, 0, None) == sm_scan(text@, i as int, best_view(best)),
        decreases text.len() + 1 - i,
    {
        let start = match find_at(text, &pat, i) {
            Some(st) => st,
            None => {
                return match best {
                    Some((_, s)) => Some(string_of(&s)),
                    None => None,
                };
            },
        };
        proof {
            lemma_find_from_is_first(text@, pat@, i as int);
        }
        let de = run_end_vec(text, start + 3, CharClass::Digit);
        if de > start + 3 {
            let mut end = de;
            if end < text.len() && crate::text::is_ascii_alphabetic(text[end]) {
                end = end + 1;
            }
            let digits = slice(text, start + 3, de);
            match crate::module::parse_number(&digits) {
                Some(n) => {
                    let better = match &best {
                        None => true,
                        Some((b, _)) => n < *b,
                    };
                    if better {
                        best = Some((n, slice(text, start, end)));
                    }
                },
                None => {},
            }
        }
        i = start + 3;
    }
    match best {
        Some((_, s)) => Some(string_of(&s)),
        None => None,
    }
}

/// The paragraph up to the first ". ", or all of it.
pub open spec fn first_sentence(p: Seq<char>) -> Seq<char> {
    match find(p, ". "@) {
        Some(k) => p.take(k),
        None => p,
    }
}

pub open spec fn spec_parse_arch(paragraph: Seq<char>) -> ArchSpec {
    let sentence = first_sentence(paragraph);
    if contains(ascii_lower(sentence), "all target architectures"@) {
        ArchSpec::All
    } else {
        match spec_lowest_sm(sentence) {
            Some(sm) => ArchSpec::Min(sm),
            None => ArchSpec::Unknown,
        }
    }
}

/// Classify the opening paragraph of the Target ISA Notes.
///
/// Only its first sentence carries the base requirement; a paragraph may go on
/// to name architectures for specific variants.
pub fn parse_arch(paragraph: &str) -> (r: ArchReq)
    ensures
        r@ == spec_parse_arch(paragraph@),
{
    let p = chars_of(paragraph);
    let sep = chars_of(". ");
    proof {
        lemma_find_from_is_first(p@, sep@, 0);
    }
    let sentence = match find_at(&p, &sep, 0) {
        Some(k) => slice(&p, 0, k),
        None => p,
    };
    let lowered = ascii_lower_vec(&sentence);
    let phrase = chars_of("all target architectures");
    if find_at(&lowered, &phrase, 0).is_some() {
        return ArchReq::All;
    }
    match lowest_sm(&sentence) {
        Some(sm) => ArchReq::Min(sm),
        None => ArchReq::Unknown,
    }
}

} // verus!
