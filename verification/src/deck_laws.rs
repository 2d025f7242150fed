//! What every deck the builder produces satisfies.
use crate::deck::{
    arch_notes, dedup_into, deck_pushes, module_deck, note_decks, qual_note, qual_notes, recall_note, sm_text, spec_seed, spec_all_notes, spec_deck_id, spec_deck_names,
    spec_decks, kind_deck, spec_esc, esc_char, spec_input_notes, spec_models, syntax_notes, version_notes, CardKind, InputSpec,
    NoteSpec,
};
use crate::parse::{ArchSpec, EntrySpec, QualSpec};
use crate::text::{lemma_lex_transitive, lex_lt};
use vstd::prelude::*;

verus! {

// --- GUID stability -------------------------------------------------------------

pub open spec fn qual_names(qs: Seq<QualSpec>) -> Seq<Seq<char>> {
    qs.map_values(|q: QualSpec| q.0)
}

/// What identifies an entry's notes: its id, whether it has a syntax block,
/// the names of its qualifier lists, whether its architecture floor is known,
/// and whether it has an introducing version.
pub open spec fn identity(e: EntrySpec) -> (Seq<char>, bool, Seq<Seq<char>>, bool, bool) {
    (
        e.id,
        e.syntax is Some,
        qual_names(e.qualifiers),
        !(e.arch is Unknown),
        e.since_ptx is Some,
    )
}

pub open spec fn guids_of(notes: Seq<NoteSpec>) -> Seq<Seq<char>> {
    notes.map_values(|n: NoteSpec| n.guid)
}

proof fn lemma_guids_concat(a: Seq<NoteSpec>, b: Seq<NoteSpec>)
    ensures
        guids_of(a + b) == guids_of(a) + guids_of(b),
{
    assert(guids_of(a + b) =~= guids_of(a) + guids_of(b));
}

proof fn lemma_input_guids(x: InputSpec, y: InputSpec)
    requires
        identity(x.entry) == identity(y.entry),
    ensures
        guids_of(spec_input_notes(x)) == guids_of(spec_input_notes(y)),
{
    let (ex, ey) = (x.entry, y.entry);
    assert(guids_of(seq![recall_note(x)]) =~= guids_of(seq![recall_note(y)]));
    assert(guids_of(syntax_notes(x)) =~= guids_of(syntax_notes(y)));
    assert(qual_names(ex.qualifiers).len() == qual_names(ey.qualifiers).len());
    assert forall|k: int| 0 <= k < ex.qualifiers.len() implies guids_of(qual_notes(x))[k]
        == guids_of(qual_notes(y))[k] by {
        assert(qual_names(ex.qualifiers)[k] == ex.qualifiers[k].0);
        assert(qual_names(ey.qualifiers)[k] == ey.qualifiers[k].0);
        assert(qual_notes(x)[k] == qual_note(x, ex.qualifiers[k]));
        assert(qual_notes(y)[k] == qual_note(y, ey.qualifiers[k]));
    }
    assert(guids_of(qual_notes(x)) =~= guids_of(qual_notes(y)));
    assert(sm_text(ex.arch) is Some <==> sm_text(ey.arch) is Some);
    assert(guids_of(arch_notes(x)) =~= guids_of(arch_notes(y)));
    assert(guids_of(version_notes(x)) =~= guids_of(version_notes(y)));
    lemma_guids_concat(seq![recall_note(x)], syntax_notes(x));
    lemma_guids_concat(seq![recall_note(y)], syntax_notes(y));
    lemma_guids_concat(seq![recall_note(x)] + syntax_notes(x), qual_notes(x));
    lemma_guids_concat(seq![recall_note(y)] + syntax_notes(y), qual_notes(y));
    lemma_guids_concat(seq![recall_note(x)] + syntax_notes(x) + qual_notes(x), arch_notes(x));
    lemma_guids_concat(seq![recall_note(y)] + syntax_notes(y) + qual_notes(y), arch_notes(y));
    lemma_guids_concat(
        seq![recall_note(x)] + syntax_notes(x) + qual_notes(x) + arch_notes(x),
        version_notes(x),
    );
    lemma_guids_concat(
        seq![recall_note(y)] + syntax_notes(y) + qual_notes(y) + arch_notes(y),
        version_notes(y),
    );
}

/// Note GUIDs come from identity, never from content: two input lists whose
/// entries agree on id, on which optional facts they have and on their
/// qualifier names get the same GUIDs, note for note, whatever their glosses,
/// syntax text, architecture, versions, modules or categories.
pub proof fn law_guids_depend_only_on_identity(a: Seq<InputSpec>, b: Seq<InputSpec>)
    requires
        a.len() == b.len(),
        forall|k: int| 0 <= k < a.len() ==> identity(a[k].entry) == identity(b[k].entry),
    ensures
        guids_of(spec_all_notes(a)) == guids_of(spec_all_notes(b)),
    decreases a.len(),
{
    if a.len() > 0 {
        law_guids_depend_only_on_identity(a.drop_last(), b.drop_last());
        lemma_input_guids(a.last(), b.last());
        lemma_guids_concat(spec_all_notes(a.drop_last()), spec_input_notes(a.last()));
        lemma_guids_concat(spec_all_notes(b.drop_last()), spec_input_notes(b.last()));
    }
}

// --- the deck tree ----------------------------------------------------------------

pub open spec fn no_duplicates(s: Seq<Seq<char>>) -> bool {
    forall|i: int, j: int| 0 <= i < j < s.len() ==> s[i] != s[j]
}

proof fn lemma_dedup_into(acc: Seq<Seq<char>>, s: Seq<Seq<char>>)
    requires
        no_duplicates(acc),
    ensures
        no_duplicates(dedup_into(acc, s)),
        forall|x: Seq<char>| acc.contains(x) ==> dedup_into(acc, s).contains(x),
        forall|x: Seq<char>| s.contains(x) ==> dedup_into(acc, s).contains(x),
        forall|x: Seq<char>|
            dedup_into(acc, s).contains(x) ==> acc.contains(x) || s.contains(x),
        dedup_into(acc, s).len() >= acc.len(),
        forall|i: int| 0 <= i < acc.len() ==> dedup_into(acc, s)[i] == acc[i],
    decreases s.len(),
{
    if s.len() > 0 {
        let init = s.drop_last();
        lemma_dedup_into(acc, init);
        let d = dedup_into(acc, init);
        let x = s.last();
        if !d.contains(x) {
            assert forall|i: int, j: int| 0 <= i < j < d.push(x).len() implies d.push(x)[i]
                != d.push(x)[j] by {
                if j == d.len() {
                    assert(d[i] == d.push(x)[i]);
                }
            }
            assert forall|y: Seq<char>| d.contains(y) implies d.push(x).contains(y) by {
                let i = choose|i: int| 0 <= i < d.len() && d[i] == y;
                assert(d.push(x)[i] == y);
            }
            assert(d.push(x)[d.len() as int] == x);
            assert forall|i: int| 0 <= i < acc.len() implies d.push(x)[i] == acc[i] by {
                assert(d.push(x)[i] == d[i]);
            }
        }
        assert forall|y: Seq<char>| s.contains(y) implies dedup_into(acc, s).contains(y) by {
            let i = choose|i: int| 0 <= i < s.len() && s[i] == y;
            if i < init.len() {
                assert(init[i] == y);
                assert(init.contains(y));
                assert(d.contains(y));
                if !d.contains(x) {
                    let j = choose|j: int| 0 <= j < d.len() && d[j] == y;
                    assert(d.push(x)[j] == y);
                }
            } else {
                assert(y == x);
                if !d.contains(x) {
                    assert(d.push(x)[d.len() as int] == x);
                }
            }
        }
        assert forall|y: Seq<char>| dedup_into(acc, s).contains(y) implies acc.contains(y)
            || s.contains(y) by {
            if !d.contains(y) {
                assert(y == x);
                assert(s[s.len() - 1] == y);
            } else {
                if !acc.contains(y) {
                    let i = choose|i: int| 0 <= i < init.len() && init[i] == y;
                    assert(s[i] == y);
                }
            }
        }
    }
}

proof fn lemma_note_decks_pushed(inputs: Seq<InputSpec>)
    ensures
        forall|k: int|
            0 <= k < spec_all_notes(inputs).len() ==> deck_pushes(inputs).contains(
                #[trigger] spec_all_notes(inputs)[k].deck,
            ),
        forall|k: int|
            0 <= k < inputs.len() ==> deck_pushes(inputs).contains(
                module_deck(#[trigger] inputs[k].module),
            ),
    decreases inputs.len(),
{
    if inputs.len() > 0 {
        let init = inputs.drop_last();
        lemma_note_decks_pushed(init);
        let p = deck_pushes(init);
        let ns = spec_input_notes(inputs.last());
        let q = seq![module_deck(inputs.last().module)] + note_decks(ns);
        assert(deck_pushes(inputs) =~= p + q);
        assert forall|k: int| 0 <= k < spec_all_notes(inputs).len() implies deck_pushes(
            inputs,
        ).contains(#[trigger] spec_all_notes(inputs)[k].deck) by {
            let a = spec_all_notes(init);
            if k < a.len() {
                assert(spec_all_notes(inputs)[k] == a[k]);
                let i = choose|i: int| 0 <= i < p.len() && p[i] == a[k].deck;
                assert((p + q)[i] == a[k].deck);
            } else {
                let j = k - a.len();
                assert(spec_all_notes(inputs)[k] == ns[j]);
                assert((p + q)[p.len() + 1 + j] == note_decks(ns)[j]);
            }
        }
        assert forall|k: int| 0 <= k < inputs.len() implies deck_pushes(inputs).contains(
            module_deck(#[trigger] inputs[k].module),
        ) by {
            if k < init.len() {
                assert(init[k] == inputs[k]);
                let i = choose|i: int| 0 <= i < p.len() && p[i] == module_deck(init[k].module);
                assert((p + q)[i] == module_deck(inputs[k].module));
            } else {
                assert((p + q)[p.len() as int] == module_deck(inputs[k].module));
            }
        }
    }
}

/// The deck tree lists every deck once, starts at the root deck, and holds the
/// module deck of every entry and the deck of every note.
pub proof fn law_deck_tree_is_complete(inputs: Seq<InputSpec>)
    ensures
        no_duplicates(spec_deck_names(inputs)),
        spec_deck_names(inputs)[0] == crate::deck::DECK_ROOT@,
        forall|k: int|
            0 <= k < spec_all_notes(inputs).len() ==> spec_deck_names(inputs).contains(
                #[trigger] spec_all_notes(inputs)[k].deck,
            ),
        forall|k: int|
            0 <= k < inputs.len() ==> spec_deck_names(inputs).contains(
                module_deck(#[trigger] inputs[k].module),
            ),
{
    let root = seq![crate::deck::DECK_ROOT@];
    lemma_dedup_into(root, deck_pushes(inputs));
    lemma_note_decks_pushed(inputs);
    assert(root[0] == crate::deck::DECK_ROOT@);
    assert(dedup_into(root, deck_pushes(inputs))[0] == root[0]);
}

// --- parents before children -------------------------------------------------------

/// Deck `s[t]` is a module deck, whose parent is the root, or a card-kind deck
/// whose module deck comes earlier in `s`.
pub open spec fn parent_before(s: Seq<Seq<char>>, t: int) -> bool {
    ||| exists|m: crate::module::Module| s[t] == #[trigger] module_deck(m)
    ||| exists|u: int, m: crate::module::Module, k: CardKind|
        #![trigger s[u], kind_deck(m, k)]
        0 <= u < t && s[t] == kind_deck(m, k) && s[u] == module_deck(m)
}

/// Every note of an entry goes to a card-kind deck of the entry's module.
proof fn lemma_input_note_decks(x: InputSpec)
    ensures
        forall|j: int|
            0 <= j < spec_input_notes(x).len() ==> exists|k: CardKind|
                (#[trigger] spec_input_notes(x)[j]).deck == kind_deck(x.module, k),
{
    let r = seq![recall_note(x)];
    let sy = syntax_notes(x);
    let qs = qual_notes(x);
    let ar = arch_notes(x);
    let ve = version_notes(x);
    let ns = spec_input_notes(x);
    assert(ns =~= r + sy + qs + ar + ve);
    assert forall|j: int| 0 <= j < ns.len() implies exists|k: CardKind|
        (#[trigger] ns[j]).deck == kind_deck(x.module, k) by {
        if j < 1 {
            assert(ns[j].deck == kind_deck(x.module, CardKind::Recall));
        } else if j < 1 + sy.len() {
            assert(ns[j] == sy[j - 1]);
            assert(ns[j].deck == kind_deck(x.module, CardKind::Syntax));
        } else if j < 1 + sy.len() + qs.len() {
            assert(ns[j] == qs[j - 1 - sy.len()]);
            assert(ns[j].deck == kind_deck(x.module, CardKind::Qualifiers));
        } else if j < 1 + sy.len() + qs.len() + ar.len() {
            assert(ns[j] == ar[j - 1 - sy.len() - qs.len()]);
            assert(ns[j].deck == kind_deck(x.module, CardKind::Arch));
        } else {
            assert(ns[j] == ve[j - 1 - sy.len() - qs.len() - ar.len()]);
            assert(ns[j].deck == kind_deck(x.module, CardKind::Version));
        }
    }
}

/// In the order the build asks for decks, a module deck is asked for before
/// any deck under it.
proof fn lemma_pushes_parent_before(inputs: Seq<InputSpec>)
    ensures
        forall|t: int| 0 <= t < deck_pushes(inputs).len() ==> parent_before(deck_pushes(inputs), t),
    decreases inputs.len(),
{
    if inputs.len() > 0 {
        let init = inputs.drop_last();
        let x = inputs.last();
        lemma_pushes_parent_before(init);
        lemma_input_note_decks(x);
        let p = deck_pushes(init);
        let ns = spec_input_notes(x);
        let s = deck_pushes(inputs);
        assert(s =~= p + seq![module_deck(x.module)] + note_decks(ns));
        assert forall|t: int| 0 <= t < s.len() implies parent_before(s, t) by {
            if t < p.len() {
                assert(s[t] == p[t]);
                assert(parent_before(p, t));
                if !(exists|m: crate::module::Module| p[t] == #[trigger] module_deck(m)) {
                    let (u, m, k) = choose|u: int, m: crate::module::Module, k: CardKind|
                        #![trigger p[u], kind_deck(m, k)]
                        0 <= u < t && p[t] == kind_deck(m, k) && p[u] == module_deck(m);
                    assert(s[u] == p[u]);
                }
            } else if t == p.len() {
                assert(s[t] == module_deck(x.module));
            } else {
                let j = t - p.len() - 1;
                assert(s[t] == ns[j].deck);
                let k = choose|k: CardKind| (#[trigger] ns[j]).deck == kind_deck(x.module, k)
                    && true;
                assert(ns[j].deck == kind_deck(x.module, k));
                let u = p.len() as int;
                assert(s[u] == module_deck(x.module));
            }
        }
    }
}

/// Dropping repeats keeps every deck after its parent.
proof fn lemma_dedup_parent_before(s: Seq<Seq<char>>)
    requires
        forall|t: int| 0 <= t < s.len() ==> parent_before(s, t),
    ensures
        forall|j: int|
            0 < j < dedup_into(seq![crate::deck::DECK_ROOT@], s).len() ==> parent_before(
                dedup_into(seq![crate::deck::DECK_ROOT@], s),
                j,
            ),
    decreases s.len(),
{
    let root = seq![crate::deck::DECK_ROOT@];
    if s.len() > 0 {
        let init = s.drop_last();
        assert forall|t: int| 0 <= t < init.len() implies parent_before(init, t) by {
            assert(init[t] == s[t]);
            assert(parent_before(s, t));
            if !(exists|m: crate::module::Module| s[t] == #[trigger] module_deck(m)) {
                let (u, m, k) = choose|u: int, m: crate::module::Module, k: CardKind|
                    #![trigger s[u], kind_deck(m, k)]
                    0 <= u < t && s[t] == kind_deck(m, k) && s[u] == module_deck(m);
                assert(init[u] == s[u]);
            }
        }
        lemma_dedup_parent_before(init);
        lemma_dedup_into(root, init);
        let d = dedup_into(root, init);
        let x = s.last();
        if !d.contains(x) {
            let r = d.push(x);
            assert forall|j: int| 0 < j < r.len() implies parent_before(r, j) by {
                if j < d.len() {
                    assert(r[j] == d[j]);
                    assert(parent_before(d, j));
                    if !(exists|m: crate::module::Module| d[j] == #[trigger] module_deck(m)) {
                        let (u, m, k) = choose|u: int, m: crate::module::Module, k: CardKind|
                            #![trigger d[u], kind_deck(m, k)]
                            0 <= u < j && d[j] == kind_deck(m, k) && d[u] == module_deck(m);
                        assert(r[u] == d[u]);
                    }
                } else {
                    assert(r[j] == x);
                    let t = s.len() - 1;
                    assert(parent_before(s, t));
                    if !(exists|m: crate::module::Module| s[t] == #[trigger] module_deck(m)) {
                        let (u, m, k) = choose|u: int, m: crate::module::Module, k: CardKind|
                            #![trigger s[u], kind_deck(m, k)]
                            0 <= u < t && s[t] == kind_deck(m, k) && s[u] == module_deck(m);
                        assert(init[u] == s[u]);
                        assert(init.contains(module_deck(m)));
                        assert(d.contains(module_deck(m)));
                        let i = choose|i: int| 0 <= i < d.len() && d[i] == module_deck(m);
                        assert(r[i] == d[i]);
                    }
                }
            }
        }
    }
}

/// Every deck but the root comes after its parent in the deck list: a module
/// deck after the root, which is first, and a card-kind deck after the deck of
/// its module. Anki can then create each deck's parent before the deck.
pub proof fn law_parents_come_first(inputs: Seq<InputSpec>)
    ensures
        spec_deck_names(inputs)[0] == crate::deck::DECK_ROOT@,
        forall|j: int|
            0 < j < spec_deck_names(inputs).len() ==> parent_before(spec_deck_names(inputs), j),
{
    law_deck_tree_is_complete(inputs);
    lemma_pushes_parent_before(inputs);
    lemma_dedup_parent_before(deck_pushes(inputs));
}

// --- deck ids ---------------------------------------------------------------------

/// Every deck id is a positive 13-digit number, between 1.6 * 10^12 and
/// 2.6 * 10^12.
pub proof fn law_deck_ids_are_positive(inputs: Seq<InputSpec>, version: Seq<char>)
    ensures
        forall|k: int|
            0 <= k < spec_decks(inputs, version).len() ==> 1_600_000_000_000 <= (#[trigger] spec_decks(
                inputs,
                version,
            )[k]).id < 2_600_000_000_000,
{
    assert forall|k: int| 0 <= k < spec_decks(inputs, version).len() implies 1_600_000_000_000
        <= (#[trigger] spec_decks(inputs, version)[k]).id < 2_600_000_000_000 by {
        let name = spec_deck_names(inputs)[k];
        assert(1_600_000_000_000 <= spec_deck_id(name) < 2_600_000_000_000);
    }
}

// --- notes and their note types ------------------------------------------------------

pub open spec fn field_names(n: NoteSpec) -> Seq<Seq<char>> {
    n.fields.map_values(|f: (Seq<char>, Seq<char>)| f.0)
}

/// Note `n` has the fields of a note type named like its model, no more and
/// no fewer.
pub open spec fn fits_its_model(n: NoteSpec) -> bool {
    exists|m: int|
        0 <= m < spec_models().len() && spec_models()[m].name == n.model
            && field_names(n).to_set() == spec_models()[m].fields.to_set()
}

proof fn lemma_same_elements(a: Seq<Seq<char>>, b: Seq<Seq<char>>)
    requires
        forall|i: int| 0 <= i < a.len() ==> b.contains(#[trigger] a[i]),
        forall|i: int| 0 <= i < b.len() ==> a.contains(#[trigger] b[i]),
    ensures
        a.to_set() == b.to_set(),
{
    assert forall|y: Seq<char>| a.to_set().contains(y) <==> b.to_set().contains(y) by {
        if a.contains(y) {
            let i = choose|i: int| 0 <= i < a.len() && a[i] == y;
            assert(b.contains(a[i]));
        }
        if b.contains(y) {
            let i = choose|i: int| 0 <= i < b.len() && b[i] == y;
            assert(a.contains(b[i]));
        }
    }
    assert(a.to_set() =~= b.to_set());
}

proof fn lemma_fields4(
    f: Seq<(Seq<char>, Seq<char>)>,
    m: Seq<Seq<char>>,
    a: Seq<char>,
    b: Seq<char>,
    c: Seq<char>,
    d: Seq<char>,
)
    requires
        f.len() == 4,
        f[0].0 == a,
        f[1].0 == b,
        f[2].0 == c,
        f[3].0 == d,
        m.len() == 4,
        m.contains(a),
        m.contains(b),
        m.contains(c),
        m.contains(d),
        forall|i: int| 0 <= i < 4 ==> #[trigger] m[i] == a || m[i] == b || m[i] == c || m[i] == d,
    ensures
        f.map_values(|p: (Seq<char>, Seq<char>)| p.0).to_set() == m.to_set(),
{
    let n = f.map_values(|p: (Seq<char>, Seq<char>)| p.0);
    assert(n =~= seq![a, b, c, d]);
    assert forall|i: int| 0 <= i < m.len() implies n.contains(#[trigger] m[i]) by {
        if m[i] == a {
            assert(n[0] == a);
        } else if m[i] == b {
            assert(n[1] == b);
        } else if m[i] == c {
            assert(n[2] == c);
        } else {
            assert(n[3] == d);
        }
    }
    lemma_same_elements(n, m);
}

proof fn lemma_input_notes_fit(x: InputSpec)
    ensures
        forall|k: int|
            0 <= k < spec_input_notes(x).len() ==> fits_its_model(#[trigger] spec_input_notes(x)[k]),
{
    let ms = spec_models();
    let r = recall_note(x);
    assert(ms[0].fields[1] == "Gloss"@ && ms[0].fields[2] == "Kind"@);
    lemma_fields4(r.fields, ms[0].fields, "Gloss"@, "Kind"@, "Name"@, "Section"@);
    assert(fits_its_model(r));
    assert forall|k: int| 0 <= k < syntax_notes(x).len() implies fits_its_model(
        #[trigger] syntax_notes(x)[k],
    ) by {
        assert(ms[1].fields[0] == "Name"@ && ms[1].fields[1] == "Syntax"@);
        lemma_fields4(syntax_notes(x)[k].fields, ms[1].fields, "Gloss"@, "Name"@, "Section"@, "Syntax"@);
    }
    assert forall|k: int| 0 <= k < qual_notes(x).len() implies fits_its_model(
        #[trigger] qual_notes(x)[k],
    ) by {
        assert(qual_notes(x)[k] == qual_note(x, x.entry.qualifiers[k]));
        let f = qual_notes(x)[k].fields;
        let m = ms[2].fields;
        let n = f.map_values(|p: (Seq<char>, Seq<char>)| p.0);
        assert(n =~= seq!["Gloss"@, "Name"@, "Qualifier"@, "Section"@, "Values"@]);
        assert(m =~= seq!["Name"@, "Qualifier"@, "Values"@, "Gloss"@, "Section"@]);
        assert forall|i: int| 0 <= i < n.len() implies m.contains(#[trigger] n[i]) by {
            if i == 0 { assert(m[3] == n[i]); } else if i == 1 { assert(m[0] == n[i]); }
            else if i == 2 { assert(m[1] == n[i]); } else if i == 3 { assert(m[4] == n[i]); }
            else { assert(m[2] == n[i]); }
        }
        assert forall|i: int| 0 <= i < m.len() implies n.contains(#[trigger] m[i]) by {
            if i == 0 { assert(n[1] == m[i]); } else if i == 1 { assert(n[2] == m[i]); }
            else if i == 2 { assert(n[4] == m[i]); } else if i == 3 { assert(n[0] == m[i]); }
            else { assert(n[3] == m[i]); }
        }
        lemma_same_elements(n, m);
    }
    assert forall|k: int| 0 <= k < arch_notes(x).len() implies fits_its_model(
        #[trigger] arch_notes(x)[k],
    ) by {
        assert(ms[3].fields[0] == "Name"@ && ms[3].fields[1] == "Sm"@);
        lemma_fields4(arch_notes(x)[k].fields, ms[3].fields, "Gloss"@, "Name"@, "Section"@, "Sm"@);
    }
    assert forall|k: int| 0 <= k < version_notes(x).len() implies fits_its_model(
        #[trigger] version_notes(x)[k],
    ) by {
        assert(ms[4].fields[0] == "Name"@ && ms[4].fields[1] == "PtxVersion"@);
        lemma_fields4(
            version_notes(x)[k].fields,
            ms[4].fields,
            "Gloss"@,
            "Name"@,
            "PtxVersion"@,
            "Section"@,
        );
    }
    let a = seq![r] + syntax_notes(x);
    let b = a + qual_notes(x);
    let c = b + arch_notes(x);
    assert forall|k: int| 0 <= k < spec_input_notes(x).len() implies fits_its_model(
        #[trigger] spec_input_notes(x)[k],
    ) by {
        let n = spec_input_notes(x)[k];
        if k == 0 {
            assert(n == r);
        } else if k < a.len() {
            assert(n == syntax_notes(x)[k - 1]);
        } else if k < b.len() {
            assert(n == qual_notes(x)[k - a.len()]);
        } else if k < c.len() {
            assert(n == arch_notes(x)[k - b.len()]);
        } else {
            assert(n == version_notes(x)[k - c.len()]);
        }
    }
}

/// Every note is of one of the deck's note types and fills exactly the fields
/// that type declares.
pub proof fn law_notes_fit_their_models(inputs: Seq<InputSpec>)
    ensures
        forall|k: int|
            0 <= k < spec_all_notes(inputs).len() ==> fits_its_model(
                #[trigger] spec_all_notes(inputs)[k],
            ),
    decreases inputs.len(),
{
    if inputs.len() > 0 {
        let init = inputs.drop_last();
        law_notes_fit_their_models(init);
        lemma_input_notes_fit(inputs.last());
        let a = spec_all_notes(init);
        assert forall|k: int| 0 <= k < spec_all_notes(inputs).len() implies fits_its_model(
            #[trigger] spec_all_notes(inputs)[k],
        ) by {
            if k < a.len() {
                assert(spec_all_notes(inputs)[k] == a[k]);
            } else {
                assert(spec_all_notes(inputs)[k] == spec_input_notes(inputs.last())[k - a.len()]);
            }
        }
    }
}

// --- distinct note identities --------------------------------------------------------

/// The GUID seeds of one entry's notes, in note order.
pub open spec fn input_seeds(x: InputSpec) -> Seq<Seq<Seq<char>>> {
    let e = x.entry;
    seq![seq![e.id, spec_seed(CardKind::Recall)]] + (if e.syntax is Some {
        seq![seq![e.id, spec_seed(CardKind::Syntax)]]
    } else {
        Seq::empty()
    }) + e.qualifiers.map_values(|q: QualSpec| seq![e.id, spec_seed(CardKind::Qualifiers), q.0])
        + (if sm_text(e.arch) is Some {
        seq![seq![e.id, spec_seed(CardKind::Arch)]]
    } else {
        Seq::empty()
    }) + (if e.since_ptx is Some {
        seq![seq![e.id, spec_seed(CardKind::Version)]]
    } else {
        Seq::empty()
    })
}

pub open spec fn all_seeds(inputs: Seq<InputSpec>) -> Seq<Seq<Seq<char>>>
    decreases inputs.len(),
{
    if inputs.len() == 0 {
        Seq::empty()
    } else {
        all_seeds(inputs.drop_last()) + input_seeds(inputs.last())
    }
}

pub open spec fn distinct<A>(s: Seq<A>) -> bool {
    forall|i: int, j: int| 0 <= i < j < s.len() ==> s[i] != s[j]
}

proof fn lemma_distinct_concat<A>(a: Seq<A>, b: Seq<A>)
    requires
        distinct(a),
        distinct(b),
        forall|i: int, j: int| 0 <= i < a.len() && 0 <= j < b.len() ==> a[i] != b[j],
    ensures
        distinct(a + b),
{
    assert forall|i: int, j: int| 0 <= i < j < (a + b).len() implies (a + b)[i] != (a + b)[j] by {
        if j < a.len() {
        } else if i < a.len() {
            assert((a + b)[j] == b[j - a.len()]);
        } else {
            assert((a + b)[i] == b[i - a.len()]);
            assert((a + b)[j] == b[j - a.len()]);
        }
    }
}

proof fn lemma_seeds_distinct_literals()
    ensures
        spec_seed(CardKind::Recall) != spec_seed(CardKind::Syntax),
        spec_seed(CardKind::Recall) != spec_seed(CardKind::Qualifiers),
        spec_seed(CardKind::Recall) != spec_seed(CardKind::Arch),
        spec_seed(CardKind::Recall) != spec_seed(CardKind::Version),
        spec_seed(CardKind::Syntax) != spec_seed(CardKind::Qualifiers),
        spec_seed(CardKind::Syntax) != spec_seed(CardKind::Arch),
        spec_seed(CardKind::Syntax) != spec_seed(CardKind::Version),
        spec_seed(CardKind::Qualifiers) != spec_seed(CardKind::Arch),
        spec_seed(CardKind::Qualifiers) != spec_seed(CardKind::Version),
        spec_seed(CardKind::Arch) != spec_seed(CardKind::Version),
{
    reveal_strlit("recall");
    reveal_strlit("syntax");
    reveal_strlit("qual");
    reveal_strlit("arch");
    reveal_strlit("version");
    assert(spec_seed(CardKind::Recall)[0] == 'r');
    assert(spec_seed(CardKind::Syntax)[0] == 's');
    assert(spec_seed(CardKind::Qualifiers)[0] == 'q');
    assert(spec_seed(CardKind::Arch)[0] == 'a');
    assert(spec_seed(CardKind::Version)[0] == 'v');
}

/// Every seed of `s` has `id` first and is a two-part seed ending in `kind`
/// or, for `Qualifiers`, a three-part one with `kind` second.
spec fn seeds_of_kind(s: Seq<Seq<Seq<char>>>, id: Seq<char>, kind: CardKind) -> bool {
    forall|i: int|
        0 <= i < s.len() ==> (#[trigger] s[i]).len() >= 2 && s[i][0] == id && s[i][1] == spec_seed(
            kind,
        ) && (s[i].len() == 3 <==> kind == CardKind::Qualifiers)
}

proof fn lemma_kinds_apart(
    a: Seq<Seq<Seq<char>>>,
    b: Seq<Seq<Seq<char>>>,
    id: Seq<char>,
    ka: CardKind,
    kb: CardKind,
)
    requires
        seeds_of_kind(a, id, ka),
        seeds_of_kind(b, id, kb),
        ka != kb,
    ensures
        forall|i: int, j: int| 0 <= i < a.len() && 0 <= j < b.len() ==> a[i] != b[j],
{
    lemma_seeds_distinct_literals();
    assert forall|i: int, j: int| 0 <= i < a.len() && 0 <= j < b.len() implies a[i] != b[j] by {
        assert(a[i][1] == spec_seed(ka));
        assert(b[j][1] == spec_seed(kb));
    }
}

proof fn lemma_input_seeds_distinct(x: InputSpec)
    requires
        distinct(qual_names(x.entry.qualifiers)),
    ensures
        distinct(input_seeds(x)),
        forall|i: int| 0 <= i < input_seeds(x).len() ==> (#[trigger] input_seeds(x)[i]).len() >= 1 && input_seeds(x)[i][0] == x.entry.id,
{
    let e = x.entry;
    let r = seq![seq![e.id, spec_seed(CardKind::Recall)]];
    let sy = if e.syntax is Some {
        seq![seq![e.id, spec_seed(CardKind::Syntax)]]
    } else {
        Seq::empty()
    };
    let q = e.qualifiers.map_values(|q: QualSpec| seq![e.id, spec_seed(CardKind::Qualifiers), q.0]);
    let ar = if sm_text(e.arch) is Some {
        seq![seq![e.id, spec_seed(CardKind::Arch)]]
    } else {
        Seq::empty()
    };
    let v = if e.since_ptx is Some {
        seq![seq![e.id, spec_seed(CardKind::Version)]]
    } else {
        Seq::empty()
    };
    assert(input_seeds(x) == r + sy + q + ar + v);
    assert(seeds_of_kind(r, e.id, CardKind::Recall));
    assert(seeds_of_kind(sy, e.id, CardKind::Syntax));
    assert(seeds_of_kind(q, e.id, CardKind::Qualifiers));
    assert(seeds_of_kind(ar, e.id, CardKind::Arch));
    assert(seeds_of_kind(v, e.id, CardKind::Version));
    assert(distinct(q)) by {
        assert forall|i: int, j: int| 0 <= i < j < q.len() implies q[i] != q[j] by {
            assert(qual_names(e.qualifiers)[i] == e.qualifiers[i].0);
            assert(qual_names(e.qualifiers)[j] == e.qualifiers[j].0);
            assert(q[i][2] == e.qualifiers[i].0);
            assert(q[j][2] == e.qualifiers[j].0);
        }
    }
    lemma_kinds_apart(r, sy, e.id, CardKind::Recall, CardKind::Syntax);
    lemma_distinct_concat(r, sy);
    let rs = r + sy;
    lemma_kinds_apart(r, q, e.id, CardKind::Recall, CardKind::Qualifiers);
    lemma_kinds_apart(sy, q, e.id, CardKind::Syntax, CardKind::Qualifiers);
    assert forall|i: int, j: int| 0 <= i < rs.len() && 0 <= j < q.len() implies rs[i] != q[j] by {
        if i < r.len() {
            assert(rs[i] == r[i]);
        } else {
            assert(rs[i] == sy[i - r.len()]);
        }
    }
    lemma_distinct_concat(rs, q);
    let rsq = rs + q;
    lemma_kinds_apart(r, ar, e.id, CardKind::Recall, CardKind::Arch);
    lemma_kinds_apart(sy, ar, e.id, CardKind::Syntax, CardKind::Arch);
    lemma_kinds_apart(q, ar, e.id, CardKind::Qualifiers, CardKind::Arch);
    assert forall|i: int, j: int| 0 <= i < rsq.len() && 0 <= j < ar.len() implies rsq[i] != ar[j] by {
        if i < r.len() {
            assert(rsq[i] == r[i]);
        } else if i < rs.len() {
            assert(rsq[i] == sy[i - r.len()]);
        } else {
            assert(rsq[i] == q[i - rs.len()]);
        }
    }
    lemma_distinct_concat(rsq, ar);
    let rsqa = rsq + ar;
    lemma_kinds_apart(r, v, e.id, CardKind::Recall, CardKind::Version);
    lemma_kinds_apart(sy, v, e.id, CardKind::Syntax, CardKind::Version);
    lemma_kinds_apart(q, v, e.id, CardKind::Qualifiers, CardKind::Version);
    lemma_kinds_apart(ar, v, e.id, CardKind::Arch, CardKind::Version);
    assert forall|i: int, j: int| 0 <= i < rsqa.len() && 0 <= j < v.len() implies rsqa[i] != v[j] by {
        if i < r.len() {
            assert(rsqa[i] == r[i]);
        } else if i < rs.len() {
            assert(rsqa[i] == sy[i - r.len()]);
        } else if i < rsq.len() {
            assert(rsqa[i] == q[i - rs.len()]);
        } else {
            assert(rsqa[i] == ar[i - rsq.len()]);
        }
    }
    lemma_distinct_concat(rsqa, v);
    let all = rsqa + v;
    assert forall|i: int| 0 <= i < all.len() implies (#[trigger] all[i]).len() >= 1 && all[i][0] == e.id by {
        if i < r.len() {
            assert(all[i] == r[i]);
        } else if i < rs.len() {
            assert(all[i] == sy[i - r.len()]);
        } else if i < rsq.len() {
            assert(all[i] == q[i - rs.len()]);
        } else if i < rsqa.len() {
            assert(all[i] == ar[i - rsq.len()]);
        } else {
            assert(all[i] == v[i - rsqa.len()]);
        }
    }
}

pub open spec fn entry_ids(inputs: Seq<InputSpec>) -> Seq<Seq<char>> {
    inputs.map_values(|x: InputSpec| x.entry.id)
}

proof fn lemma_all_seeds_distinct(inputs: Seq<InputSpec>)
    requires
        distinct(entry_ids(inputs)),
        forall|k: int| 0 <= k < inputs.len() ==> distinct(qual_names(#[trigger] inputs[k].entry.qualifiers)),
    ensures
        distinct(all_seeds(inputs)),
        forall|i: int|
            0 <= i < all_seeds(inputs).len() ==> (#[trigger] all_seeds(inputs)[i]).len() >= 1
                && entry_ids(inputs).contains(all_seeds(inputs)[i][0]),
    decreases inputs.len(),
{
    if inputs.len() > 0 {
        let init = inputs.drop_last();
        let x = inputs.last();
        assert(entry_ids(init) =~= entry_ids(inputs).drop_last());
        assert forall|k: int| 0 <= k < init.len() implies distinct(qual_names(#[trigger] init[k].entry.qualifiers)) by {
            assert(init[k] == inputs[k]);
        }
        lemma_all_seeds_distinct(init);
        lemma_input_seeds_distinct(x);
        let a = all_seeds(init);
        let b = input_seeds(x);
        assert forall|i: int, j: int| 0 <= i < a.len() && 0 <= j < b.len() implies a[i] != b[j] by {
            let k = choose|k: int| 0 <= k < entry_ids(init).len() && entry_ids(init)[k] == a[i][0];
            assert(entry_ids(inputs)[k] == a[i][0]);
            assert(entry_ids(inputs)[inputs.len() - 1] == x.entry.id);
        }
        lemma_distinct_concat(a, b);
        assert forall|i: int| 0 <= i < all_seeds(inputs).len() implies (#[trigger] all_seeds(inputs)[i]).len() >= 1
            && entry_ids(inputs).contains(all_seeds(inputs)[i][0]) by {
            if i < a.len() {
                assert(all_seeds(inputs)[i] == a[i]);
                let k = choose|k: int| 0 <= k < entry_ids(init).len() && entry_ids(init)[k] == a[i][0];
                assert(entry_ids(inputs)[k] == a[i][0]);
            } else {
                assert(all_seeds(inputs)[i] == b[i - a.len()]);
                assert(entry_ids(inputs)[inputs.len() - 1] == x.entry.id);
            }
        }
    }
}

proof fn lemma_input_guids_are_seed_hashes(x: InputSpec)
    ensures
        guids_of(spec_input_notes(x)) == input_seeds(x).map_values(|s: Seq<Seq<char>>| crate::deck::spec_guid(s)),
{
    let e = x.entry;
    assert forall|k: int| 0 <= k < e.qualifiers.len() implies guids_of(qual_notes(x))[k]
        == crate::deck::spec_guid(seq![e.id, spec_seed(CardKind::Qualifiers), e.qualifiers[k].0]) by {
        assert(qual_notes(x)[k] == qual_note(x, e.qualifiers[k]));
    }
    assert(guids_of(spec_input_notes(x)) =~= input_seeds(x).map_values(|s: Seq<Seq<char>>| crate::deck::spec_guid(s)));
}

/// Each note's GUID is the hash of its seed, and the seeds of a deck are
/// pairwise distinct when entry ids are distinct and no entry repeats a
/// qualifier name (the parser never does): one seed per entry and card kind,
/// plus the qualifier name for qualifier notes.
pub proof fn law_note_seeds_are_distinct(inputs: Seq<InputSpec>)
    requires
        distinct(entry_ids(inputs)),
        forall|k: int| 0 <= k < inputs.len() ==> distinct(qual_names(#[trigger] inputs[k].entry.qualifiers)),
    ensures
        distinct(all_seeds(inputs)),
        guids_of(spec_all_notes(inputs)) == all_seeds(inputs).map_values(|s: Seq<Seq<char>>| crate::deck::spec_guid(s)),
    decreases inputs.len(),
{
    lemma_all_seeds_distinct(inputs);
    lemma_guids_are_seed_hashes(inputs);
}

proof fn lemma_guids_are_seed_hashes(inputs: Seq<InputSpec>)
    ensures
        guids_of(spec_all_notes(inputs)) == all_seeds(inputs).map_values(|s: Seq<Seq<char>>| crate::deck::spec_guid(s)),
    decreases inputs.len(),
{
    if inputs.len() > 0 {
        lemma_guids_are_seed_hashes(inputs.drop_last());
        lemma_input_guids_are_seed_hashes(inputs.last());
        lemma_guids_concat(spec_all_notes(inputs.drop_last()), spec_input_notes(inputs.last()));
        let f = |s: Seq<Seq<char>>| crate::deck::spec_guid(s);
        assert((all_seeds(inputs.drop_last()) + input_seeds(inputs.last())).map_values(f) =~= all_seeds(inputs.drop_last()).map_values(f) + input_seeds(inputs.last()).map_values(f));
    }
}

// --- filled fields -------------------------------------------------------------------

/// An entry with text wherever a note shows it: name, gloss and section
/// number; each qualifier list's name and first value; the syntax block, the
/// minimum architecture and the version where present.
pub open spec fn entry_filled(e: EntrySpec) -> bool {
    &&& e.name.len() > 0
    &&& e.gloss.len() > 0
    &&& e.section.len() > 0
    &&& forall|k: int|
        0 <= k < e.qualifiers.len() ==> (#[trigger] e.qualifiers[k]).0.len() > 0
            && e.qualifiers[k].1.len() > 0 && e.qualifiers[k].1[0].len() > 0
    &&& (e.syntax matches Some(s) ==> s.len() > 0)
    &&& (e.arch matches ArchSpec::Min(sm) ==> sm.len() > 0)
    &&& (e.since_ptx matches Some(v) ==> v.len() > 0)
}

pub open spec fn note_filled(n: NoteSpec) -> bool {
    forall|f: int| 0 <= f < n.fields.len() ==> (#[trigger] n.fields[f]).1.len() > 0
}

proof fn lemma_esc_len(s: Seq<char>)
    ensures
        crate::deck::spec_esc(s).len() >= s.len(),
    decreases s.len(),
{
    if s.len() > 0 {
        lemma_esc_len(s.drop_last());
    }
}

proof fn lemma_join_len(parts: Seq<Seq<char>>, sep: Seq<char>)
    requires
        parts.len() > 0,
    ensures
        crate::text::join(parts, sep).len() >= parts[0].len(),
    decreases parts.len(),
{
    if parts.len() > 1 {
        lemma_join_len(parts.drop_last(), sep);
    }
}

proof fn lemma_input_notes_filled(x: InputSpec)
    requires
        entry_filled(x.entry),
    ensures
        forall|k: int| 0 <= k < spec_input_notes(x).len() ==> note_filled(#[trigger] spec_input_notes(x)[k]),
{
    let e = x.entry;
    lemma_esc_len(e.name);
    lemma_esc_len(e.gloss);
    reveal_strlit("special register");
    reveal_strlit("directive");
    reveal_strlit("instruction");
    reveal_strlit("all target architectures");
    assert(crate::deck::spec_kind_word(e.section).len() > 0);
    let r = recall_note(x);
    assert(note_filled(r));
    if let Some(syn) = e.syntax {
        lemma_esc_len(syn);
        assert(note_filled(syntax_notes(x)[0]));
    }
    assert forall|k: int| 0 <= k < qual_notes(x).len() implies note_filled(#[trigger] qual_notes(x)[k]) by {
        let q = e.qualifiers[k];
        assert(qual_notes(x)[k] == qual_note(x, q));
        lemma_esc_len(q.0);
        lemma_join_len(q.1, "\n"@);
        lemma_esc_len(crate::text::join(q.1, "\n"@));
    }
    assert forall|k: int| 0 <= k < arch_notes(x).len() implies note_filled(#[trigger] arch_notes(x)[k]) by {
        assert(sm_text(e.arch) matches Some(sm) && sm.len() > 0);
    }
    let a = seq![r] + syntax_notes(x);
    let b = a + qual_notes(x);
    let c = b + arch_notes(x);
    assert forall|k: int| 0 <= k < spec_input_notes(x).len() implies note_filled(
        #[trigger] spec_input_notes(x)[k],
    ) by {
        let n = spec_input_notes(x)[k];
        if k == 0 {
            assert(n == r);
        } else if k < a.len() {
            assert(n == syntax_notes(x)[k - 1]);
        } else if k < b.len() {
            assert(n == qual_notes(x)[k - a.len()]);
        } else if k < c.len() {
            assert(n == arch_notes(x)[k - b.len()]);
        } else {
            assert(n == version_notes(x)[k - c.len()]);
        }
    }
}

/// Every note fills every field with non-empty text, given entries that have
/// text wherever a note shows it.
pub proof fn law_notes_fill_every_field(inputs: Seq<InputSpec>)
    requires
        forall|k: int| 0 <= k < inputs.len() ==> entry_filled(#[trigger] inputs[k].entry),
    ensures
        forall|k: int| 0 <= k < spec_all_notes(inputs).len() ==> note_filled(#[trigger] spec_all_notes(inputs)[k]),
    decreases inputs.len(),
{
    if inputs.len() > 0 {
        let init = inputs.drop_last();
        assert forall|k: int| 0 <= k < init.len() implies entry_filled(#[trigger] init[k].entry) by {
            assert(init[k] == inputs[k]);
        }
        law_notes_fill_every_field(init);
        lemma_input_notes_filled(inputs.last());
        let a = spec_all_notes(init);
        assert forall|k: int| 0 <= k < spec_all_notes(inputs).len() implies note_filled(
            #[trigger] spec_all_notes(inputs)[k],
        ) by {
            if k < a.len() {
                assert(spec_all_notes(inputs)[k] == a[k]);
            } else {
                assert(spec_all_notes(inputs)[k] == spec_input_notes(inputs.last())[k - a.len()]);
            }
        }
    }
}

// --- notes per entry -----------------------------------------------------------------

/// An entry's notes depend on that entry alone: the notes of two lists of
/// entries together are the notes of the first followed by those of the
/// second. Selecting fewer modules drops notes but never changes the others.
pub proof fn law_notes_are_per_entry(a: Seq<InputSpec>, b: Seq<InputSpec>)
    ensures
        spec_all_notes(a + b) == spec_all_notes(a) + spec_all_notes(b),
    decreases b.len(),
{
    if b.len() == 0 {
        assert(a + b =~= a);
        assert(spec_all_notes(a) + spec_all_notes(b) =~= spec_all_notes(a));
    } else {
        law_notes_are_per_entry(a, b.drop_last());
        assert((a + b).drop_last() =~= a + b.drop_last());
        assert((a + b).last() == b.last());
        assert(spec_all_notes(a + b) =~= spec_all_notes(a) + spec_all_notes(b));
    }
}

// --- escaping -------------------------------------------------------------------

/// HTML entity decoding, left to right: `&amp;`, `&lt;` and `&gt;` become
/// `&`, `<` and `>`; every other character stands for itself.
pub open spec fn unescape(t: Seq<char>) -> Seq<char>
    decreases t.len(),
{
    if t.len() == 0 {
        Seq::empty()
    } else if t.len() >= 5 && t.take(5) == seq!['&', 'a', 'm', 'p', ';'] {
        seq!['&'] + unescape(t.skip(5))
    } else if t.len() >= 4 && t.take(4) == seq!['&', 'l', 't', ';'] {
        seq!['<'] + unescape(t.skip(4))
    } else if t.len() >= 4 && t.take(4) == seq!['&', 'g', 't', ';'] {
        seq!['>'] + unescape(t.skip(4))
    } else {
        seq![t[0]] + unescape(t.skip(1))
    }
}

proof fn lemma_esc_append(a: Seq<char>, b: Seq<char>)
    ensures
        spec_esc(a + b) == spec_esc(a) + spec_esc(b),
    decreases b.len(),
{
    if b.len() == 0 {
        assert(a + b =~= a);
        assert(spec_esc(a) + spec_esc(b) =~= spec_esc(a));
    } else {
        lemma_esc_append(a, b.drop_last());
        assert((a + b).drop_last() =~= a + b.drop_last());
        assert((a + b).last() == b.last());
        assert(spec_esc(a + b) =~= spec_esc(a) + spec_esc(b));
    }
}

proof fn lemma_unescape_esc_char(c: char, rest: Seq<char>)
    ensures
        unescape(esc_char(c) + rest) == seq![c] + unescape(rest),
{
    let t = esc_char(c) + rest;
    if c == '&' {
        assert(t.take(5) =~= seq!['&', 'a', 'm', 'p', ';']);
        assert(t.skip(5) =~= rest);
    } else if c == '<' {
        assert(!(t.len() >= 5 && t.take(5) == seq!['&', 'a', 'm', 'p', ';'])) by {
            if t.len() >= 5 {
                assert(t.take(5)[1] == 'l');
            }
        }
        assert(t.take(4) =~= seq!['&', 'l', 't', ';']);
        assert(t.skip(4) =~= rest);
    } else if c == '>' {
        assert(!(t.len() >= 5 && t.take(5) == seq!['&', 'a', 'm', 'p', ';'])) by {
            if t.len() >= 5 {
                assert(t.take(5)[1] == 'g');
            }
        }
        assert(t.take(4) != seq!['&', 'l', 't', ';']) by {
            assert(t.take(4)[1] == 'g');
        }
        assert(t.take(4) =~= seq!['&', 'g', 't', ';']);
        assert(t.skip(4) =~= rest);
    } else {
        assert(t[0] == c);
        assert(t.len() >= 5 ==> t.take(5)[0] == c);
        assert(t.len() >= 4 ==> t.take(4)[0] == c);
        assert(t.skip(1) =~= rest);
    }
}

/// Decoding escaped text gives back the text: the escaping loses nothing,
/// whatever entities the text already held.
pub proof fn law_unescaping_gives_back_the_text(s: Seq<char>)
    ensures
        unescape(spec_esc(s)) == s,
    decreases s.len(),
{
    if s.len() > 0 {
        let c = s[0];
        let rest = s.drop_first();
        assert(s =~= seq![c] + rest);
        lemma_esc_append(seq![c], rest);
        assert(seq![c].drop_last() =~= Seq::<char>::empty());
        assert(seq![c].last() == c);
        assert(spec_esc(Seq::<char>::empty()) =~= Seq::<char>::empty());
        assert(spec_esc(seq![c]) =~= esc_char(c));
        lemma_unescape_esc_char(c, spec_esc(rest));
        law_unescaping_gives_back_the_text(rest);
    }
}

// --- field order ----------------------------------------------------------------

/// The field names strictly ascend in `String` order, as the keys of a
/// `BTreeMap` do: each name once, sorted.
pub open spec fn keys_ascending(fs: Seq<(Seq<char>, Seq<char>)>) -> bool {
    forall|i: int, j: int| 0 <= i < j < fs.len() ==> lex_lt(#[trigger] fs[i].0, #[trigger] fs[j].0)
}

proof fn lemma_chain(fs: Seq<(Seq<char>, Seq<char>)>, i: int, j: int)
    requires
        0 <= i < j < fs.len(),
        forall|k: int| 0 <= k < fs.len() - 1 ==> lex_lt(#[trigger] fs[k].0, fs[k + 1].0),
    ensures
        lex_lt(fs[i].0, fs[j].0),
    decreases j - i,
{
    if j > i + 1 {
        lemma_chain(fs, i, j - 1);
        assert(lex_lt(fs[j - 1].0, fs[j].0));
        lemma_lex_transitive(fs[i].0, fs[j - 1].0, fs[j].0);
    }
}

proof fn lemma_ascending_from_adjacent(fs: Seq<(Seq<char>, Seq<char>)>)
    requires
        forall|k: int| 0 <= k < fs.len() - 1 ==> lex_lt(#[trigger] fs[k].0, fs[k + 1].0),
    ensures
        keys_ascending(fs),
{
    assert forall|i: int, j: int| 0 <= i < j < fs.len() implies lex_lt(
        #[trigger] fs[i].0,
        #[trigger] fs[j].0,
    ) by {
        lemma_chain(fs, i, j);
    }
}

proof fn lemma_field_names_order()
    ensures
        lex_lt("Gloss"@, "Kind"@),
        lex_lt("Gloss"@, "Name"@),
        lex_lt("Kind"@, "Name"@),
        lex_lt("Name"@, "Section"@),
        lex_lt("Name"@, "Qualifier"@),
        lex_lt("Name"@, "PtxVersion"@),
        lex_lt("Qualifier"@, "Section"@),
        lex_lt("PtxVersion"@, "Section"@),
        lex_lt("Section"@, "Syntax"@),
        lex_lt("Section"@, "Values"@),
        lex_lt("Section"@, "Sm"@),
{
    reveal_strlit("Gloss");
    reveal_strlit("Kind");
    reveal_strlit("Name");
    reveal_strlit("Section");
    reveal_strlit("Qualifier");
    reveal_strlit("PtxVersion");
    reveal_strlit("Syntax");
    reveal_strlit("Values");
    reveal_strlit("Sm");
    reveal_with_fuel(lex_lt, 3);
}

proof fn lemma_input_fields_sorted(x: InputSpec)
    ensures
        forall|j: int|
            0 <= j < spec_input_notes(x).len() ==> keys_ascending(
                #[trigger] spec_input_notes(x)[j].fields,
            ),
{
    lemma_field_names_order();
    let ns = spec_input_notes(x);
    let r = recall_note(x);
    lemma_ascending_from_adjacent(r.fields);
    assert forall|q: QualSpec| true implies keys_ascending(#[trigger] qual_note(x, q).fields) by {
        lemma_ascending_from_adjacent(qual_note(x, q).fields);
    }
    let sy = syntax_notes(x);
    let qs = qual_notes(x);
    let ar = arch_notes(x);
    let ve = version_notes(x);
    if sy.len() > 0 {
        lemma_ascending_from_adjacent(sy[0].fields);
    }
    if ar.len() > 0 {
        lemma_ascending_from_adjacent(ar[0].fields);
    }
    if ve.len() > 0 {
        lemma_ascending_from_adjacent(ve[0].fields);
    }
    assert(ns =~= seq![r] + sy + qs + ar + ve);
    assert forall|j: int| 0 <= j < ns.len() implies keys_ascending(#[trigger] ns[j].fields) by {
        if j < 1 {
        } else if j < 1 + sy.len() {
            assert(ns[j] == sy[j - 1]);
        } else if j < 1 + sy.len() + qs.len() {
            assert(ns[j] == qs[j - 1 - sy.len()]);
            assert(qs[j - 1 - sy.len()] == qual_note(x, x.entry.qualifiers[j - 1 - sy.len()]));
        } else if j < 1 + sy.len() + qs.len() + ar.len() {
            assert(ns[j] == ar[j - 1 - sy.len() - qs.len()]);
        } else {
            assert(ns[j] == ve[j - 1 - sy.len() - qs.len() - ar.len()]);
        }
    }
}

/// Every note's fields are listed once each, by ascending field name, as the
/// keys of a `BTreeMap` would be.
pub proof fn law_note_fields_are_sorted(inputs: Seq<InputSpec>)
    ensures
        forall|k: int|
            0 <= k < spec_all_notes(inputs).len() ==> keys_ascending(
                #[trigger] spec_all_notes(inputs)[k].fields,
            ),
    decreases inputs.len(),
{
    if inputs.len() > 0 {
        let init = inputs.drop_last();
        law_note_fields_are_sorted(init);
        lemma_input_fields_sorted(inputs.last());
        let a = spec_all_notes(init);
        let b = spec_input_notes(inputs.last());
        assert forall|k: int| 0 <= k < spec_all_notes(inputs).len() implies keys_ascending(
            #[trigger] spec_all_notes(inputs)[k].fields,
        ) by {
            if k < a.len() {
                assert(spec_all_notes(inputs)[k] == a[k]);
            } else {
                assert(spec_all_notes(inputs)[k] == b[k - a.len()]);
            }
        }
    }
}

// --- the notes of an entry ---------------------------------------------------------

/// The note types of an entry's notes, in order: `PTX Recall`; `PTX Syntax`
/// if it has a syntax block; one `PTX Qualifiers` per qualifier list; `PTX
/// Arch` unless its architecture is unknown; `PTX Version` if it names the
/// version that introduced it.
pub open spec fn entry_note_models(x: InputSpec) -> Seq<Seq<char>> {
    let e = x.entry;
    seq!["PTX Recall"@] + (if e.syntax is Some {
        seq!["PTX Syntax"@]
    } else {
        Seq::empty()
    }) + Seq::new(e.qualifiers.len(), |j: int| "PTX Qualifiers"@) + (if e.arch is Unknown {
        Seq::empty()
    } else {
        seq!["PTX Arch"@]
    }) + (if e.since_ptx is Some {
        seq!["PTX Version"@]
    } else {
        Seq::empty()
    })
}

/// The tags every note of an entry carries: the module tag, the category,
/// then `ptx::sm_NN` for a minimum architecture or `ptx::all-architectures`
/// when every architecture is supported.
pub open spec fn entry_tags(x: InputSpec) -> Seq<Seq<char>> {
    seq![crate::module::spec_module_tag(x.module), x.category] + match x.entry.arch {
        ArchSpec::Min(sm) => seq!["ptx::"@ + sm],
        ArchSpec::All => seq!["ptx::all-architectures"@],
        ArchSpec::Unknown => Seq::empty(),
    }
}

/// Position of an entry's first Qualifiers note: after its Recall note and
/// its Syntax note, if any.
pub open spec fn first_qual_note(x: InputSpec) -> int {
    if x.entry.syntax is Some {
        2
    } else {
        1
    }
}

/// An entry's notes are, in order, a Recall note, a Syntax note if it has a
/// syntax block, one Qualifiers note per qualifier list (in list order, each
/// naming its list), an Arch note unless the architecture is unknown and a
/// Version note if the introducing version is known. Every one of them carries
/// the entry's tags and goes to the deck of its kind under the entry's module.
pub proof fn law_entry_notes(x: InputSpec)
    ensures
        spec_input_notes(x).map_values(|n: NoteSpec| n.model) == entry_note_models(x),
        forall|j: int|
            0 <= j < spec_input_notes(x).len() ==> (#[trigger] spec_input_notes(x)[j]).tags
                == entry_tags(x),
        forall|j: int|
            0 <= j < x.entry.qualifiers.len() ==> spec_input_notes(x)[first_qual_note(x) + j].fields[2]
                == ("Qualifier"@, spec_esc((#[trigger] x.entry.qualifiers[j]).0)),
{
    let e = x.entry;
    let r = seq![recall_note(x)];
    let sy = syntax_notes(x);
    let qs = qual_notes(x);
    let ar = arch_notes(x);
    let ve = version_notes(x);
    let ns = spec_input_notes(x);
    assert(ns =~= r + sy + qs + ar + ve);
    let ms = ns.map_values(|n: NoteSpec| n.model);
    let em = entry_note_models(x);
    assert(ms.len() == em.len());
    assert forall|j: int| 0 <= j < ms.len() implies ms[j] == em[j] by {
        if j < 1 {
        } else if j < 1 + sy.len() {
            assert(ns[j] == sy[j - 1]);
        } else if j < 1 + sy.len() + qs.len() {
            assert(ns[j] == qs[j - 1 - sy.len()]);
        } else if j < 1 + sy.len() + qs.len() + ar.len() {
            assert(ns[j] == ar[j - 1 - sy.len() - qs.len()]);
        } else {
            assert(ns[j] == ve[j - 1 - sy.len() - qs.len() - ar.len()]);
        }
    }
    assert(ms =~= em);
    assert(crate::deck::note_tags(x) =~= entry_tags(x));
    assert forall|j: int| 0 <= j < ns.len() implies (#[trigger] ns[j]).tags == entry_tags(x) by {
        if j < 1 {
        } else if j < 1 + sy.len() {
            assert(ns[j] == sy[j - 1]);
        } else if j < 1 + sy.len() + qs.len() {
            assert(ns[j] == qs[j - 1 - sy.len()]);
        } else if j < 1 + sy.len() + qs.len() + ar.len() {
            assert(ns[j] == ar[j - 1 - sy.len() - qs.len()]);
        } else {
            assert(ns[j] == ve[j - 1 - sy.len() - qs.len() - ar.len()]);
        }
    }
    assert forall|j: int| 0 <= j < e.qualifiers.len() implies ns[first_qual_note(x) + j].fields[2]
        == ("Qualifier"@, spec_esc((#[trigger] e.qualifiers[j]).0)) by {
        assert(ns[1 + sy.len() + j] == qs[j]);
    }
}

/// The notes of a deck are those of its entries, entry after entry: the notes
/// of entry `i` sit between those of the entries before and after it.
pub proof fn law_notes_come_entry_by_entry(inputs: Seq<InputSpec>, i: int)
    requires
        0 <= i < inputs.len(),
    ensures
        spec_all_notes(inputs) == spec_all_notes(inputs.take(i)) + spec_input_notes(inputs[i])
            + spec_all_notes(inputs.skip(i + 1)),
{
    let a = inputs.take(i);
    let b = seq![inputs[i]];
    let c = inputs.skip(i + 1);
    assert(inputs =~= a + b + c);
    law_notes_are_per_entry(a + b, c);
    law_notes_are_per_entry(a, b);
    assert(b.drop_last() =~= Seq::<InputSpec>::empty());
    assert(b.last() == inputs[i]);
    assert(spec_all_notes(Seq::<InputSpec>::empty()) =~= Seq::<NoteSpec>::empty());
    assert(spec_all_notes(b) =~= spec_input_notes(inputs[i]));
}

// --- every deck is needed ------------------------------------------------------------

/// `d` is the module deck of one of the inputs or the deck of one of their
/// notes.
pub open spec fn deck_needed(inputs: Seq<InputSpec>, d: Seq<char>) -> bool {
    ||| exists|k: int| 0 <= k < inputs.len() && d == module_deck(#[trigger] inputs[k].module)
    ||| exists|k: int| 0 <= k < spec_all_notes(inputs).len() && d == (#[trigger] spec_all_notes(inputs)[k]).deck
}

proof fn lemma_pushes_needed(inputs: Seq<InputSpec>)
    ensures
        forall|t: int| 0 <= t < deck_pushes(inputs).len() ==> deck_needed(inputs, #[trigger] deck_pushes(inputs)[t]),
    decreases inputs.len(),
{
    if inputs.len() > 0 {
        let init = inputs.drop_last();
        let x = inputs.last();
        lemma_pushes_needed(init);
        let p = deck_pushes(init);
        let ns = spec_input_notes(x);
        let s = deck_pushes(inputs);
        let a = spec_all_notes(init);
        let all = spec_all_notes(inputs);
        assert(s =~= p + seq![module_deck(x.module)] + note_decks(ns));
        assert(all =~= a + ns);
        assert forall|t: int| 0 <= t < s.len() implies deck_needed(inputs, #[trigger] s[t]) by {
            if t < p.len() {
                assert(s[t] == p[t]);
                assert(deck_needed(init, p[t]));
                if exists|k: int| 0 <= k < init.len() && p[t] == module_deck(#[trigger] init[k].module) {
                    let k = choose|k: int| 0 <= k < init.len() && p[t] == module_deck(#[trigger] init[k].module);
                    assert(inputs[k] == init[k]);
                } else {
                    let k = choose|k: int| 0 <= k < a.len() && p[t] == (#[trigger] a[k]).deck;
                    assert(all[k] == a[k]);
                }
            } else if t == p.len() {
                assert(inputs[inputs.len() - 1] == x);
            } else {
                let j = t - p.len() - 1;
                assert(s[t] == ns[j].deck);
                assert(all[a.len() + j] == ns[j]);
            }
        }
    }
}

/// Every deck but the root is needed: it is the module deck of some entry or
/// the deck of some note. With the deck-tree law, the deck names are exactly
/// the root, the entries' module decks and the notes' decks.
pub proof fn law_every_deck_is_needed(inputs: Seq<InputSpec>)
    ensures
        forall|j: int|
            0 < j < spec_deck_names(inputs).len() ==> deck_needed(inputs, #[trigger] spec_deck_names(inputs)[j]),
{
    let root = seq![crate::deck::DECK_ROOT@];
    let s = deck_pushes(inputs);
    let names = spec_deck_names(inputs);
    lemma_dedup_into(root, s);
    lemma_pushes_needed(inputs);
    assert forall|j: int| 0 < j < names.len() implies deck_needed(inputs, #[trigger] names[j]) by {
        assert(names.contains(names[j]));
        assert(names[0] == root[0]);
        assert(names[j] != names[0]);
        if root.contains(names[j]) {
            assert(root[0] == names[j]);
        }
        let t = choose|t: int| 0 <= t < s.len() && s[t] == names[j];
        assert(deck_needed(inputs, s[t]));
    }
}

// --- what the notes say -------------------------------------------------------------

/// Field `k` of `fs` has text `v`.
pub open spec fn has_field(fs: Seq<(Seq<char>, Seq<char>)>, k: Seq<char>, v: Seq<char>) -> bool {
    exists|i: int| 0 <= i < fs.len() && fs[i] == (k, v)
}

/// Every note of an entry shows the entry's escaped name and gloss and its
/// section number. The Recall note also names the entry's kind; the Syntax
/// note shows the escaped syntax block; each Qualifiers note its list's
/// escaped name and its values, escaped, one per line; the Arch note the
/// minimum `sm_NN` or "all target architectures"; the Version note the
/// version.
pub proof fn law_notes_show_the_entry(x: InputSpec)
    ensures
        forall|j: int|
            0 <= j < spec_input_notes(x).len() ==> {
                let fs = (#[trigger] spec_input_notes(x)[j]).fields;
                &&& has_field(fs, "Name"@, spec_esc(x.entry.name))
                &&& has_field(fs, "Gloss"@, spec_esc(x.entry.gloss))
                &&& has_field(fs, "Section"@, x.entry.section)
            },
        has_field(spec_input_notes(x)[0].fields, "Kind"@, crate::deck::spec_kind_word(x.entry.section)),
        x.entry.syntax matches Some(sy) ==> has_field(spec_input_notes(x)[1].fields, "Syntax"@, spec_esc(sy)),
        forall|q: int|
            0 <= q < x.entry.qualifiers.len() ==> {
                let fs = spec_input_notes(x)[first_qual_note(x) + q].fields;
                let l = #[trigger] x.entry.qualifiers[q];
                &&& has_field(fs, "Qualifier"@, spec_esc(l.0))
                &&& has_field(fs, "Values"@, spec_esc(crate::text::join(l.1, "\n"@)))
            },
        x.entry.arch matches ArchSpec::Min(sm) ==> has_field(
            spec_input_notes(x)[first_qual_note(x) + x.entry.qualifiers.len()].fields,
            "Sm"@,
            sm,
        ),
        x.entry.arch is All ==> has_field(
            spec_input_notes(x)[first_qual_note(x) + x.entry.qualifiers.len()].fields,
            "Sm"@,
            "all target architectures"@,
        ),
        x.entry.since_ptx matches Some(v) ==> has_field(spec_input_notes(x).last().fields, "PtxVersion"@, v),
{
    let e = x.entry;
    let r = seq![recall_note(x)];
    let sy = syntax_notes(x);
    let qs = qual_notes(x);
    let ar = arch_notes(x);
    let ve = version_notes(x);
    let ns = spec_input_notes(x);
    assert(ns =~= r + sy + qs + ar + ve);
    assert forall|j: int| 0 <= j < ns.len() implies {
        let fs = (#[trigger] ns[j]).fields;
        &&& has_field(fs, "Name"@, spec_esc(e.name))
        &&& has_field(fs, "Gloss"@, spec_esc(e.gloss))
        &&& has_field(fs, "Section"@, e.section)
    } by {
        let fs = ns[j].fields;
        if j < 1 {
            assert(fs[2] == ("Name"@, spec_esc(e.name)));
            assert(fs[0] == ("Gloss"@, spec_esc(e.gloss)));
            assert(fs[3] == ("Section"@, e.section));
        } else if j < 1 + sy.len() {
            assert(ns[j] == sy[j - 1]);
            assert(fs[1] == ("Name"@, spec_esc(e.name)));
            assert(fs[0] == ("Gloss"@, spec_esc(e.gloss)));
            assert(fs[2] == ("Section"@, e.section));
        } else if j < 1 + sy.len() + qs.len() {
            assert(ns[j] == qs[j - 1 - sy.len()]);
            assert(qs[j - 1 - sy.len()] == qual_note(x, e.qualifiers[j - 1 - sy.len()]));
            assert(fs[1] == ("Name"@, spec_esc(e.name)));
            assert(fs[0] == ("Gloss"@, spec_esc(e.gloss)));
            assert(fs[3] == ("Section"@, e.section));
        } else if j < 1 + sy.len() + qs.len() + ar.len() {
            assert(ns[j] == ar[j - 1 - sy.len() - qs.len()]);
            assert(fs[1] == ("Name"@, spec_esc(e.name)));
            assert(fs[0] == ("Gloss"@, spec_esc(e.gloss)));
            assert(fs[2] == ("Section"@, e.section));
        } else {
            assert(ns[j] == ve[j - 1 - sy.len() - qs.len() - ar.len()]);
            assert(fs[1] == ("Name"@, spec_esc(e.name)));
            assert(fs[0] == ("Gloss"@, spec_esc(e.gloss)));
            assert(fs[3] == ("Section"@, e.section));
        }
    }
    assert(ns[0].fields[1] == ("Kind"@, crate::deck::spec_kind_word(e.section)));
    if let Some(t) = e.syntax {
        assert(ns[1] == sy[0]);
        assert(ns[1].fields[3] == ("Syntax"@, spec_esc(t)));
    }
    assert forall|q: int| 0 <= q < e.qualifiers.len() implies {
        let fs = ns[first_qual_note(x) + q].fields;
        let l = #[trigger] e.qualifiers[q];
        &&& has_field(fs, "Qualifier"@, spec_esc(l.0))
        &&& has_field(fs, "Values"@, spec_esc(crate::text::join(l.1, "\n"@)))
    } by {
        assert(ns[first_qual_note(x) + q] == qs[q]);
        let fs = qs[q].fields;
        assert(fs[2] == ("Qualifier"@, spec_esc(e.qualifiers[q].0)));
        assert(fs[4] == ("Values"@, spec_esc(crate::text::join(e.qualifiers[q].1, "\n"@))));
    }
    let a = first_qual_note(x) + e.qualifiers.len();
    if !(e.arch is Unknown) {
        assert(ns[a] == ar[0]);
        assert(ar[0].fields[3] == ("Sm"@, crate::deck::sm_text(e.arch)->0));
    }
    if let Some(v) = e.since_ptx {
        assert(ns.last() == ve[0]);
        assert(ve[0].fields[2] == ("PtxVersion"@, v));
    }
}

/// Each card kind has a subdeck named after it under every module, except
/// that Arch and Version cards share the `Arch` subdeck; module decks are
/// named `PTX ISA::` and the module's deck name.
pub proof fn law_subdeck_names(m: crate::module::Module)
    ensures
        module_deck(m) == "PTX ISA::"@ + crate::module::spec_module_deck_name(m),
        kind_deck(m, CardKind::Recall) == module_deck(m) + "::Recall"@,
        kind_deck(m, CardKind::Syntax) == module_deck(m) + "::Syntax"@,
        kind_deck(m, CardKind::Qualifiers) == module_deck(m) + "::Qualifiers"@,
        kind_deck(m, CardKind::Arch) == module_deck(m) + "::Arch"@,
        kind_deck(m, CardKind::Version) == kind_deck(m, CardKind::Arch),
{
    reveal_strlit("PTX ISA::");
    reveal_strlit("PTX ISA");
    reveal_strlit("::");
    reveal_strlit("::Recall");
    reveal_strlit("Recall");
    reveal_strlit("::Syntax");
    reveal_strlit("Syntax");
    reveal_strlit("::Qualifiers");
    reveal_strlit("Qualifiers");
    reveal_strlit("::Arch");
    reveal_strlit("Arch");
    assert(crate::deck::DECK_ROOT@ + "::"@ =~= "PTX ISA::"@);
    assert(module_deck(m) =~= "PTX ISA::"@ + crate::module::spec_module_deck_name(m));
    assert(kind_deck(m, CardKind::Recall) =~= module_deck(m) + "::Recall"@);
    assert(kind_deck(m, CardKind::Syntax) =~= module_deck(m) + "::Syntax"@);
    assert(kind_deck(m, CardKind::Qualifiers) =~= module_deck(m) + "::Qualifiers"@);
    assert(kind_deck(m, CardKind::Arch) =~= module_deck(m) + "::Arch"@);
}

} // verus!
