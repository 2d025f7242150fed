//! The decisions of the command-line tool: which entries go into the deck,
//! which modules `--modules` names, and the numbers of its two reports.
use crate::deck::{notes_view, DeckDefinition, Input, InputSpec, ModelSpec, NoteDef, NoteSpec};
use crate::module::{spec_classify, spec_parse_slug, split_char, Module};
use crate::parse::{entries_view, Entry, EntrySpec};
use crate::text::{lex_lt, trim};
use vstd::prelude::*;

verus! {

// --- selecting entries --------------------------------------------------------------

pub open spec fn wanted(modules: Option<Seq<Module>>, m: Module) -> bool {
    match modules {
        Some(ms) => ms.contains(m),
        None => true,
    }
}

/// The classified entries, in order: those whose section number classifies,
/// with their module and category, kept when their module is wanted.
pub open spec fn spec_select(entries: Seq<EntrySpec>, modules: Option<Seq<Module>>) -> Seq<InputSpec>
    decreases entries.len(),
{
    if entries.len() == 0 {
        Seq::empty()
    } else {
        let r = spec_select(entries.drop_last(), modules);
        let e = entries.last();
        match spec_classify(e.section) {
            Some((m, c)) => if wanted(modules, m) {
                r.push(InputSpec { module: m, category: c, entry: e })
            } else {
                r
            },
            None => r,
        }
    }
}

pub open spec fn modules_view(modules: Option<&Vec<Module>>) -> Option<Seq<Module>> {
    match modules {
        Some(v) => Some(v@),
        None => None,
    }
}

fn is_wanted(modules: Option<&Vec<Module>>, m: Module) -> (r: bool)
    ensures
        r == wanted(modules_view(modules), m),
{
    match modules {
        None => true,
        Some(v) => {
            assert(modules_view(modules) == Some(v@));
            let mut k: usize = 0;
            while k < v.len()
                invariant
                    k <= v.len(),
                    modules_view(modules) == Some(v@),
                    forall|j: int| 0 <= j < k ==> v@[j] != m,
                decreases v.len() - k,
            {
                let here = v[k];
                if here == m {
                    assert(v@[k as int] == m);
                    return true;
                }
                k = k + 1;
            }
            assert(!v@.contains(m));
            false
        },
    }
}

/// Classifies every entry by its section number and keeps those in a wanted
/// module (all modules when `modules` is `None`). Filtering drops whole
/// subdecks but never renumbers the rest: GUIDs are per-entry.
pub fn select_inputs(entries: Vec<Entry>, modules: Option<&Vec<Module>>) -> (r: Vec<Input>)
    ensures
        crate::deck::inputs_view(r@) == spec_select(entries_view(entries@), modules_view(modules)),
{
    let ghost orig = entries@;
    let ghost all = entries_view(entries@);
    let ghost ms = modules_view(modules);
    let n = entries.len();
    // Reverse the entries by popping them, then pop them back in order.
    let mut src = entries;
    let mut rev: Vec<Entry> = Vec::new();
    while src.len() > 0
        invariant
            n == orig.len(),
            src.len() + rev.len() == n,
            src@ == orig.take(src.len() as int),
            forall|j: int| 0 <= j < rev.len() ==> rev@[j] == orig[n - 1 - j],
        decreases src.len(),
    {
        let ghost k = src.len();
        let e = src.pop().unwrap();
        assert(e == orig[k - 1]);
        rev.push(e);
        assert(src@ =~= orig.take(src.len() as int));
    }
    let mut r: Vec<Input> = Vec::new();
    let mut i: usize = 0;
    assert(all.take(0) =~= Seq::<EntrySpec>::empty());
    while i < n
        invariant
            i <= n,
            n == all.len(),
            all == entries_view(orig),
            ms == modules_view(modules),
            rev.len() == n - i,
            forall|j: int| 0 <= j < rev.len() ==> rev@[j] == orig[n - 1 - j],
            crate::deck::inputs_view(r@) == spec_select(all.take(i as int), ms),
        decreases n - i,
    {
        let e = rev.pop().unwrap();
        assert(e == orig[i as int]);
        assert(all[i as int] == e@);
        assert(all.take(i + 1).drop_last() =~= all.take(i as int));
        match crate::module::classify(e.section.as_str()) {
            Some((m, c)) => {
                if is_wanted(modules, m) {
                    let inp = Input { module: m, category: c, entry: e };
                    let ghost before = r@;
                    r.push(inp);
                    assert(crate::deck::inputs_view(r@) =~= crate::deck::inputs_view(before).push(
                        inp@,
                    ));
                }
            },
            None => {},
        }
        i = i + 1;
    }
    assert(all.take(n as int) =~= all);
    r
}

// --- the module list ------------------------------------------------------------------

/// The modules named by the comma-separated pieces `ps`, ignoring blank pieces;
/// the first piece that names no module is the error.
pub open spec fn slug_list(ps: Seq<Seq<char>>) -> Result<Seq<Module>, Seq<char>>
    decreases ps.len(),
{
    if ps.len() == 0 {
        Ok(Seq::empty())
    } else {
        match slug_list(ps.drop_last()) {
            Err(e) => Err(e),
            Ok(ms) => {
                let t = trim(ps.last());
                if t.len() == 0 {
                    Ok(ms)
                } else {
                    match spec_parse_slug(t) {
                        Some(m) => Ok(ms.push(m)),
                        None => Err(t),
                    }
                }
            },
        }
    }
}

pub open spec fn spec_parse_module_list(value: Seq<char>) -> Result<Seq<Module>, Seq<char>> {
    slug_list(split_char(value, ','))
}

/// The modules a `--modules` value names, e.g. `core, concepts`; on an
/// unknown name, that name.
pub fn parse_module_list(value: &str) -> (r: Result<Vec<Module>, String>)
    ensures
        match r {
            Ok(ms) => spec_parse_module_list(value@) == Ok::<Seq<Module>, Seq<char>>(ms@),
            Err(s) => spec_parse_module_list(value@) == Err::<Seq<Module>, Seq<char>>(s@),
        },
{
    let v = crate::text::chars_of(value);
    let pieces = crate::module::split_on(&v, ',');
    let ghost ps = pieces@.map_values(|p: Vec<char>| p@);
    let mut out: Vec<Module> = Vec::new();
    let mut i: usize = 0;
    assert(ps.take(0) =~= Seq::<Seq<char>>::empty());
    while i < pieces.len()
        invariant
            i <= pieces.len(),
            ps == pieces@.map_values(|p: Vec<char>| p@),
            ps == split_char(value@, ','),
            slug_list(ps.take(i as int)) == Ok::<Seq<Module>, Seq<char>>(out@),
        decreases pieces.len() - i,
    {
        assert(ps.take(i + 1).drop_last() =~= ps.take(i as int));
        assert(ps.take(i + 1).last() == pieces@[i as int]@);
        let t = crate::text::trim_vec(&pieces[i]);
        if t.len() > 0 {
            let s = crate::text::string_of(&t);
            match Module::parse_slug(s.as_str()) {
                Some(m) => {
                    out.push(m);
                },
                None => {
                    proof {
                        lemma_slug_list_error_sticks(ps, i as int + 1);
                    }
                    return Err(s);
                },
            }
        }
        i = i + 1;
    }
    assert(ps.take(pieces.len() as int) =~= ps);
    Ok(out)
}

proof fn lemma_slug_list_error_sticks(ps: Seq<Seq<char>>, k: int)
    requires
        0 <= k <= ps.len(),
        slug_list(ps.take(k)) is Err,
    ensures
        slug_list(ps) == slug_list(ps.take(k)),
    decreases ps.len() - k,
{
    if k < ps.len() {
        assert(ps.take(k + 1).drop_last() =~= ps.take(k));
        lemma_slug_list_error_sticks(ps, k + 1);
    } else {
        assert(ps.take(k) =~= ps);
    }
}

// --- field coverage --------------------------------------------------------------------

/// The columns of the coverage report: entries in total, and entries that
/// have each fact a card kind depends on.
#[derive(Clone, Copy)]
pub enum Fact {
    Any,
    Gloss,
    Syntax,
    Qualifiers,
    Arch,
    Semantics,
    Examples,
}

pub open spec fn has_fact(e: EntrySpec, f: Fact) -> bool {
    match f {
        Fact::Any => true,
        Fact::Gloss => e.gloss.len() > 0,
        Fact::Syntax => e.syntax is Some,
        Fact::Qualifiers => e.qualifiers.len() > 0,
        Fact::Arch => !(e.arch is Unknown),
        Fact::Semantics => e.semantics is Some,
        Fact::Examples => e.examples is Some,
    }
}

/// Number of inputs of module `m` whose entry has fact `f`.
pub open spec fn count_fact(inputs: Seq<InputSpec>, m: Module, f: Fact) -> nat
    decreases inputs.len(),
{
    if inputs.len() == 0 {
        0
    } else {
        count_fact(inputs.drop_last(), m, f) + if inputs.last().module == m && has_fact(
            inputs.last().entry,
            f,
        ) {
            1nat
        } else {
            0nat
        }
    }
}

/// One row of the coverage report.
pub struct Coverage {
    pub count: usize,
    pub gloss: usize,
    pub syntax: usize,
    pub qualifiers: usize,
    pub sm: usize,
    pub semantics: usize,
    pub examples: usize,
}

fn entry_has(e: &Entry, f: Fact) -> (r: bool)
    ensures
        r == has_fact(e@, f),
{
    match f {
        Fact::Any => true,
        Fact::Gloss => e.gloss.as_str().unicode_len() > 0,
        Fact::Syntax => e.syntax.is_some(),
        Fact::Qualifiers => e.qualifiers.len() > 0,
        Fact::Arch => match e.arch {
            crate::parse::ArchReq::Unknown => false,
            _ => true,
        },
        Fact::Semantics => e.semantics.is_some(),
        Fact::Examples => e.examples.is_some(),
    }
}

fn count(inputs: &[Input], m: Module, f: Fact) -> (r: usize)
    ensures
        r as nat == count_fact(crate::deck::inputs_view(inputs@), m, f),
{
    let ghost ins = crate::deck::inputs_view(inputs@);
    let mut c: usize = 0;
    let mut i: usize = 0;
    while i < inputs.len()
        invariant
            i <= inputs.len(),
            ins == crate::deck::inputs_view(inputs@),
            c as nat == count_fact(ins.take(i as int), m, f),
            c <= i,
        decreases inputs.len() - i,
    {
        assert(ins.take(i + 1).drop_last() =~= ins.take(i as int));
        assert(ins.take(i + 1).last() == inputs@[i as int]@);
        if inputs[i].module == m && entry_has(&inputs[i].entry, f) {
            c = c + 1;
        }
        i = i + 1;
    }
    assert(ins.take(inputs.len() as int) =~= ins);
    c
}

/// Field coverage of the entries of module `m`: how many there are, and how
/// many have a gloss, a syntax block, qualifier lists, a known architecture,
/// semantics and examples.
pub fn coverage(inputs: &[Input], m: Module) -> (r: Coverage)
    ensures
        r.count as nat == count_fact(crate::deck::inputs_view(inputs@), m, Fact::Any),
        r.gloss as nat == count_fact(crate::deck::inputs_view(inputs@), m, Fact::Gloss),
        r.syntax as nat == count_fact(crate::deck::inputs_view(inputs@), m, Fact::Syntax),
        r.qualifiers as nat == count_fact(crate::deck::inputs_view(inputs@), m, Fact::Qualifiers),
        r.sm as nat == count_fact(crate::deck::inputs_view(inputs@), m, Fact::Arch),
        r.semantics as nat == count_fact(crate::deck::inputs_view(inputs@), m, Fact::Semantics),
        r.examples as nat == count_fact(crate::deck::inputs_view(inputs@), m, Fact::Examples),
{
    Coverage {
        count: count(inputs, m, Fact::Any),
        gloss: count(inputs, m, Fact::Gloss),
        syntax: count(inputs, m, Fact::Syntax),
        qualifiers: count(inputs, m, Fact::Qualifiers),
        sm: count(inputs, m, Fact::Arch),
        semantics: count(inputs, m, Fact::Semantics),
        examples: count(inputs, m, Fact::Examples),
    }
}

// --- notes and cards per deck --------------------------------------------------------

/// Cards one note of model `name` yields: one per template of the last note
/// type with that name, or one if there is none.
pub open spec fn cards_for(models: Seq<ModelSpec>, name: Seq<char>) -> nat
    decreases models.len(),
{
    if models.len() == 0 {
        1
    } else if models.last().name == name {
        models.last().templates.len()
    } else {
        cards_for(models.drop_last(), name)
    }
}

/// Number of notes in deck `deck`.
pub open spec fn deck_notes(notes: Seq<NoteSpec>, deck: Seq<char>) -> nat
    decreases notes.len(),
{
    if notes.len() == 0 {
        0
    } else {
        deck_notes(notes.drop_last(), deck) + if notes.last().deck == deck {
            1nat
        } else {
            0nat
        }
    }
}

/// Number of cards in deck `deck`.
pub open spec fn deck_cards(notes: Seq<NoteSpec>, models: Seq<ModelSpec>, deck: Seq<char>) -> nat
    decreases notes.len(),
{
    if notes.len() == 0 {
        0
    } else {
        deck_cards(notes.drop_last(), models, deck) + if notes.last().deck == deck {
            cards_for(models, notes.last().model)
        } else {
            0nat
        }
    }
}

/// Number of cards of all notes.
pub open spec fn total_cards(notes: Seq<NoteSpec>, models: Seq<ModelSpec>) -> nat
    decreases notes.len(),
{
    if notes.len() == 0 {
        0
    } else {
        total_cards(notes.drop_last(), models) + cards_for(models, notes.last().model)
    }
}

/// One row of the note report.
pub struct DeckCount {
    pub deck: String,
    pub notes: usize,
    pub cards: usize,
}

/// Notes and cards per deck, in deck-name order, with their totals.
pub struct NoteReport {
    pub rows: Vec<DeckCount>,
    pub total_notes: usize,
    pub total_cards: usize,
}

pub open spec fn has_note_in(notes: Seq<NoteSpec>, deck: Seq<char>) -> bool {
    exists|k: int| 0 <= k < notes.len() && notes[k].deck == deck
}

/// The rows are the decks that hold notes, each once, in increasing name
/// order, with their note and card counts.
pub open spec fn rows_correct(rows: Seq<DeckCount>, notes: Seq<NoteSpec>, models: Seq<ModelSpec>) -> bool {
    &&& forall|i: int, j: int| 0 <= i < j < rows.len() ==> lex_lt(#[trigger] rows[i].deck@, #[trigger] rows[j].deck@)
    &&& forall|i: int| 0 <= i < rows.len() ==> has_note_in(notes, (#[trigger] rows[i]).deck@)
    &&& forall|k: int| 0 <= k < notes.len() ==> exists|i: int| 0 <= i < rows.len() && (#[trigger] rows[i]).deck@ == (#[trigger] notes[k]).deck
    &&& forall|i: int| 0 <= i < rows.len() ==> (#[trigger] rows[i]).notes as nat == deck_notes(notes, rows[i].deck@)
    &&& forall|i: int| 0 <= i < rows.len() ==> (#[trigger] rows[i]).cards as nat == deck_cards(notes, models, rows[i].deck@)
}

proof fn lemma_absent_deck_counts(notes: Seq<NoteSpec>, models: Seq<ModelSpec>, deck: Seq<char>)
    requires
        !has_note_in(notes, deck),
    ensures
        deck_notes(notes, deck) == 0,
        deck_cards(notes, models, deck) == 0,
    decreases notes.len(),
{
    if notes.len() > 0 {
        assert(!has_note_in(notes.drop_last(), deck)) by {
            if has_note_in(notes.drop_last(), deck) {
                let k = choose|k: int| 0 <= k < notes.drop_last().len() && notes.drop_last()[k].deck == deck;
                assert(notes[k].deck == deck);
            }
        }
        assert(notes.last().deck != deck) by {
            if notes.last().deck == deck {
                assert(notes[notes.len() - 1].deck == deck);
            }
        }
        lemma_absent_deck_counts(notes.drop_last(), models, deck);
    }
}

proof fn lemma_deck_cards_le_total(notes: Seq<NoteSpec>, models: Seq<ModelSpec>, deck: Seq<char>)
    ensures
        deck_cards(notes, models, deck) <= total_cards(notes, models),
    decreases notes.len(),
{
    if notes.len() > 0 {
        lemma_deck_cards_le_total(notes.drop_last(), models, deck);
    }
}

proof fn lemma_total_cards_prefix(notes: Seq<NoteSpec>, models: Seq<ModelSpec>, k: int)
    requires
        0 <= k <= notes.len(),
    ensures
        total_cards(notes.take(k), models) <= total_cards(notes, models),
    decreases notes.len() - k,
{
    if k < notes.len() {
        lemma_total_cards_prefix(notes, models, k + 1);
        assert(notes.take(k + 1).drop_last() =~= notes.take(k));
    } else {
        assert(notes.take(k) =~= notes);
    }
}

fn cards_per_note(models: &Vec<crate::deck::ModelDef>, name: &String) -> (r: usize)
    ensures
        r as nat == cards_for(crate::deck::models_view(models@), name@),
{
    let ghost ms = crate::deck::models_view(models@);
    let mut k: usize = models.len();
    assert(ms.take(k as int) =~= ms);
    while k > 0
        invariant
            k <= models.len(),
            ms == crate::deck::models_view(models@),
            cards_for(ms, name@) == cards_for(ms.take(k as int), name@),
        decreases k,
    {
        assert(ms.take(k as int).drop_last() =~= ms.take(k - 1));
        assert(ms.take(k as int).last() == models@[k - 1]@);
        if models[k - 1].name == *name {
            return models[k - 1].templates.len();
        }
        k = k - 1;
    }
    1
}

fn row_of(rows: &Vec<DeckCount>, deck: &String) -> (r: Option<usize>)
    ensures
        match r {
            Some(j) => j < rows.len() && rows@[j as int].deck@ == deck@,
            None => forall|j: int| 0 <= j < rows.len() ==> rows@[j].deck@ != deck@,
        },
{
    let mut k: usize = 0;
    while k < rows.len()
        invariant
            k <= rows.len(),
            forall|j: int| 0 <= j < k ==> rows@[j].deck@ != deck@,
        decreases rows.len() - k,
    {
        if rows[k].deck == *deck {
            return Some(k);
        }
        k = k + 1;
    }
    None
}

/// First row whose deck sorts after `deck`, or the end.
fn insertion_point(rows: &Vec<DeckCount>, deck: &String) -> (r: usize)
    ensures
        r <= rows.len(),
        forall|j: int| 0 <= j < r ==> !lex_lt(deck@, rows@[j].deck@),
        r < rows.len() ==> lex_lt(deck@, rows@[r as int].deck@),
{
    let d = crate::text::chars_of(deck.as_str());
    let mut k: usize = 0;
    while k < rows.len()
        invariant
            k <= rows.len(),
            d@ == deck@,
            forall|j: int| 0 <= j < k ==> !lex_lt(deck@, rows@[j].deck@),
        decreases rows.len() - k,
    {
        let other = crate::text::chars_of(rows[k].deck.as_str());
        if crate::text::less_than(&d, &other) {
            return k;
        }
        k = k + 1;
    }
    k
}

proof fn lemma_deck_notes_le_len(notes: Seq<NoteSpec>, deck: Seq<char>)
    ensures
        deck_notes(notes, deck) <= notes.len(),
    decreases notes.len(),
{
    if notes.len() > 0 {
        lemma_deck_notes_le_len(notes.drop_last(), deck);
    }
}

/// Counts one more note in the row of its deck, which exists.
fn bump_row(
    rows: &mut Vec<DeckCount>,
    j: usize,
    note: &NoteDef,
    c: usize,
    Ghost(pre): Ghost<Seq<NoteSpec>>,
    Ghost(ms): Ghost<Seq<ModelSpec>>,
)
    requires
        rows_correct(old(rows)@, pre, ms),
        j < old(rows).len(),
        old(rows)@[j as int].deck@ == note@.deck,
        c as nat == cards_for(ms, note@.model),
        total_cards(pre.push(note@), ms) <= usize::MAX,
        pre.len() < usize::MAX,
    ensures
        rows_correct(final(rows)@, pre.push(note@), ms),
{
    let ghost post = pre.push(note@);
    let ghost old_rows = rows@;
    assert(post.drop_last() =~= pre);
    proof {
        lemma_deck_cards_le_total(pre, ms, note@.deck);
        lemma_deck_notes_le_len(pre, note@.deck);
    }
    assert forall|e: Seq<char>| #![auto] e != note@.deck implies deck_notes(post, e) == deck_notes(pre, e)
        && deck_cards(post, ms, e) == deck_cards(pre, ms, e) by {}
    assert forall|e: Seq<char>| #![auto] has_note_in(pre, e) implies has_note_in(post, e) by {
        let k = choose|k: int| 0 <= k < pre.len() && pre[k].deck == e;
        assert(post[k] == pre[k]);
    }
    let updated = DeckCount {
        deck: rows[j].deck.clone(),
        notes: rows[j].notes + 1,
        cards: rows[j].cards + c,
    };
    rows.set(j, updated);
    assert forall|k: int| 0 <= k < post.len() implies exists|t: int| 0 <= t < rows@.len() && (#[trigger] rows@[t]).deck@ == (#[trigger] post[k]).deck by {
        if k < pre.len() {
            assert(post[k] == pre[k]);
            let t = choose|t: int| 0 <= t < old_rows.len() && (#[trigger] old_rows[t]).deck@ == (#[trigger] pre[k]).deck;
            assert(rows@[t].deck@ == old_rows[t].deck@);
        } else {
            assert(rows@[j as int].deck@ == post[k].deck);
        }
    }
    assert forall|a: int| 0 <= a < rows@.len() implies has_note_in(post, (#[trigger] rows@[a]).deck@) by {
        assert(rows@[a].deck@ == old_rows[a].deck@);
    }
    assert forall|a: int| 0 <= a < rows@.len() implies (#[trigger] rows@[a]).notes as nat == deck_notes(post, rows@[a].deck@)
        && rows@[a].cards as nat == deck_cards(post, ms, rows@[a].deck@) by {
        if a != j {
            assert(rows@[a] == old_rows[a]);
            assert(old_rows[a].deck@ != note@.deck) by {
                if old_rows[a].deck@ == note@.deck {
                    crate::text::lemma_lex_irreflexive(note@.deck);
                    if a < j {
                        assert(lex_lt(old_rows[a].deck@, old_rows[j as int].deck@));
                    } else {
                        assert(lex_lt(old_rows[j as int].deck@, old_rows[a].deck@));
                    }
                }
            }
        }
    }
    assert forall|a: int, b: int| 0 <= a < b < rows@.len() implies lex_lt(#[trigger] rows@[a].deck@, #[trigger] rows@[b].deck@) by {
        assert(rows@[a].deck@ == old_rows[a].deck@);
        assert(rows@[b].deck@ == old_rows[b].deck@);
    }
}

/// Adds the row of a deck that has no row yet, in name order.
#[verifier::rlimit(60)]
fn insert_row(
    rows: &mut Vec<DeckCount>,
    note: &NoteDef,
    c: usize,
    Ghost(pre): Ghost<Seq<NoteSpec>>,
    Ghost(ms): Ghost<Seq<ModelSpec>>,
)
    requires
        rows_correct(old(rows)@, pre, ms),
        forall|j: int| 0 <= j < old(rows).len() ==> old(rows)@[j].deck@ != note@.deck,
        c as nat == cards_for(ms, note@.model),
    ensures
        rows_correct(final(rows)@, pre.push(note@), ms),
{
    let ghost post = pre.push(note@);
    let ghost old_rows = rows@;
    let ghost x = note@.deck;
    assert(post.drop_last() =~= pre);
    assert forall|e: Seq<char>| #![auto] e != x implies deck_notes(post, e) == deck_notes(pre, e)
        && deck_cards(post, ms, e) == deck_cards(pre, ms, e) by {}
    assert forall|e: Seq<char>| #![auto] has_note_in(pre, e) implies has_note_in(post, e) by {
        let k = choose|k: int| 0 <= k < pre.len() && pre[k].deck == e;
        assert(post[k] == pre[k]);
    }
    proof {
        assert(!has_note_in(pre, x)) by {
            if has_note_in(pre, x) {
                let k = choose|k: int| 0 <= k < pre.len() && pre[k].deck == x;
                let t = choose|t: int| 0 <= t < old_rows.len() && (#[trigger] old_rows[t]).deck@ == (#[trigger] pre[k]).deck;
            }
        }
        lemma_absent_deck_counts(pre, ms, x);
    }
    let p = insertion_point(rows, &note.deck);
    let row = DeckCount { deck: note.deck.clone(), notes: 1, cards: c };
    rows.insert(p, row);
    proof {
        assert forall|a: int| 0 <= a < p implies lex_lt(old_rows[a].deck@, x) by {
            crate::text::lemma_lex_total(old_rows[a].deck@, x);
        }
        assert forall|a: int, b: int| 0 <= a < b < rows@.len() implies lex_lt(#[trigger] rows@[a].deck@, #[trigger] rows@[b].deck@) by {
            if b < p {
                assert(rows@[a] == old_rows[a] && rows@[b] == old_rows[b]);
            } else if b == p {
                assert(rows@[a] == old_rows[a]);
            } else if a > p {
                assert(rows@[a] == old_rows[a - 1] && rows@[b] == old_rows[b - 1]);
            } else if a == p {
                assert(rows@[b] == old_rows[b - 1]);
                if b - 1 > p {
                    assert(lex_lt(old_rows[p as int].deck@, old_rows[b - 1].deck@));
                    crate::text::lemma_lex_transitive(x, old_rows[p as int].deck@, old_rows[b - 1].deck@);
                }
            } else {
                assert(rows@[a] == old_rows[a] && rows@[b] == old_rows[b - 1]);
                assert(lex_lt(x, old_rows[p as int].deck@));
                if b - 1 > p {
                    crate::text::lemma_lex_transitive(x, old_rows[p as int].deck@, old_rows[b - 1].deck@);
                }
                crate::text::lemma_lex_transitive(old_rows[a].deck@, x, old_rows[b - 1].deck@);
            }
        }
        assert forall|k: int| 0 <= k < post.len() implies exists|t: int| 0 <= t < rows@.len() && (#[trigger] rows@[t]).deck@ == (#[trigger] post[k]).deck by {
            if k < pre.len() {
                assert(post[k] == pre[k]);
                let t = choose|t: int| 0 <= t < old_rows.len() && (#[trigger] old_rows[t]).deck@ == (#[trigger] pre[k]).deck;
                if t < p {
                    assert(rows@[t] == old_rows[t]);
                } else {
                    assert(rows@[t + 1] == old_rows[t]);
                }
            } else {
                assert(rows@[p as int].deck@ == post[k].deck);
            }
        }
        assert forall|a: int| 0 <= a < rows@.len() implies has_note_in(post, (#[trigger] rows@[a]).deck@) by {
            if a < p {
                assert(rows@[a] == old_rows[a]);
            } else if a > p {
                assert(rows@[a] == old_rows[a - 1]);
            } else {
                assert(post[post.len() - 1].deck == x);
            }
        }
        assert forall|a: int| 0 <= a < rows@.len() implies (#[trigger] rows@[a]).notes as nat == deck_notes(post, rows@[a].deck@)
            && rows@[a].cards as nat == deck_cards(post, ms, rows@[a].deck@) by {
            if a < p {
                assert(rows@[a] == old_rows[a]);
            } else if a > p {
                assert(rows@[a] == old_rows[a - 1]);
            }
        }
    }
}

/// Notes and cards per deck, so the size of each family is visible before
/// importing. Every model yields one card per template for each of its notes.
pub fn note_counts(d: &DeckDefinition) -> (r: NoteReport)
    requires
        total_cards(notes_view(d.notes@), crate::deck::models_view(d.models@)) <= usize::MAX,
    ensures
        rows_correct(r.rows@, notes_view(d.notes@), crate::deck::models_view(d.models@)),
        r.total_notes == d.notes.len(),
        r.total_cards as nat == total_cards(notes_view(d.notes@), crate::deck::models_view(d.models@)),
{
    let ghost ns = notes_view(d.notes@);
    let ghost ms = crate::deck::models_view(d.models@);
    let mut rows: Vec<DeckCount> = Vec::new();
    let mut cards: usize = 0;
    let mut i: usize = 0;
    assert(ns.take(0) =~= Seq::<NoteSpec>::empty());
    while i < d.notes.len()
        invariant
            i <= d.notes.len(),
            ns == notes_view(d.notes@),
            ms == crate::deck::models_view(d.models@),
            total_cards(ns, ms) <= usize::MAX,
            rows_correct(rows@, ns.take(i as int), ms),
            cards as nat == total_cards(ns.take(i as int), ms),
        decreases d.notes.len() - i,
    {
        let ghost pre = ns.take(i as int);
        assert(ns.take(i + 1) =~= pre.push(d.notes@[i as int]@));
        let note = &d.notes[i];
        let c = cards_per_note(&d.models, &note.model);
        proof {
            lemma_total_cards_prefix(ns, ms, i + 1);
            assert(ns.take(i + 1).drop_last() =~= pre);
        }
        match row_of(&rows, &note.deck) {
            Some(j) => {
                bump_row(&mut rows, j, note, c, Ghost(pre), Ghost(ms));
            },
            None => {
                insert_row(&mut rows, note, c, Ghost(pre), Ghost(ms));
            },
        }
        cards = cards + c;
        i = i + 1;
    }
    assert(ns.take(d.notes.len() as int) =~= ns);
    NoteReport { rows, total_notes: d.notes.len(), total_cards: cards }
}
// --- coverage and the notes of the deck ----------------------------------------------

/// Number of notes of `ns` of note type `model` whose first tag is `tag`.
pub open spec fn count_notes(ns: Seq<NoteSpec>, model: Seq<char>, tag: Seq<char>) -> nat
    decreases ns.len(),
{
    if ns.len() == 0 {
        0
    } else {
        let n = ns.last();
        count_notes(ns.drop_last(), model, tag) + if n.model == model && n.tags.len() > 0
            && n.tags[0] == tag {
            1nat
        } else {
            0nat
        }
    }
}

proof fn lemma_count_notes_append(a: Seq<NoteSpec>, b: Seq<NoteSpec>, model: Seq<char>, tag: Seq<char>)
    ensures
        count_notes(a + b, model, tag) == count_notes(a, model, tag) + count_notes(b, model, tag),
    decreases b.len(),
{
    if b.len() == 0 {
        assert(a + b =~= a);
    } else {
        lemma_count_notes_append(a, b.drop_last(), model, tag);
        assert((a + b).drop_last() =~= a + b.drop_last());
        assert((a + b).last() == b.last());
    }
}

proof fn lemma_count_notes_none(ns: Seq<NoteSpec>, model: Seq<char>, tag: Seq<char>)
    requires
        forall|j: int| 0 <= j < ns.len() ==> !((#[trigger] ns[j]).model == model && ns[j].tags.len() > 0
            && ns[j].tags[0] == tag),
    ensures
        count_notes(ns, model, tag) == 0,
    decreases ns.len(),
{
    if ns.len() > 0 {
        assert forall|j: int| 0 <= j < ns.drop_last().len() implies !((#[trigger] ns.drop_last()[j]).model
            == model && ns.drop_last()[j].tags.len() > 0 && ns.drop_last()[j].tags[0] == tag) by {
            assert(ns.drop_last()[j] == ns[j]);
        }
        lemma_count_notes_none(ns.drop_last(), model, tag);
        assert(ns.last() == ns[ns.len() - 1]);
    }
}

proof fn lemma_count_notes_single(n: NoteSpec, model: Seq<char>, tag: Seq<char>)
    ensures
        count_notes(seq![n], model, tag) == if n.model == model && n.tags.len() > 0 && n.tags[0] == tag {
            1nat
        } else {
            0nat
        },
{
    assert(seq![n].drop_last() =~= Seq::<NoteSpec>::empty());
    assert(seq![n].last() == n);
    assert(count_notes(Seq::<NoteSpec>::empty(), model, tag) == 0);
}

/// The note types of the deck, as written.
proof fn lemma_model_names()
    ensures
        "PTX Recall"@ != "PTX Syntax"@,
        "PTX Recall"@ != "PTX Qualifiers"@,
        "PTX Recall"@ != "PTX Arch"@,
        "PTX Recall"@ != "PTX Version"@,
        "PTX Syntax"@ != "PTX Qualifiers"@,
        "PTX Syntax"@ != "PTX Arch"@,
        "PTX Syntax"@ != "PTX Version"@,
        "PTX Arch"@ != "PTX Qualifiers"@,
        "PTX Arch"@ != "PTX Version"@,
{
    reveal_strlit("PTX Recall");
    reveal_strlit("PTX Syntax");
    reveal_strlit("PTX Qualifiers");
    reveal_strlit("PTX Arch");
    reveal_strlit("PTX Version");
    assert("PTX Recall"@[4] != "PTX Syntax"@[4]);
    assert("PTX Arch"@.len() == 8);
    assert("PTX Qualifiers"@.len() == 14);
    assert("PTX Version"@.len() == 11);
}

/// Of one entry's notes, those of note type `model` tagged with module `m`:
/// one Recall note, a Syntax note if the entry has a syntax block, an Arch
/// note if its architecture is known; none for another module.
proof fn lemma_input_note_counts(x: InputSpec, m: Module)
    ensures
        count_notes(crate::deck::spec_input_notes(x), "PTX Recall"@, crate::module::spec_module_tag(m))
            == if x.module == m { 1nat } else { 0nat },
        count_notes(crate::deck::spec_input_notes(x), "PTX Syntax"@, crate::module::spec_module_tag(m))
            == if x.module == m && x.entry.syntax is Some { 1nat } else { 0nat },
        count_notes(crate::deck::spec_input_notes(x), "PTX Arch"@, crate::module::spec_module_tag(m))
            == if x.module == m && !(x.entry.arch is Unknown) { 1nat } else { 0nat },
{
    let ns = crate::deck::spec_input_notes(x);
    let tag = crate::module::spec_module_tag(m);
    crate::deck_laws::law_entry_notes(x);
    crate::module::law_module_tags(x.module, m);
    lemma_model_names();
    let r = seq![crate::deck::recall_note(x)];
    let sy = crate::deck::syntax_notes(x);
    let qs = crate::deck::qual_notes(x);
    let ar = crate::deck::arch_notes(x);
    let ve = crate::deck::version_notes(x);
    assert(ns =~= r + sy + qs + ar + ve);
    assert(crate::deck_laws::entry_tags(x)[0] == crate::module::spec_module_tag(x.module));
    let models = seq!["PTX Recall"@, "PTX Syntax"@, "PTX Arch"@];
    assert forall|k: int| 0 <= k < 3 implies count_notes(ns, #[trigger] models[k], tag) == if k == 0 {
        if x.module == m { 1nat } else { 0nat }
    } else if k == 1 {
        if x.module == m && x.entry.syntax is Some { 1nat } else { 0nat }
    } else {
        if x.module == m && !(x.entry.arch is Unknown) { 1nat } else { 0nat }
    } by {
        let model = models[k];
        lemma_count_notes_append(r + sy + qs + ar, ve, model, tag);
        lemma_count_notes_append(r + sy + qs, ar, model, tag);
        lemma_count_notes_append(r + sy, qs, model, tag);
        lemma_count_notes_append(r, sy, model, tag);
        lemma_count_notes_single(crate::deck::recall_note(x), model, tag);
        if sy.len() > 0 {
            assert(sy =~= seq![sy[0]]);
            lemma_count_notes_single(sy[0], model, tag);
        } else {
            lemma_count_notes_none(sy, model, tag);
        }
        if ar.len() > 0 {
            assert(ar =~= seq![ar[0]]);
            lemma_count_notes_single(ar[0], model, tag);
        } else {
            lemma_count_notes_none(ar, model, tag);
        }
        if ve.len() > 0 {
            assert(ve =~= seq![ve[0]]);
            lemma_count_notes_single(ve[0], model, tag);
            assert(ve[0].model == "PTX Version"@);
        } else {
            lemma_count_notes_none(ve, model, tag);
        }
        assert forall|j: int| 0 <= j < qs.len() implies !((#[trigger] qs[j]).model == model
            && qs[j].tags.len() > 0 && qs[j].tags[0] == tag) by {
            assert(qs[j] == crate::deck::qual_note(x, x.entry.qualifiers[j]));
        }
        lemma_count_notes_none(qs, model, tag);
        assert(x.entry.arch is Unknown <==> crate::deck::sm_text(x.entry.arch) is None);
    }
    assert(models[0] == "PTX Recall"@);
    assert(models[1] == "PTX Syntax"@);
    assert(models[2] == "PTX Arch"@);
}

/// The coverage report counts what the deck holds: for each module, the
/// entries counted are the Recall notes tagged with the module, the entries
/// with a syntax block are its Syntax notes, and the entries with a known
/// architecture (a minimum or all architectures) are its Arch notes.
pub proof fn law_coverage_matches_the_notes(inputs: Seq<InputSpec>, m: Module)
    ensures
        count_fact(inputs, m, Fact::Any) == count_notes(
            crate::deck::spec_all_notes(inputs),
            "PTX Recall"@,
            crate::module::spec_module_tag(m),
        ),
        count_fact(inputs, m, Fact::Syntax) == count_notes(
            crate::deck::spec_all_notes(inputs),
            "PTX Syntax"@,
            crate::module::spec_module_tag(m),
        ),
        count_fact(inputs, m, Fact::Arch) == count_notes(
            crate::deck::spec_all_notes(inputs),
            "PTX Arch"@,
            crate::module::spec_module_tag(m),
        ),
    decreases inputs.len(),
{
    if inputs.len() > 0 {
        let init = inputs.drop_last();
        let x = inputs.last();
        law_coverage_matches_the_notes(init, m);
        lemma_input_note_counts(x, m);
        let a = crate::deck::spec_all_notes(init);
        let b = crate::deck::spec_input_notes(x);
        let tag = crate::module::spec_module_tag(m);
        lemma_count_notes_append(a, b, "PTX Recall"@, tag);
        lemma_count_notes_append(a, b, "PTX Syntax"@, tag);
        lemma_count_notes_append(a, b, "PTX Arch"@, tag);
    }
}

} // verus!
