//! Deck generation: turns parsed entries into an ankit-builder deck definition.
//!
//! # Stability contract
//!
//! Regenerating this deck must never cost you review history. Two rules make
//! that work, and both are load-bearing:
//!
//! 1. **Note GUIDs are derived from identity, not content.** A GUID is a hash of
//!    the doc's section id plus the card kind (plus the qualifier name, where a
//!    note is per-qualifier) -- never of the field text. Reword a gloss, fix a
//!    parser bug, or bump to a newer PTX ISA release, and Anki still recognises
//!    the note and updates it in place.
//! 2. **Model IDs and field lists are frozen.** Anki only matches notes by GUID
//!    when the note type is unchanged, so the constants below must not be edited
//!    once you have studied the deck. Adding a *new* card kind is safe; changing
//!    the fields of an existing one is not.
use crate::hash::{sha256, sha256_digest};
use crate::module::{spec_module_deck_name, spec_module_tag, Module};
use crate::parse::{strings_view, ArchReq, ArchSpec, Entry, EntrySpec, QualSpec};
use crate::text::{chars_of, has_prefix, join, starts_with, string_from, string_of};
use vstd::prelude::*;
use vstd::utf8::encode_utf8;

verus! {

// Frozen model IDs. Never change these; see the stability contract above.
pub const MODEL_RECALL: i64 = 1_723_400_001;

pub const MODEL_SYNTAX: i64 = 1_723_400_002;

pub const MODEL_QUALIFIERS: i64 = 1_723_400_003;

pub const MODEL_ARCH: i64 = 1_723_400_004;

pub const MODEL_VERSION: i64 = 1_723_400_005;

pub const DECK_ROOT: &'static str = "PTX ISA";

/// The card families. Each maps to a subdeck under every scope module, so an
/// unwanted family can be suspended or skipped wholesale.
///
/// `Arch` and `Version` share the "Arch" subdeck but are separate models with a
/// single template each. Splitting them matters: ankit-builder writes one card
/// per template without evaluating `{{#Field}}` conditionals, so a combined
/// two-template model would emit a blank-fronted card for every entry that has
/// only one of the two facts.
#[derive(Debug, Clone, Copy, PartialEq, Eq, Structural)]
pub enum CardKind {
    Recall,
    Syntax,
    Qualifiers,
    Arch,
    Version,
}

pub open spec fn spec_kind_deck_name(k: CardKind) -> Seq<char> {
    match k {
        CardKind::Recall => "Recall"@,
        CardKind::Syntax => "Syntax"@,
        CardKind::Qualifiers => "Qualifiers"@,
        CardKind::Arch => "Arch"@,
        CardKind::Version => "Arch"@,
    }
}

pub open spec fn spec_model_name(k: CardKind) -> Seq<char> {
    match k {
        CardKind::Recall => "PTX Recall"@,
        CardKind::Syntax => "PTX Syntax"@,
        CardKind::Qualifiers => "PTX Qualifiers"@,
        CardKind::Arch => "PTX Arch"@,
        CardKind::Version => "PTX Version"@,
    }
}

pub open spec fn spec_seed(k: CardKind) -> Seq<char> {
    match k {
        CardKind::Recall => "recall"@,
        CardKind::Syntax => "syntax"@,
        CardKind::Qualifiers => "qual"@,
        CardKind::Arch => "arch"@,
        CardKind::Version => "version"@,
    }
}

impl CardKind {
    pub fn deck_name(self) -> (r: &'static str)
        ensures
            r@ == spec_kind_deck_name(self),
    {
        match self {
            CardKind::Recall => "Recall",
            CardKind::Syntax => "Syntax",
            CardKind::Qualifiers => "Qualifiers",
            CardKind::Arch | CardKind::Version => "Arch",
        }
    }

    pub fn model_name(self) -> (r: &'static str)
        ensures
            r@ == spec_model_name(self),
    {
        match self {
            CardKind::Recall => "PTX Recall",
            CardKind::Syntax => "PTX Syntax",
            CardKind::Qualifiers => "PTX Qualifiers",
            CardKind::Arch => "PTX Arch",
            CardKind::Version => "PTX Version",
        }
    }

    /// Short tag used in the GUID seed. Frozen alongside the model IDs.
    pub fn seed(self) -> (r: &'static str)
        ensures
            r@ == spec_seed(self),
    {
        match self {
            CardKind::Recall => "recall",
            CardKind::Syntax => "syntax",
            CardKind::Qualifiers => "qual",
            CardKind::Arch => "arch",
            CardKind::Version => "version",
        }
    }
}

// --- ankit-builder deck definition schema -----------------------------------
// Mirrors ankit_builder::DeckDefinition.
pub struct DeckDefinition {
    pub package: PackageInfo,
    pub models: Vec<ModelDef>,
    pub decks: Vec<DeckDef>,
    pub notes: Vec<NoteDef>,
}

pub struct PackageInfo {
    pub name: String,
    pub version: String,
    pub description: String,
}

pub struct ModelDef {
    pub name: String,
    pub id: i64,
    pub fields: Vec<String>,
    pub css: String,
    pub templates: Vec<TemplateDef>,
}

pub struct TemplateDef {
    pub name: String,
    pub front: String,
    pub back: String,
}

pub struct DeckDef {
    pub name: String,
    pub id: i64,
    pub description: String,
}

/// One note. `fields` maps field name to field text, in field-name order.
pub struct NoteDef {
    pub deck: String,
    pub model: String,
    pub tags: Vec<String>,
    pub guid: String,
    pub fields: Vec<(String, String)>,
}

/// A template as text: name, front, back.
pub type TemplateSpec = (Seq<char>, Seq<char>, Seq<char>);

pub struct ModelSpec {
    pub name: Seq<char>,
    pub id: i64,
    pub fields: Seq<Seq<char>>,
    pub css: Seq<char>,
    pub templates: Seq<TemplateSpec>,
}

pub struct DeckSpec {
    pub name: Seq<char>,
    pub id: i64,
    pub description: Seq<char>,
}

pub struct NoteSpec {
    pub deck: Seq<char>,
    pub model: Seq<char>,
    pub tags: Seq<Seq<char>>,
    pub guid: Seq<char>,
    pub fields: Seq<(Seq<char>, Seq<char>)>,
}

impl View for TemplateDef {
    type V = TemplateSpec;

    open spec fn view(&self) -> TemplateSpec {
        (self.name@, self.front@, self.back@)
    }
}

impl View for ModelDef {
    type V = ModelSpec;

    open spec fn view(&self) -> ModelSpec {
        ModelSpec {
            name: self.name@,
            id: self.id,
            fields: strings_view(self.fields@),
            css: self.css@,
            templates: self.templates@.map_values(|t: TemplateDef| t@),
        }
    }
}

impl View for DeckDef {
    type V = DeckSpec;

    open spec fn view(&self) -> DeckSpec {
        DeckSpec { name: self.name@, id: self.id, description: self.description@ }
    }
}

pub open spec fn pairs_view(v: Seq<(String, String)>) -> Seq<(Seq<char>, Seq<char>)> {
    v.map_values(|p: (String, String)| (p.0@, p.1@))
}

impl View for NoteDef {
    type V = NoteSpec;

    open spec fn view(&self) -> NoteSpec {
        NoteSpec {
            deck: self.deck@,
            model: self.model@,
            tags: strings_view(self.tags@),
            guid: self.guid@,
            fields: pairs_view(self.fields@),
        }
    }
}

pub open spec fn models_view(v: Seq<ModelDef>) -> Seq<ModelSpec> {
    v.map_values(|m: ModelDef| m@)
}

pub open spec fn decks_view(v: Seq<DeckDef>) -> Seq<DeckSpec> {
    v.map_values(|d: DeckDef| d@)
}

pub open spec fn notes_view(v: Seq<NoteDef>) -> Seq<NoteSpec> {
    v.map_values(|n: NoteDef| n@)
}

// --- GUID and id derivation -------------------------------------------------

/// Each part preceded by a unit separator byte, as UTF-8.
pub open spec fn frames(parts: Seq<Seq<char>>) -> Seq<u8>
    decreases parts.len(),
{
    if parts.len() == 0 {
        Seq::empty()
    } else {
        frames(parts.drop_last()) + seq![0x1fu8] + encode_utf8(parts.last())
    }
}

/// The bytes a GUID hashes.
pub open spec fn guid_message(parts: Seq<Seq<char>>) -> Seq<u8> {
    encode_utf8("ptx-cards/v1"@) + frames(parts)
}

pub open spec fn hex_digit(n: u8) -> char {
    if n < 10 {
        ((48 + n) as u8) as char
    } else {
        ((87 + n) as u8) as char
    }
}

/// Lower-case hex, two digits per byte.
pub open spec fn hex_lower(b: Seq<u8>) -> Seq<char>
    decreases b.len(),
{
    if b.len() == 0 {
        Seq::empty()
    } else {
        hex_lower(b.drop_last()) + seq![hex_digit(b.last() / 16), hex_digit(b.last() % 16)]
    }
}

/// A lower-case hex digit: `0`-`9` or `a`-`f`.
pub open spec fn is_lower_hex(c: char) -> bool {
    ('0' <= c && c <= '9') || ('a' <= c && c <= 'f')
}

/// Hex text has two digits per byte, all lower-case hex digits.
pub proof fn lemma_hex_lower(b: Seq<u8>)
    ensures
        hex_lower(b).len() == 2 * b.len(),
        forall|i: int| 0 <= i < hex_lower(b).len() ==> is_lower_hex(#[trigger] hex_lower(b)[i]),
    decreases b.len(),
{
    if b.len() > 0 {
        lemma_hex_lower(b.drop_last());
        let h = b.last() / 16;
        let l = b.last() % 16;
        assert(is_lower_hex(hex_digit(h)) && is_lower_hex(hex_digit(l))) by {
            assert(h < 16 && l < 16);
        }
        let prev = hex_lower(b.drop_last());
        assert forall|i: int| 0 <= i < hex_lower(b).len() implies is_lower_hex(
            #[trigger] hex_lower(b)[i],
        ) by {
            if i < prev.len() {
                assert(hex_lower(b)[i] == prev[i]);
            }
        }
    }
}

/// The GUID of a note seeded by `parts`: the first 8 bytes of the SHA-256 of
/// the framed parts, in hex.
pub open spec fn spec_guid(parts: Seq<Seq<char>>) -> Seq<char> {
    hex_lower(sha256(guid_message(parts)).take(8))
}

fn append_bytes(v: &mut Vec<u8>, b: &[u8])
    ensures
        final(v)@ == old(v)@ + b@,
{
    let mut i: usize = 0;
    while i < b.len()
        invariant
            i <= b.len(),
            v@ == old(v)@ + b@.take(i as int),
        decreases b.len() - i,
    {
        v.push(b[i]);
        i = i + 1;
        assert(v@ =~= old(v)@ + b@.take(i as int));
    }
    assert(b@.take(b.len() as int) =~= b@);
}

fn hex_char(n: u8) -> (c: char)
    requires
        n < 16,
    ensures
        c == hex_digit(n),
{
    if n < 10 {
        (48 + n) as char
    } else {
        (87 + n) as char
    }
}

pub open spec fn seeds_view(parts: Seq<&str>) -> Seq<Seq<char>> {
    parts.map_values(|p: &str| p@)
}

/// Stable note GUID. Seeded only from identity, so field edits never orphan a
/// note's scheduling history.
pub fn guid(parts: &[&str]) -> (r: String)
    ensures
        r@ == spec_guid(seeds_view(parts@)),
        r@.len() == 16,
        forall|i: int| 0 <= i < 16 ==> is_lower_hex(#[trigger] r@[i]),
{
    let ghost ps = seeds_view(parts@);
    let mut msg: Vec<u8> = Vec::new();
    append_bytes(&mut msg, "ptx-cards/v1".as_bytes());
    let mut i: usize = 0;
    assert(ps.take(0) =~= Seq::<Seq<char>>::empty());
    while i < parts.len()
        invariant
            i <= parts.len(),
            ps == seeds_view(parts@),
            msg@ == encode_utf8("ptx-cards/v1"@) + frames(ps.take(i as int)),
        decreases parts.len() - i,
    {
        assert(ps.take(i + 1).drop_last() =~= ps.take(i as int));
        assert(ps.take(i + 1).last() == parts@[i as int]@);
        msg.push(0x1f);
        append_bytes(&mut msg, parts[i].as_bytes());
        i = i + 1;
        assert(msg@ =~= encode_utf8("ptx-cards/v1"@) + frames(ps.take(i as int)));
    }
    assert(ps.take(parts.len() as int) =~= ps);
    let d = sha256_digest(msg.as_slice());
    // Anki accepts any stable string; 16 hex chars is ample against collision
    // across a few thousand notes.
    let mut out: Vec<char> = Vec::new();
    let mut k: usize = 0;
    while k < 8
        invariant
            k <= 8,
            d@.len() == 32,
            out@ == hex_lower(d@.take(k as int)),
        decreases 8 - k,
    {
        let b = d[k];
        assert(d@.take(k + 1).drop_last() =~= d@.take(k as int));
        out.push(hex_char(b / 16));
        out.push(hex_char(b % 16));
        k = k + 1;
    }
    proof {
        lemma_hex_lower(d@.take(8));
    }
    string_of(&out)
}

/// Big-endian value of a byte string.
pub open spec fn be_value(b: Seq<u8>) -> nat
    decreases b.len(),
{
    if b.len() == 0 {
        0
    } else {
        be_value(b.drop_last()) * 256 + (b.last() as nat)
    }
}

pub open spec fn pow256(n: nat) -> nat
    decreases n,
{
    if n == 0 {
        1
    } else {
        pow256((n - 1) as nat) * 256
    }
}

proof fn lemma_be_value_bound(b: Seq<u8>)
    ensures
        be_value(b) < pow256(b.len()),
    decreases b.len(),
{
    if b.len() > 0 {
        lemma_be_value_bound(b.drop_last());
    }
}

/// The bytes a deck id hashes.
pub open spec fn deck_message(name: Seq<char>) -> Seq<u8> {
    encode_utf8("ptx-cards/deck/v1"@) + encode_utf8(name)
}

/// The deck id of a deck name: the first 8 digest bytes read as a signed
/// big-endian integer, its absolute value modulo 10^12, plus 1.6 * 10^12.
pub open spec fn spec_deck_id(name: Seq<char>) -> int {
    let u = be_value(sha256(deck_message(name)).take(8));
    let n: int = if u >= 0x8000_0000_0000_0000 {
        u - 0x1_0000_0000_0000_0000
    } else {
        u as int
    };
    let a: int = if n < 0 {
        -n
    } else {
        n
    };
    a % 1_000_000_000_000 + 1_600_000_000_000
}

/// Deterministic deck id, so re-imports land in the same deck rather than
/// creating a duplicate tree.
pub fn deck_id(name: &str) -> (r: i64)
    ensures
        r as int == spec_deck_id(name@),
        1_600_000_000_000 <= r < 2_600_000_000_000,
{
    let mut msg: Vec<u8> = Vec::new();
    append_bytes(&mut msg, "ptx-cards/deck/v1".as_bytes());
    append_bytes(&mut msg, name.as_bytes());
    let d = sha256_digest(msg.as_slice());
    let mut u: u64 = 0;
    let mut k: usize = 0;
    proof {
        reveal_with_fuel(pow256, 9);
    }
    assert(pow256(8) == 0x1_0000_0000_0000_0000);
    while k < 8
        invariant
            k <= 8,
            d@.len() == 32,
            u as nat == be_value(d@.take(k as int)),
            pow256(8) == 0x1_0000_0000_0000_0000,
        decreases 8 - k,
    {
        proof {
            lemma_be_value_bound(d@.take(k as int));
            lemma_pow256_monotone(k as nat, 7);
        }
        assert(d@.take(k + 1).drop_last() =~= d@.take(k as int));
        u = u * 256 + d[k] as u64;
        k = k + 1;
    }
    // Anki deck ids are positive epoch-millis-like integers.
    let a: u64 = if u >= 0x8000_0000_0000_0000 {
        u64::MAX - u + 1
    } else {
        u
    };
    (a % 1_000_000_000_000) as i64 + 1_600_000_000_000
}

proof fn lemma_pow256_monotone(a: nat, b: nat)
    requires
        a <= b,
    ensures
        pow256(a) <= pow256(b),
    decreases b - a,
{
    if a < b {
        lemma_pow256_monotone(a, (b - 1) as nat);
    }
}

// --- escaping ---------------------------------------------------------------

pub open spec fn esc_char(c: char) -> Seq<char> {
    if c == '&' {
        seq!['&', 'a', 'm', 'p', ';']
    } else if c == '<' {
        seq!['&', 'l', 't', ';']
    } else if c == '>' {
        seq!['&', 'g', 't', ';']
    } else {
        seq![c]
    }
}

/// `&`, `<` and `>` replaced by their HTML entities.
pub open spec fn spec_esc(s: Seq<char>) -> Seq<char>
    decreases s.len(),
{
    if s.len() == 0 {
        Seq::empty()
    } else {
        spec_esc(s.drop_last()) + esc_char(s.last())
    }
}

pub fn esc(s: &str) -> (r: String)
    ensures
        r@ == spec_esc(s@),
{
    let v = chars_of(s);
    let mut out: Vec<char> = Vec::new();
    let mut i: usize = 0;
    while i < v.len()
        invariant
            i <= v.len(),
            out@ == spec_esc(v@.take(i as int)),
        decreases v.len() - i,
    {
        let c = v[i];
        assert(v@.take(i + 1).drop_last() =~= v@.take(i as int));
        let ghost before = out@;
        if c == '&' {
            out.push('&');
            out.push('a');
            out.push('m');
            out.push('p');
            out.push(';');
        } else if c == '<' {
            out.push('&');
            out.push('l');
            out.push('t');
            out.push(';');
        } else if c == '>' {
            out.push('&');
            out.push('g');
            out.push('t');
            out.push(';');
        } else {
            out.push(c);
        }
        i = i + 1;
        assert(out@ =~= before + esc_char(c));
    }
    assert(v@.take(v.len() as int) =~= v@);
    string_of(&out)
}

/// Escaped text contains no `<` and no `>`.
pub proof fn law_escaped_text_has_no_angle_brackets(s: Seq<char>)
    ensures
        forall|i: int| 0 <= i < spec_esc(s).len() ==> spec_esc(s)[i] != '<' && spec_esc(s)[i] != '>',
    decreases s.len(),
{
    if s.len() > 0 {
        law_escaped_text_has_no_angle_brackets(s.drop_last());
        let a = spec_esc(s.drop_last());
        assert forall|i: int| 0 <= i < spec_esc(s).len() implies spec_esc(s)[i] != '<' && spec_esc(
            s,
        )[i] != '>' by {
            if i < a.len() {
                assert(spec_esc(s)[i] == a[i]);
            } else {
                assert(spec_esc(s)[i] == esc_char(s.last())[i - a.len()]);
            }
        }
    }
}

// --- kind word --------------------------------------------------------------

pub open spec fn spec_kind_word(section: Seq<char>) -> Seq<char> {
    if starts_with(section, "10."@) {
        "special register"@
    } else if starts_with(section, "11."@) {
        "directive"@
    } else {
        "instruction"@
    }
}

/// What to call an entry on a production card: "Which PTX <kind>?"
pub fn kind_word(section: &str) -> (r: &'static str)
    ensures
        r@ == spec_kind_word(section@),
{
    let v = chars_of(section);
    if has_prefix(&v, "10.") {
        "special register"
    } else if has_prefix(&v, "11.") {
        "directive"
    } else {
        "instruction"
    }
}

// --- Models -----------------------------------------------------------------

pub const CSS: &'static str = r#".card {
  font-family: -apple-system, Segoe UI, Roboto, sans-serif;
  font-size: 18px;
  text-align: center;
  color: #1a1a1a;
  background: #fdfdfd;
}
.nightMode.card, .night_mode .card { color: #e8e8e8; background: #2c2c2c; }
.mnemonic { font-family: ui-monospace, SFMono-Regular, Menlo, monospace;
  font-size: 26px; font-weight: 600; }
.gloss { font-size: 20px; }
pre.ptx { font-family: ui-monospace, SFMono-Regular, Menlo, monospace;
  font-size: 15px; text-align: left; display: inline-block;
  background: #f2f2f2; border-radius: 6px; padding: 10px 14px; margin: 8px 0;
  white-space: pre; overflow-x: auto; max-width: 100%; }
.nightMode pre.ptx, .night_mode pre.ptx { background: #3a3a3a; }
.meta { font-size: 13px; color: #888; margin-top: 10px; }
.prompt { font-size: 16px; color: #666; }
.nightMode .prompt, .night_mode .prompt { color: #aaa; }
hr { border: none; border-top: 1px solid #ccc; margin: 14px 0; }
"#;

pub const RECOGNITION_FRONT: &'static str = "<div class=\"mnemonic\">{{Name}}</div>";

pub const RECOGNITION_BACK: &'static str = "{{FrontSide}}<hr><div class=\"gloss\">{{Gloss}}</div><div class=\"meta\">PTX ISA &sect;{{Section}}</div>";

pub const PRODUCTION_FRONT: &'static str = "<div class=\"prompt\">Which PTX {{Kind}}?</div><div class=\"gloss\">{{Gloss}}</div>";

pub const PRODUCTION_BACK: &'static str = "{{FrontSide}}<hr><div class=\"mnemonic\">{{Name}}</div><div class=\"meta\">PTX ISA &sect;{{Section}}</div>";

pub const SYNTAX_FRONT: &'static str = "<div class=\"prompt\">Give the syntax of</div><div class=\"mnemonic\">{{Name}}</div><div class=\"meta\">{{Gloss}}</div>";

pub const SYNTAX_BACK: &'static str = "{{FrontSide}}<hr><pre class=\"ptx\">{{Syntax}}</pre><div class=\"meta\">PTX ISA &sect;{{Section}}</div>";

pub const QUALIFIER_FRONT: &'static str = "<div class=\"prompt\">Which <code>.{{Qualifier}}</code> values does this accept?</div><div class=\"mnemonic\">{{Name}}</div><div class=\"meta\">{{Gloss}}</div>";

pub const QUALIFIER_BACK: &'static str = "{{FrontSide}}<hr><pre class=\"ptx\">{{Values}}</pre><div class=\"meta\">PTX ISA &sect;{{Section}}</div>";

pub const ARCH_FRONT: &'static str = "<div class=\"prompt\">Minimum target architecture for</div><div class=\"mnemonic\">{{Name}}</div><div class=\"meta\">{{Gloss}}</div>";

pub const ARCH_BACK: &'static str = "{{FrontSide}}<hr><div class=\"mnemonic\">{{Sm}}</div><div class=\"meta\">PTX ISA &sect;{{Section}}</div>";

pub const VERSION_FRONT: &'static str = "<div class=\"prompt\">Which PTX ISA version introduced</div><div class=\"mnemonic\">{{Name}}</div><div class=\"meta\">{{Gloss}}</div>";

pub const VERSION_BACK: &'static str = "{{FrontSide}}<hr><div class=\"mnemonic\">PTX ISA {{PtxVersion}}</div><div class=\"meta\">PTX ISA &sect;{{Section}}</div>";

/// The five note types, in the order the deck declares them.
pub open spec fn spec_models() -> Seq<ModelSpec> {
    seq![
        // Recall: both directions off one note. Recognition teaches you to read
        // PTX; production -- the reverse card -- is what teaches you to write it.
        ModelSpec {
            name: spec_model_name(CardKind::Recall),
            id: MODEL_RECALL,
            fields: seq!["Name"@, "Gloss"@, "Kind"@, "Section"@],
            css: CSS@,
            templates: seq![
                ("Recognition"@, RECOGNITION_FRONT@, RECOGNITION_BACK@),
                ("Production"@, PRODUCTION_FRONT@, PRODUCTION_BACK@),
            ],
        },
        ModelSpec {
            name: spec_model_name(CardKind::Syntax),
            id: MODEL_SYNTAX,
            fields: seq!["Name"@, "Syntax"@, "Gloss"@, "Section"@],
            css: CSS@,
            templates: seq![("Syntax"@, SYNTAX_FRONT@, SYNTAX_BACK@)],
        },
        // One note per (entry, qualifier) rather than one card listing every
        // qualifier: each card then asks a single question.
        ModelSpec {
            name: spec_model_name(CardKind::Qualifiers),
            id: MODEL_QUALIFIERS,
            fields: seq!["Name"@, "Qualifier"@, "Values"@, "Gloss"@, "Section"@],
            css: CSS@,
            templates: seq![("Qualifier values"@, QUALIFIER_FRONT@, QUALIFIER_BACK@)],
        },
        // Architecture floor and introducing ISA version are separate models
        // with one template each, so an entry that has only one of the two
        // facts produces exactly one card and never a blank.
        ModelSpec {
            name: spec_model_name(CardKind::Arch),
            id: MODEL_ARCH,
            fields: seq!["Name"@, "Sm"@, "Gloss"@, "Section"@],
            css: CSS@,
            templates: seq![("Target arch"@, ARCH_FRONT@, ARCH_BACK@)],
        },
        ModelSpec {
            name: spec_model_name(CardKind::Version),
            id: MODEL_VERSION,
            fields: seq!["Name"@, "PtxVersion"@, "Gloss"@, "Section"@],
            css: CSS@,
            templates: seq![("ISA version"@, VERSION_FRONT@, VERSION_BACK@)],
        },
    ]
}

fn strings4(a: &str, b: &str, c: &str, d: &str) -> (r: Vec<String>)
    ensures
        strings_view(r@) == seq![a@, b@, c@, d@],
{
    let mut r: Vec<String> = Vec::new();
    r.push(string_from(a));
    r.push(string_from(b));
    r.push(string_from(c));
    r.push(string_from(d));
    assert(strings_view(r@) =~= seq![a@, b@, c@, d@]);
    r
}

fn template(name: &str, front: &str, back: &str) -> (r: TemplateDef)
    ensures
        r@ == (name@, front@, back@),
{
    TemplateDef { name: string_from(name), front: string_from(front), back: string_from(back) }
}

fn model(kind: CardKind, id: i64, fields: Vec<String>, templates: Vec<TemplateDef>) -> (r:
    ModelDef)
    ensures
        r@ == (ModelSpec {
            name: spec_model_name(kind),
            id,
            fields: strings_view(fields@),
            css: CSS@,
            templates: templates@.map_values(|t: TemplateDef| t@),
        }),
{
    ModelDef { name: string_from(kind.model_name()), id, fields, css: string_from(CSS), templates }
}

fn single(t: TemplateDef) -> (r: Vec<TemplateDef>)
    ensures
        r@.map_values(|x: TemplateDef| x@) == seq![t@],
{
    let mut r: Vec<TemplateDef> = Vec::new();
    r.push(t);
    assert(r@.map_values(|x: TemplateDef| x@) =~= seq![t@]);
    r
}

/// The five note types of the deck.
pub fn models() -> (r: Vec<ModelDef>)
    ensures
        models_view(r@) == spec_models(),
{
    let mut recall_templates: Vec<TemplateDef> = Vec::new();
    let t1 = template("Recognition", RECOGNITION_FRONT, RECOGNITION_BACK);
    let t2 = template("Production", PRODUCTION_FRONT, PRODUCTION_BACK);
    recall_templates.push(t1);
    recall_templates.push(t2);
    assert(recall_templates@.map_values(|x: TemplateDef| x@) =~= seq![t1@, t2@]);
    let m1 = model(
        CardKind::Recall,
        MODEL_RECALL,
        strings4("Name", "Gloss", "Kind", "Section"),
        recall_templates,
    );
    let m2 = model(
        CardKind::Syntax,
        MODEL_SYNTAX,
        strings4("Name", "Syntax", "Gloss", "Section"),
        single(template("Syntax", SYNTAX_FRONT, SYNTAX_BACK)),
    );
    let mut qfields: Vec<String> = Vec::new();
    qfields.push(string_from("Name"));
    qfields.push(string_from("Qualifier"));
    qfields.push(string_from("Values"));
    qfields.push(string_from("Gloss"));
    qfields.push(string_from("Section"));
    assert(strings_view(qfields@) =~= seq![
        "Name"@,
        "Qualifier"@,
        "Values"@,
        "Gloss"@,
        "Section"@,
    ]);
    let m3 = model(
        CardKind::Qualifiers,
        MODEL_QUALIFIERS,
        qfields,
        single(template("Qualifier values", QUALIFIER_FRONT, QUALIFIER_BACK)),
    );
    let m4 = model(
        CardKind::Arch,
        MODEL_ARCH,
        strings4("Name", "Sm", "Gloss", "Section"),
        single(template("Target arch", ARCH_FRONT, ARCH_BACK)),
    );
    let m5 = model(
        CardKind::Version,
        MODEL_VERSION,
        strings4("Name", "PtxVersion", "Gloss", "Section"),
        single(template("ISA version", VERSION_FRONT, VERSION_BACK)),
    );
    let mut r: Vec<ModelDef> = Vec::new();
    r.push(m1);
    r.push(m2);
    r.push(m3);
    r.push(m4);
    r.push(m5);
    assert(models_view(r@) =~= seq![m1@, m2@, m3@, m4@, m5@]);
    assert(models_view(r@) =~= spec_models());
    r
}

// --- Build ------------------------------------------------------------------

pub struct Input {
    pub module: Module,
    pub category: String,
    pub entry: Entry,
}

/// [`Input`] with its text as characters.
pub struct InputSpec {
    pub module: Module,
    pub category: Seq<char>,
    pub entry: EntrySpec,
}

impl View for Input {
    type V = InputSpec;

    open spec fn view(&self) -> InputSpec {
        InputSpec { module: self.module, category: self.category@, entry: self.entry@ }
    }
}

pub open spec fn inputs_view(v: Seq<Input>) -> Seq<InputSpec> {
    v.map_values(|i: Input| i@)
}

/// `PTX ISA::<module>`.
pub open spec fn module_deck(m: Module) -> Seq<char> {
    DECK_ROOT@ + "::"@ + spec_module_deck_name(m)
}

/// `PTX ISA::<module>::<kind>`.
pub open spec fn kind_deck(m: Module, k: CardKind) -> Seq<char> {
    module_deck(m) + "::"@ + spec_kind_deck_name(k)
}

pub open spec fn arch_tags(a: ArchSpec) -> Seq<Seq<char>> {
    match a {
        ArchSpec::Min(sm) => seq!["ptx::"@ + sm],
        ArchSpec::All => seq!["ptx::all-architectures"@],
        ArchSpec::Unknown => Seq::empty(),
    }
}

/// Module tag, category tag, then the architecture tag if the floor is known.
pub open spec fn note_tags(inp: InputSpec) -> Seq<Seq<char>> {
    seq![spec_module_tag(inp.module), inp.category] + arch_tags(inp.entry.arch)
}

pub open spec fn make_note(
    inp: InputSpec,
    kind: CardKind,
    seed: Seq<Seq<char>>,
    fields: Seq<(Seq<char>, Seq<char>)>,
) -> NoteSpec {
    NoteSpec {
        deck: kind_deck(inp.module, kind),
        model: spec_model_name(kind),
        tags: note_tags(inp),
        guid: spec_guid(seed),
        fields,
    }
}

pub open spec fn recall_note(inp: InputSpec) -> NoteSpec {
    let e = inp.entry;
    make_note(
        inp,
        CardKind::Recall,
        seq![e.id, spec_seed(CardKind::Recall)],
        seq![
            ("Gloss"@, spec_esc(e.gloss)),
            ("Kind"@, spec_kind_word(e.section)),
            ("Name"@, spec_esc(e.name)),
            ("Section"@, e.section),
        ],
    )
}

pub open spec fn syntax_notes(inp: InputSpec) -> Seq<NoteSpec> {
    let e = inp.entry;
    match e.syntax {
        Some(syntax) => seq![
            make_note(
                inp,
                CardKind::Syntax,
                seq![e.id, spec_seed(CardKind::Syntax)],
                seq![
                    ("Gloss"@, spec_esc(e.gloss)),
                    ("Name"@, spec_esc(e.name)),
                    ("Section"@, e.section),
                    ("Syntax"@, spec_esc(syntax)),
                ],
            ),
        ],
        None => Seq::empty(),
    }
}

pub open spec fn qual_note(inp: InputSpec, q: QualSpec) -> NoteSpec {
    let e = inp.entry;
    make_note(
        inp,
        CardKind::Qualifiers,
        seq![e.id, spec_seed(CardKind::Qualifiers), q.0],
        seq![
            ("Gloss"@, spec_esc(e.gloss)),
            ("Name"@, spec_esc(e.name)),
            ("Qualifier"@, spec_esc(q.0)),
            ("Section"@, e.section),
            ("Values"@, spec_esc(join(q.1, "\n"@))),
        ],
    )
}

pub open spec fn qual_notes(inp: InputSpec) -> Seq<NoteSpec> {
    inp.entry.qualifiers.map_values(|q: QualSpec| qual_note(inp, q))
}

/// What the architecture card says: the minimum `sm_NN`, or that every
/// architecture is supported; no card when the notes are unclear.
pub open spec fn sm_text(a: ArchSpec) -> Option<Seq<char>> {
    match a {
        ArchSpec::Min(sm) => Some(sm),
        ArchSpec::All => Some("all target architectures"@),
        ArchSpec::Unknown => None,
    }
}

pub open spec fn arch_notes(inp: InputSpec) -> Seq<NoteSpec> {
    let e = inp.entry;
    match sm_text(e.arch) {
        Some(sm) => seq![
            make_note(
                inp,
                CardKind::Arch,
                seq![e.id, spec_seed(CardKind::Arch)],
                seq![
                    ("Gloss"@, spec_esc(e.gloss)),
                    ("Name"@, spec_esc(e.name)),
                    ("Section"@, e.section),
                    ("Sm"@, sm),
                ],
            ),
        ],
        None => Seq::empty(),
    }
}

pub open spec fn version_notes(inp: InputSpec) -> Seq<NoteSpec> {
    let e = inp.entry;
    match e.since_ptx {
        Some(v) => seq![
            make_note(
                inp,
                CardKind::Version,
                seq![e.id, spec_seed(CardKind::Version)],
                seq![
                    ("Gloss"@, spec_esc(e.gloss)),
                    ("Name"@, spec_esc(e.name)),
                    ("PtxVersion"@, v),
                    ("Section"@, e.section),
                ],
            ),
        ],
        None => Seq::empty(),
    }
}

/// The notes of one entry: recall, then syntax, one per qualifier list,
/// architecture and version, each only where the entry has that fact.
pub open spec fn spec_input_notes(inp: InputSpec) -> Seq<NoteSpec> {
    seq![recall_note(inp)] + syntax_notes(inp) + qual_notes(inp) + arch_notes(inp)
        + version_notes(inp)
}

pub open spec fn spec_all_notes(inputs: Seq<InputSpec>) -> Seq<NoteSpec>
    decreases inputs.len(),
{
    if inputs.len() == 0 {
        Seq::empty()
    } else {
        spec_all_notes(inputs.drop_last()) + spec_input_notes(inputs.last())
    }
}

pub open spec fn note_decks(notes: Seq<NoteSpec>) -> Seq<Seq<char>> {
    notes.map_values(|n: NoteSpec| n.deck)
}

/// The deck names in the order the build asks for them: per entry, its module
/// deck, then the deck of each of its notes.
pub open spec fn deck_pushes(inputs: Seq<InputSpec>) -> Seq<Seq<char>>
    decreases inputs.len(),
{
    if inputs.len() == 0 {
        Seq::empty()
    } else {
        deck_pushes(inputs.drop_last()) + seq![module_deck(inputs.last().module)] + note_decks(
            spec_input_notes(inputs.last()),
        )
    }
}

pub open spec fn push_unique(acc: Seq<Seq<char>>, x: Seq<char>) -> Seq<Seq<char>> {
    if acc.contains(x) {
        acc
    } else {
        acc.push(x)
    }
}

/// `acc` followed by the names of `s` not seen before, in first-seen order.
pub open spec fn dedup_into(acc: Seq<Seq<char>>, s: Seq<Seq<char>>) -> Seq<Seq<char>>
    decreases s.len(),
{
    if s.len() == 0 {
        acc
    } else {
        push_unique(dedup_into(acc, s.drop_last()), s.last())
    }
}

/// The deck tree: the root deck, then every other deck in first-use order.
pub open spec fn spec_deck_names(inputs: Seq<InputSpec>) -> Seq<Seq<char>> {
    dedup_into(seq![DECK_ROOT@], deck_pushes(inputs))
}

pub open spec fn root_description(version: Seq<char>) -> Seq<char> {
    "NVIDIA PTX ISA "@ + version + ", generated from the official documentation."@
}

pub open spec fn spec_decks(inputs: Seq<InputSpec>, version: Seq<char>) -> Seq<DeckSpec> {
    let names = spec_deck_names(inputs);
    Seq::new(
        names.len(),
        |k: int|
            DeckSpec {
                name: names[k],
                id: spec_deck_id(names[k]) as i64,
                description: if k == 0 {
                    root_description(version)
                } else {
                    Seq::empty()
                },
            },
    )
}

pub open spec fn package_description(version: Seq<char>) -> Seq<char> {
    "NVIDIA PTX ISA "@ + version + " flashcards, generated from the official docs."@
}

fn concat3(a: &str, b: &str, c: &str) -> (r: String)
    ensures
        r@ == a@ + b@ + c@,
{
    let mut r = string_from(a);
    r.append(b);
    r.append(c);
    r
}

fn note_tags_of(inp: &Input) -> (r: Vec<String>)
    ensures
        strings_view(r@) == note_tags(inp@),
{
    let mut tags: Vec<String> = Vec::new();
    tags.push(string_from(inp.module.tag()));
    tags.push(inp.category.clone());
    match &inp.entry.arch {
        ArchReq::Min(sm) => {
            tags.push(crate::text::concat("ptx::", sm.as_str()));
        },
        ArchReq::All => {
            tags.push(string_from("ptx::all-architectures"));
        },
        ArchReq::Unknown => {},
    }
    assert(strings_view(tags@) =~= note_tags(inp@));
    tags
}

fn make_note_def(inp: &Input, kind: CardKind, seed: &Vec<&str>, fields: Vec<(String, String)>) -> (r:
    NoteDef)
    ensures
        r@ == make_note(inp@, kind, seeds_view(seed@), pairs_view(fields@)),
{
    let deck = concat3(
        concat3(DECK_ROOT, "::", inp.module.deck_name()).as_str(),
        "::",
        kind.deck_name(),
    );
    NoteDef {
        deck,
        model: string_from(kind.model_name()),
        tags: note_tags_of(inp),
        guid: guid(seed.as_slice()),
        fields,
    }
}

fn seed_of(id: &str, kind: CardKind) -> (r: Vec<&str>)
    ensures
        seeds_view(r@) == seq![id@, spec_seed(kind)],
{
    let mut r: Vec<&str> = Vec::new();
    r.push(id);
    r.push(kind.seed());
    assert(seeds_view(r@) =~= seq![id@, spec_seed(kind)]);
    r
}

fn pair(k: &str, v: String) -> (r: (String, String))
    ensures
        r.0@ == k@,
        r.1@ == v@,
{
    (string_from(k), v)
}

fn fields4(a: (String, String), b: (String, String), c: (String, String), d: (String, String)) -> (r:
    Vec<(String, String)>)
    ensures
        pairs_view(r@) == seq![(a.0@, a.1@), (b.0@, b.1@), (c.0@, c.1@), (d.0@, d.1@)],
{
    let ghost g = seq![(a.0@, a.1@), (b.0@, b.1@), (c.0@, c.1@), (d.0@, d.1@)];
    let mut r: Vec<(String, String)> = Vec::new();
    r.push(a);
    r.push(b);
    r.push(c);
    r.push(d);
    assert(pairs_view(r@) =~= g);
    r
}

/// `values.join("\n")`.
fn join_lines(values: &Vec<String>) -> (r: String)
    ensures
        r@ == join(strings_view(values@), "\n"@),
{
    let ghost vs = strings_view(values@);
    let mut r = String::new();
    let mut k: usize = 0;
    while k < values.len()
        invariant
            k <= values.len(),
            vs == strings_view(values@),
            r@ == join(vs.take(k as int), "\n"@),
        decreases values.len() - k,
    {
        assert(vs.take(k + 1).drop_last() =~= vs.take(k as int));
        assert(vs.take(k + 1).last() == values@[k as int]@);
        if k > 0 {
            r.append("\n");
        }
        r.append(values[k].as_str());
        k = k + 1;
        if k == 1 {
            assert(r@ =~= values@[0]@);
        }
    }
    assert(vs.take(values.len() as int) =~= vs);
    r
}

/// The notes of one entry.
fn input_notes(inp: &Input) -> (r: Vec<NoteDef>)
    ensures
        notes_view(r@) == spec_input_notes(inp@),
{
    let e = &inp.entry;
    let ghost ie = inp@;
    let name = esc(e.name.as_str());
    let gloss = esc(e.gloss.as_str());
    let mut notes: Vec<NoteDef> = Vec::new();

    // Recall -- every entry has a gloss, so this is universal.
    let recall = make_note_def(
        inp,
        CardKind::Recall,
        &seed_of(e.id.as_str(), CardKind::Recall),
        fields4(
            pair("Gloss", gloss.clone()),
            pair("Kind", string_from(kind_word(e.section.as_str()))),
            pair("Name", name.clone()),
            pair("Section", e.section.clone()),
        ),
    );
    notes.push(recall);
    assert(notes_view(notes@) =~= seq![recall_note(ie)]);

    if let Some(syntax) = &e.syntax {
        let n = make_note_def(
            inp,
            CardKind::Syntax,
            &seed_of(e.id.as_str(), CardKind::Syntax),
            fields4(
                pair("Gloss", gloss.clone()),
                pair("Name", name.clone()),
                pair("Section", e.section.clone()),
                pair("Syntax", esc(syntax.as_str())),
            ),
        );
        let ghost before = notes@;
        notes.push(n);
        assert(notes_view(notes@) =~= notes_view(before).push(n@));
    }
    assert(notes_view(notes@) =~= seq![recall_note(ie)] + syntax_notes(ie));

    let ghost base = notes_view(notes@);
    let mut k: usize = 0;
    while k < e.qualifiers.len()
        invariant
            k <= e.qualifiers.len(),
            e == &inp.entry,
            ie == inp@,
            name@ == spec_esc(e.name@),
            gloss@ == spec_esc(e.gloss@),
            base == seq![recall_note(ie)] + syntax_notes(ie),
            notes_view(notes@) == base + qual_notes(ie).take(k as int),
        decreases e.qualifiers.len() - k,
    {
        let q = &e.qualifiers[k];
        let mut seed: Vec<&str> = Vec::new();
        seed.push(e.id.as_str());
        seed.push(CardKind::Qualifiers.seed());
        seed.push(q.name.as_str());
        assert(seeds_view(seed@) =~= seq![e.id@, spec_seed(CardKind::Qualifiers), q.name@]);
        let mut fields: Vec<(String, String)> = Vec::new();
        fields.push(pair("Gloss", gloss.clone()));
        fields.push(pair("Name", name.clone()));
        fields.push(pair("Qualifier", esc(q.name.as_str())));
        fields.push(pair("Section", e.section.clone()));
        fields.push(pair("Values", esc(join_lines(&q.values).as_str())));
        assert(pairs_view(fields@) =~= seq![
            ("Gloss"@, spec_esc(e.gloss@)),
            ("Name"@, spec_esc(e.name@)),
            ("Qualifier"@, spec_esc(q.name@)),
            ("Section"@, e.section@),
            ("Values"@, spec_esc(join(q@.1, "\n"@))),
        ]);
        let n = make_note_def(inp, CardKind::Qualifiers, &seed, fields);
        assert(ie.entry.qualifiers[k as int] == q@);
        assert(n@ == qual_note(ie, q@));
        let ghost before = notes@;
        notes.push(n);
        assert(notes_view(notes@) =~= notes_view(before).push(n@));
        assert(qual_notes(ie).take(k + 1) =~= qual_notes(ie).take(k as int).push(n@));
        k = k + 1;
    }
    assert(qual_notes(ie).take(e.qualifiers.len() as int) =~= qual_notes(ie));

    // An Unknown requirement produces no card at all, rather than asserting
    // something the doc does not actually say.
    let sm = match &e.arch {
        ArchReq::Min(sm) => Some(sm.clone()),
        ArchReq::All => Some(string_from("all target architectures")),
        ArchReq::Unknown => None,
    };
    if let Some(sm) = sm {
        let n = make_note_def(
            inp,
            CardKind::Arch,
            &seed_of(e.id.as_str(), CardKind::Arch),
            fields4(
                pair("Gloss", gloss.clone()),
                pair("Name", name.clone()),
                pair("Section", e.section.clone()),
                pair("Sm", sm),
            ),
        );
        let ghost before = notes@;
        notes.push(n);
        assert(notes_view(notes@) =~= notes_view(before).push(n@));
    }
    assert(notes_view(notes@) =~= seq![recall_note(ie)] + syntax_notes(ie) + qual_notes(ie)
        + arch_notes(ie));

    if let Some(version) = &e.since_ptx {
        let n = make_note_def(
            inp,
            CardKind::Version,
            &seed_of(e.id.as_str(), CardKind::Version),
            fields4(
                pair("Gloss", gloss.clone()),
                pair("Name", name.clone()),
                pair("PtxVersion", version.clone()),
                pair("Section", e.section.clone()),
            ),
        );
        let ghost before = notes@;
        notes.push(n);
        assert(notes_view(notes@) =~= notes_view(before).push(n@));
    }
    assert(notes_view(notes@) =~= spec_input_notes(ie));
    notes
}

/// Root description and the per-deck facts the build keeps: every deck's id is
/// the id of its name, only the root deck has a description.
pub open spec fn decks_ok(decks: Seq<DeckDef>, version: Seq<char>) -> bool {
    &&& decks.len() >= 1
    &&& decks[0].description@ == root_description(version)
    &&& forall|k: int| 0 <= k < decks.len() ==> (#[trigger] decks[k]).id as int == spec_deck_id(decks[k].name@)
    &&& forall|k: int| 1 <= k < decks.len() ==> (#[trigger] decks[k]).description@ == Seq::<char>::empty()
}

pub open spec fn deck_names(decks: Seq<DeckDef>) -> Seq<Seq<char>> {
    decks.map_values(|d: DeckDef| d.name@)
}

/// Adds a deck named `name` unless one with that name exists.
fn push_deck(decks: &mut Vec<DeckDef>, name: String, version: Ghost<Seq<char>>)
    requires
        decks_ok(old(decks)@, version@),
    ensures
        decks_ok(final(decks)@, version@),
        deck_names(final(decks)@) == push_unique(deck_names(old(decks)@), name@),
{
    let mut k: usize = 0;
    while k < decks.len()
        invariant
            k <= decks.len(),
            decks@ == old(decks)@,
            decks_ok(decks@, version@),
            forall|j: int| 0 <= j < k ==> decks@[j].name@ != name@,
        decreases decks.len() - k,
    {
        if decks[k].name == name {
            assert(deck_names(decks@)[k as int] == name@);
            return ;
        }
        k = k + 1;
    }
    assert(!deck_names(decks@).contains(name@)) by {
        assert forall|j: int| 0 <= j < deck_names(decks@).len() implies deck_names(decks@)[j]
            != name@ by {
            assert(deck_names(decks@)[j] == decks@[j].name@);
        }
    }
    let id = deck_id(name.as_str());
    let ghost before = decks@;
    let d = DeckDef { name, id, description: String::new() };
    decks.push(d);
    assert(deck_names(decks@) =~= deck_names(before).push(d.name@));
}

/// Builds the deck definition: the five note types, the deck tree, and the
/// notes of every input in order.
pub fn build(inputs: &[Input], ptx_version: &str) -> (r: DeckDefinition)
    ensures
        r.package.name@ == DECK_ROOT@,
        r.package.version@ == ptx_version@,
        r.package.description@ == package_description(ptx_version@),
        models_view(r.models@) == spec_models(),
        decks_view(r.decks@) == spec_decks(inputs_view(inputs@), ptx_version@),
        notes_view(r.notes@) == spec_all_notes(inputs_view(inputs@)),
        forall|k: int|
            0 <= k < r.notes.len() ==> crate::deck_laws::keys_ascending(
                #[trigger] notes_view(r.notes@)[k].fields,
            ),
{
    let ghost ins = inputs_view(inputs@);
    let ghost v = ptx_version@;
    let ghost root = seq![DECK_ROOT@];
    let mut decks: Vec<DeckDef> = Vec::new();
    let mut notes: Vec<NoteDef> = Vec::new();
    let root_deck = DeckDef {
        name: string_from(DECK_ROOT),
        id: deck_id(DECK_ROOT),
        description: concat3(
            "NVIDIA PTX ISA ",
            ptx_version,
            ", generated from the official documentation.",
        ),
    };
    decks.push(root_deck);
    assert(deck_names(decks@) =~= root);
    assert(ins.take(0) =~= Seq::<InputSpec>::empty());
    assert(notes_view(notes@) =~= Seq::<NoteSpec>::empty());
    let mut i: usize = 0;
    while i < inputs.len()
        invariant
            i <= inputs.len(),
            ins == inputs_view(inputs@),
            v == ptx_version@,
            root == seq![DECK_ROOT@],
            decks_ok(decks@, v),
            deck_names(decks@) == dedup_into(root, deck_pushes(ins.take(i as int))),
            notes_view(notes@) == spec_all_notes(ins.take(i as int)),
        decreases inputs.len() - i,
    {
        let inp = &inputs[i];
        assert(ins.take(i + 1).drop_last() =~= ins.take(i as int));
        assert(ins.take(i + 1).last() == inp@);
        let module_deck_name = concat3(DECK_ROOT, "::", inp.module.deck_name());
        push_deck(&mut decks, module_deck_name, Ghost(v));
        let ghost p0 = deck_pushes(ins.take(i as int)) + seq![module_deck(inp@.module)];
        assert(p0.drop_last() =~= deck_pushes(ins.take(i as int)));
        let mut ns = input_notes(inp);
        let ghost nsv = notes_view(ns@);
        let ghost ds = note_decks(nsv);
        assert(p0 + ds.take(0) =~= p0);
        let mut j: usize = 0;
        while j < ns.len()
            invariant
                j <= ns.len(),
                nsv == notes_view(ns@),
                ds == note_decks(nsv),
                root == seq![DECK_ROOT@],
                decks_ok(decks@, v),
                deck_names(decks@) == dedup_into(root, p0 + ds.take(j as int)),
            decreases ns.len() - j,
        {
            assert(ds[j as int] == ns@[j as int].deck@);
            push_deck(&mut decks, ns[j].deck.clone(), Ghost(v));
            assert((p0 + ds.take(j + 1)).drop_last() =~= p0 + ds.take(j as int));
            assert((p0 + ds.take(j + 1)).last() == ds[j as int]);
            j = j + 1;
        }
        assert(ds.take(ns.len() as int) =~= ds);
        assert(deck_pushes(ins.take(i + 1)) =~= p0 + ds);
        let ghost before = notes_view(notes@);
        notes.append(&mut ns);
        assert(notes_view(notes@) =~= before + nsv);
        i = i + 1;
    }
    assert(ins.take(inputs.len() as int) =~= ins);
    let ghost names = spec_deck_names(ins);
    assert forall|k: int| 0 <= k < decks@.len() implies (#[trigger] decks_view(decks@)[k]) == spec_decks(
        ins,
        v,
    )[k] by {
        assert(deck_names(decks@)[k] == decks@[k].name@);
        assert(decks_view(decks@)[k] == decks@[k]@);
    }
    assert(decks_view(decks@) =~= spec_decks(ins, v));
    proof {
        crate::deck_laws::law_note_fields_are_sorted(ins);
    }
    DeckDefinition {
        package: PackageInfo {
            name: string_from(DECK_ROOT),
            version: string_from(ptx_version),
            description: concat3(
                "NVIDIA PTX ISA ",
                ptx_version,
                " flashcards, generated from the official docs.",
            ),
        },
        models: models(),
        decks,
        notes,
    }
}

} // verus!
