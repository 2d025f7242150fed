//! Scope classification: which of the three study modules an entry belongs to.
//!
//! Classification is driven purely by the doc's own section numbering, which is
//! stable and needs no name heuristics. Chapter 9.7.<n> groups instructions into
//! twenty categories; chapters 10 and 11 cover special registers and directives.
use crate::text::{chars_of, concat, eq_str, is_ascii_digit, is_digit, string_from};
use vstd::prelude::*;

verus! {

#[derive(Debug, Clone, Copy, PartialEq, Eq, Structural)]
pub enum Module {
    /// The instructions you reach for writing ordinary PTX by hand.
    Core,
    /// Everything else in chapter 9: specialised precision, tensor cores,
    /// texture/surface, video SIMD.
    Instructions,
    /// Special registers and directives -- the surrounding language, not opcodes.
    Concepts,
}

pub open spec fn spec_module_deck_name(m: Module) -> Seq<char> {
    match m {
        Module::Core => "Core Instructions"@,
        Module::Instructions => "Instructions"@,
        Module::Concepts => "Concepts"@,
    }
}

pub open spec fn spec_module_tag(m: Module) -> Seq<char> {
    match m {
        Module::Core => "ptx::core"@,
        Module::Instructions => "ptx::instructions"@,
        Module::Concepts => "ptx::concepts"@,
    }
}

pub open spec fn spec_slug(m: Module) -> Seq<char> {
    match m {
        Module::Core => "core"@,
        Module::Instructions => "instructions"@,
        Module::Concepts => "concepts"@,
    }
}

/// The module whose slug is `s`, trying Core, Instructions, Concepts in turn.
pub open spec fn spec_parse_slug(s: Seq<char>) -> Option<Module> {
    if s == spec_slug(Module::Core) {
        Some(Module::Core)
    } else if s == spec_slug(Module::Instructions) {
        Some(Module::Instructions)
    } else if s == spec_slug(Module::Concepts) {
        Some(Module::Concepts)
    } else {
        None
    }
}

impl Module {
    pub fn deck_name(self) -> (r: &'static str)
        ensures
            r@ == spec_module_deck_name(self),
    {
        match self {
            Module::Core => "Core Instructions",
            Module::Instructions => "Instructions",
            Module::Concepts => "Concepts",
        }
    }

    pub fn tag(self) -> (r: &'static str)
        ensures
            r@ == spec_module_tag(self),
    {
        match self {
            Module::Core => "ptx::core",
            Module::Instructions => "ptx::instructions",
            Module::Concepts => "ptx::concepts",
        }
    }

    /// Short name accepted on the command line.
    pub fn slug(self) -> (r: &'static str)
        ensures
            r@ == spec_slug(self),
    {
        match self {
            Module::Core => "core",
            Module::Instructions => "instructions",
            Module::Concepts => "concepts",
        }
    }

    pub fn parse_slug(s: &str) -> (r: Option<Module>)
        ensures
            r == spec_parse_slug(s@),
    {
        let v = chars_of(s);
        if eq_str(&v, Module::Core.slug()) {
            Some(Module::Core)
        } else if eq_str(&v, Module::Instructions.slug()) {
            Some(Module::Instructions)
        } else if eq_str(&v, Module::Concepts.slug()) {
            Some(Module::Concepts)
        } else {
            None
        }
    }
}

/// Every module's slug parses back to that module.
pub proof fn law_slug_round_trip(m: Module)
    ensures
        spec_parse_slug(spec_slug(m)) == Some(m),
{
    reveal_strlit("core");
    reveal_strlit("instructions");
    reveal_strlit("concepts");
    assert(spec_slug(Module::Core).len() == 4);
    assert(spec_slug(Module::Instructions).len() == 12);
    assert(spec_slug(Module::Concepts).len() == 8);
    assert(spec_slug(Module::Core) != spec_slug(Module::Instructions));
    assert(spec_slug(Module::Core) != spec_slug(Module::Concepts));
    assert(spec_slug(Module::Instructions) != spec_slug(Module::Concepts));
}

pub open spec fn spec_instruction_category(n: u32) -> Seq<char> {
    if n == 1 {
        "integer-arithmetic"@
    } else if n == 2 {
        "extended-precision"@
    } else if n == 3 {
        "floating-point"@
    } else if n == 4 {
        "half-precision"@
    } else if n == 5 {
        "mixed-precision"@
    } else if n == 6 {
        "comparison-selection"@
    } else if n == 7 {
        "half-comparison"@
    } else if n == 8 {
        "logic-shift"@
    } else if n == 9 {
        "data-movement"@
    } else if n == 10 {
        "fabric"@
    } else if n == 11 {
        "texture"@
    } else if n == 12 {
        "surface"@
    } else if n == 13 {
        "control-flow"@
    } else if n == 14 {
        "synchronization"@
    } else if n == 15 {
        "wmma"@
    } else if n == 16 {
        "wgmma"@
    } else if n == 17 {
        "tcgen05"@
    } else if n == 18 {
        "stack"@
    } else if n == 19 {
        "video"@
    } else if n == 20 {
        "miscellaneous"@
    } else {
        "other"@
    }
}

/// Human-readable category name for a 9.7.<n> instruction group, used for tags.
pub fn instruction_category(n: u32) -> (r: &'static str)
    ensures
        r@ == spec_instruction_category(n),
{
    match n {
        1 => "integer-arithmetic",
        2 => "extended-precision",
        3 => "floating-point",
        4 => "half-precision",
        5 => "mixed-precision",
        6 => "comparison-selection",
        7 => "half-comparison",
        8 => "logic-shift",
        9 => "data-movement",
        10 => "fabric",
        11 => "texture",
        12 => "surface",
        13 => "control-flow",
        14 => "synchronization",
        15 => "wmma",
        16 => "wgmma",
        17 => "tcgen05",
        18 => "stack",
        19 => "video",
        20 => "miscellaneous",
        _ => "other",
    }
}

pub open spec fn spec_is_core_category(n: u32) -> bool {
    n == 1 || n == 2 || n == 3 || n == 6 || n == 8 || n == 9 || n == 13 || n == 14 || n == 18
        || n == 20
}

/// Instruction categories that make up the Core module. The rest of chapter 9
/// is specialised enough that it belongs in the wider Instructions module.
fn is_core_category(n: u32) -> (r: bool)
    ensures
        r == spec_is_core_category(n),
{
    matches!(n, 1 | 2 | 3 | 6 | 8 | 9 | 13 | 14 | 18 | 20)
}

// --- section numbers ----------------------------------------------------------

/// `s.split(sep)`: the pieces between separators, including empty ones.
pub open spec fn split_char(s: Seq<char>, sep: char) -> Seq<Seq<char>>
    decreases s.len(),
{
    if s.len() == 0 {
        seq![Seq::empty()]
    } else {
        let r = split_char(s.drop_last(), sep);
        if s.last() == sep {
            r.push(Seq::empty())
        } else {
            r.update(r.len() - 1, r.last().push(s.last()))
        }
    }
}

pub proof fn lemma_split_nonempty(s: Seq<char>, sep: char)
    ensures
        split_char(s, sep).len() >= 1,
    decreases s.len(),
{
    if s.len() > 0 {
        lemma_split_nonempty(s.drop_last(), sep);
    }
}

/// Value of a run of decimal digits.
pub open spec fn digits_value(d: Seq<char>) -> nat
    decreases d.len(),
{
    if d.len() == 0 {
        0
    } else {
        digits_value(d.drop_last()) * 10 + ((d.last() as u32) - ('0' as u32)) as nat
    }
}

pub open spec fn all_digits(d: Seq<char>) -> bool {
    forall|i: int| 0 <= i < d.len() ==> is_digit(#[trigger] d[i])
}

/// `str::parse::<u32>`: an optional `+`, then at least one decimal digit,
/// with a value that fits in 32 bits.
pub open spec fn parse_u32(s: Seq<char>) -> Option<u32> {
    let d = if s.len() > 0 && s[0] == '+' {
        s.drop_first()
    } else {
        s
    };
    if d.len() > 0 && all_digits(d) && digits_value(d) <= u32::MAX {
        Some(digits_value(d) as u32)
    } else {
        None
    }
}

/// Parses every piece, or fails if any piece fails.
pub open spec fn parse_all(ps: Seq<Seq<char>>) -> Option<Seq<u32>>
    decreases ps.len(),
{
    if ps.len() == 0 {
        Some(Seq::empty())
    } else {
        match (parse_all(ps.drop_last()), parse_u32(ps.last())) {
            (Some(a), Some(b)) => Some(a.push(b)),
            _ => None,
        }
    }
}

/// The numbers of a dotted section number, or `None` if a piece is not one.
pub open spec fn section_parts(s: Seq<char>) -> Option<Seq<u32>> {
    parse_all(split_char(s, '.'))
}

pub open spec fn classify_parts(p: Seq<u32>) -> Option<(Module, Seq<char>)> {
    if p.len() >= 4 && p[0] == 9 && p[1] == 7 {
        Some(
            (
                if spec_is_core_category(p[2]) {
                    Module::Core
                } else {
                    Module::Instructions
                },
                "ptx::"@ + spec_instruction_category(p[2]),
            ),
        )
    } else if p.len() == 2 && p[0] == 10 {
        Some((Module::Concepts, "ptx::special-registers"@))
    } else if p.len() >= 2 && p[0] == 11 {
        Some((Module::Concepts, "ptx::directives"@))
    } else {
        None
    }
}

/// Module and category tag of a section number.
pub open spec fn spec_classify(s: Seq<char>) -> Option<(Module, Seq<char>)> {
    match section_parts(s) {
        Some(p) => classify_parts(p),
        None => None,
    }
}

pub(crate) fn split_on(s: &Vec<char>, sep: char) -> (r: Vec<Vec<char>>)
    ensures
        r@.map_values(|p: Vec<char>| p@) == split_char(s@, sep),
{
    let mut done: Vec<Vec<char>> = Vec::new();
    let mut cur: Vec<char> = Vec::new();
    let mut i: usize = 0;
    while i < s.len()
        invariant
            i <= s.len(),
            done@.map_values(|p: Vec<char>| p@).push(cur@) == split_char(s@.take(i as int), sep),
        decreases s.len() - i,
    {
        let c = s[i];
        let ghost pre = s@.take(i as int);
        assert(s@.take(i + 1).drop_last() =~= pre);
        proof {
            lemma_split_nonempty(pre, sep);
        }
        if c == sep {
            let piece = cur;
            let ghost before = done@;
            done.push(piece);
            cur = Vec::new();
            assert(done@ =~= before.push(piece));
            assert(done@.map_values(|p: Vec<char>| p@) =~= before.map_values(|p: Vec<char>| p@).push(piece@));
            assert(done@.map_values(|p: Vec<char>| p@).push(cur@) =~= split_char(pre, sep).push(Seq::empty()));
        } else {
            cur.push(c);
            assert(done@.map_values(|p: Vec<char>| p@).push(cur@) =~= split_char(pre, sep).update(
                split_char(pre, sep).len() - 1,
                split_char(pre, sep).last().push(c),
            ));
        }
        i = i + 1;
    }
    assert(s@.take(s.len() as int) =~= s@);
    let ghost before = done@;
    let last = cur;
    done.push(last);
    assert(done@ =~= before.push(last));
    assert(done@.map_values(|p: Vec<char>| p@) =~= before.map_values(|p: Vec<char>| p@).push(last@));
    done
}

/// `str::parse::<u32>` on characters.
pub fn parse_number(s: &Vec<char>) -> (r: Option<u32>)
    ensures
        r == parse_u32(s@),
{
    let start: usize = if s.len() > 0 && s[0] == '+' {
        1
    } else {
        0
    };
    let ghost d = if s@.len() > 0 && s@[0] == '+' {
        s@.drop_first()
    } else {
        s@
    };
    assert(d =~= s@.skip(start as int));
    if start == s.len() {
        return None;
    }
    let mut acc: u64 = 0;
    let mut overflow = false;
    let mut i = start;
    while i < s.len()
        invariant
            start <= i <= s.len(),
            d == s@.skip(start as int),
            d == (if s@.len() > 0 && s@[0] == '+' {
                s@.drop_first()
            } else {
                s@
            }),
            all_digits(s@.subrange(start as int, i as int)),
            !overflow ==> acc == digits_value(s@.subrange(start as int, i as int)),
            !overflow ==> acc <= u32::MAX,
            overflow ==> digits_value(s@.subrange(start as int, i as int)) > u32::MAX,
        decreases s.len() - i,
    {
        let c = s[i];
        if !is_ascii_digit(c) {
            assert(d[i - start] == c);
            assert(!all_digits(d));
            return None;
        }
        let ghost pre = s@.subrange(start as int, i as int);
        assert(s@.subrange(start as int, i + 1).drop_last() =~= pre);
        assert(s@.subrange(start as int, i + 1) =~= pre.push(c));
        if !overflow {
            acc = acc * 10 + ((c as u32) - ('0' as u32)) as u64;
            if acc > u32::MAX as u64 {
                overflow = true;
            }
        }
        i = i + 1;
    }
    assert(s@.subrange(start as int, s.len() as int) =~= d);
    if overflow {
        None
    } else {
        Some(acc as u32)
    }
}

fn parse_all_vec(ps: &Vec<Vec<char>>) -> (r: Option<Vec<u32>>)
    ensures
        match r {
            Some(v) => parse_all(ps@.map_values(|p: Vec<char>| p@)) == Some(v@),
            None => parse_all(ps@.map_values(|p: Vec<char>| p@)) is None,
        },
{
    let mut out: Vec<u32> = Vec::new();
    let mut i: usize = 0;
    while i < ps.len()
        invariant
            i <= ps.len(),
            parse_all(ps@.map_values(|p: Vec<char>| p@).take(i as int)) == Some(out@),
        decreases ps.len() - i,
    {
        let ghost pre = ps@.map_values(|p: Vec<char>| p@).take(i as int);
        assert(ps@.map_values(|p: Vec<char>| p@).take(i + 1).drop_last() =~= pre);
        assert(ps@.map_values(|p: Vec<char>| p@).take(i + 1).last() == ps[i as int]@);
        match parse_number(&ps[i]) {
            Some(n) => {
                out.push(n);
            },
            None => {
                proof {
                    lemma_parse_all_prefix_fails(ps@.map_values(|p: Vec<char>| p@), i as int + 1);
                }
                return None;
            },
        }
        i = i + 1;
    }
    assert(ps@.map_values(|p: Vec<char>| p@).take(ps.len() as int) =~= ps@.map_values(|p: Vec<char>| p@));
    Some(out)
}

/// Once a prefix fails to parse, the whole sequence fails.
proof fn lemma_parse_all_prefix_fails(ps: Seq<Seq<char>>, k: int)
    requires
        0 <= k <= ps.len(),
        parse_all(ps.take(k)) is None,
    ensures
        parse_all(ps) is None,
    decreases ps.len() - k,
{
    if k < ps.len() {
        assert(ps.take(k + 1).drop_last() =~= ps.take(k));
        lemma_parse_all_prefix_fails(ps, k + 1);
    } else {
        assert(ps.take(k) =~= ps);
    }
}

/// Classify by dotted section number, e.g. `9.7.1.20` or `10.1`.
/// Returns `None` for sections that aren't card-bearing entries.
pub fn classify(section: &str) -> (r: Option<(Module, String)>)
    ensures
        match r {
            Some((m, c)) => spec_classify(section@) == Some((m, c@)),
            None => spec_classify(section@) is None,
        },
{
    let v = chars_of(section);
    let pieces = split_on(&v, '.');
    let parts = match parse_all_vec(&pieces) {
        Some(p) => p,
        None => {
            return None;
        },
    };
    if parts.len() >= 4 && parts[0] == 9 && parts[1] == 7 {
        let category = parts[2];
        let module = if is_core_category(category) {
            Module::Core
        } else {
            Module::Instructions
        };
        Some((module, concat("ptx::", instruction_category(category))))
    } else if parts.len() == 2 && parts[0] == 10 {
        Some((Module::Concepts, string_from("ptx::special-registers")))
    } else if parts.len() >= 2 && parts[0] == 11 {
        Some((Module::Concepts, string_from("ptx::directives")))
    } else {
        None
    }
}

// --- the instruction chapters -----------------------------------------------------

/// The twenty instruction groups of chapter 9.7 of the PTX ISA, in chapter
/// order: the category name used in tags, and whether the group belongs to the
/// Core module (integer and floating-point arithmetic, comparison, logic and
/// shift, data movement, control flow, synchronization, stack and
/// miscellaneous instructions).
pub open spec fn ptx_instruction_chapters() -> Seq<(Seq<char>, bool)> {
    seq![
        ("integer-arithmetic"@, true),
        ("extended-precision"@, true),
        ("floating-point"@, true),
        ("half-precision"@, false),
        ("mixed-precision"@, false),
        ("comparison-selection"@, true),
        ("half-comparison"@, false),
        ("logic-shift"@, true),
        ("data-movement"@, true),
        ("fabric"@, false),
        ("texture"@, false),
        ("surface"@, false),
        ("control-flow"@, true),
        ("synchronization"@, true),
        ("wmma"@, false),
        ("wgmma"@, false),
        ("tcgen05"@, false),
        ("stack"@, true),
        ("video"@, false),
        ("miscellaneous"@, true),
    ]
}

/// Group `9.7.n` has the `n`-th chapter's category name and module; any other
/// group number is `other` and not Core.
pub proof fn law_instruction_categories(n: u32)
    ensures
        1 <= n <= 20 ==> spec_instruction_category(n) == ptx_instruction_chapters()[n - 1].0
            && spec_is_core_category(n) == ptx_instruction_chapters()[n - 1].1,
        !(1 <= n <= 20) ==> spec_instruction_category(n) == "other"@ && !spec_is_core_category(n),
{
    let t = ptx_instruction_chapters();
    if n == 1 {
        assert(t[0] == ("integer-arithmetic"@, true));
    } else if n == 2 {
        assert(t[1] == ("extended-precision"@, true));
    } else if n == 3 {
        assert(t[2] == ("floating-point"@, true));
    } else if n == 4 {
        assert(t[3] == ("half-precision"@, false));
    } else if n == 5 {
        assert(t[4] == ("mixed-precision"@, false));
    } else if n == 6 {
        assert(t[5] == ("comparison-selection"@, true));
    } else if n == 7 {
        assert(t[6] == ("half-comparison"@, false));
    } else if n == 8 {
        assert(t[7] == ("logic-shift"@, true));
    } else if n == 9 {
        assert(t[8] == ("data-movement"@, true));
    } else if n == 10 {
        assert(t[9] == ("fabric"@, false));
    } else if n == 11 {
        assert(t[10] == ("texture"@, false));
    } else if n == 12 {
        assert(t[11] == ("surface"@, false));
    } else if n == 13 {
        assert(t[12] == ("control-flow"@, true));
    } else if n == 14 {
        assert(t[13] == ("synchronization"@, true));
    } else if n == 15 {
        assert(t[14] == ("wmma"@, false));
    } else if n == 16 {
        assert(t[15] == ("wgmma"@, false));
    } else if n == 17 {
        assert(t[16] == ("tcgen05"@, false));
    } else if n == 18 {
        assert(t[17] == ("stack"@, true));
    } else if n == 19 {
        assert(t[18] == ("video"@, false));
    } else if n == 20 {
        assert(t[19] == ("miscellaneous"@, true));
    }
}

/// An instruction section `9.7.n.x...` with `1 <= n <= 20` is classified into
/// the module of the `n`-th chapter, with the tag `ptx::` and that chapter's
/// category name.
pub proof fn law_instruction_sections_follow_the_chapters(p: Seq<u32>)
    requires
        p.len() >= 4,
        p[0] == 9,
        p[1] == 7,
        1 <= p[2] <= 20,
    ensures
        classify_parts(p) == Some(
            (
                if ptx_instruction_chapters()[p[2] - 1].1 {
                    Module::Core
                } else {
                    Module::Instructions
                },
                "ptx::"@ + ptx_instruction_chapters()[p[2] - 1].0,
            ),
        ),
{
    law_instruction_categories(p[2]);
}

// --- module tags -------------------------------------------------------------------

/// A module's tag is `ptx::` followed by its slug, so the three tags differ
/// and a note's module tag names its module.
pub proof fn law_module_tags(m: Module, m2: Module)
    ensures
        spec_module_tag(m) == "ptx::"@ + spec_slug(m),
        m != m2 ==> spec_module_tag(m) != spec_module_tag(m2),
{
    reveal_strlit("core");
    reveal_strlit("instructions");
    reveal_strlit("concepts");
    reveal_strlit("ptx::");
    reveal_strlit("ptx::core");
    reveal_strlit("ptx::instructions");
    reveal_strlit("ptx::concepts");
    assert(spec_module_tag(m) =~= "ptx::"@ + spec_slug(m));
    assert(spec_module_tag(m2) =~= "ptx::"@ + spec_slug(m2));
    if m != m2 {
        assert(spec_module_tag(m).len() != spec_module_tag(m2).len());
    }
}

} // verus!
