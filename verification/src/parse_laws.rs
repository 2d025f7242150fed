//! What the parser's text rules satisfy.
use crate::module::parse_u32;
use crate::parse::{
    brace_scan,
    all_declared, declared_in_order, lemma_qual_scan_order, lemma_qual_scan_well_formed,
    positions_ok, quals_well_formed, spec_parse_qualifiers, QualSpec,
    brace_depth, first_sentence, lemma_split_top_nonempty, lemma_split_top_pieces, no_top_comma, sm_scan, spec_lowest_sm, spec_parse_arch,
    split_top, SmBest, qual_scan, clean_values, has_name, lemma_brace_scan,
};
use crate::text::{
    find, find_from, join, lemma_find_from_is_first, lemma_run_end, matches_at, run_end, CharClass,
    find_char_from, lemma_find_char_from, in_class,
};
use vstd::prelude::*;

verus! {

proof fn lemma_first_match(s: Seq<char>, p: Seq<char>, k: int)
    requires
        0 <= k,
        matches_at(s, p, k),
        forall|j: int| 0 <= j < k ==> !matches_at(s, p, j),
    ensures
        find(s, p) == Some(k),
{
    lemma_find_from_is_first(s, p, 0);
}

/// The architecture requirement is read from the first sentence alone:
/// whatever follows the first ". " never changes it.
pub proof fn law_arch_reads_only_the_first_sentence(first: Seq<char>, rest: Seq<char>)
    requires
        find(first, ". "@) is None,
    ensures
        spec_parse_arch(first + ". "@ + rest) == spec_parse_arch(first),
{
    reveal_strlit(". ");
    let p = ". "@;
    assert(p.len() == 2 && p[0] == '.' && p[1] == ' ');
    let t = first + p + rest;
    lemma_find_from_is_first(first, p, 0);
    assert forall|j: int| 0 <= j < first.len() implies !matches_at(t, p, j) by {
        if j + 2 <= first.len() {
            assert(t.subrange(j, j + 2) =~= first.subrange(j, j + 2));
            assert(!matches_at(first, p, j));
        } else {
            assert(t[j + 1] == '.');
            assert(t.subrange(j, j + 2)[1] == t[j + 1]);
        }
    }
    assert(t.subrange(first.len() as int, first.len() as int + 2) =~= p);
    lemma_first_match(t, p, first.len() as int);
    assert(first_sentence(t) =~= first);
    assert(first_sentence(first) == first);
}

// --- the lowest architecture ---------------------------------------------------------

/// The number of the `sm_NN` token at position `k`, if one starts there and
/// its digits parse.
pub open spec fn sm_number_at(t: Seq<char>, k: int) -> Option<u32> {
    if matches_at(t, "sm_"@, k) {
        let digits = t.subrange(k + 3, run_end(t, k + 3, CharClass::Digit));
        if digits.len() > 0 {
            parse_u32(digits)
        } else {
            None
        }
    } else {
        None
    }
}

spec fn best_at_most(best: SmBest, m: u32) -> bool {
    match best {
        Some((n, _)) => n <= m,
        None => false,
    }
}

proof fn lemma_scan_keeps_lowest(t: Seq<char>, i: int, best: SmBest)
    requires
        0 <= i,
    ensures
        forall|m: u32| best_at_most(best, m) ==> best_at_most(sm_scan(t, i, best), m),
        forall|k: int|
            i <= k && (#[trigger] sm_number_at(t, k)) is Some ==> best_at_most(
                sm_scan(t, i, best),
                sm_number_at(t, k)->0,
            ),
    decreases t.len() - i,
{
    reveal_strlit("sm_");
    let p = "sm_"@;
    assert(p.len() == 3 && p[0] == 's' && p[1] == 'm' && p[2] == '_');
    lemma_find_from_is_first(t, p, i);
    match find_from(t, p, i) {
        None => {
            assert forall|k: int| i <= k && (#[trigger] sm_number_at(t, k)) is Some implies false by {
                assert(matches_at(t, p, k));
            }
        },
        Some(start) => {
            lemma_run_end(t, start + 3, CharClass::Digit);
            let de = run_end(t, start + 3, CharClass::Digit);
            let digits = t.subrange(start + 3, de);
            let end = if de < t.len() && crate::text::is_alpha(t[de]) {
                de + 1
            } else {
                de
            };
            let best2 = if digits.len() > 0 {
                match parse_u32(digits) {
                    Some(n) => if match best {
                        Some(b) => n < b.0,
                        None => true,
                    } {
                        Some((n, t.subrange(start, end)))
                    } else {
                        best
                    },
                    None => best,
                }
            } else {
                best
            };
            assert(sm_scan(t, i, best) == sm_scan(t, start + 3, best2));
            lemma_scan_keeps_lowest(t, start + 3, best2);
            assert forall|m: u32| best_at_most(best, m) implies best_at_most(best2, m) by {}
            assert(sm_number_at(t, start) matches Some(n) ==> best_at_most(best2, n));
            assert forall|k: int| i <= k && (#[trigger] sm_number_at(t, k)) is Some implies best_at_most(
                sm_scan(t, i, best),
                sm_number_at(t, k)->0,
            ) by {
                assert(matches_at(t, p, k));
                if k == start + 1 || k == start + 2 {
                    assert(t.subrange(start, start + 3)[k - start] == t[k]);
                    assert(t.subrange(k, k + 3)[0] == t[k]);
                }
            }
        },
    }
}

/// The architecture token reported is the lowest: its number is at most the
/// number of every `sm_NN` token in the text.
pub proof fn law_lowest_sm_is_lowest(t: Seq<char>, k: int)
    requires
        0 <= k,
        sm_number_at(t, k) is Some,
    ensures
        sm_scan(t, 0, None) matches Some((n, _)) && n <= sm_number_at(t, k)->0,
        spec_lowest_sm(t) is Some,
{
    lemma_scan_keeps_lowest(t, 0, None);
}

/// The text of the `sm_NN` token at `k`: `sm_`, its digits, and one ASCII
/// letter if one follows (a family suffix such as the `a` of `sm_90a`).
pub open spec fn sm_token(t: Seq<char>, k: int) -> Seq<char> {
    let de = run_end(t, k + 3, CharClass::Digit);
    let end = if de < t.len() && crate::text::is_alpha(t[de]) {
        de + 1
    } else {
        de
    };
    t.subrange(k, end)
}

/// The token at `k` is the first with the least number among the tokens
/// before `bound`.
pub open spec fn is_first_lowest(t: Seq<char>, k: int, bound: int) -> bool {
    &&& 0 <= k < bound
    &&& sm_number_at(t, k) is Some
    &&& forall|k2: int|
        0 <= k2 < bound && (#[trigger] sm_number_at(t, k2)) is Some ==> (if k2 < k {
            sm_number_at(t, k)->0 < sm_number_at(t, k2)->0
        } else {
            sm_number_at(t, k)->0 <= sm_number_at(t, k2)->0
        })
}

/// What a scan that has read up to `i` holds: nothing if no token starts
/// before `i`, else the number and text of the first lowest such token.
pub open spec fn scan_inv(t: Seq<char>, i: int, best: SmBest) -> bool {
    match best {
        None => forall|k: int| 0 <= k < i ==> (#[trigger] sm_number_at(t, k)) is None,
        Some((n, r)) => exists|k: int|
            #[trigger] is_first_lowest(t, k, i) && sm_number_at(t, k) == Some(n) && r == sm_token(t, k),
    }
}

proof fn lemma_scan_finds_first_lowest(t: Seq<char>, i: int, best: SmBest)
    requires
        0 <= i <= t.len(),
        scan_inv(t, i, best),
    ensures
        scan_inv(t, t.len() as int, sm_scan(t, i, best)),
    decreases t.len() - i,
{
    reveal_strlit("sm_");
    let p = "sm_"@;
    assert(p.len() == 3 && p[0] == 's' && p[1] == 'm' && p[2] == '_');
    lemma_find_from_is_first(t, p, i);
    match find_from(t, p, i) {
        None => {
            assert forall|k: int| i <= k < t.len() implies (#[trigger] sm_number_at(t, k)) is None by {
                if sm_number_at(t, k) is Some {
                    assert(matches_at(t, p, k));
                }
            }
            match best {
                None => {},
                Some((n, r)) => {
                    let k = choose|k: int|
                        #[trigger] is_first_lowest(t, k, i) && sm_number_at(t, k) == Some(n) && r
                            == sm_token(t, k);
                    assert(is_first_lowest(t, k, t.len() as int));
                },
            }
        },
        Some(start) => {
            lemma_run_end(t, start + 3, CharClass::Digit);
            let de = run_end(t, start + 3, CharClass::Digit);
            let digits = t.subrange(start + 3, de);
            let end = if de < t.len() && crate::text::is_alpha(t[de]) {
                de + 1
            } else {
                de
            };
            let best2 = if digits.len() > 0 {
                match parse_u32(digits) {
                    Some(n) => if match best {
                        Some(b) => n < b.0,
                        None => true,
                    } {
                        Some((n, t.subrange(start, end)))
                    } else {
                        best
                    },
                    None => best,
                }
            } else {
                best
            };
            assert(sm_scan(t, i, best) == sm_scan(t, start + 3, best2));
            // No token starts between `i` and `start`, nor inside this `sm_`.
            assert forall|k: int| i <= k < start + 3 && k != start implies (#[trigger] sm_number_at(
                t,
                k,
            )) is None by {
                if sm_number_at(t, k) is Some {
                    assert(matches_at(t, p, k));
                    if k == start + 1 || k == start + 2 {
                        assert(t.subrange(start, start + 3)[k - start] == t[k]);
                        assert(t.subrange(k, k + 3)[0] == t[k]);
                    }
                }
            }
            assert(matches_at(t, p, start));
            assert(sm_number_at(t, start) == (if digits.len() > 0 {
                parse_u32(digits)
            } else {
                None
            }));
            assert(sm_token(t, start) == t.subrange(start, end));
            match best {
                None => {
                    if best2 is Some {
                        assert(is_first_lowest(t, start, start + 3));
                    }
                },
                Some((n, r)) => {
                    let k = choose|k: int|
                        #[trigger] is_first_lowest(t, k, i) && sm_number_at(t, k) == Some(n) && r
                            == sm_token(t, k);
                    if best2 == best {
                        assert(is_first_lowest(t, k, start + 3));
                    } else {
                        assert(is_first_lowest(t, start, start + 3));
                    }
                },
            }
            lemma_scan_finds_first_lowest(t, start + 3, best2);
        },
    }
}

/// The architecture token reported is the first of the lowest: there is none
/// exactly when no `sm_` followed by digits that parse as a `u32` occurs, and
/// otherwise it is the text (`sm_`, digits, family letter if any) of the first
/// token whose number is least.
pub proof fn law_lowest_sm_is_first_lowest(t: Seq<char>)
    ensures
        spec_lowest_sm(t) is None <==> forall|k: int| 0 <= k < t.len() ==> (#[trigger] sm_number_at(t, k)) is None,
        spec_lowest_sm(t) matches Some(r) ==> exists|k: int|
            #[trigger] is_first_lowest(t, k, t.len() as int) && r == sm_token(t, k),
{
    lemma_scan_finds_first_lowest(t, 0, None);
}

// --- splitting on top-level commas ---------------------------------------------

/// Number of commas of `s` that sit outside any brace group.
pub open spec fn top_commas(s: Seq<char>) -> nat
    decreases s.len(),
{
    if s.len() == 0 {
        0
    } else {
        top_commas(s.drop_last()) + if s.last() == ',' && brace_depth(s.drop_last()) == 0 {
            1nat
        } else {
            0nat
        }
    }
}

proof fn lemma_join_extend_last(r: Seq<Seq<char>>, c: char)
    requires
        r.len() >= 1,
    ensures
        join(r.update(r.len() - 1, r.last().push(c)), seq![',']) == join(r, seq![',']).push(c),
{
    let r2 = r.update(r.len() - 1, r.last().push(c));
    if r.len() == 1 {
        assert(r2[0] == r[0].push(c));
    } else {
        assert(r2.drop_last() =~= r.drop_last());
        assert(r2.last() == r.last().push(c));
        assert(join(r2, seq![',']) =~= join(r, seq![',']).push(c));
    }
}

/// Splitting on top-level commas loses nothing: there is at least one piece;
/// joining the pieces with `,` gives back the text; there is one piece more
/// than there are commas outside brace groups; and no piece holds such a
/// comma. (Each piece starts where the nesting of the whole text is zero, so
/// nesting inside a piece is nesting in the text.)
pub proof fn law_split_top_rejoins(s: Seq<char>)
    ensures
        split_top(s).len() >= 1,
        join(split_top(s), seq![',']) == s,
        split_top(s).len() == 1 + top_commas(s),
        forall|k: int| 0 <= k < split_top(s).len() ==> no_top_comma(#[trigger] split_top(s)[k]),
    decreases s.len(),
{
    lemma_split_top_pieces(s);
    if s.len() == 0 {
        assert(join(split_top(s), seq![',']) =~= s);
    } else {
        let p = s.drop_last();
        law_split_top_rejoins(p);
        lemma_split_top_nonempty(p);
        let r = split_top(p);
        let c = s.last();
        assert(p.push(c) =~= s);
        if c == ',' && brace_depth(p) == 0 {
            let r2 = r.push(Seq::<char>::empty());
            assert(r2.drop_last() =~= r);
            assert(join(r2, seq![',']) =~= p + seq![','] + Seq::<char>::empty());
        } else {
            lemma_join_extend_last(r, c);
        }
    }
}

// --- qualifier lists ---------------------------------------------------------------

/// The qualifier lists of any syntax block have distinct, non-empty names of
/// ASCII letters, digits and `_`, each declared in the block as `.name = {`
/// (with optional ASCII whitespace around `=`), and they come in the order of
/// those declarations. Each list has at least one value; each value is
/// non-empty, made of words separated by single spaces (so trimmed), and holds
/// no comma outside a brace group.
pub proof fn law_qualifiers_well_formed(syntax: Seq<char>)
    ensures
        quals_well_formed(spec_parse_qualifiers(syntax)),
        all_declared(syntax, spec_parse_qualifiers(syntax)),
        declared_in_order(syntax, spec_parse_qualifiers(syntax)),
{
    lemma_qual_scan_well_formed(syntax, 0, Seq::empty());
    let ps = Seq::<int>::empty();
    assert(positions_ok(syntax, Seq::<QualSpec>::empty(), ps));
    lemma_qual_scan_order(syntax, 0, Seq::empty(), ps);
}

// --- matching braces -----------------------------------------------------------------

/// Number of occurrences of `c` in `x`.
pub open spec fn count_char(x: Seq<char>, c: char) -> nat
    decreases x.len(),
{
    if x.len() == 0 {
        0
    } else {
        count_char(x.drop_last(), c) + if x.last() == c {
            1nat
        } else {
            0nat
        }
    }
}

/// The `}` at `i` closes the group opened at `open`: from `open` to `i`
/// inclusive there are as many `{` as `}`.
pub open spec fn closes_group(s: Seq<char>, open: int, i: int) -> bool {
    &&& open < i < s.len()
    &&& s[i] == '}'
    &&& count_char(s.subrange(open, i + 1), '{') == count_char(s.subrange(open, i + 1), '}')
}

proof fn lemma_brace_scan_closes(s: Seq<char>, open: int, k: int, d: nat)
    requires
        0 <= open < k <= s.len(),
        d >= 1,
        d as int == count_char(s.subrange(open, k), '{') - count_char(s.subrange(open, k), '}'),
        forall|i: int| open < i < k ==> !closes_group(s, open, i),
    ensures
        match brace_scan(s, k, d) {
            Some(c) => closes_group(s, open, c) && forall|i: int|
                open < i < c ==> !closes_group(s, open, i),
            None => forall|i: int| open < i ==> !closes_group(s, open, i),
        },
    decreases s.len() - k,
{
    if k < s.len() {
        let x = s.subrange(open, k + 1);
        assert(x.drop_last() =~= s.subrange(open, k));
        assert(x.last() == s[k]);
        if s[k] == '{' {
            assert(!closes_group(s, open, k));
            lemma_brace_scan_closes(s, open, k + 1, d + 1);
        } else if s[k] == '}' {
            if d <= 1 {
                assert(closes_group(s, open, k));
            } else {
                assert(!closes_group(s, open, k));
                lemma_brace_scan_closes(s, open, k + 1, (d - 1) as nat);
            }
        } else {
            assert(!closes_group(s, open, k));
            lemma_brace_scan_closes(s, open, k + 1, d);
        }
    }
}

/// The brace matcher finds the least index after a `{` whose `}` closes its
/// group, and finds nothing exactly when no `}` closes it (unbalanced braces).
pub proof fn law_matching_brace(s: Seq<char>, open: int)
    requires
        0 <= open < s.len(),
        s[open] == '{',
    ensures
        match brace_scan(s, open, 0) {
            Some(c) => closes_group(s, open, c) && forall|i: int|
                open < i < c ==> !closes_group(s, open, i),
            None => forall|i: int| open < i ==> !closes_group(s, open, i),
        },
{
    let x = s.subrange(open, open + 1);
    assert(x.drop_last() =~= Seq::<char>::empty());
    assert(x.last() == '{');
    assert(count_char(Seq::<char>::empty(), '{') == 0);
    assert(count_char(Seq::<char>::empty(), '}') == 0);
    assert(count_char(x, '{') == 1);
    assert(count_char(x, '}') == 0);
    lemma_brace_scan_closes(s, open, open + 1, 1);
}

// --- reading a declaration ----------------------------------------------------------

/// A character of a qualifier name: an ASCII letter or digit, or `_`.
pub open spec fn qualifier_name_char(c: char) -> bool {
    ('a' <= c && c <= 'z') || ('A' <= c && c <= 'Z') || ('0' <= c && c <= '9') || c == '_'
}

/// ASCII whitespace: space, tab, line feed, vertical tab, form feed, carriage
/// return.
pub open spec fn ascii_space(c: char) -> bool {
    c == ' ' || ('\t' <= c && c <= '\r')
}

proof fn lemma_run_end_is(s: Seq<char>, a: int, b: int, cls: CharClass)
    requires
        0 <= a <= b <= s.len(),
        forall|i: int| a <= i < b ==> in_class(cls, #[trigger] s[i]),
        b == s.len() || !in_class(cls, s[b]),
    ensures
        run_end(s, a, cls) == b,
    decreases b - a,
{
    if a < b {
        lemma_run_end_is(s, a + 1, b, cls);
    }
}

proof fn lemma_qual_scan_keeps(s: Seq<char>, i: int, out: Seq<QualSpec>)
    ensures
        qual_scan(s, i, out).len() >= out.len(),
        forall|k: int| 0 <= k < out.len() ==> #[trigger] qual_scan(s, i, out)[k] == out[k],
    decreases s.len() - i,
{
    if 0 <= i < s.len() {
        lemma_find_char_from(s, '.', i);
        if let Some(start) = find_char_from(s, '.', i) {
            lemma_run_end(s, start + 1, CharClass::NameChar);
            let ne = run_end(s, start + 1, CharClass::NameChar);
            if ne == start + 1 {
                lemma_qual_scan_keeps(s, start + 1, out);
            } else {
                lemma_run_end(s, ne, CharClass::AsciiSpace);
                let j = run_end(s, ne, CharClass::AsciiSpace);
                if j >= s.len() || s[j] != '=' {
                    lemma_qual_scan_keeps(s, ne, out);
                } else {
                    lemma_run_end(s, j + 1, CharClass::AsciiSpace);
                    let j2 = run_end(s, j + 1, CharClass::AsciiSpace);
                    if j2 >= s.len() || s[j2] != '{' {
                        lemma_qual_scan_keeps(s, ne, out);
                    } else if let Some(close) = brace_scan(s, j2, 0) {
                        lemma_brace_scan(s, j2, 0);
                        let name = s.subrange(start + 1, ne);
                        let vals = clean_values(split_top(s.subrange(j2 + 1, close)));
                        if vals.len() > 0 && !has_name(out, name) {
                            let out2 = out.push((name, vals));
                            lemma_qual_scan_keeps(s, close + 1, out2);
                            assert forall|k: int| 0 <= k < out.len() implies #[trigger] qual_scan(
                                s,
                                i,
                                out,
                            )[k] == out[k] by {
                                assert(qual_scan(s, close + 1, out2)[k] == out2[k]);
                            }
                        } else {
                            lemma_qual_scan_keeps(s, close + 1, out);
                        }
                    }
                }
            }
        }
    }
}

/// A block whose first `.` opens a declaration `.name = { values }` (a name of
/// ASCII letters, digits and `_`, as long as such characters run, then `=` and
/// `{` each after optional ASCII whitespace, and the `}` that closes that
/// group) yields, as its first qualifier list, that whole name with those
/// values, provided there is at least one.
pub proof fn law_first_declaration_is_read(s: Seq<char>, p: int, ne: int, j: int, j2: int, close: int)
    requires
        0 <= p && p + 1 < ne <= j < j2 < close < s.len(),
        forall|i: int| 0 <= i < p ==> s[i] != '.',
        s[p] == '.',
        forall|i: int| p < i < ne ==> qualifier_name_char(#[trigger] s[i]),
        !qualifier_name_char(s[ne]),
        forall|i: int| ne <= i < j ==> ascii_space(#[trigger] s[i]),
        s[j] == '=',
        forall|i: int| j < i < j2 ==> ascii_space(#[trigger] s[i]),
        s[j2] == '{',
        closes_group(s, j2, close),
        forall|i: int| j2 < i < close ==> !closes_group(s, j2, i),
        clean_values(split_top(s.subrange(j2 + 1, close))).len() > 0,
    ensures
        spec_parse_qualifiers(s).len() >= 1,
        spec_parse_qualifiers(s)[0] == (
            s.subrange(p + 1, ne),
            clean_values(split_top(s.subrange(j2 + 1, close))),
        ),
{
    lemma_find_char_from(s, '.', 0);
    assert(find_char_from(s, '.', 0) == Some(p));
    lemma_run_end_is(s, p + 1, ne, CharClass::NameChar);
    lemma_run_end_is(s, ne, j, CharClass::AsciiSpace);
    lemma_run_end_is(s, j + 1, j2, CharClass::AsciiSpace);
    law_matching_brace(s, j2);
    match brace_scan(s, j2, 0) {
        Some(c) => {
            if c < close {
                assert(!closes_group(s, j2, c));
            } else if c > close {
                assert(!closes_group(s, j2, close));
            }
        },
        None => {
            assert(!closes_group(s, j2, close));
        },
    }
    let name = s.subrange(p + 1, ne);
    let vals = clean_values(split_top(s.subrange(j2 + 1, close)));
    let out2 = seq![(name, vals)];
    assert(Seq::<QualSpec>::empty().push((name, vals)) =~= out2);
    assert(qual_scan(s, 0, Seq::empty()) == qual_scan(s, close + 1, out2));
    lemma_qual_scan_keeps(s, close + 1, out2);
    assert(qual_scan(s, close + 1, out2)[0] == out2[0]);
}

} // verus!
