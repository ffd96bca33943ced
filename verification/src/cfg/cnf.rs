//! The normalization pipeline that turns a context-free grammar into
//! Chomsky Normal Form.
//!
//! The pipeline has four stages: epsilon-production elimination,
//! unit-production elimination, long-production splitting and mixed-symbol
//! resolution, followed by an assembler that tags every surviving rule as a
//! terminal production or a binary nonterminal production.  Each stage is a
//! pure function from rule collection to rule collection, and each is
//! specified exactly by a spec-level counterpart over [`SpecRule`] sequences.

use vstd::prelude::*;

use crate::cfg::{
    blank_symbol, contains_string, is_blank, is_group_char, is_nonterminal, is_nonterminal_spec,
    lemma_deep_view_concat, lemma_deep_view_index, lemma_deep_view_push, lemma_deep_view_remove,
    str_eq, suffix_ok, CFGRule, SpecRule, CFG,
};

verus! {

// ------------------------------------------------------------------
// Stage 1: epsilon elimination
// ------------------------------------------------------------------
/// A nullable rule: its right-hand side is exactly the empty-string
/// placeholder, and its left-hand side is not the (fresh) start symbol.
pub open spec fn is_blank_rule(r: SpecRule, start: Seq<char>) -> bool {
    r.lhs != start && r.rhs.len() == 1 && r.rhs[0] == blank_symbol()
}

/// The non-nullable rules among the first `i`, in order.
pub open spec fn kept_upto(rules: Seq<SpecRule>, start: Seq<char>, i: int) -> Seq<SpecRule>
    decreases i,
{
    if i <= 0 {
        Seq::empty()
    } else if is_blank_rule(rules[i - 1], start) {
        kept_upto(rules, start, i - 1)
    } else {
        kept_upto(rules, start, i - 1).push(rules[i - 1])
    }
}

/// All non-nullable rules, in order.
pub open spec fn kept_rules(rules: Seq<SpecRule>, start: Seq<char>) -> Seq<SpecRule> {
    kept_upto(rules, start, rules.len() as int)
}

/// Left-hand sides of the nullable rules among the first `i`, first
/// occurrence only.
pub open spec fn nullable_upto(rules: Seq<SpecRule>, start: Seq<char>, i: int) -> Seq<Seq<char>>
    decreases i,
{
    if i <= 0 {
        Seq::empty()
    } else {
        let pre = nullable_upto(rules, start, i - 1);
        if is_blank_rule(rules[i - 1], start) && !pre.contains(rules[i - 1].lhs) {
            pre.push(rules[i - 1].lhs)
        } else {
            pre
        }
    }
}

/// The nonterminals that can derive the empty string directly, each once, in
/// order of first appearance.
pub open spec fn nullable_symbols(rules: Seq<SpecRule>, start: Seq<char>) -> Seq<Seq<char>> {
    nullable_upto(rules, start, rules.len() as int)
}

/// The rules synthesized from `r` by deleting one occurrence of `sym` at a
/// position below `i`; a deletion that would empty the right-hand side is
/// discarded.
pub open spec fn deletions_upto(r: SpecRule, sym: Seq<char>, i: int) -> Seq<SpecRule>
    decreases i,
{
    if i <= 0 {
        Seq::empty()
    } else {
        let pre = deletions_upto(r, sym, i - 1);
        if r.rhs[i - 1] == sym && r.rhs.len() > 1 {
            pre.push(SpecRule { lhs: r.lhs, rhs: r.rhs.remove(i - 1) })
        } else {
            pre
        }
    }
}

/// All single-occurrence deletions of `sym` from `r`.
pub open spec fn single_deletions(r: SpecRule, sym: Seq<char>) -> Seq<SpecRule> {
    deletions_upto(r, sym, r.rhs.len() as int)
}

/// The deletions of `sym` over the first `i` rules.
pub open spec fn deletions_rules_upto(rules: Seq<SpecRule>, sym: Seq<char>, i: int) -> Seq<
    SpecRule,
>
    decreases i,
{
    if i <= 0 {
        Seq::empty()
    } else {
        deletions_rules_upto(rules, sym, i - 1) + single_deletions(rules[i - 1], sym)
    }
}

/// The deletions of `sym` over all rules.
pub open spec fn deletions_for_symbol(rules: Seq<SpecRule>, sym: Seq<char>) -> Seq<SpecRule> {
    deletions_rules_upto(rules, sym, rules.len() as int)
}

/// The rules synthesized for the first `i` nullable symbols.
pub open spec fn synth_upto(rules: Seq<SpecRule>, syms: Seq<Seq<char>>, i: int) -> Seq<SpecRule>
    decreases i,
{
    if i <= 0 {
        Seq::empty()
    } else {
        synth_upto(rules, syms, i - 1) + deletions_for_symbol(rules, syms[i - 1])
    }
}

/// The rules synthesized for all nullable symbols.
pub open spec fn synthesized_rules(rules: Seq<SpecRule>, syms: Seq<Seq<char>>) -> Seq<SpecRule> {
    synth_upto(rules, syms, syms.len() as int)
}

/// Some rule in the collection has this symbol as its left-hand side.
pub open spec fn defines(rules: Seq<SpecRule>, sym: Seq<char>) -> bool {
    exists|j: int| 0 <= j < rules.len() && rules[j].lhs == sym
}

/// Every nonterminal on the rule's right-hand side is defined somewhere in
/// the pool.
pub open spec fn refs_ok(r: SpecRule, pool: Seq<SpecRule>) -> bool {
    forall|k: int|
        0 <= k < r.rhs.len() ==> !is_nonterminal_spec(#[trigger] r.rhs[k]) || defines(
            pool,
            r.rhs[k],
        )
}

/// The rules among the first `i` whose nonterminal references are all
/// defined in `pool`.
pub open spec fn ref_filter_upto(pool: Seq<SpecRule>, rules: Seq<SpecRule>, i: int) -> Seq<
    SpecRule,
>
    decreases i,
{
    if i <= 0 {
        Seq::empty()
    } else {
        let pre = ref_filter_upto(pool, rules, i - 1);
        if refs_ok(rules[i - 1], pool) {
            pre.push(rules[i - 1])
        } else {
            pre
        }
    }
}

/// Epsilon elimination: drop the nullable rules, synthesize every
/// single-occurrence deletion of a nullable nonterminal, and discard rules
/// that reference a nonterminal no surviving rule defines.
pub open spec fn remove_blank_spec(rules: Seq<SpecRule>, start: Seq<char>) -> Seq<SpecRule> {
    let mid = kept_rules(rules, start) + synthesized_rules(
        rules,
        nullable_symbols(rules, start),
    );
    ref_filter_upto(mid, mid, mid.len() as int)
}

/// Whether some rule in the pool defines this symbol.
fn lhs_defined(pool: &Vec<CFGRule>, sym: &String) -> (b: bool)
    ensures
        b == defines(pool.deep_view(), sym@),
{
    let mut j: usize = 0;
    while j < pool.len()
        invariant
            0 <= j <= pool.len(),
            forall|k: int| 0 <= k < j ==> (#[trigger] pool.deep_view()[k]).lhs != sym@,
        decreases pool.len() - j,
    {
        proof {
            lemma_deep_view_index(*pool, j as int);
        }
        if str_eq(pool[j].lhs.as_str(), sym.as_str()) {
            assert(pool.deep_view()[j as int].lhs == sym@);
            return true;
        }
        j = j + 1;
    }
    assert(forall|k: int|
        0 <= k < pool.deep_view().len() ==> (#[trigger] pool.deep_view()[k]).lhs != sym@);
    false
}

/// Whether every nonterminal on the rule's right-hand side is defined in the
/// pool.
fn all_refs_defined(pool: &Vec<CFGRule>, r: &CFGRule) -> (b: bool)
    ensures
        b == refs_ok(r@, pool.deep_view()),
{
    let mut k: usize = 0;
    while k < r.rhs.len()
        invariant
            0 <= k <= r.rhs.len(),
            forall|m: int|
                0 <= m < k ==> !is_nonterminal_spec(#[trigger] r@.rhs[m]) || defines(
                    pool.deep_view(),
                    r@.rhs[m],
                ),
        decreases r.rhs.len() - k,
    {
        proof {
            lemma_deep_view_index(r.rhs, k as int);
        }
        if is_nonterminal(r.rhs[k].as_str()) {
            if !lhs_defined(pool, &r.rhs[k]) {
                assert(is_nonterminal_spec(r@.rhs[k as int]) && !defines(
                    pool.deep_view(),
                    r@.rhs[k as int],
                ));
                return false;
            }
        }
        k = k + 1;
    }
    true
}

/// Epsilon elimination: rules of the form `A -> .` (for `A` other than the
/// fresh start symbol) are dropped; for each such nullable `A`, every rule
/// mentioning `A` yields one copy per occurrence with that occurrence
/// deleted (copies with an emptied right-hand side are discarded); finally,
/// rules that reference a nonterminal no surviving rule defines are
/// discarded.
pub fn remove_blank_rhs(rules: Vec<CFGRule>, start: &str) -> (res: Vec<CFGRule>)
    ensures
        res.deep_view() == remove_blank_spec(rules.deep_view(), start@),
{
    let ghost rv = rules.deep_view();
    let mut kept: Vec<CFGRule> = Vec::new();
    let mut nullable: Vec<String> = Vec::new();
    let mut i: usize = 0;
    while i < rules.len()
        invariant
            0 <= i <= rules.len(),
            rv == rules.deep_view(),
            kept.deep_view() == kept_upto(rv, start@, i as int),
            nullable.deep_view() == nullable_upto(rv, start@, i as int),
        decreases rules.len() - i,
    {
        proof {
            lemma_deep_view_index(rules, i as int);
        }
        let r = &rules[i];
        assert(r@ == rv[i as int]);
        let mut blank = false;
        if r.rhs.len() == 1 {
            proof {
                lemma_deep_view_index(r.rhs, 0);
            }
            if is_blank(&r.rhs[0]) {
                if !str_eq(r.lhs.as_str(), start) {
                    blank = true;
                }
            }
        }
        assert(blank == is_blank_rule(rv[i as int], start@));
        if blank {
            let ghost n0 = nullable;
            if !contains_string(&nullable, &r.lhs) {
                nullable.push(r.lhs.clone());
                proof {
                    lemma_deep_view_push(n0, nullable, nullable@[nullable@.len() - 1]);
                }
            }
        } else {
            let ghost k0 = kept;
            kept.push(r.duplicate());
            proof {
                lemma_deep_view_push(k0, kept, kept@[kept@.len() - 1]);
            }
        }
        i = i + 1;
    }
    let mut mid = kept;
    let ghost keptv = mid.deep_view();
    let ghost nv = nullable.deep_view();
    proof {
        assert(rv.len() == rules@.len());
        assert(keptv == kept_rules(rv, start@));
        assert(nv == nullable_symbols(rv, start@));
        assert(keptv + synth_upto(rv, nv, 0) =~= keptv);
    }
    let mut si: usize = 0;
    while si < nullable.len()
        invariant
            0 <= si <= nullable.len(),
            rv == rules.deep_view(),
            rv.len() == rules@.len(),
            nv == nullable.deep_view(),
            nv.len() == nullable@.len(),
            mid.deep_view() == keptv + synth_upto(rv, nv, si as int),
        decreases nullable.len() - si,
    {
        proof {
            lemma_deep_view_index(nullable, si as int);
        }
        let sym = &nullable[si];
        assert(sym@ == nv[si as int]);
        let ghost base2 = mid.deep_view();
        let mut ri: usize = 0;
        while ri < rules.len()
            invariant
                0 <= ri <= rules.len(),
                si < nv.len(),
                sym@ == nv[si as int],
                rv == rules.deep_view(),
                rv.len() == rules@.len(),
                mid.deep_view() == base2 + deletions_rules_upto(rv, nv[si as int], ri as int),
            decreases rules.len() - ri,
        {
            proof {
                lemma_deep_view_index(rules, ri as int);
            }
            let parent = &rules[ri];
            assert(parent@ == rv[ri as int]);
            let ghost base3 = mid.deep_view();
            let mut k: usize = 0;
            while k < parent.rhs.len()
                invariant
                    0 <= k <= parent.rhs.len(),
                    si < nv.len(),
                    ri < rv.len(),
                    sym@ == nv[si as int],
                    parent@ == rv[ri as int],
                    mid.deep_view() == base3 + deletions_upto(
                        rv[ri as int],
                        nv[si as int],
                        k as int,
                    ),
                decreases parent.rhs.len() - k,
            {
                proof {
                    lemma_deep_view_index(parent.rhs, k as int);
                }
                if parent.rhs.len() > 1 && str_eq(parent.rhs[k].as_str(), sym.as_str()) {
                    let mut nr = parent.duplicate();
                    let ghost rhs0 = nr.rhs;
                    nr.rhs.remove(k);
                    proof {
                        lemma_deep_view_remove(rhs0, nr.rhs, k as int);
                        assert(nr@ == SpecRule {
                            lhs: rv[ri as int].lhs,
                            rhs: rv[ri as int].rhs.remove(k as int),
                        });
                    }
                    let ghost m0 = mid;
                    mid.push(nr);
                    proof {
                        lemma_deep_view_push(m0, mid, mid@[mid@.len() - 1]);
                        assert(mid.deep_view() == base3 + deletions_upto(
                            rv[ri as int],
                            nv[si as int],
                            k + 1,
                        ));
                    }
                } else {
                    proof {
                        assert(deletions_upto(rv[ri as int], nv[si as int], k + 1)
                            == deletions_upto(rv[ri as int], nv[si as int], k as int));
                    }
                }
                k = k + 1;
            }
            proof {
                assert(deletions_upto(rv[ri as int], nv[si as int], rv[ri as int].rhs.len() as int)
                    == single_deletions(rv[ri as int], nv[si as int]));
                assert(mid.deep_view() == base2 + deletions_rules_upto(
                    rv,
                    nv[si as int],
                    ri + 1,
                ));
            }
            ri = ri + 1;
        }
        proof {
            assert(deletions_rules_upto(rv, nv[si as int], rv.len() as int) == deletions_for_symbol(
                rv,
                nv[si as int],
            ));
            assert(mid.deep_view() == keptv + synth_upto(rv, nv, si + 1));
        }
        si = si + 1;
    }
    let ghost midv = mid.deep_view();
    proof {
        assert(midv == keptv + synthesized_rules(rv, nullable_symbols(rv, start@)));
        assert(midv.len() == mid@.len());
    }
    let mut out: Vec<CFGRule> = Vec::new();
    let mut fi: usize = 0;
    while fi < mid.len()
        invariant
            0 <= fi <= mid.len(),
            midv == mid.deep_view(),
            midv.len() == mid@.len(),
            out.deep_view() == ref_filter_upto(midv, midv, fi as int),
        decreases mid.len() - fi,
    {
        proof {
            lemma_deep_view_index(mid, fi as int);
        }
        if all_refs_defined(&mid, &mid[fi]) {
            let ghost o0 = out;
            out.push(mid[fi].duplicate());
            proof {
                lemma_deep_view_push(o0, out, out@[out@.len() - 1]);
            }
        }
        fi = fi + 1;
    }
    proof {
        assert(out.deep_view() == remove_blank_spec(rv, start@));
    }
    out
}

// ------------------------------------------------------------------
// Stage 2: unit-production elimination
// ------------------------------------------------------------------
/// A unit production: the right-hand side is a single nonterminal.
pub open spec fn is_unit_rule(r: SpecRule) -> bool {
    r.rhs.len() == 1 && is_nonterminal_spec(r.rhs[0])
}

/// The non-unit rules among the first `i`, in order.
pub open spec fn non_units_upto(rules: Seq<SpecRule>, i: int) -> Seq<SpecRule>
    decreases i,
{
    if i <= 0 {
        Seq::empty()
    } else {
        let pre = non_units_upto(rules, i - 1);
        if is_unit_rule(rules[i - 1]) {
            pre
        } else {
            pre.push(rules[i - 1])
        }
    }
}

/// The unit rules among the first `i`, in order.
pub open spec fn units_upto(rules: Seq<SpecRule>, i: int) -> Seq<SpecRule>
    decreases i,
{
    if i <= 0 {
        Seq::empty()
    } else {
        let pre = units_upto(rules, i - 1);
        if is_unit_rule(rules[i - 1]) {
            pre.push(rules[i - 1])
        } else {
            pre
        }
    }
}

/// For the unit rule `u = A -> B`, a copy `A -> w` of every rule `B -> w`
/// among the first `i` of the working set.
pub open spec fn copies_upto(acc: Seq<SpecRule>, u: SpecRule, i: int) -> Seq<SpecRule>
    decreases i,
{
    if i <= 0 {
        Seq::empty()
    } else {
        let pre = copies_upto(acc, u, i - 1);
        if acc[i - 1].lhs == u.rhs[0] {
            pre.push(SpecRule { lhs: u.lhs, rhs: acc[i - 1].rhs })
        } else {
            pre
        }
    }
}

/// All copies derived from the unit rule `u` over the working set.
pub open spec fn unit_copies(acc: Seq<SpecRule>, u: SpecRule) -> Seq<SpecRule> {
    copies_upto(acc, u, acc.len() as int)
}

/// Process the unit rules in order, each appending its copies to the working
/// set so that chains resolve through earlier additions.
pub open spec fn process_units(acc: Seq<SpecRule>, units: Seq<SpecRule>) -> Seq<SpecRule>
    decreases units.len(),
{
    if units.len() == 0 {
        acc
    } else {
        process_units(acc + unit_copies(acc, units[0]), units.drop_first())
    }
}

/// Unit-production elimination: partition once, then propagate.
pub open spec fn remove_one_length_spec(rules: Seq<SpecRule>) -> Seq<SpecRule> {
    process_units(non_units_upto(rules, rules.len() as int), units_upto(rules, rules.len() as int))
}

// ------------------------------------------------------------------
// Stage 3: long-production splitting
// ------------------------------------------------------------------
/// The decimal digit character for `n % 10`.
pub open spec fn digit_char(n: nat) -> char {
    ((48 + (n % 10)) as u8) as char
}

/// The decimal digits of `n`, most significant first.
pub open spec fn dec_digits(n: nat) -> Seq<char>
    decreases n,
{
    if n < 10 {
        seq![digit_char(n)]
    } else {
        dec_digits(n / 10).push(digit_char(n))
    }
}

/// The fixed prefix of the fresh symbols introduced when splitting a long
/// rule.
pub open spec fn extra_prefix() -> Seq<char> {
    seq!['_', 'e', 'x', 't', 'r', 'a']
}

/// The suffix appended to a long rule's left-hand side for the `j`-th fresh
/// symbol of the `rule_idx`-th long rule.
pub open spec fn chain_suffix(rule_idx: nat, j: nat) -> Seq<char> {
    extra_prefix() + dec_digits(rule_idx) + seq![','] + dec_digits(j)
}

/// The left-hand side of the `j`-th rule in a chain: the original left-hand
/// side for the first rule, a fresh symbol afterwards.
pub open spec fn chain_lhs(r: SpecRule, rule_idx: nat, j: int) -> Seq<char> {
    if j == 0 {
        r.lhs
    } else {
        r.lhs + chain_suffix(rule_idx, (j - 1) as nat)
    }
}

/// The first `j` rules of the chain that splits the long rule `r`: each
/// consumes one right-hand symbol and hands the rest to the next fresh
/// symbol.
pub open spec fn chain_upto(r: SpecRule, rule_idx: nat, j: int) -> Seq<SpecRule>
    decreases j,
{
    if j <= 0 {
        Seq::empty()
    } else {
        chain_upto(r, rule_idx, j - 1).push(
            SpecRule {
                lhs: chain_lhs(r, rule_idx, j - 1),
                rhs: seq![r.rhs[j - 1], r.lhs + chain_suffix(rule_idx, (j - 1) as nat)],
            },
        )
    }
}

/// The whole chain for the long rule `r`: the last rule carries the final
/// two right-hand symbols, so the chain derives exactly the original
/// sequence.
pub open spec fn rule_chain(r: SpecRule, rule_idx: nat) -> Seq<SpecRule> {
    let n = r.rhs.len() as int;
    chain_upto(r, rule_idx, n - 2).push(
        SpecRule { lhs: chain_lhs(r, rule_idx, n - 2), rhs: seq![r.rhs[n - 2], r.rhs[n - 1]] },
    )
}

/// The rules among the first `i` whose right-hand side is short (at most two
/// symbols).
pub open spec fn shorts_upto(rules: Seq<SpecRule>, i: int) -> Seq<SpecRule>
    decreases i,
{
    if i <= 0 {
        Seq::empty()
    } else {
        let pre = shorts_upto(rules, i - 1);
        if rules[i - 1].rhs.len() > 2 {
            pre
        } else {
            pre.push(rules[i - 1])
        }
    }
}

/// The rules among the first `i` whose right-hand side is long (more than
/// two symbols).
pub open spec fn longs_upto(rules: Seq<SpecRule>, i: int) -> Seq<SpecRule>
    decreases i,
{
    if i <= 0 {
        Seq::empty()
    } else {
        let pre = longs_upto(rules, i - 1);
        if rules[i - 1].rhs.len() > 2 {
            pre.push(rules[i - 1])
        } else {
            pre
        }
    }
}

/// The chains of the first `i` long rules, each chain indexed by the rule's
/// position among the long rules.
pub open spec fn chains_upto(longs: Seq<SpecRule>, i: int) -> Seq<SpecRule>
    decreases i,
{
    if i <= 0 {
        Seq::empty()
    } else {
        chains_upto(longs, i - 1) + rule_chain(longs[i - 1], (i - 1) as nat)
    }
}

/// Long-production splitting: short rules pass through unchanged; every long
/// rule becomes a chain of binary rules over fresh nonterminals.
pub open spec fn remove_long_spec(rules: Seq<SpecRule>) -> Seq<SpecRule> {
    let shorts = shorts_upto(rules, rules.len() as int);
    let longs = longs_upto(rules, rules.len() as int);
    shorts + chains_upto(longs, longs.len() as int)
}

/// Every rule collected by `longs_upto` has more than two right-hand
/// symbols.
proof fn lemma_longs_are_long(rules: Seq<SpecRule>, i: int)
    ensures
        forall|j: int|
            0 <= j < longs_upto(rules, i).len() ==> (#[trigger] longs_upto(rules, i)[j]).rhs.len()
                > 2,
    decreases i,
{
    if i > 0 {
        lemma_longs_are_long(rules, i - 1);
        let pre = longs_upto(rules, i - 1);
        assert forall|j: int| 0 <= j < longs_upto(rules, i).len() implies (#[trigger] longs_upto(
            rules,
            i,
        )[j]).rhs.len() > 2 by {
            if j < pre.len() {
                assert(longs_upto(rules, i)[j] == pre[j]);
            }
        }
    }
}

/// One decimal digit as a string slice.
fn digit_str(d: usize) -> (s: &'static str)
    requires
        d < 10,
    ensures
        s@ == seq![digit_char(d as nat)],
{
    if d == 0 {
        proof {
            reveal_strlit("0");
            assert("0"@ =~= seq![digit_char(0nat)]);
        }
        "0"
    } else if d == 1 {
        proof {
            reveal_strlit("1");
            assert("1"@ =~= seq![digit_char(1nat)]);
        }
        "1"
    } else if d == 2 {
        proof {
            reveal_strlit("2");
            assert("2"@ =~= seq![digit_char(2nat)]);
        }
        "2"
    } else if d == 3 {
        proof {
            reveal_strlit("3");
            assert("3"@ =~= seq![digit_char(3nat)]);
        }
        "3"
    } else if d == 4 {
        proof {
            reveal_strlit("4");
            assert("4"@ =~= seq![digit_char(4nat)]);
        }
        "4"
    } else if d == 5 {
        proof {
            reveal_strlit("5");
            assert("5"@ =~= seq![digit_char(5nat)]);
        }
        "5"
    } else if d == 6 {
        proof {
            reveal_strlit("6");
            assert("6"@ =~= seq![digit_char(6nat)]);
        }
        "6"
    } else if d == 7 {
        proof {
            reveal_strlit("7");
            assert("7"@ =~= seq![digit_char(7nat)]);
        }
        "7"
    } else if d == 8 {
        proof {
            reveal_strlit("8");
            assert("8"@ =~= seq![digit_char(8nat)]);
        }
        "8"
    } else {
        proof {
            reveal_strlit("9");
            assert("9"@ =~= seq![digit_char(9nat)]);
        }
        "9"
    }
}

/// A number rendered as its decimal digits.
fn nat_to_string(n: usize) -> (s: String)
    ensures
        s@ == dec_digits(n as nat),
    decreases n,
{
    if n < 10 {
        digit_str(n).to_owned()
    } else {
        let mut s = nat_to_string(n / 10);
        s.append(digit_str(n % 10));
        proof {
            assert(dec_digits((n as nat) / 10).push(digit_char(n as nat)) =~= dec_digits(
                (n as nat) / 10,
            ) + seq![digit_char(n as nat)]);
            assert(seq![digit_char((n % 10) as nat)] =~= seq![digit_char(n as nat)]);
        }
        s
    }
}

/// The fresh-symbol suffix for one chain position.
fn make_chain_suffix(rule_idx: usize, j: usize) -> (s: String)
    ensures
        s@ == chain_suffix(rule_idx as nat, j as nat),
{
    proof {
        reveal_strlit("_extra");
        assert("_extra"@ =~= extra_prefix());
        reveal_strlit(",");
        assert(","@ =~= seq![',']);
    }
    let mut s = "_extra".to_owned();
    let idx_s = nat_to_string(rule_idx);
    s.append(idx_s.as_str());
    s.append(",");
    let j_s = nat_to_string(j);
    s.append(j_s.as_str());
    s
}

/// Long-production splitting: rules with at most two right-hand symbols pass
/// through; a rule `A -> X1 .. Xn` with `n > 2` is rewritten into a chain of
/// binary rules over fresh intermediate nonterminals.
pub fn remove_long_rules(rules: Vec<CFGRule>) -> (res: Vec<CFGRule>)
    ensures
        res.deep_view() == remove_long_spec(rules.deep_view()),
{
    let ghost rv = rules.deep_view();
    let mut out: Vec<CFGRule> = Vec::new();
    let mut longs: Vec<CFGRule> = Vec::new();
    let mut i: usize = 0;
    while i < rules.len()
        invariant
            0 <= i <= rules.len(),
            rv == rules.deep_view(),
            out.deep_view() == shorts_upto(rv, i as int),
            longs.deep_view() == longs_upto(rv, i as int),
        decreases rules.len() - i,
    {
        proof {
            lemma_deep_view_index(rules, i as int);
        }
        let ghost out0 = out;
        let ghost longs0 = longs;
        if rules[i].rhs.len() > 2 {
            longs.push(rules[i].duplicate());
            proof {
                lemma_deep_view_push(longs0, longs, longs@[longs@.len() - 1]);
            }
        } else {
            out.push(rules[i].duplicate());
            proof {
                lemma_deep_view_push(out0, out, out@[out@.len() - 1]);
            }
        }
        i = i + 1;
    }
    let ghost shorts_full = out.deep_view();
    let ghost lv = longs.deep_view();
    proof {
        lemma_longs_are_long(rv, rv.len() as int);
    }
    let mut ri: usize = 0;
    while ri < longs.len()
        invariant
            0 <= ri <= longs.len(),
            lv == longs.deep_view(),
            lv == longs_upto(rv, rv.len() as int),
            lv.len() == longs@.len(),
            out.deep_view() == shorts_full + chains_upto(lv, ri as int),
        decreases longs.len() - ri,
    {
        proof {
            lemma_deep_view_index(longs, ri as int);
            lemma_longs_are_long(rv, rv.len() as int);
        }
        let r = &longs[ri];
        assert(r@ == lv[ri as int] && r@.rhs.len() > 2);
        let n = r.rhs.len();
        assert(n == r@.rhs.len());
        let mut cur_lhs = r.lhs.clone();
        let ghost base = out.deep_view();
        let mut j: usize = 0;
        while j < n - 2
            invariant
                0 <= j <= n - 2,
                2 < n == r.rhs.len(),
                r@ == lv[ri as int],
                ri < lv.len(),
                cur_lhs@ == chain_lhs(lv[ri as int], ri as nat, j as int),
                out.deep_view() == base + chain_upto(lv[ri as int], ri as nat, j as int),
            decreases n - j,
        {
            proof {
                lemma_deep_view_index(r.rhs, j as int);
            }
            let suffix = make_chain_suffix(ri, j);
            let mut next_lhs = r.lhs.clone();
            next_lhs.append(suffix.as_str());
            assert(next_lhs@ == lv[ri as int].lhs + chain_suffix(ri as nat, j as nat));
            let mut rhs_vec: Vec<String> = Vec::new();
            rhs_vec.push(r.rhs[j].clone());
            rhs_vec.push(next_lhs.clone());
            proof {
                assert(rhs_vec.deep_view() =~= seq![
                    lv[ri as int].rhs[j as int],
                    lv[ri as int].lhs + chain_suffix(ri as nat, j as nat),
                ]) by {
                    lemma_deep_view_index(rhs_vec, 0);
                    lemma_deep_view_index(rhs_vec, 1);
                }
            }
            let ghost out0 = out;
            let rule = CFGRule { lhs: cur_lhs, rhs: rhs_vec };
            out.push(rule);
            proof {
                lemma_deep_view_push(out0, out, out@[out@.len() - 1]);
                assert(out.deep_view() == base + chain_upto(lv[ri as int], ri as nat, j + 1));
            }
            cur_lhs = next_lhs;
            j = j + 1;
        }
        proof {
            lemma_deep_view_index(r.rhs, n - 2);
            lemma_deep_view_index(r.rhs, n - 1);
        }
        let mut rhs_vec: Vec<String> = Vec::new();
        rhs_vec.push(r.rhs[n - 2].clone());
        rhs_vec.push(r.rhs[n - 1].clone());
        proof {
            assert(rhs_vec.deep_view() =~= seq![
                lv[ri as int].rhs[n - 2],
                lv[ri as int].rhs[n - 1],
            ]) by {
                lemma_deep_view_index(rhs_vec, 0);
                lemma_deep_view_index(rhs_vec, 1);
            }
        }
        let ghost out0 = out;
        out.push(CFGRule { lhs: cur_lhs, rhs: rhs_vec });
        proof {
            lemma_deep_view_push(out0, out, out@[out@.len() - 1]);
            assert(out.deep_view() == base + rule_chain(lv[ri as int], ri as nat));
            assert(out.deep_view() == shorts_full + chains_upto(lv, ri + 1));
        }
        ri = ri + 1;
    }
    proof {
        assert(out.deep_view() == remove_long_spec(rv));
    }
    out
}

// ------------------------------------------------------------------
// Stage 4: mixed-symbol resolution
// ------------------------------------------------------------------
/// The fixed prefix of the substitute nonterminal dedicated to a terminal.
pub open spec fn subst_prefix() -> Seq<char> {
    seq!['U', '_', 'e', 'x', 't', 'r', 'a', ',']
}

/// The substitute nonterminal for a terminal value.
pub open spec fn subst_name(t: Seq<char>) -> Seq<char> {
    subst_prefix() + t
}

/// A right-hand symbol after resolution: nonterminals stay, terminals are
/// replaced by their substitute.
pub open spec fn replace_item(x: Seq<char>) -> Seq<char> {
    if is_nonterminal_spec(x) {
        x
    } else {
        subst_name(x)
    }
}

/// The first `k` right-hand symbols after resolution.
pub open spec fn replace_items_upto(rhs: Seq<Seq<char>>, k: int) -> Seq<Seq<char>>
    decreases k,
{
    if k <= 0 {
        Seq::empty()
    } else {
        replace_items_upto(rhs, k - 1).push(replace_item(rhs[k - 1]))
    }
}

/// A rule after resolution: one-symbol rules are left untouched, all others
/// have every terminal replaced.
pub open spec fn replace_rule(r: SpecRule) -> SpecRule {
    if r.rhs.len() == 1 {
        r
    } else {
        SpecRule { lhs: r.lhs, rhs: replace_items_upto(r.rhs, r.rhs.len() as int) }
    }
}

/// The first `i` rules after resolution.
pub open spec fn replaced_upto(rules: Seq<SpecRule>, i: int) -> Seq<SpecRule>
    decreases i,
{
    if i <= 0 {
        Seq::empty()
    } else {
        replaced_upto(rules, i - 1).push(replace_rule(rules[i - 1]))
    }
}

/// The terminals among the first `k` right-hand symbols of a rule that is
/// subject to resolution (one-symbol rules contribute nothing).
pub open spec fn rule_terms_upto(r: SpecRule, k: int) -> Seq<Seq<char>>
    decreases k,
{
    if r.rhs.len() == 1 || k <= 0 {
        Seq::empty()
    } else {
        let pre = rule_terms_upto(r, k - 1);
        if !is_nonterminal_spec(r.rhs[k - 1]) {
            pre.push(r.rhs[k - 1])
        } else {
            pre
        }
    }
}

/// All terminals a rule contributes to the substitution mapping.
pub open spec fn rule_terms(r: SpecRule) -> Seq<Seq<char>> {
    rule_terms_upto(r, r.rhs.len() as int)
}

/// The terminals contributed by the first `i` rules, in order.
pub open spec fn terms_upto(rules: Seq<SpecRule>, i: int) -> Seq<Seq<char>>
    decreases i,
{
    if i <= 0 {
        Seq::empty()
    } else {
        terms_upto(rules, i - 1) + rule_terms(rules[i - 1])
    }
}

/// The first `k` entries of a sequence with repeats dropped, keeping first
/// occurrences in order.
pub open spec fn dedup_upto(s: Seq<Seq<char>>, k: int) -> Seq<Seq<char>>
    decreases k,
{
    if k <= 0 {
        Seq::empty()
    } else {
        let pre = dedup_upto(s, k - 1);
        if pre.contains(s[k - 1]) {
            pre
        } else {
            pre.push(s[k - 1])
        }
    }
}

/// A sequence with repeats dropped.
pub open spec fn dedup_full(s: Seq<Seq<char>>) -> Seq<Seq<char>> {
    dedup_upto(s, s.len() as int)
}

/// The distinct substituted terminals of the whole grammar, in order of
/// first encounter.
pub open spec fn collected_terminals(rules: Seq<SpecRule>) -> Seq<Seq<char>> {
    dedup_full(terms_upto(rules, rules.len() as int))
}

/// One new rule `Substitute -> terminal` for each of the first `i` collected
/// terminals.
pub open spec fn subst_rules_upto(ts: Seq<Seq<char>>, i: int) -> Seq<SpecRule>
    decreases i,
{
    if i <= 0 {
        Seq::empty()
    } else {
        subst_rules_upto(ts, i - 1).push(
            SpecRule { lhs: subst_name(ts[i - 1]), rhs: seq![ts[i - 1]] },
        )
    }
}

/// Mixed-symbol resolution: terminals in rules of length other than one are
/// replaced by a substitute nonterminal shared per terminal value, and one
/// rule `Substitute -> terminal` is appended per distinct terminal.
pub open spec fn replace_nonterminals_spec(rules: Seq<SpecRule>) -> Seq<SpecRule> {
    let ts = collected_terminals(rules);
    replaced_upto(rules, rules.len() as int) + subst_rules_upto(ts, ts.len() as int)
}

/// Dropping repeats looks only at the entries before `k`, so extending the
/// sequence does not change the result.
proof fn lemma_dedup_prefix(s: Seq<Seq<char>>, t: Seq<Seq<char>>, k: int)
    requires
        0 <= k <= s.len() <= t.len(),
        forall|j: int| 0 <= j < s.len() ==> s[j] == #[trigger] t[j],
    ensures
        dedup_upto(t, k) == dedup_upto(s, k),
    decreases k,
{
    if k > 0 {
        lemma_dedup_prefix(s, t, k - 1);
    }
}

/// The substitute symbol for one terminal.
fn make_subst(t: &String) -> (s: String)
    ensures
        s@ == subst_name(t@),
{
    proof {
        reveal_strlit("U_extra,");
        assert("U_extra,"@ =~= subst_prefix());
    }
    let mut s = "U_extra,".to_owned();
    s.append(t.as_str());
    s
}

/// Mixed-symbol resolution: every terminal that appears in a rule of length
/// other than one is replaced by a substitute nonterminal dedicated to that
/// terminal value, reused across the grammar, and a rule
/// `Substitute -> terminal` is appended per distinct terminal.
pub fn replace_nonterminals(rules: Vec<CFGRule>) -> (res: Vec<CFGRule>)
    ensures
        res.deep_view() == replace_nonterminals_spec(rules.deep_view()),
{
    let ghost rv = rules.deep_view();
    let mut out: Vec<CFGRule> = Vec::new();
    let mut seen: Vec<String> = Vec::new();
    let mut i: usize = 0;
    while i < rules.len()
        invariant
            0 <= i <= rules.len(),
            rv == rules.deep_view(),
            out.deep_view() == replaced_upto(rv, i as int),
            seen.deep_view() == dedup_full(terms_upto(rv, i as int)),
        decreases rules.len() - i,
    {
        proof {
            lemma_deep_view_index(rules, i as int);
        }
        let r = &rules[i];
        assert(r@ == rv[i as int]);
        let ghost out0 = out;
        if r.rhs.len() == 1 {
            out.push(r.duplicate());
            proof {
                lemma_deep_view_push(out0, out, out@[out@.len() - 1]);
                assert(replace_rule(rv[i as int]) == rv[i as int]);
                assert(rule_terms(rv[i as int]) =~= Seq::<Seq<char>>::empty());
                assert(terms_upto(rv, i + 1) =~= terms_upto(rv, i as int));
            }
        } else {
            let mut new_rhs: Vec<String> = Vec::new();
            let mut k: usize = 0;
            while k < r.rhs.len()
                invariant
                    0 <= k <= r.rhs.len(),
                    r@ == rv[i as int],
                    i < rv.len(),
                    rv[i as int].rhs.len() != 1,
                    rv == rules.deep_view(),
                    new_rhs.deep_view() == replace_items_upto(rv[i as int].rhs, k as int),
                    seen.deep_view() == dedup_full(
                        terms_upto(rv, i as int) + rule_terms_upto(rv[i as int], k as int),
                    ),
                decreases r.rhs.len() - k,
            {
                proof {
                    lemma_deep_view_index(r.rhs, k as int);
                }
                let ghost cur_t = terms_upto(rv, i as int) + rule_terms_upto(
                    rv[i as int],
                    k as int,
                );
                let ghost x = rv[i as int].rhs[k as int];
                let item = &r.rhs[k];
                assert(item@ == x);
                let ghost nr0 = new_rhs;
                if is_nonterminal(item.as_str()) {
                    new_rhs.push(item.clone());
                    proof {
                        lemma_deep_view_push(nr0, new_rhs, new_rhs@[new_rhs@.len() - 1]);
                        assert(rule_terms_upto(rv[i as int], k + 1) == rule_terms_upto(
                            rv[i as int],
                            k as int,
                        ));
                    }
                } else {
                    let nm = make_subst(item);
                    new_rhs.push(nm);
                    proof {
                        lemma_deep_view_push(nr0, new_rhs, new_rhs@[new_rhs@.len() - 1]);
                    }
                    let ghost seen0 = seen;
                    let already = contains_string(&seen, item);
                    if !already {
                        seen.push(item.clone());
                        proof {
                            lemma_deep_view_push(seen0, seen, seen@[seen@.len() - 1]);
                        }
                    }
                    proof {
                        let cur_t2 = terms_upto(rv, i as int) + rule_terms_upto(
                            rv[i as int],
                            k + 1,
                        );
                        assert(rule_terms_upto(rv[i as int], k + 1) == rule_terms_upto(
                            rv[i as int],
                            k as int,
                        ).push(x));
                        assert(cur_t2 =~= cur_t.push(x));
                        lemma_dedup_prefix(cur_t, cur_t2, cur_t.len() as int);
                        assert(dedup_upto(cur_t2, cur_t2.len() as int) == if dedup_full(
                            cur_t,
                        ).contains(x) {
                            dedup_full(cur_t)
                        } else {
                            dedup_full(cur_t).push(x)
                        });
                        assert(seen.deep_view() == dedup_full(cur_t2));
                    }
                }
                k = k + 1;
            }
            let rule = CFGRule { lhs: r.lhs.clone(), rhs: new_rhs };
            assert(rule@ == replace_rule(rv[i as int]));
            out.push(rule);
            proof {
                lemma_deep_view_push(out0, out, out@[out@.len() - 1]);
                assert(rule_terms_upto(rv[i as int], rv[i as int].rhs.len() as int) == rule_terms(
                    rv[i as int],
                ));
            }
        }
        proof {
            assert(terms_upto(rv, i + 1) == terms_upto(rv, i as int) + rule_terms(rv[i as int]));
            assert(out.deep_view() == replaced_upto(rv, i + 1));
        }
        i = i + 1;
    }
    let ghost ts = seen.deep_view();
    let ghost outbase = out.deep_view();
    proof {
        assert(ts == collected_terminals(rv));
        assert(subst_rules_upto(ts, 0) =~= Seq::<SpecRule>::empty());
        assert(outbase + subst_rules_upto(ts, 0) =~= outbase);
    }
    let mut t: usize = 0;
    while t < seen.len()
        invariant
            0 <= t <= seen.len(),
            ts == seen.deep_view(),
            ts.len() == seen@.len(),
            out.deep_view() == outbase + subst_rules_upto(ts, t as int),
        decreases seen.len() - t,
    {
        proof {
            lemma_deep_view_index(seen, t as int);
        }
        let nm = make_subst(&seen[t]);
        let mut one: Vec<String> = Vec::new();
        one.push(seen[t].clone());
        proof {
            lemma_deep_view_index(one, 0);
            assert(one.deep_view() =~= seq![ts[t as int]]);
        }
        let ghost out0 = out;
        out.push(CFGRule { lhs: nm, rhs: one });
        proof {
            lemma_deep_view_push(out0, out, out@[out@.len() - 1]);
            assert(out.deep_view() == outbase + subst_rules_upto(ts, t + 1));
        }
        t = t + 1;
    }
    proof {
        assert(out.deep_view() == replace_nonterminals_spec(rv));
    }
    out
}

// ------------------------------------------------------------------
// CNF rules and the assembler
// ------------------------------------------------------------------
/// The right-hand side of a CNF rule: either two nonterminals or one
/// terminal.
#[allow(non_camel_case_types)]
#[derive(Debug, PartialEq, Eq, Clone)]
pub enum CNF_RHS {
    NonTerminals(String, String),
    Terminal(String),
}

/// The view of a CNF right-hand side as a plain symbol sequence.
pub open spec fn cnf_rhs_view(x: CNF_RHS) -> Seq<Seq<char>> {
    match x {
        CNF_RHS::Terminal(t) => seq![t@],
        CNF_RHS::NonTerminals(a, b) => seq![a@, b@],
    }
}

/// A rule in Chomsky Normal Form.
#[derive(Debug, PartialEq, Eq, Clone)]
pub struct CNFRule {
    pub lhs: String,
    pub rhs: CNF_RHS,
}

impl View for CNFRule {
    type V = SpecRule;

    open spec fn view(&self) -> SpecRule {
        SpecRule { lhs: self.lhs@, rhs: cnf_rhs_view(self.rhs) }
    }
}

impl DeepView for CNFRule {
    type V = SpecRule;

    open spec fn deep_view(&self) -> SpecRule {
        self.view()
    }
}

/// A grammar in Chomsky Normal Form.
pub struct CNF {
    pub rules: Vec<CNFRule>,
    pub start_symbol: String,
}

/// Tags a rule by the length of its right-hand side: one symbol becomes a
/// terminal production, two become a binary production, anything else is
/// rejected.
pub fn make_cnf_rule(r: CFGRule) -> (res: Option<CNFRule>)
    ensures
        match res {
            Some(c) => (r@.rhs.len() == 1 || r@.rhs.len() == 2) && c@ == r@,
            None => r@.rhs.len() != 1 && r@.rhs.len() != 2,
        },
{
    proof {
        assert(r@.rhs.len() == r.rhs@.len());
    }
    if r.rhs.len() == 1 {
        proof {
            lemma_deep_view_index(r.rhs, 0);
        }
        let c = CNFRule { lhs: r.lhs, rhs: CNF_RHS::Terminal(r.rhs[0].clone()) };
        assert(c@.rhs =~= r@.rhs);
        Some(c)
    } else if r.rhs.len() == 2 {
        proof {
            lemma_deep_view_index(r.rhs, 0);
            lemma_deep_view_index(r.rhs, 1);
        }
        let c = CNFRule {
            lhs: r.lhs,
            rhs: CNF_RHS::NonTerminals(r.rhs[0].clone(), r.rhs[1].clone()),
        };
        assert(c@.rhs =~= r@.rhs);
        Some(c)
    } else {
        None
    }
}

// ------------------------------------------------------------------
// When the conversion succeeds
// ------------------------------------------------------------------
/// Every rule's right-hand side holds at least one symbol.
pub open spec fn all_nonempty(rules: Seq<SpecRule>) -> bool {
    forall|i: int| 0 <= i < rules.len() ==> (#[trigger] rules[i]).rhs.len() >= 1
}

/// A property of whole rules carries from the input to the kept rules.
proof fn lemma_kept_pointwise(
    rules: Seq<SpecRule>,
    start: Seq<char>,
    i: int,
    p: spec_fn(SpecRule) -> bool,
)
    requires
        0 <= i <= rules.len(),
        forall|j: int| 0 <= j < rules.len() ==> p(#[trigger] rules[j]),
    ensures
        forall|j: int|
            0 <= j < kept_upto(rules, start, i).len() ==> p(
                #[trigger] kept_upto(rules, start, i)[j],
            ),
    decreases i,
{
    if i > 0 {
        lemma_kept_pointwise(rules, start, i - 1, p);
        let pre = kept_upto(rules, start, i - 1);
        assert forall|j: int| 0 <= j < kept_upto(rules, start, i).len() implies p(
            #[trigger] kept_upto(rules, start, i)[j],
        ) by {
            if j < pre.len() {
                assert(kept_upto(rules, start, i)[j] == pre[j]);
            }
        }
    }
}

/// A non-nullable rule survives the first pass.
proof fn lemma_kept_contains(rules: Seq<SpecRule>, start: Seq<char>, i: int, j: int)
    requires
        0 <= j < i <= rules.len(),
        !is_blank_rule(rules[j], start),
    ensures
        kept_upto(rules, start, i).contains(rules[j]),
    decreases i,
{
    if j == i - 1 {
        let pre = kept_upto(rules, start, i - 1);
        assert(kept_upto(rules, start, i)[pre.len() as int] == rules[j]);
    } else {
        lemma_kept_contains(rules, start, i - 1, j);
        let pre = kept_upto(rules, start, i - 1);
        let m = choose|m: int| 0 <= m < pre.len() && pre[m] == rules[j];
        assert(kept_upto(rules, start, i)[m] == rules[j]);
    }
}

/// Every synthesized deletion keeps at least one right-hand symbol.
proof fn lemma_deletions_nonempty(r: SpecRule, sym: Seq<char>, i: int)
    requires
        i <= r.rhs.len(),
    ensures
        forall|j: int|
            0 <= j < deletions_upto(r, sym, i).len() ==> (#[trigger] deletions_upto(
                r,
                sym,
                i,
            )[j]).rhs.len() >= 1,
    decreases i,
{
    if i > 0 {
        lemma_deletions_nonempty(r, sym, i - 1);
        let pre = deletions_upto(r, sym, i - 1);
        assert forall|j: int| 0 <= j < deletions_upto(r, sym, i).len() implies (
        #[trigger] deletions_upto(r, sym, i)[j]).rhs.len() >= 1 by {
            if j < pre.len() {
                assert(deletions_upto(r, sym, i)[j] == pre[j]);
            }
        }
    }
}

/// Every rule synthesized for one symbol keeps at least one right-hand
/// symbol.
proof fn lemma_deletions_rules_nonempty(rules: Seq<SpecRule>, sym: Seq<char>, i: int)
    ensures
        forall|j: int|
            0 <= j < deletions_rules_upto(rules, sym, i).len() ==> (
            #[trigger] deletions_rules_upto(rules, sym, i)[j]).rhs.len() >= 1,
    decreases i,
{
    if i > 0 {
        lemma_deletions_rules_nonempty(rules, sym, i - 1);
        lemma_deletions_nonempty(rules[i - 1], sym, rules[i - 1].rhs.len() as int);
        let pre = deletions_rules_upto(rules, sym, i - 1);
        let dels = single_deletions(rules[i - 1], sym);
        assert forall|j: int| 0 <= j < deletions_rules_upto(rules, sym, i).len() implies (
        #[trigger] deletions_rules_upto(rules, sym, i)[j]).rhs.len() >= 1 by {
            if j < pre.len() {
                assert(deletions_rules_upto(rules, sym, i)[j] == pre[j]);
            } else {
                assert(deletions_rules_upto(rules, sym, i)[j] == dels[j - pre.len()]);
            }
        }
    }
}

/// Every synthesized rule keeps at least one right-hand symbol.
proof fn lemma_synth_nonempty(rules: Seq<SpecRule>, syms: Seq<Seq<char>>, i: int)
    ensures
        forall|j: int|
            0 <= j < synth_upto(rules, syms, i).len() ==> (#[trigger] synth_upto(
                rules,
                syms,
                i,
            )[j]).rhs.len() >= 1,
    decreases i,
{
    if i > 0 {
        lemma_synth_nonempty(rules, syms, i - 1);
        lemma_deletions_rules_nonempty(rules, syms[i - 1], rules.len() as int);
        let pre = synth_upto(rules, syms, i - 1);
        let dels = deletions_for_symbol(rules, syms[i - 1]);
        assert forall|j: int| 0 <= j < synth_upto(rules, syms, i).len() implies (
        #[trigger] synth_upto(rules, syms, i)[j]).rhs.len() >= 1 by {
            if j < pre.len() {
                assert(synth_upto(rules, syms, i)[j] == pre[j]);
            } else {
                assert(synth_upto(rules, syms, i)[j] == dels[j - pre.len()]);
            }
        }
    }
}

/// A property of whole rules carries through the reference filter.
proof fn lemma_ref_filter_pointwise(
    pool: Seq<SpecRule>,
    rules: Seq<SpecRule>,
    i: int,
    p: spec_fn(SpecRule) -> bool,
)
    requires
        0 <= i <= rules.len(),
        forall|j: int| 0 <= j < rules.len() ==> p(#[trigger] rules[j]),
    ensures
        forall|j: int|
            0 <= j < ref_filter_upto(pool, rules, i).len() ==> p(
                #[trigger] ref_filter_upto(pool, rules, i)[j],
            ),
    decreases i,
{
    if i > 0 {
        lemma_ref_filter_pointwise(pool, rules, i - 1, p);
        let pre = ref_filter_upto(pool, rules, i - 1);
        assert forall|j: int| 0 <= j < ref_filter_upto(pool, rules, i).len() implies p(
            #[trigger] ref_filter_upto(pool, rules, i)[j],
        ) by {
            if j < pre.len() {
                assert(ref_filter_upto(pool, rules, i)[j] == pre[j]);
            }
        }
    }
}

/// A rule whose references are all defined survives the reference filter.
proof fn lemma_ref_filter_keeps(pool: Seq<SpecRule>, rules: Seq<SpecRule>, i: int, j: int)
    requires
        0 <= j < i <= rules.len(),
        refs_ok(rules[j], pool),
    ensures
        ref_filter_upto(pool, rules, i).contains(rules[j]),
    decreases i,
{
    if j == i - 1 {
        let pre = ref_filter_upto(pool, rules, i - 1);
        assert(ref_filter_upto(pool, rules, i)[pre.len() as int] == rules[j]);
    } else {
        lemma_ref_filter_keeps(pool, rules, i - 1, j);
        let pre = ref_filter_upto(pool, rules, i - 1);
        let m = choose|m: int| 0 <= m < pre.len() && pre[m] == rules[j];
        assert(ref_filter_upto(pool, rules, i)[m] == rules[j]);
    }
}

/// A property of whole rules carries to the non-unit partition.
proof fn lemma_non_units_pointwise(rules: Seq<SpecRule>, i: int, p: spec_fn(SpecRule) -> bool)
    requires
        0 <= i <= rules.len(),
        forall|j: int| 0 <= j < rules.len() ==> p(#[trigger] rules[j]),
    ensures
        forall|j: int|
            0 <= j < non_units_upto(rules, i).len() ==> p(#[trigger] non_units_upto(rules, i)[j]),
    decreases i,
{
    if i > 0 {
        lemma_non_units_pointwise(rules, i - 1, p);
        let pre = non_units_upto(rules, i - 1);
        assert forall|j: int| 0 <= j < non_units_upto(rules, i).len() implies p(
            #[trigger] non_units_upto(rules, i)[j],
        ) by {
            if j < pre.len() {
                assert(non_units_upto(rules, i)[j] == pre[j]);
            }
        }
    }
}

/// A rule that is not a unit production lands in the non-unit partition.
proof fn lemma_non_units_contains(rules: Seq<SpecRule>, i: int, j: int)
    requires
        0 <= j < i <= rules.len(),
        !is_unit_rule(rules[j]),
    ensures
        non_units_upto(rules, i).contains(rules[j]),
    decreases i,
{
    if j == i - 1 {
        let pre = non_units_upto(rules, i - 1);
        assert(non_units_upto(rules, i)[pre.len() as int] == rules[j]);
    } else {
        lemma_non_units_contains(rules, i - 1, j);
        let pre = non_units_upto(rules, i - 1);
        let m = choose|m: int| 0 <= m < pre.len() && pre[m] == rules[j];
        assert(non_units_upto(rules, i)[m] == rules[j]);
    }
}

/// A property of right-hand sides carries from the working set to the
/// copies a unit rule produces.
proof fn lemma_copies_rhs(acc: Seq<SpecRule>, u: SpecRule, i: int, p: spec_fn(Seq<Seq<char>>) -> bool)
    requires
        0 <= i <= acc.len(),
        forall|j: int| 0 <= j < acc.len() ==> p((#[trigger] acc[j]).rhs),
    ensures
        forall|j: int|
            0 <= j < copies_upto(acc, u, i).len() ==> p((#[trigger] copies_upto(acc, u, i)[j]).rhs),
    decreases i,
{
    if i > 0 {
        lemma_copies_rhs(acc, u, i - 1, p);
        let pre = copies_upto(acc, u, i - 1);
        assert forall|j: int| 0 <= j < copies_upto(acc, u, i).len() implies p((
        #[trigger] copies_upto(acc, u, i)[j]).rhs) by {
            if j < pre.len() {
                assert(copies_upto(acc, u, i)[j] == pre[j]);
            }
        }
    }
}

/// A property of right-hand sides carries through unit propagation.
proof fn lemma_process_units_rhs(
    acc: Seq<SpecRule>,
    units: Seq<SpecRule>,
    p: spec_fn(Seq<Seq<char>>) -> bool,
)
    requires
        forall|j: int| 0 <= j < acc.len() ==> p((#[trigger] acc[j]).rhs),
    ensures
        forall|j: int|
            0 <= j < process_units(acc, units).len() ==> p(
                (#[trigger] process_units(acc, units)[j]).rhs,
            ),
    decreases units.len(),
{
    if units.len() > 0 {
        lemma_copies_rhs(acc, units[0], acc.len() as int, p);
        let acc2 = acc + unit_copies(acc, units[0]);
        assert forall|j: int| 0 <= j < acc2.len() implies p((#[trigger] acc2[j]).rhs) by {
            if j < acc.len() {
                assert(acc2[j] == acc[j]);
            } else {
                assert(acc2[j] == unit_copies(acc, units[0])[j - acc.len()]);
            }
        }
        lemma_process_units_rhs(acc2, units.drop_first(), p);
        assert(process_units(acc, units) == process_units(acc2, units.drop_first()));
    }
}

/// Unit propagation only appends: the working set stays a prefix.
proof fn lemma_process_units_frame(acc: Seq<SpecRule>, units: Seq<SpecRule>)
    ensures
        process_units(acc, units).len() >= acc.len(),
        forall|j: int| 0 <= j < acc.len() ==> process_units(acc, units)[j] == acc[j],
    decreases units.len(),
{
    if units.len() > 0 {
        let acc2 = acc + unit_copies(acc, units[0]);
        lemma_process_units_frame(acc2, units.drop_first());
        assert(process_units(acc, units) == process_units(acc2, units.drop_first()));
        assert forall|j: int| 0 <= j < acc.len() implies process_units(acc, units)[j] == acc[j] by {
            assert(process_units(acc2, units.drop_first())[j] == acc2[j]);
            assert(acc2[j] == acc[j]);
        }
    }
}

/// Every rule the shorts partition keeps has at most two right-hand
/// symbols, and a property of whole rules carries over.
proof fn lemma_shorts_pointwise(rules: Seq<SpecRule>, i: int, p: spec_fn(SpecRule) -> bool)
    requires
        0 <= i <= rules.len(),
        forall|j: int| 0 <= j < rules.len() ==> p(#[trigger] rules[j]),
    ensures
        forall|j: int|
            0 <= j < shorts_upto(rules, i).len() ==> p(#[trigger] shorts_upto(rules, i)[j])
                && shorts_upto(rules, i)[j].rhs.len() <= 2,
    decreases i,
{
    if i > 0 {
        lemma_shorts_pointwise(rules, i - 1, p);
        let pre = shorts_upto(rules, i - 1);
        assert forall|j: int| 0 <= j < shorts_upto(rules, i).len() implies p(
            #[trigger] shorts_upto(rules, i)[j],
        ) && shorts_upto(rules, i)[j].rhs.len() <= 2 by {
            if j < pre.len() {
                assert(shorts_upto(rules, i)[j] == pre[j]);
            }
        }
    }
}

/// A short rule lands in the shorts partition.
proof fn lemma_shorts_contains(rules: Seq<SpecRule>, i: int, j: int)
    requires
        0 <= j < i <= rules.len(),
        rules[j].rhs.len() <= 2,
    ensures
        shorts_upto(rules, i).contains(rules[j]),
    decreases i,
{
    if j == i - 1 {
        let pre = shorts_upto(rules, i - 1);
        assert(shorts_upto(rules, i)[pre.len() as int] == rules[j]);
    } else {
        lemma_shorts_contains(rules, i - 1, j);
        let pre = shorts_upto(rules, i - 1);
        let m = choose|m: int| 0 <= m < pre.len() && pre[m] == rules[j];
        assert(shorts_upto(rules, i)[m] == rules[j]);
    }
}

/// Every rule of a chain has exactly two right-hand symbols.
proof fn lemma_chain_len2(r: SpecRule, rule_idx: nat, j: int)
    ensures
        forall|m: int|
            0 <= m < chain_upto(r, rule_idx, j).len() ==> (#[trigger] chain_upto(
                r,
                rule_idx,
                j,
            )[m]).rhs.len() == 2,
    decreases j,
{
    if j > 0 {
        lemma_chain_len2(r, rule_idx, j - 1);
        let pre = chain_upto(r, rule_idx, j - 1);
        assert forall|m: int| 0 <= m < chain_upto(r, rule_idx, j).len() implies (
        #[trigger] chain_upto(r, rule_idx, j)[m]).rhs.len() == 2 by {
            if m < pre.len() {
                assert(chain_upto(r, rule_idx, j)[m] == pre[m]);
            }
        }
    }
}

/// Every rule of every chain has exactly two right-hand symbols.
proof fn lemma_chains_len2(longs: Seq<SpecRule>, i: int)
    ensures
        forall|m: int|
            0 <= m < chains_upto(longs, i).len() ==> (#[trigger] chains_upto(
                longs,
                i,
            )[m]).rhs.len() == 2,
    decreases i,
{
    if i > 0 {
        lemma_chains_len2(longs, i - 1);
        let r = longs[i - 1];
        lemma_chain_len2(r, (i - 1) as nat, r.rhs.len() - 2);
        let pre = chains_upto(longs, i - 1);
        let ch = rule_chain(r, (i - 1) as nat);
        assert forall|m: int| 0 <= m < chains_upto(longs, i).len() implies (
        #[trigger] chains_upto(longs, i)[m]).rhs.len() == 2 by {
            if m < pre.len() {
                assert(chains_upto(longs, i)[m] == pre[m]);
            } else {
                assert(chains_upto(longs, i)[m] == ch[m - pre.len()]);
                let cu = chain_upto(r, (i - 1) as nat, r.rhs.len() - 2);
                if m - pre.len() < cu.len() {
                    assert(ch[m - pre.len()] == cu[m - pre.len()]);
                }
            }
        }
    }
}

/// The resolved rules line up with the input rules one for one.
proof fn lemma_replaced_index(rules: Seq<SpecRule>, i: int)
    requires
        0 <= i,
    ensures
        replaced_upto(rules, i).len() == i,
        forall|j: int| 0 <= j < i ==> replaced_upto(rules, i)[j] == replace_rule(#[trigger] rules[j]),
    decreases i,
{
    if i > 0 {
        lemma_replaced_index(rules, i - 1);
    }
}

/// Resolution does not change a right-hand side's length.
proof fn lemma_replace_items_len(rhs: Seq<Seq<char>>, k: int)
    requires
        0 <= k,
    ensures
        replace_items_upto(rhs, k).len() == k,
    decreases k,
{
    if k > 0 {
        lemma_replace_items_len(rhs, k - 1);
    }
}

/// Every appended substitute rule has exactly one right-hand symbol.
proof fn lemma_subst_rules_shape(ts: Seq<Seq<char>>, i: int)
    requires
        0 <= i,
    ensures
        subst_rules_upto(ts, i).len() == i,
        forall|j: int|
            0 <= j < i ==> (#[trigger] subst_rules_upto(ts, i)[j]) == (SpecRule {
                lhs: subst_name(ts[j]),
                rhs: seq![ts[j]],
            }),
    decreases i,
{
    if i > 0 {
        lemma_subst_rules_shape(ts, i - 1);
    }
}

/// If every input rule has a non-empty right-hand side, every rule that
/// leaves the pipeline has exactly one or two right-hand symbols.
proof fn lemma_pipeline_lens(rules: Seq<SpecRule>, start: Seq<char>)
    requires
        all_nonempty(rules),
    ensures
        forall|j: int|
            0 <= j < pipeline_rules(rules, start).len() ==> 1 <= (#[trigger] pipeline_rules(
                rules,
                start,
            )[j]).rhs.len() <= 2,
{
    let ns = start + newstart_suffix();
    let with_start = rules.push(SpecRule { lhs: ns, rhs: seq![start] });
    assert(all_nonempty(with_start)) by {
        assert forall|i: int| 0 <= i < with_start.len() implies (
        #[trigger] with_start[i]).rhs.len() >= 1 by {
            if i < rules.len() {
                assert(with_start[i] == rules[i]);
            }
        }
    }
    let nonempty = |r: SpecRule| r.rhs.len() >= 1;
    // stage 1
    let kept = kept_rules(with_start, ns);
    let syms = nullable_symbols(with_start, ns);
    let synth = synthesized_rules(with_start, syms);
    let mid = kept + synth;
    lemma_kept_pointwise(with_start, ns, with_start.len() as int, nonempty);
    lemma_synth_nonempty(with_start, syms, syms.len() as int);
    assert(forall|j: int| 0 <= j < mid.len() ==> nonempty(#[trigger] mid[j]));
    let s1 = remove_blank_spec(with_start, ns);
    lemma_ref_filter_pointwise(mid, mid, mid.len() as int, nonempty);
    assert(all_nonempty(s1));
    // stage 2
    let s2 = remove_one_length_spec(s1);
    let acc = non_units_upto(s1, s1.len() as int);
    lemma_non_units_pointwise(s1, s1.len() as int, nonempty);
    let rhs_nonempty = |rhs: Seq<Seq<char>>| rhs.len() >= 1;
    assert(forall|j: int| 0 <= j < acc.len() ==> rhs_nonempty((#[trigger] acc[j]).rhs));
    lemma_process_units_rhs(acc, units_upto(s1, s1.len() as int), rhs_nonempty);
    assert(all_nonempty(s2));
    // stage 3
    let s3 = remove_long_spec(s2);
    let shorts = shorts_upto(s2, s2.len() as int);
    let longs = longs_upto(s2, s2.len() as int);
    lemma_shorts_pointwise(s2, s2.len() as int, nonempty);
    lemma_chains_len2(longs, longs.len() as int);
    assert(forall|j: int| 0 <= j < s3.len() ==> 1 <= (#[trigger] s3[j]).rhs.len() <= 2) by {
        assert forall|j: int| 0 <= j < s3.len() implies 1 <= (#[trigger] s3[j]).rhs.len() <= 2 by {
            if j < shorts.len() {
                assert(s3[j] == shorts[j]);
            } else {
                assert(s3[j] == chains_upto(longs, longs.len() as int)[j - shorts.len()]);
            }
        }
    }
    // stage 4
    let s4 = replace_nonterminals_spec(s3);
    let ts = collected_terminals(s3);
    lemma_replaced_index(s3, s3.len() as int);
    lemma_subst_rules_shape(ts, ts.len() as int);
    assert forall|j: int| 0 <= j < s4.len() implies 1 <= (#[trigger] s4[j]).rhs.len() <= 2 by {
        let rep = replaced_upto(s3, s3.len() as int);
        if j < rep.len() {
            assert(s4[j] == rep[j]);
            assert(rep[j] == replace_rule(s3[j]));
            lemma_replace_items_len(s3[j].rhs, s3[j].rhs.len() as int);
        } else {
            assert(s4[j] == subst_rules_upto(ts, ts.len() as int)[j - rep.len()]);
        }
    }
    assert(s4 == pipeline_rules(rules, start));
}

/// If some input rule has an empty right-hand side, that rule survives the
/// whole pipeline unchanged in length.
proof fn lemma_pipeline_has_empty(rules: Seq<SpecRule>, start: Seq<char>, j: int)
    requires
        0 <= j < rules.len(),
        rules[j].rhs.len() == 0,
    ensures
        exists|m: int|
            0 <= m < pipeline_rules(rules, start).len() && (#[trigger] pipeline_rules(
                rules,
                start,
            )[m]).rhs.len() == 0,
{
    let ns = start + newstart_suffix();
    let with_start = rules.push(SpecRule { lhs: ns, rhs: seq![start] });
    let r = rules[j];
    assert(with_start[j] == r);
    // stage 1: kept, then past the reference filter
    let kept = kept_rules(with_start, ns);
    let syms = nullable_symbols(with_start, ns);
    let mid = kept + synthesized_rules(with_start, syms);
    lemma_kept_contains(with_start, ns, with_start.len() as int, j);
    let mk = choose|mk: int| 0 <= mk < kept.len() && kept[mk] == r;
    assert(mid[mk] == r);
    assert(refs_ok(r, mid));
    let s1 = remove_blank_spec(with_start, ns);
    lemma_ref_filter_keeps(mid, mid, mid.len() as int, mk);
    let m1 = choose|m1: int| 0 <= m1 < s1.len() && s1[m1] == r;
    // stage 2: not a unit rule, so it stays in the working set
    assert(!is_unit_rule(r));
    let acc = non_units_upto(s1, s1.len() as int);
    lemma_non_units_contains(s1, s1.len() as int, m1);
    let m2 = choose|m2: int| 0 <= m2 < acc.len() && acc[m2] == r;
    let s2 = remove_one_length_spec(s1);
    lemma_process_units_frame(acc, units_upto(s1, s1.len() as int));
    assert(s2[m2] == r);
    // stage 3: short, so it passes through
    let shorts = shorts_upto(s2, s2.len() as int);
    lemma_shorts_contains(s2, s2.len() as int, m2);
    let m3 = choose|m3: int| 0 <= m3 < shorts.len() && shorts[m3] == r;
    let s3 = remove_long_spec(s2);
    assert(s3[m3] == r);
    // stage 4: resolution keeps its (zero) length
    let s4 = replace_nonterminals_spec(s3);
    lemma_replaced_index(s3, s3.len() as int);
    assert(m3 < s3.len());
    assert(s4[m3] == replace_rule(r));
    lemma_replace_items_len(r.rhs, r.rhs.len() as int);
    assert(replace_rule(r).rhs.len() == 0);
    assert(s4 == pipeline_rules(rules, start));
}

// ------------------------------------------------------------------
// The CNF shape law
// ------------------------------------------------------------------
/// Every character of the symbol may appear inside a nonterminal's groups.
pub open spec fn group_symbol(t: Seq<char>) -> bool {
    forall|k: int| 0 <= k < t.len() ==> is_group_char(#[trigger] t[k])
}

/// A symbol the pipeline can always resolve: a nonterminal, or a terminal
/// whose characters are letters, digits and commas (as the parser produces
/// for ordinary rule text).
pub open spec fn clean_symbol(x: Seq<char>) -> bool {
    is_nonterminal_spec(x) || group_symbol(x)
}

/// A rule with a nonterminal left-hand side and clean right-hand symbols.
pub open spec fn clean_rule(r: SpecRule) -> bool {
    is_nonterminal_spec(r.lhs) && forall|k: int|
        0 <= k < r.rhs.len() ==> clean_symbol(#[trigger] r.rhs[k])
}

/// Every rule of the collection is clean.
pub open spec fn clean_rules(rules: Seq<SpecRule>) -> bool {
    forall|i: int| 0 <= i < rules.len() ==> clean_rule(#[trigger] rules[i])
}

/// The shape Chomsky Normal Form demands of a rule: a nonterminal
/// left-hand side, and a right-hand side that is either one terminal or two
/// nonterminals.
pub open spec fn cnf_shape(r: SpecRule) -> bool {
    &&& is_nonterminal_spec(r.lhs)
    &&& r.rhs.len() == 1 ==> !is_nonterminal_spec(r.rhs[0])
    &&& r.rhs.len() == 2 ==> is_nonterminal_spec(r.rhs[0]) && is_nonterminal_spec(r.rhs[1])
}

/// Group suffixes stay well-formed under concatenation.
proof fn lemma_suffix_ok_concat(a: Seq<char>, b: Seq<char>)
    requires
        suffix_ok(a),
        suffix_ok(b),
    ensures
        suffix_ok(a + b),
{
    let c = a + b;
    if c.len() > 0 {
        assert(a.len() > 0 || b.len() > 0);
        if a.len() == 0 {
            assert(c =~= b);
        } else {
            assert(c[0] == a[0]);
            assert forall|i: int|
                0 <= i < c.len() implies (c[i] == '_' || is_group_char(#[trigger] c[i])) && (c[i]
                == '_' ==> i + 1 < c.len() && c[i + 1] != '_') by {
                if i < a.len() {
                    assert(c[i] == a[i]);
                    if a[i] == '_' {
                        assert(a[i + 1] != '_');
                        assert(c[i + 1] == a[i + 1]);
                    }
                } else {
                    assert(c[i] == b[i - a.len()]);
                    assert(b.len() > 0);
                    if b[i - a.len()] == '_' {
                        assert(b[i - a.len() + 1] != '_');
                        assert(c[i + 1] == b[i - a.len() + 1]);
                    }
                }
            }
        }
    }
}

/// Appending a well-formed group suffix to a nonterminal yields a
/// nonterminal.
proof fn lemma_append_suffix_nonterminal(s: Seq<char>, t: Seq<char>)
    requires
        is_nonterminal_spec(s),
        suffix_ok(t),
    ensures
        is_nonterminal_spec(s + t),
{
    let c = s + t;
    assert(c[0] == s[0]);
    lemma_suffix_ok_concat(s.skip(1), t);
    assert(c.skip(1) =~= s.skip(1) + t);
}

/// Decimal digits are group characters.
proof fn lemma_dec_digits_group(n: nat)
    ensures
        group_symbol(dec_digits(n)),
    decreases n,
{
    if n < 10 {
        assert(dec_digits(n) =~= seq![digit_char(n)]);
        assert(is_group_char(digit_char(n)));
    } else {
        lemma_dec_digits_group(n / 10);
        let pre = dec_digits(n / 10);
        assert forall|k: int| 0 <= k < dec_digits(n).len() implies is_group_char(
            #[trigger] dec_digits(n)[k],
        ) by {
            if k < pre.len() {
                assert(dec_digits(n)[k] == pre[k]);
            } else {
                assert(dec_digits(n)[k] == digit_char(n));
            }
        }
    }
}

/// The fresh-symbol suffix of a chain is a well-formed group suffix.
proof fn lemma_chain_suffix_ok(rule_idx: nat, j: nat)
    ensures
        suffix_ok(chain_suffix(rule_idx, j)),
        chain_suffix(rule_idx, j).len() > 0,
{
    lemma_dec_digits_group(rule_idx);
    lemma_dec_digits_group(j);
    let c = chain_suffix(rule_idx, j);
    assert(c[0] == '_');
    let p = extra_prefix();
    let d1 = dec_digits(rule_idx);
    let d2 = dec_digits(j);
    assert(d1.len() >= 1 && d2.len() >= 1) by {
        lemma_dec_digits_len(rule_idx);
        lemma_dec_digits_len(j);
    }
    assert forall|i: int|
        0 <= i < c.len() implies (c[i] == '_' || is_group_char(#[trigger] c[i])) && (c[i] == '_'
        ==> i + 1 < c.len() && c[i + 1] != '_') by {
        assert(c =~= p + d1 + seq![','] + d2);
        if i < p.len() {
            assert(c[i] == p[i]);
            if i == 0 {
                assert(c[1] == 'e');
            } else {
                assert(is_group_char(p[i]));
            }
        } else if i < p.len() + d1.len() {
            assert(c[i] == d1[i - p.len()]);
        } else if i == p.len() + d1.len() {
            assert(c[i] == ',');
        } else {
            assert(c[i] == d2[i - p.len() - d1.len() - 1]);
        }
    }
}

/// A decimal rendering holds at least one digit.
proof fn lemma_dec_digits_len(n: nat)
    ensures
        dec_digits(n).len() >= 1,
    decreases n,
{
    if n >= 10 {
        lemma_dec_digits_len(n / 10);
    }
}

/// The substitute for a terminal of letters, digits and commas is a
/// nonterminal.
proof fn lemma_subst_name_nonterminal(t: Seq<char>)
    requires
        group_symbol(t),
    ensures
        is_nonterminal_spec(subst_name(t)),
{
    let c = subst_name(t);
    assert(c[0] == 'U');
    let tail = c.skip(1);
    assert(tail[0] == '_');
    assert forall|i: int|
        0 <= i < tail.len() implies (tail[i] == '_' || is_group_char(#[trigger] tail[i])) && (
    tail[i] == '_' ==> i + 1 < tail.len() && tail[i + 1] != '_') by {
        assert(tail[i] == c[i + 1]);
        if i + 1 < subst_prefix().len() {
            assert(c[i + 1] == subst_prefix()[i + 1]);
            if c[i + 1] == '_' {
                assert(c[i + 2] == 'e');
                assert(tail[i + 1] == 'e');
            }
        } else {
            assert(c[i + 1] == t[i + 1 - subst_prefix().len()]);
        }
    }
}

/// The fresh start symbol's suffix is a well-formed group suffix.
proof fn lemma_newstart_suffix_ok()
    ensures
        suffix_ok(newstart_suffix()),
{
    let t = newstart_suffix();
    assert(t[0] == '_');
    assert forall|i: int|
        0 <= i < t.len() implies (t[i] == '_' || is_group_char(#[trigger] t[i])) && (t[i] == '_'
        ==> i + 1 < t.len() && t[i + 1] != '_') by {
        if t[i] == '_' {
            assert(i == 0);
            assert(t[1] == 'n');
        }
    }
}

/// Deleting one occurrence keeps a rule clean.
proof fn lemma_deletions_clean(r: SpecRule, sym: Seq<char>, i: int)
    requires
        clean_rule(r),
        i <= r.rhs.len(),
    ensures
        forall|j: int|
            0 <= j < deletions_upto(r, sym, i).len() ==> clean_rule(
                #[trigger] deletions_upto(r, sym, i)[j],
            ),
    decreases i,
{
    if i > 0 {
        lemma_deletions_clean(r, sym, i - 1);
        let pre = deletions_upto(r, sym, i - 1);
        assert forall|j: int| 0 <= j < deletions_upto(r, sym, i).len() implies clean_rule(
            #[trigger] deletions_upto(r, sym, i)[j],
        ) by {
            if j < pre.len() {
                assert(deletions_upto(r, sym, i)[j] == pre[j]);
            } else {
                let nr = SpecRule { lhs: r.lhs, rhs: r.rhs.remove(i - 1) };
                assert forall|k: int| 0 <= k < nr.rhs.len() implies clean_symbol(
                    #[trigger] nr.rhs[k],
                ) by {
                    if k < i - 1 {
                        assert(nr.rhs[k] == r.rhs[k]);
                    } else {
                        assert(nr.rhs[k] == r.rhs[k + 1]);
                    }
                }
            }
        }
    }
}

/// Synthesized rules for one symbol stay clean.
proof fn lemma_deletions_rules_clean(rules: Seq<SpecRule>, sym: Seq<char>, i: int)
    requires
        clean_rules(rules),
        i <= rules.len(),
    ensures
        forall|j: int|
            0 <= j < deletions_rules_upto(rules, sym, i).len() ==> clean_rule(
                #[trigger] deletions_rules_upto(rules, sym, i)[j],
            ),
    decreases i,
{
    if i > 0 {
        lemma_deletions_rules_clean(rules, sym, i - 1);
        lemma_deletions_clean(rules[i - 1], sym, rules[i - 1].rhs.len() as int);
        let pre = deletions_rules_upto(rules, sym, i - 1);
        let dels = single_deletions(rules[i - 1], sym);
        assert forall|j: int| 0 <= j < deletions_rules_upto(rules, sym, i).len() implies clean_rule(
            #[trigger] deletions_rules_upto(rules, sym, i)[j],
        ) by {
            if j < pre.len() {
                assert(deletions_rules_upto(rules, sym, i)[j] == pre[j]);
            } else {
                assert(deletions_rules_upto(rules, sym, i)[j] == dels[j - pre.len()]);
            }
        }
    }
}

/// All synthesized rules stay clean.
proof fn lemma_synth_clean(rules: Seq<SpecRule>, syms: Seq<Seq<char>>, i: int)
    requires
        clean_rules(rules),
    ensures
        forall|j: int|
            0 <= j < synth_upto(rules, syms, i).len() ==> clean_rule(
                #[trigger] synth_upto(rules, syms, i)[j],
            ),
    decreases i,
{
    if i > 0 {
        lemma_synth_clean(rules, syms, i - 1);
        lemma_deletions_rules_clean(rules, syms[i - 1], rules.len() as int);
        let pre = synth_upto(rules, syms, i - 1);
        let dels = deletions_for_symbol(rules, syms[i - 1]);
        assert forall|j: int| 0 <= j < synth_upto(rules, syms, i).len() implies clean_rule(
            #[trigger] synth_upto(rules, syms, i)[j],
        ) by {
            if j < pre.len() {
                assert(synth_upto(rules, syms, i)[j] == pre[j]);
            } else {
                assert(synth_upto(rules, syms, i)[j] == dels[j - pre.len()]);
            }
        }
    }
}

/// Propagated unit copies stay clean when the working set and the unit
/// rules are clean.
proof fn lemma_copies_clean(acc: Seq<SpecRule>, u: SpecRule, i: int)
    requires
        0 <= i <= acc.len(),
        is_nonterminal_spec(u.lhs),
        forall|j: int| 0 <= j < acc.len() ==> clean_rule(#[trigger] acc[j]),
    ensures
        forall|j: int|
            0 <= j < copies_upto(acc, u, i).len() ==> clean_rule(#[trigger] copies_upto(acc, u, i)[j]),
    decreases i,
{
    if i > 0 {
        lemma_copies_clean(acc, u, i - 1);
        let pre = copies_upto(acc, u, i - 1);
        assert forall|j: int| 0 <= j < copies_upto(acc, u, i).len() implies clean_rule(
            #[trigger] copies_upto(acc, u, i)[j],
        ) by {
            if j < pre.len() {
                assert(copies_upto(acc, u, i)[j] == pre[j]);
            }
        }
    }
}

/// Unit propagation keeps the working set clean.
proof fn lemma_process_units_clean(acc: Seq<SpecRule>, units: Seq<SpecRule>)
    requires
        forall|j: int| 0 <= j < acc.len() ==> clean_rule(#[trigger] acc[j]),
        forall|j: int| 0 <= j < units.len() ==> clean_rule(#[trigger] units[j]),
    ensures
        forall|j: int|
            0 <= j < process_units(acc, units).len() ==> clean_rule(
                #[trigger] process_units(acc, units)[j],
            ),
    decreases units.len(),
{
    if units.len() > 0 {
        lemma_copies_clean(acc, units[0], acc.len() as int);
        let acc2 = acc + unit_copies(acc, units[0]);
        assert forall|j: int| 0 <= j < acc2.len() implies clean_rule(#[trigger] acc2[j]) by {
            if j < acc.len() {
                assert(acc2[j] == acc[j]);
            } else {
                assert(acc2[j] == unit_copies(acc, units[0])[j - acc.len()]);
            }
        }
        assert(forall|j: int|
            0 <= j < units.drop_first().len() ==> #[trigger] units.drop_first()[j] == units[j + 1]);
        lemma_process_units_clean(acc2, units.drop_first());
        assert(process_units(acc, units) == process_units(acc2, units.drop_first()));
    }
}

/// Every rule in the non-unit partition is no unit production.
proof fn lemma_non_units_are_non_units(rules: Seq<SpecRule>, i: int)
    ensures
        forall|j: int|
            0 <= j < non_units_upto(rules, i).len() ==> !is_unit_rule(
                #[trigger] non_units_upto(rules, i)[j],
            ),
    decreases i,
{
    if i > 0 {
        lemma_non_units_are_non_units(rules, i - 1);
        let pre = non_units_upto(rules, i - 1);
        assert forall|j: int| 0 <= j < non_units_upto(rules, i).len() implies !is_unit_rule(
            #[trigger] non_units_upto(rules, i)[j],
        ) by {
            if j < pre.len() {
                assert(non_units_upto(rules, i)[j] == pre[j]);
            }
        }
    }
}

/// A property of whole rules carries to the longs partition.
proof fn lemma_longs_pointwise(rules: Seq<SpecRule>, i: int, p: spec_fn(SpecRule) -> bool)
    requires
        0 <= i <= rules.len(),
        forall|j: int| 0 <= j < rules.len() ==> p(#[trigger] rules[j]),
    ensures
        forall|j: int|
            0 <= j < longs_upto(rules, i).len() ==> p(#[trigger] longs_upto(rules, i)[j]),
    decreases i,
{
    if i > 0 {
        lemma_longs_pointwise(rules, i - 1, p);
        let pre = longs_upto(rules, i - 1);
        assert forall|j: int| 0 <= j < longs_upto(rules, i).len() implies p(
            #[trigger] longs_upto(rules, i)[j],
        ) by {
            if j < pre.len() {
                assert(longs_upto(rules, i)[j] == pre[j]);
            }
        }
    }
}

/// Every rule of a chain built from a clean long rule is clean.
proof fn lemma_chain_clean(r: SpecRule, rule_idx: nat, j: int)
    requires
        clean_rule(r),
        j <= r.rhs.len() - 2,
    ensures
        forall|m: int|
            0 <= m < chain_upto(r, rule_idx, j).len() ==> clean_rule(
                #[trigger] chain_upto(r, rule_idx, j)[m],
            ),
        j >= 0 ==> is_nonterminal_spec(chain_lhs(r, rule_idx, j)),
    decreases j,
{
    if j > 0 {
        lemma_chain_suffix_ok(rule_idx, (j - 1) as nat);
        lemma_append_suffix_nonterminal(r.lhs, chain_suffix(rule_idx, (j - 1) as nat));
        lemma_chain_clean(r, rule_idx, j - 1);
        let pre = chain_upto(r, rule_idx, j - 1);
        let fresh = r.lhs + chain_suffix(rule_idx, (j - 1) as nat);
        assert forall|m: int| 0 <= m < chain_upto(r, rule_idx, j).len() implies clean_rule(
            #[trigger] chain_upto(r, rule_idx, j)[m],
        ) by {
            if m < pre.len() {
                assert(chain_upto(r, rule_idx, j)[m] == pre[m]);
            } else {
                let nr = chain_upto(r, rule_idx, j)[m];
                assert(nr.rhs == seq![r.rhs[j - 1], fresh]);
                assert(clean_symbol(r.rhs[j - 1]));
                assert(clean_symbol(fresh));
                assert(forall|k: int| 0 <= k < nr.rhs.len() ==> clean_symbol(#[trigger] nr.rhs[k]));
            }
        }
    }
}

/// Every rule of every chain over clean long rules is clean.
proof fn lemma_chains_clean(longs: Seq<SpecRule>, i: int)
    requires
        0 <= i <= longs.len(),
        forall|j: int|
            0 <= j < longs.len() ==> clean_rule(#[trigger] longs[j]) && longs[j].rhs.len() > 2,
    ensures
        forall|m: int|
            0 <= m < chains_upto(longs, i).len() ==> clean_rule(#[trigger] chains_upto(longs, i)[m]),
    decreases i,
{
    if i > 0 {
        lemma_chains_clean(longs, i - 1);
        let r = longs[i - 1];
        let n = r.rhs.len() as int;
        lemma_chain_clean(r, (i - 1) as nat, n - 2);
        let pre = chains_upto(longs, i - 1);
        let ch = rule_chain(r, (i - 1) as nat);
        assert forall|m: int| 0 <= m < chains_upto(longs, i).len() implies clean_rule(
            #[trigger] chains_upto(longs, i)[m],
        ) by {
            if m < pre.len() {
                assert(chains_upto(longs, i)[m] == pre[m]);
            } else {
                assert(chains_upto(longs, i)[m] == ch[m - pre.len()]);
                let cu = chain_upto(r, (i - 1) as nat, n - 2);
                if m - pre.len() < cu.len() {
                    assert(ch[m - pre.len()] == cu[m - pre.len()]);
                } else {
                    let last = SpecRule {
                        lhs: chain_lhs(r, (i - 1) as nat, n - 2),
                        rhs: seq![r.rhs[n - 2], r.rhs[n - 1]],
                    };
                    assert(ch[m - pre.len()] == last);
                    assert(clean_symbol(r.rhs[n - 2]));
                    assert(clean_symbol(r.rhs[n - 1]));
                    assert(forall|k: int|
                        0 <= k < last.rhs.len() ==> clean_symbol(#[trigger] last.rhs[k]));
                }
            }
        }
    }
}

/// The terminals a clean rule contributes are group symbols and no
/// nonterminals.
proof fn lemma_rule_terms_group(r: SpecRule, k: int)
    requires
        clean_rule(r),
        k <= r.rhs.len(),
    ensures
        forall|j: int|
            0 <= j < rule_terms_upto(r, k).len() ==> group_symbol(#[trigger] rule_terms_upto(r, k)[j])
                && !is_nonterminal_spec(rule_terms_upto(r, k)[j]),
    decreases k,
{
    if k > 0 && r.rhs.len() != 1 {
        lemma_rule_terms_group(r, k - 1);
        let pre = rule_terms_upto(r, k - 1);
        assert forall|j: int| 0 <= j < rule_terms_upto(r, k).len() implies group_symbol(
            #[trigger] rule_terms_upto(r, k)[j],
        ) && !is_nonterminal_spec(rule_terms_upto(r, k)[j]) by {
            if j < pre.len() {
                assert(rule_terms_upto(r, k)[j] == pre[j]);
            } else {
                assert(rule_terms_upto(r, k)[j] == r.rhs[k - 1]);
                assert(clean_symbol(r.rhs[k - 1]));
            }
        }
    }
}

/// The terminals clean rules contribute are group symbols and no
/// nonterminals.
proof fn lemma_terms_group(rules: Seq<SpecRule>, i: int)
    requires
        clean_rules(rules),
        i <= rules.len(),
    ensures
        forall|j: int|
            0 <= j < terms_upto(rules, i).len() ==> group_symbol(#[trigger] terms_upto(rules, i)[j])
                && !is_nonterminal_spec(terms_upto(rules, i)[j]),
    decreases i,
{
    if i > 0 {
        lemma_terms_group(rules, i - 1);
        lemma_rule_terms_group(rules[i - 1], rules[i - 1].rhs.len() as int);
        let pre = terms_upto(rules, i - 1);
        let rt = rule_terms(rules[i - 1]);
        assert forall|j: int| 0 <= j < terms_upto(rules, i).len() implies group_symbol(
            #[trigger] terms_upto(rules, i)[j],
        ) && !is_nonterminal_spec(terms_upto(rules, i)[j]) by {
            if j < pre.len() {
                assert(terms_upto(rules, i)[j] == pre[j]);
            } else {
                assert(terms_upto(rules, i)[j] == rt[j - pre.len()]);
            }
        }
    }
}

/// Dropping repeats keeps a pointwise property of the entries.
proof fn lemma_dedup_group(s: Seq<Seq<char>>, k: int)
    requires
        k <= s.len(),
        forall|m: int|
            0 <= m < s.len() ==> group_symbol(#[trigger] s[m]) && !is_nonterminal_spec(s[m]),
    ensures
        forall|j: int|
            0 <= j < dedup_upto(s, k).len() ==> group_symbol(#[trigger] dedup_upto(s, k)[j])
                && !is_nonterminal_spec(dedup_upto(s, k)[j]),
    decreases k,
{
    if k > 0 {
        lemma_dedup_group(s, k - 1);
        let pre = dedup_upto(s, k - 1);
        assert forall|j: int| 0 <= j < dedup_upto(s, k).len() implies group_symbol(
            #[trigger] dedup_upto(s, k)[j],
        ) && !is_nonterminal_spec(dedup_upto(s, k)[j]) by {
            if j < pre.len() {
                assert(dedup_upto(s, k)[j] == pre[j]);
            }
        }
    }
}

/// The CNF shape law: starting from a grammar whose start symbol is a
/// nonterminal and whose rules follow the parser's conventions (nonterminal
/// left-hand sides; terminals made of letters, digits and commas), every
/// rule that leaves the pipeline has a nonterminal left-hand side, and a
/// right-hand side of length one holds a terminal while one of length two
/// holds two nonterminals.
pub proof fn lemma_cnf_shape(rules: Seq<SpecRule>, start: Seq<char>)
    requires
        is_nonterminal_spec(start),
        clean_rules(rules),
    ensures
        forall|j: int|
            0 <= j < pipeline_rules(rules, start).len() ==> cnf_shape(
                #[trigger] pipeline_rules(rules, start)[j],
            ),
{
    let ns = start + newstart_suffix();
    lemma_newstart_suffix_ok();
    lemma_append_suffix_nonterminal(start, newstart_suffix());
    let start_rule = SpecRule { lhs: ns, rhs: seq![start] };
    let with_start = rules.push(start_rule);
    assert(clean_rule(start_rule)) by {
        assert(start_rule.rhs[0] == start);
        assert(forall|k: int|
            0 <= k < start_rule.rhs.len() ==> clean_symbol(#[trigger] start_rule.rhs[k]));
    }
    assert(clean_rules(with_start)) by {
        assert forall|i: int| 0 <= i < with_start.len() implies clean_rule(
            #[trigger] with_start[i],
        ) by {
            if i < rules.len() {
                assert(with_start[i] == rules[i]);
            }
        }
    }
    let clean = |r: SpecRule| clean_rule(r);
    // stage 1 keeps every rule clean
    let kept = kept_rules(with_start, ns);
    let syms = nullable_symbols(with_start, ns);
    let synth = synthesized_rules(with_start, syms);
    let mid = kept + synth;
    lemma_kept_pointwise(with_start, ns, with_start.len() as int, clean);
    lemma_synth_clean(with_start, syms, syms.len() as int);
    assert forall|j: int| 0 <= j < mid.len() implies clean_rule(#[trigger] mid[j]) by {
        if j < kept.len() {
            assert(mid[j] == kept[j]);
        } else {
            assert(mid[j] == synth[j - kept.len()]);
        }
    }
    let s1 = remove_blank_spec(with_start, ns);
    lemma_ref_filter_pointwise(mid, mid, mid.len() as int, clean);
    assert(clean_rules(s1));
    // stage 2 keeps rules clean and leaves no unit production
    let acc = non_units_upto(s1, s1.len() as int);
    let units = units_upto(s1, s1.len() as int);
    lemma_non_units_pointwise(s1, s1.len() as int, clean);
    lemma_units_pointwise(s1, s1.len() as int, clean);
    lemma_process_units_clean(acc, units);
    lemma_non_units_are_non_units(s1, s1.len() as int);
    let non_unit_rhs = |rhs: Seq<Seq<char>>| !(rhs.len() == 1 && is_nonterminal_spec(rhs[0]));
    assert forall|j: int| 0 <= j < acc.len() implies non_unit_rhs((#[trigger] acc[j]).rhs) by {
        assert(!is_unit_rule(acc[j]));
    }
    lemma_process_units_rhs(acc, units, non_unit_rhs);
    let s2 = remove_one_length_spec(s1);
    assert(clean_rules(s2));
    assert(forall|j: int| 0 <= j < s2.len() ==> !is_unit_rule(#[trigger] s2[j]));
    // stage 3 keeps rules clean and non-unit
    let shorts = shorts_upto(s2, s2.len() as int);
    let longs = longs_upto(s2, s2.len() as int);
    let chains = chains_upto(longs, longs.len() as int);
    lemma_shorts_pointwise(s2, s2.len() as int, clean);
    let non_unit = |r: SpecRule| !is_unit_rule(r);
    lemma_shorts_pointwise(s2, s2.len() as int, non_unit);
    lemma_longs_pointwise(s2, s2.len() as int, clean);
    lemma_longs_are_long(s2, s2.len() as int);
    lemma_chains_clean(longs, longs.len() as int);
    lemma_chains_len2(longs, longs.len() as int);
    let s3 = remove_long_spec(s2);
    assert forall|j: int| 0 <= j < s3.len() implies clean_rule(#[trigger] s3[j]) && !is_unit_rule(
        s3[j],
    ) by {
        if j < shorts.len() {
            assert(s3[j] == shorts[j]);
        } else {
            assert(s3[j] == chains[j - shorts.len()]);
        }
    }
    // stage 4 yields the CNF shape
    let s4 = replace_nonterminals_spec(s3);
    let rep = replaced_upto(s3, s3.len() as int);
    let ts = collected_terminals(s3);
    let subst = subst_rules_upto(ts, ts.len() as int);
    lemma_replaced_index(s3, s3.len() as int);
    lemma_terms_group(s3, s3.len() as int);
    lemma_dedup_group(
        terms_upto(s3, s3.len() as int),
        terms_upto(s3, s3.len() as int).len() as int,
    );
    lemma_subst_rules_shape(ts, ts.len() as int);
    assert forall|j: int| 0 <= j < s4.len() implies cnf_shape(#[trigger] s4[j]) by {
        if j < rep.len() {
            assert(s4[j] == rep[j]);
            let r = s3[j];
            assert(rep[j] == replace_rule(r));
            assert(clean_rule(r) && !is_unit_rule(r));
            if r.rhs.len() == 1 {
                assert(replace_rule(r) == r);
            } else {
                lemma_replace_items_len(r.rhs, r.rhs.len() as int);
                let nr = replace_rule(r);
                assert forall|k: int|
                    0 <= k < nr.rhs.len() implies is_nonterminal_spec(#[trigger] nr.rhs[k]) by {
                    lemma_replace_items_index(r.rhs, r.rhs.len() as int, k);
                    assert(nr.rhs[k] == replace_item(r.rhs[k]));
                    assert(clean_symbol(r.rhs[k]));
                    if !is_nonterminal_spec(r.rhs[k]) {
                        lemma_subst_name_nonterminal(r.rhs[k]);
                    }
                }
            }
        } else {
            assert(s4[j] == subst[j - rep.len()]);
            let t = ts[j - rep.len()];
            assert(group_symbol(t) && !is_nonterminal_spec(t));
            lemma_subst_name_nonterminal(t);
            assert(subst[j - rep.len()].rhs == seq![t]);
        }
    }
    assert(s4 == pipeline_rules(rules, start));
}

/// Unit-production elimination leaves no unit production: the working set
/// starts without any, and every propagated copy takes its right-hand side
/// from the working set.
pub proof fn lemma_no_units_remain(rules: Seq<SpecRule>)
    ensures
        forall|j: int|
            0 <= j < remove_one_length_spec(rules).len() ==> !is_unit_rule(
                #[trigger] remove_one_length_spec(rules)[j],
            ),
{
    let acc = non_units_upto(rules, rules.len() as int);
    let units = units_upto(rules, rules.len() as int);
    lemma_non_units_are_non_units(rules, rules.len() as int);
    let non_unit_rhs = |rhs: Seq<Seq<char>>| !(rhs.len() == 1 && is_nonterminal_spec(rhs[0]));
    assert forall|j: int| 0 <= j < acc.len() implies non_unit_rhs((#[trigger] acc[j]).rhs) by {
        assert(!is_unit_rule(acc[j]));
    }
    lemma_process_units_rhs(acc, units, non_unit_rhs);
}

/// Long-production splitting leaves no right-hand side longer than two
/// symbols: short rules pass through and every chain rule is binary.
pub proof fn lemma_no_long_rules_remain(rules: Seq<SpecRule>)
    ensures
        forall|j: int|
            0 <= j < remove_long_spec(rules).len() ==> (#[trigger] remove_long_spec(
                rules,
            )[j]).rhs.len() <= 2,
{
    let shorts = shorts_upto(rules, rules.len() as int);
    let longs = longs_upto(rules, rules.len() as int);
    let whatever = |r: SpecRule| true;
    lemma_shorts_pointwise(rules, rules.len() as int, whatever);
    lemma_chains_len2(longs, longs.len() as int);
    assert forall|j: int| 0 <= j < remove_long_spec(rules).len() implies (
    #[trigger] remove_long_spec(rules)[j]).rhs.len() <= 2 by {
        if j < shorts.len() {
            assert(remove_long_spec(rules)[j] == shorts[j]);
        } else {
            assert(remove_long_spec(rules)[j] == chains_upto(longs, longs.len() as int)[j
                - shorts.len()]);
        }
    }
}

/// Converting a grammar that is already in CNF shape succeeds, and the
/// result is again a collection of rules with one or two right-hand
/// symbols each: no stage can empty a right-hand side that starts out with
/// one or two symbols.
pub proof fn lemma_reconversion_succeeds(rules: Seq<SpecRule>, start: Seq<char>)
    requires
        forall|i: int| 0 <= i < rules.len() ==> 1 <= (#[trigger] rules[i]).rhs.len() <= 2,
    ensures
        forall|j: int|
            0 <= j < pipeline_rules(rules, start).len() ==> 1 <= (#[trigger] pipeline_rules(
                rules,
                start,
            )[j]).rhs.len() <= 2,
{
    assert(all_nonempty(rules));
    lemma_pipeline_lens(rules, start);
}

/// A property of whole rules carries to the unit partition.
proof fn lemma_units_pointwise(rules: Seq<SpecRule>, i: int, p: spec_fn(SpecRule) -> bool)
    requires
        0 <= i <= rules.len(),
        forall|j: int| 0 <= j < rules.len() ==> p(#[trigger] rules[j]),
    ensures
        forall|j: int|
            0 <= j < units_upto(rules, i).len() ==> p(#[trigger] units_upto(rules, i)[j]),
    decreases i,
{
    if i > 0 {
        lemma_units_pointwise(rules, i - 1, p);
        let pre = units_upto(rules, i - 1);
        assert forall|j: int| 0 <= j < units_upto(rules, i).len() implies p(
            #[trigger] units_upto(rules, i)[j],
        ) by {
            if j < pre.len() {
                assert(units_upto(rules, i)[j] == pre[j]);
            }
        }
    }
}

/// The resolved right-hand side resolves the input pointwise.
proof fn lemma_replace_items_index(rhs: Seq<Seq<char>>, k: int, m: int)
    requires
        0 <= m < k,
    ensures
        replace_items_upto(rhs, k)[m] == replace_item(rhs[m]),
    decreases k,
{
    if m < k - 1 {
        lemma_replace_items_index(rhs, k - 1, m);
        lemma_replace_items_len(rhs, k - 1);
    } else {
        lemma_replace_items_len(rhs, k - 1);
    }
}

/// The suffix that turns the original start symbol into the fresh start
/// symbol.
pub open spec fn newstart_suffix() -> Seq<char> {
    seq!['_', 'n', 'e', 'w', 's', 't', 'a', 'r', 't']
}

/// The whole normalization pipeline at the spec level: wrap the start
/// symbol, then run the four stages in order.
pub open spec fn pipeline_rules(rules: Seq<SpecRule>, start: Seq<char>) -> Seq<SpecRule> {
    let ns = start + newstart_suffix();
    let with_start = rules.push(SpecRule { lhs: ns, rhs: seq![start] });
    replace_nonterminals_spec(
        remove_long_spec(remove_one_length_spec(remove_blank_spec(with_start, ns))),
    )
}

impl CFG {
    /// Converts the grammar to Chomsky Normal Form.
    ///
    /// A fresh start symbol wrapping the original one is introduced, the
    /// four normalization stages run in order, and every surviving rule is
    /// tagged as a terminal or a binary production.  The conversion fails
    /// exactly when some rule leaves the pipeline with a right-hand side of
    /// length other than one or two, which happens exactly when some input
    /// rule has an empty right-hand side.
    pub fn to_cnf(&self) -> (res: Option<CNF>)
        ensures
            res is Some <==> all_nonempty(self.rules.deep_view()),
            ({
                let out = pipeline_rules(self.rules.deep_view(), self.start_symbol@);
                match res {
                    Some(cnf) => {
                        &&& cnf.start_symbol@ == self.start_symbol@ + newstart_suffix()
                        &&& cnf.rules.deep_view() == out
                        &&& forall|j: int|
                            0 <= j < out.len() ==> 1 <= (#[trigger] out[j]).rhs.len() <= 2
                    },
                    None => exists|j: int|
                        0 <= j < out.len() && !(1 <= (#[trigger] out[j]).rhs.len() <= 2),
                }
            }),
    {
        let ghost rv = self.rules.deep_view();
        let ghost ns = self.start_symbol@ + newstart_suffix();
        let mut new_start = self.start_symbol.clone();
        proof {
            reveal_strlit("_newstart");
            assert("_newstart"@ =~= newstart_suffix());
        }
        new_start.append("_newstart");
        assert(new_start@ == ns);
        let mut work: Vec<CFGRule> = Vec::new();
        let mut i: usize = 0;
        while i < self.rules.len()
            invariant
                0 <= i <= self.rules.len(),
                rv == self.rules.deep_view(),
                work.deep_view() == rv.take(i as int),
            decreases self.rules.len() - i,
        {
            proof {
                lemma_deep_view_index(self.rules, i as int);
            }
            let ghost w0 = work;
            work.push(self.rules[i].duplicate());
            proof {
                lemma_deep_view_push(w0, work, work@[work@.len() - 1]);
                assert(work.deep_view() =~= rv.take(i + 1));
            }
            i = i + 1;
        }
        proof {
            assert(work.deep_view() =~= rv);
        }
        let mut start_rhs: Vec<String> = Vec::new();
        start_rhs.push(self.start_symbol.clone());
        let start_rule = CFGRule { lhs: new_start.clone(), rhs: start_rhs };
        proof {
            lemma_deep_view_index(start_rule.rhs, 0);
            assert(start_rule@.rhs =~= seq![self.start_symbol@]);
            assert(start_rule@ == SpecRule { lhs: ns, rhs: seq![self.start_symbol@] });
        }
        let ghost w0 = work;
        work.push(start_rule);
        proof {
            lemma_deep_view_push(w0, work, work@[work@.len() - 1]);
            assert(work.deep_view() == rv.push(
                SpecRule { lhs: ns, rhs: seq![self.start_symbol@] },
            ));
        }
        let work = remove_blank_rhs(work, new_start.as_str());
        let work = remove_one_length_rules(work);
        let work = remove_long_rules(work);
        let work = replace_nonterminals(work);
        let ghost outv = work.deep_view();
        proof {
            assert(outv == pipeline_rules(rv, self.start_symbol@));
            assert(outv.len() == work@.len());
        }
        let mut cnf_rules: Vec<CNFRule> = Vec::new();
        let mut j: usize = 0;
        while j < work.len()
            invariant
                0 <= j <= work.len(),
                outv == work.deep_view(),
                outv == pipeline_rules(self.rules.deep_view(), self.start_symbol@),
                outv.len() == work@.len(),
                cnf_rules.deep_view() == outv.take(j as int),
                forall|m: int| 0 <= m < j ==> 1 <= (#[trigger] outv[m]).rhs.len() <= 2,
            decreases work.len() - j,
        {
            proof {
                lemma_deep_view_index(work, j as int);
            }
            match make_cnf_rule(work[j].duplicate()) {
                Some(c) => {
                    let ghost c0 = cnf_rules;
                    cnf_rules.push(c);
                    proof {
                        lemma_deep_view_push(c0, cnf_rules, cnf_rules@[cnf_rules@.len() - 1]);
                        assert(cnf_rules.deep_view() =~= outv.take(j + 1));
                    }
                },
                None => {
                    proof {
                        let out = pipeline_rules(self.rules.deep_view(), self.start_symbol@);
                        assert((j as int) < out.len() && !(1 <= out[j as int].rhs.len() <= 2));
                        if all_nonempty(self.rules.deep_view()) {
                            lemma_pipeline_lens(self.rules.deep_view(), self.start_symbol@);
                        }
                    }
                    return None;
                },
            }
            j = j + 1;
        }
        proof {
            assert(cnf_rules.deep_view() =~= outv);
            if !all_nonempty(rv) {
                let jj = choose|jj: int| 0 <= jj < rv.len() && (#[trigger] rv[jj]).rhs.len() < 1;
                lemma_pipeline_has_empty(rv, self.start_symbol@, jj);
            }
        }
        Some(CNF { start_symbol: new_start, rules: cnf_rules })
    }
}

/// Whether a rule is a unit production.
pub fn is_one_length_rule(r: &CFGRule) -> (b: bool)
    ensures
        b == is_unit_rule(r@),
{
    proof {
        if r.rhs@.len() > 0 {
            lemma_deep_view_index(r.rhs, 0);
        }
    }
    r.rhs.len() == 1 && is_nonterminal(r.rhs[0].as_str())
}

/// Every rule collected by `units_upto` is a unit rule.
proof fn lemma_units_are_units(rules: Seq<SpecRule>, i: int)
    ensures
        forall|j: int|
            0 <= j < units_upto(rules, i).len() ==> is_unit_rule(#[trigger] units_upto(rules, i)[j]),
    decreases i,
{
    if i > 0 {
        lemma_units_are_units(rules, i - 1);
        let pre = units_upto(rules, i - 1);
        assert forall|j: int| 0 <= j < units_upto(rules, i).len() implies is_unit_rule(
            #[trigger] units_upto(rules, i)[j],
        ) by {
            if j < pre.len() {
                assert(units_upto(rules, i)[j] == pre[j]);
            }
        }
    }
}

/// Unit-production elimination: for every unit rule `A -> B`, copies of the
/// working set's `B`-rules are appended under `A`, in the order the unit
/// rules were encountered, so that chains resolve transitively.
pub fn remove_one_length_rules(rules: Vec<CFGRule>) -> (res: Vec<CFGRule>)
    ensures
        res.deep_view() == remove_one_length_spec(rules.deep_view()),
{
    let ghost rv = rules.deep_view();
    let mut acc: Vec<CFGRule> = Vec::new();
    let mut units: Vec<CFGRule> = Vec::new();
    let mut i: usize = 0;
    while i < rules.len()
        invariant
            0 <= i <= rules.len(),
            rv == rules.deep_view(),
            acc.deep_view() == non_units_upto(rv, i as int),
            units.deep_view() == units_upto(rv, i as int),
        decreases rules.len() - i,
    {
        proof {
            lemma_deep_view_index(rules, i as int);
        }
        let ghost acc0 = acc;
        let ghost units0 = units;
        if is_one_length_rule(&rules[i]) {
            units.push(rules[i].duplicate());
            proof {
                lemma_deep_view_push(units0, units, units@[units@.len() - 1]);
            }
        } else {
            acc.push(rules[i].duplicate());
            proof {
                lemma_deep_view_push(acc0, acc, acc@[acc@.len() - 1]);
            }
        }
        i = i + 1;
    }
    let ghost uv = units.deep_view();
    proof {
        assert(rv.len() == rules@.len());
        assert(uv.skip(0) =~= uv);
    }
    let mut ui: usize = 0;
    while ui < units.len()
        invariant
            0 <= ui <= units.len(),
            uv == units.deep_view(),
            uv == units_upto(rv, rv.len() as int),
            uv.len() == units@.len(),
            process_units(acc.deep_view(), uv.skip(ui as int)) == process_units(
                non_units_upto(rv, rv.len() as int),
                uv,
            ),
        decreases units.len() - ui,
    {
        proof {
            lemma_deep_view_index(units, ui as int);
            lemma_units_are_units(rv, rv.len() as int);
        }
        let u = &units[ui];
        assert(u@ == uv[ui as int] && is_unit_rule(u@));
        assert(u.rhs@.len() == 1);
        let mut additions: Vec<CFGRule> = Vec::new();
        let mut j: usize = 0;
        while j < acc.len()
            invariant
                0 <= j <= acc.len(),
                u@ == uv[ui as int],
                u.rhs@.len() == 1,
                ui < uv.len(),
                uv == units.deep_view(),
                additions.deep_view() == copies_upto(acc.deep_view(), uv[ui as int], j as int),
            decreases acc.len() - j,
        {
            proof {
                lemma_deep_view_index(acc, j as int);
                lemma_deep_view_index(u.rhs, 0);
            }
            if str_eq(acc[j].lhs.as_str(), u.rhs[0].as_str()) {
                let ghost additions0 = additions;
                let mut copy = acc[j].duplicate();
                copy.lhs = u.lhs.clone();
                proof {
                    assert(copy@ == SpecRule {
                        lhs: uv[ui as int].lhs,
                        rhs: acc.deep_view()[j as int].rhs,
                    });
                }
                additions.push(copy);
                proof {
                    lemma_deep_view_push(additions0, additions, additions@[additions@.len() - 1]);
                }
            }
            j = j + 1;
        }
        let ghost accv = acc.deep_view();
        let ghost addv = additions.deep_view();
        let ghost acc_before = acc;
        let ghost adds_before = additions;
        acc.append(&mut additions);
        proof {
            lemma_deep_view_concat(acc_before, adds_before, acc);
            assert(accv.len() == acc_before@.len());
            assert(acc.deep_view() == accv + unit_copies(accv, uv[ui as int]));
            assert(uv.skip(ui as int).drop_first() =~= uv.skip(ui as int + 1));
            assert(uv.skip(ui as int)[0] == uv[ui as int]);
            assert(process_units(accv, uv.skip(ui as int)) == process_units(
                acc.deep_view(),
                uv.skip(ui as int + 1),
            ));
        }
        ui = ui + 1;
    }
    proof {
        assert(uv.skip(uv.len() as int) =~= Seq::<SpecRule>::empty());
        assert(process_units(acc.deep_view(), uv.skip(uv.len() as int)) == acc.deep_view());
    }
    acc
}

} // verus!
