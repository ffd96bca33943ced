//! Parsing rule text of the form `LHS -> ALT1 | ALT2 | ...` into structured
//! rules.
//!
//! Within an alternative, tokens are separated by spaces; a token matching
//! the nonterminal pattern is kept as one symbol, while any other token is
//! split into one symbol per character.

use vstd::prelude::*;

use crate::cfg::{
    is_nonterminal, is_nonterminal_spec, lemma_deep_view_concat, lemma_deep_view_index,
    lemma_deep_view_push, CFGRule, SpecRule,
};

verus! {

/// The characters the parser strips from the ends of tokens and rule parts.
pub open spec fn is_space_char(c: char) -> bool {
    c == ' ' || c == '\t' || c == '\n' || c == '\r'
}

/// The first position at or after `i` where the two-character arrow `->`
/// begins, or the string's length if there is none.
pub open spec fn arrow_from(s: Seq<char>, i: int) -> int
    decreases s.len() - i,
{
    if i < 0 || i + 2 > s.len() {
        s.len() as int
    } else if s[i] == '-' && s[i + 1] == '>' {
        i
    } else {
        arrow_from(s, i + 1)
    }
}

/// The first position at or after `i` that holds a non-space character, or
/// the string's length.
pub open spec fn trim_start_idx(s: Seq<char>, i: int) -> int
    decreases s.len() - i,
{
    if i < 0 || i >= s.len() {
        s.len() as int
    } else if is_space_char(s[i]) {
        trim_start_idx(s, i + 1)
    } else {
        i
    }
}

/// One past the last non-space character before `i`, or zero.
pub open spec fn trim_end_idx(s: Seq<char>, i: int) -> int
    decreases i,
{
    if i <= 0 {
        0
    } else if is_space_char(s[i - 1]) {
        trim_end_idx(s, i - 1)
    } else {
        i
    }
}

/// The string with leading and trailing spaces removed.
pub open spec fn trim_spec(s: Seq<char>) -> Seq<char> {
    let a = trim_start_idx(s, 0);
    let b = trim_end_idx(s, s.len() as int);
    if a <= b {
        s.subrange(a, b)
    } else {
        Seq::empty()
    }
}

/// The first position at or after `i` holding the character `c`, or the
/// string's length.
pub open spec fn find_from(s: Seq<char>, c: char, i: int) -> int
    decreases s.len() - i,
{
    if i < 0 || i >= s.len() {
        s.len() as int
    } else if s[i] == c {
        i
    } else {
        find_from(s, c, i + 1)
    }
}

/// The first position the search returns lies between its starting point
/// and the string's length.
pub proof fn lemma_find_from_bounds(s: Seq<char>, c: char, i: int)
    requires
        0 <= i <= s.len(),
    ensures
        i <= find_from(s, c, i) <= s.len(),
    decreases s.len() - i,
{
    if i < s.len() && s[i] != c {
        lemma_find_from_bounds(s, c, i + 1);
    }
}

/// The string split at every occurrence of `c`; a separator at the edge or
/// two adjacent separators yield empty parts, as with `str::split`.
pub open spec fn split_spec(s: Seq<char>, c: char) -> Seq<Seq<char>>
    decreases s.len(),
    via split_spec_decreases
{
    let i = find_from(s, c, 0);
    if i == s.len() {
        seq![s]
    } else {
        seq![s.take(i)] + split_spec(s.skip(i + 1), c)
    }
}

#[via_fn]
proof fn split_spec_decreases(s: Seq<char>, c: char) {
    lemma_find_from_bounds(s, c, 0);
}

/// The first `k` characters of a token, each as a one-character symbol.
pub open spec fn chars_upto(t: Seq<char>, k: int) -> Seq<Seq<char>>
    decreases k,
{
    if k <= 0 {
        Seq::empty()
    } else {
        chars_upto(t, k - 1).push(seq![t[k - 1]])
    }
}

/// A token as symbols: a nonterminal stays whole, anything else is split
/// into one symbol per character.
pub open spec fn expand_token(t: Seq<char>) -> Seq<Seq<char>> {
    if is_nonterminal_spec(t) {
        seq![t]
    } else {
        chars_upto(t, t.len() as int)
    }
}

/// The symbols contributed by the first `i` space-separated tokens.
pub open spec fn tokens_upto(parts: Seq<Seq<char>>, i: int) -> Seq<Seq<char>>
    decreases i,
{
    if i <= 0 {
        Seq::empty()
    } else {
        tokens_upto(parts, i - 1) + expand_token(parts[i - 1])
    }
}

/// An alternative's text as a symbol sequence.
pub open spec fn tokenize_spec(s: Seq<char>) -> Seq<Seq<char>> {
    let parts = split_spec(s, ' ');
    tokens_upto(parts, parts.len() as int)
}

/// One rule per alternative, sharing the left-hand side, for the first `i`
/// alternatives.
pub open spec fn rules_upto(alts: Seq<Seq<char>>, lhs: Seq<char>, i: int) -> Seq<SpecRule>
    decreases i,
{
    if i <= 0 {
        Seq::empty()
    } else {
        rules_upto(alts, lhs, i - 1).push(
            SpecRule { lhs: lhs, rhs: tokenize_spec(trim_spec(alts[i - 1])) },
        )
    }
}

/// What `parse` produces: the text before the first `->` (trimmed) is the
/// left-hand side and must be a nonterminal; the text after it is split on
/// `|` into alternatives, each trimmed and tokenized.
pub open spec fn parse_spec(s: Seq<char>) -> Option<Seq<SpecRule>> {
    let i = arrow_from(s, 0);
    if i == s.len() {
        None
    } else {
        let lhs = trim_spec(s.take(i));
        if !is_nonterminal_spec(lhs) {
            None
        } else {
            let alts = split_spec(trim_spec(s.skip(i + 2)), '|');
            Some(rules_upto(alts, lhs, alts.len() as int))
        }
    }
}

/// Whether the parser treats this character as a space.
fn is_space(c: char) -> (b: bool)
    ensures
        b == is_space_char(c),
{
    c == ' ' || c == '\t' || c == '\n' || c == '\r'
}

/// The string with leading and trailing spaces removed.
fn trim_str<'a>(s: &'a str) -> (r: &'a str)
    ensures
        r@ == trim_spec(s@),
{
    let n = s.unicode_len();
    let mut a: usize = 0;
    while a < n && is_space(s.get_char(a))
        invariant
            0 <= a <= n,
            n == s@.len(),
            trim_start_idx(s@, 0) == trim_start_idx(s@, a as int),
        decreases n - a,
    {
        a = a + 1;
    }
    assert(a as int == trim_start_idx(s@, 0));
    let mut b: usize = n;
    while b > 0 && is_space(s.get_char(b - 1))
        invariant
            0 <= b <= n,
            n == s@.len(),
            trim_end_idx(s@, n as int) == trim_end_idx(s@, b as int),
        decreases b,
    {
        b = b - 1;
    }
    assert(b as int == trim_end_idx(s@, n as int));
    if a <= b {
        s.substring_char(a, b)
    } else {
        let r = s.substring_char(0, 0);
        assert(r@ =~= trim_spec(s@));
        r
    }
}

/// The string split at every occurrence of `c`.
fn split_char(s: &str, c: char) -> (parts: Vec<String>)
    ensures
        parts.deep_view() == split_spec(s@, c),
    decreases s@.len(),
{
    let n = s.unicode_len();
    let mut i: usize = 0;
    while i < n && s.get_char(i) != c
        invariant
            0 <= i <= n,
            n == s@.len(),
            find_from(s@, c, 0) == find_from(s@, c, i as int),
        decreases n - i,
    {
        i = i + 1;
    }
    assert(i as int == find_from(s@, c, 0));
    if i == n {
        let mut parts: Vec<String> = Vec::new();
        let ghost p0 = parts;
        parts.push(s.to_owned());
        proof {
            lemma_deep_view_push(p0, parts, parts@[0]);
            assert(parts.deep_view() =~= seq![s@]);
        }
        parts
    } else {
        let head = s.substring_char(0, i);
        let tail = s.substring_char(i + 1, n);
        proof {
            assert(tail@ =~= s@.skip(i + 1));
        }
        let mut rest = split_char(tail, c);
        let mut parts: Vec<String> = Vec::new();
        let ghost p0 = parts;
        parts.push(head.to_owned());
        proof {
            lemma_deep_view_push(p0, parts, parts@[0]);
        }
        let ghost head_parts = parts;
        let ghost rest0 = rest;
        parts.append(&mut rest);
        proof {
            lemma_deep_view_concat(head_parts, rest0, parts);
            assert(head@ =~= s@.take(i as int));
            assert(parts.deep_view() =~= split_spec(s@, c));
        }
        parts
    }
}

/// Splits one alternative's text into symbols: space-separated tokens, each
/// kept whole if it is a nonterminal and split into single characters
/// otherwise.
pub fn tokenize_rule(rule_str: &str) -> (elements: Vec<String>)
    ensures
        elements.deep_view() == tokenize_spec(rule_str@),
{
    let parts = split_char(rule_str, ' ');
    let ghost pv = parts.deep_view();
    let mut elements: Vec<String> = Vec::new();
    let mut i: usize = 0;
    while i < parts.len()
        invariant
            0 <= i <= parts.len(),
            pv == parts.deep_view(),
            pv.len() == parts@.len(),
            elements.deep_view() == tokens_upto(pv, i as int),
        decreases parts.len() - i,
    {
        proof {
            lemma_deep_view_index(parts, i as int);
        }
        let item = &parts[i];
        assert(item@ == pv[i as int]);
        if is_nonterminal(item.as_str()) {
            let ghost e0 = elements;
            elements.push(item.clone());
            proof {
                lemma_deep_view_push(e0, elements, elements@[elements@.len() - 1]);
                assert(expand_token(pv[i as int]) =~= seq![pv[i as int]]);
                assert(elements.deep_view() =~= tokens_upto(pv, i + 1));
            }
        } else {
            let m = item.as_str().unicode_len();
            let mut k: usize = 0;
            while k < m
                invariant
                    0 <= k <= m,
                    m == item@.len(),
                    item@ == pv[i as int],
                    i < pv.len(),
                    pv == parts.deep_view(),
                    elements.deep_view() == tokens_upto(pv, i as int) + chars_upto(
                        pv[i as int],
                        k as int,
                    ),
                decreases m - k,
            {
                let one = item.as_str().substring_char(k, k + 1);
                proof {
                    assert(one@ =~= seq![pv[i as int][k as int]]);
                }
                let ghost e0 = elements;
                elements.push(one.to_owned());
                proof {
                    lemma_deep_view_push(e0, elements, elements@[elements@.len() - 1]);
                    assert(elements.deep_view() =~= tokens_upto(pv, i as int) + chars_upto(
                        pv[i as int],
                        k + 1,
                    ));
                }
                k = k + 1;
            }
            proof {
                assert(expand_token(pv[i as int]) == chars_upto(pv[i as int], m as int));
                assert(elements.deep_view() =~= tokens_upto(pv, i + 1));
            }
        }
        i = i + 1;
    }
    proof {
        assert(elements.deep_view() == tokenize_spec(rule_str@));
    }
    elements
}

/// Parses rule text of the form `LHS -> ALT1 | ALT2 | ...` into one rule
/// per alternative, or fails if the text has no arrow or its left-hand side
/// is not a nonterminal.
pub fn parse(s: &str) -> (res: Option<Vec<CFGRule>>)
    ensures
        match res {
            Some(v) => parse_spec(s@) is Some && v.deep_view() == parse_spec(s@)->Some_0,
            None => parse_spec(s@) is None,
        },
{
    let n = s.unicode_len();
    let mut i: usize = 0;
    while n - i >= 2 && !(s.get_char(i) == '-' && s.get_char(i + 1) == '>')
        invariant
            0 <= i,
            i <= n,
            n == s@.len(),
            arrow_from(s@, 0) == arrow_from(s@, i as int),
        decreases n - i,
    {
        i = i + 1;
    }
    if n - i < 2 {
        assert(arrow_from(s@, 0) == s@.len());
        return None;
    }
    assert(i as int == arrow_from(s@, 0));
    let before = s.substring_char(0, i);
    proof {
        assert(before@ =~= s@.take(i as int));
    }
    let lhs = trim_str(before);
    if !is_nonterminal(lhs) {
        return None;
    }
    let after = s.substring_char(i + 2, n);
    proof {
        assert(after@ =~= s@.skip(i + 2));
    }
    let rest = trim_str(after);
    let alts = split_char(rest, '|');
    let ghost av = alts.deep_view();
    proof {
        assert(av == split_spec(trim_spec(s@.skip(i + 2)), '|'));
    }
    let mut out: Vec<CFGRule> = Vec::new();
    let mut j: usize = 0;
    while j < alts.len()
        invariant
            0 <= j <= alts.len(),
            av == alts.deep_view(),
            av.len() == alts@.len(),
            lhs@ == trim_spec(s@.take(arrow_from(s@, 0))),
            out.deep_view() == rules_upto(av, lhs@, j as int),
        decreases alts.len() - j,
    {
        proof {
            lemma_deep_view_index(alts, j as int);
        }
        let alt = trim_str(alts[j].as_str());
        let rhs = tokenize_rule(alt);
        let rule = CFGRule { lhs: lhs.to_owned(), rhs };
        assert(rule@ == SpecRule { lhs: lhs@, rhs: tokenize_spec(trim_spec(av[j as int])) });
        let ghost o0 = out;
        out.push(rule);
        proof {
            lemma_deep_view_push(o0, out, out@[out@.len() - 1]);
        }
        j = j + 1;
    }
    proof {
        assert(out.deep_view() == parse_spec(s@)->Some_0);
    }
    Some(out)
}

} // verus!
