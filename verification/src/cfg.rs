//! Context-free grammars and the symbol classifier.
//!
//! A grammar is a start symbol plus a collection of rules; every symbol is a
//! plain text token.  A token is a nonterminal exactly when it consists of one
//! uppercase ASCII letter followed by zero or more groups, each group an
//! underscore followed by one or more letters, digits or commas.  Every other
//! token is a terminal.

pub mod cnf;
pub mod parser;

use vstd::prelude::*;

verus! {

/// The placeholder token that stands for the empty string on a right-hand
/// side.
pub open spec fn blank_symbol() -> Seq<char> {
    seq!['.']
}

/// Characters allowed inside a nonterminal's underscore-separated groups.
pub open spec fn is_group_char(c: char) -> bool {
    ('A' <= c && c <= 'Z') || ('a' <= c && c <= 'z') || ('0' <= c && c <= '9') || c == ','
}

/// The part of a nonterminal after its leading uppercase letter: a
/// concatenation of groups, each an underscore followed by one or more group
/// characters.  Equivalently: empty, or starting with an underscore, with
/// every character an underscore or a group character, and every underscore
/// immediately followed by a group character.
pub open spec fn suffix_ok(t: Seq<char>) -> bool {
    t.len() == 0 || (t[0] == '_' && forall|i: int|
        0 <= i < t.len() ==> (t[i] == '_' || is_group_char(#[trigger] t[i])) && (t[i] == '_'
            ==> i + 1 < t.len() && t[i + 1] != '_'))
}

/// A token names a nonterminal: one uppercase ASCII letter, then zero or more
/// `_`-separated groups of letters, digits and commas.
pub open spec fn is_nonterminal_spec(s: Seq<char>) -> bool {
    s.len() >= 1 && 'A' <= s[0] && s[0] <= 'Z' && suffix_ok(s.skip(1))
}

/// Decides whether a token is a nonterminal; anything else is a terminal.
pub fn is_nonterminal(s: &str) -> (r: bool)
    ensures
        r == is_nonterminal_spec(s@),
{
    let n = s.unicode_len();
    if n == 0 {
        return false;
    }
    let c0 = s.get_char(0);
    if !('A' <= c0 && c0 <= 'Z') {
        return false;
    }
    if n == 1 {
        assert(s@.skip(1).len() == 0);
        return true;
    }
    if s.get_char(1) != '_' {
        assert(s@.skip(1)[0] != '_');
        return false;
    }
    let mut i: usize = 1;
    while i < n
        invariant
            1 <= i <= n,
            n == s@.len(),
            s@[1] == '_',
            forall|j: int|
                1 <= j < i ==> (s@[j] == '_' || is_group_char(#[trigger] s@[j])) && (s@[j] == '_'
                    ==> j + 1 < n && s@[j + 1] != '_'),
        decreases n - i,
    {
        let c = s.get_char(i);
        if !(c == '_' || ('A' <= c && c <= 'Z') || ('a' <= c && c <= 'z') || ('0' <= c && c <= '9')
            || c == ',') {
            assert(!is_group_char(s@[i as int]) && s@[i as int] != '_');
            assert(!suffix_ok(s@.skip(1))) by {
                let t = s@.skip(1);
                assert(t[i - 1] == s@[i as int]);
            }
            return false;
        }
        if c == '_' {
            if i + 1 == n {
                assert(!suffix_ok(s@.skip(1))) by {
                    let t = s@.skip(1);
                    assert(t[i - 1] == s@[i as int]);
                }
                return false;
            }
            let c2 = s.get_char(i + 1);
            if c2 == '_' {
                assert(!suffix_ok(s@.skip(1))) by {
                    let t = s@.skip(1);
                    assert(t[i - 1] == s@[i as int]);
                    assert(t[i as int] == s@[i + 1]);
                }
                return false;
            }
        }
        i = i + 1;
    }
    assert(suffix_ok(s@.skip(1))) by {
        let t = s@.skip(1);
        assert(t[0] == s@[1]);
        assert(forall|k: int| 0 <= k < t.len() ==> #[trigger] t[k] == s@[k + 1]);
    }
    true
}

/// A token that is empty or whose first character is not an uppercase ASCII
/// letter is a terminal, whatever follows.
pub proof fn lemma_terminal_first_char(s: Seq<char>)
    requires
        s.len() == 0 || !('A' <= s[0] && s[0] <= 'Z'),
    ensures
        !is_nonterminal_spec(s),
{
}

/// The mathematical model of a rule: a left-hand symbol and a right-hand
/// sequence of symbols, each symbol a sequence of characters.
#[verifier::ext_equal]
pub struct SpecRule {
    pub lhs: Seq<char>,
    pub rhs: Seq<Seq<char>>,
}

/// A production rule `lhs -> rhs`, with the right-hand side an ordered
/// sequence of symbols.
#[derive(Debug, PartialEq, Eq, Clone)]
pub struct CFGRule {
    pub lhs: String,
    pub rhs: Vec<String>,
}

impl View for CFGRule {
    type V = SpecRule;

    open spec fn view(&self) -> SpecRule {
        SpecRule { lhs: self.lhs@, rhs: self.rhs.deep_view() }
    }
}

impl DeepView for CFGRule {
    type V = SpecRule;

    open spec fn deep_view(&self) -> SpecRule {
        self.view()
    }
}

impl CFGRule {
    /// An exact copy of the rule.
    pub fn duplicate(&self) -> (r: CFGRule)
        ensures
            r@ == self@,
    {
        let lhs = self.lhs.clone();
        let mut rhs: Vec<String> = Vec::new();
        let mut i: usize = 0;
        while i < self.rhs.len()
            invariant
                0 <= i <= self.rhs.len(),
                rhs.deep_view() == self.rhs.deep_view().take(i as int),
            decreases self.rhs.len() - i,
        {
            let ghost prevv: Seq<String> = rhs@;
            let ghost prevd: Seq<Seq<char>> = rhs.deep_view();
            proof {
                assert(prevd.len() == prevv.len());
                assert forall|j: int| 0 <= j < prevv.len() implies prevd[j] == prevv[j]@ by {
                    assert(prevd[j] == rhs@[j].deep_view());
                }
            }
            let s = self.rhs[i].clone();
            assert(s@ == self.rhs@[i as int]@);
            rhs.push(s);
            proof {
                assert(rhs@ == prevv.push(s));
                assert forall|j: int| 0 <= j < rhs.deep_view().len() implies rhs.deep_view()[j]
                    == self.rhs.deep_view().take(i + 1)[j] by {
                    assert(rhs.deep_view()[j] == rhs@[j]@);
                    if j < i {
                        assert(rhs@[j] == prevv[j]);
                    }
                }
                assert(rhs.deep_view() =~= self.rhs.deep_view().take(i + 1));
            }
            i = i + 1;
        }
        assert(rhs.deep_view() =~= self.rhs.deep_view());
        CFGRule { lhs, rhs }
    }
}

/// A context-free grammar: a start symbol and its rules.
pub struct CFG {
    pub start_symbol: String,
    pub rules: Vec<CFGRule>,
}

/// String equality at the character level.
pub(crate) fn str_eq(a: &str, b: &str) -> (r: bool)
    ensures
        r == (a@ == b@),
{
    let x: String = a.to_owned();
    let y: String = b.to_owned();
    x == y
}

/// Pushing onto a vector appends the element's view to the vector's deep
/// view.
pub proof fn lemma_deep_view_push<T: DeepView>(v1: Vec<T>, v2: Vec<T>, x: T)
    requires
        v2@ == v1@.push(x),
    ensures
        v2.deep_view() == v1.deep_view().push(x.deep_view()),
{
    assert forall|j: int| 0 <= j < v2.deep_view().len() implies v2.deep_view()[j]
        == v1.deep_view().push(x.deep_view())[j] by {
        assert(v2.deep_view()[j] == v2@[j].deep_view());
        if j < v1@.len() {
            assert(v2@[j] == v1@[j]);
            assert(v1.deep_view()[j] == v1@[j].deep_view());
        }
    }
    assert(v2.deep_view() =~= v1.deep_view().push(x.deep_view()));
}

/// Removing an element from a vector removes the same position from its deep
/// view.
pub proof fn lemma_deep_view_remove<T: DeepView>(v1: Vec<T>, v2: Vec<T>, k: int)
    requires
        0 <= k < v1@.len(),
        v2@ == v1@.remove(k),
    ensures
        v2.deep_view() == v1.deep_view().remove(k),
{
    assert forall|j: int| 0 <= j < v2.deep_view().len() implies v2.deep_view()[j]
        == v1.deep_view().remove(k)[j] by {
        assert(v2.deep_view()[j] == v2@[j].deep_view());
        if j < k {
            assert(v2@[j] == v1@[j]);
            assert(v1.deep_view()[j] == v1@[j].deep_view());
        } else {
            assert(v2@[j] == v1@[j + 1]);
            assert(v1.deep_view()[j + 1] == v1@[j + 1].deep_view());
        }
    }
    assert(v2.deep_view() =~= v1.deep_view().remove(k));
}

/// Appending one vector to another concatenates their deep views.
pub proof fn lemma_deep_view_concat<T: DeepView>(v1: Vec<T>, v2: Vec<T>, v3: Vec<T>)
    requires
        v3@ == v1@ + v2@,
    ensures
        v3.deep_view() == v1.deep_view() + v2.deep_view(),
{
    assert forall|j: int| 0 <= j < v3.deep_view().len() implies v3.deep_view()[j]
        == (v1.deep_view() + v2.deep_view())[j] by {
        assert(v3.deep_view()[j] == v3@[j].deep_view());
        if j < v1@.len() {
            assert(v3@[j] == v1@[j]);
            assert(v1.deep_view()[j] == v1@[j].deep_view());
        } else {
            assert(v3@[j] == v2@[j - v1@.len()]);
            assert(v2.deep_view()[j - v1@.len()] == v2@[j - v1@.len()].deep_view());
        }
    }
    assert(v3.deep_view() =~= v1.deep_view() + v2.deep_view());
}

/// The deep view indexes elementwise.
pub proof fn lemma_deep_view_index<T: DeepView>(v: Vec<T>, j: int)
    requires
        0 <= j < v@.len(),
    ensures
        v.deep_view()[j] == v@[j].deep_view(),
        v.deep_view().len() == v@.len(),
{
}

/// Whether a list of symbols holds the given one.
pub(crate) fn contains_string(v: &Vec<String>, x: &String) -> (b: bool)
    ensures
        b == v.deep_view().contains(x@),
{
    let mut j: usize = 0;
    while j < v.len()
        invariant
            0 <= j <= v.len(),
            forall|k: int| 0 <= k < j ==> v.deep_view()[k] != x@,
        decreases v.len() - j,
    {
        proof {
            lemma_deep_view_index(*v, j as int);
        }
        if str_eq(v[j].as_str(), x.as_str()) {
            assert(v.deep_view()[j as int] == x@);
            return true;
        }
        j = j + 1;
    }
    assert(forall|k: int| 0 <= k < v.deep_view().len() ==> v.deep_view()[k] != x@);
    false
}

/// Whether a symbol is the empty-string placeholder.
pub(crate) fn is_blank(s: &String) -> (r: bool)
    ensures
        r == (s@ == blank_symbol()),
{
    let n = s.as_str().unicode_len();
    if n == 1 {
        let c = s.as_str().get_char(0);
        if c == '.' {
            assert(s@ =~= blank_symbol());
            true
        } else {
            assert(s@ != blank_symbol());
            false
        }
    } else {
        assert(s@ != blank_symbol());
        false
    }
}

} // verus!
