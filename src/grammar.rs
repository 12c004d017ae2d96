//! Grammars: symbols, rules and their mathematical models.

use vstd::prelude::*;

verus! {

/// The model of a grammar symbol.
pub enum Sym {
    Terminal(Seq<char>),
    Nonterminal(Seq<char>),
}

/// The model of a production rule: its name and its ordered components.
pub struct Rule {
    pub name: Seq<char>,
    pub components: Seq<Sym>,
}

/// A grammar symbol: a terminal matched against one token, or a reference to
/// every rule that carries the given name.
#[derive(Clone, Debug)]
pub enum Symbol {
    Terminal(String),
    Nonterminal(String),
}

/// A production rule `name -> components`.
#[derive(Clone, Debug)]
pub struct GrammarRule {
    pub name: String,
    pub components: Vec<Symbol>,
}

impl View for Symbol {
    type V = Sym;

    open spec fn view(&self) -> Sym {
        match self {
            Symbol::Terminal(t) => Sym::Terminal(t@),
            Symbol::Nonterminal(n) => Sym::Nonterminal(n@),
        }
    }
}

impl View for GrammarRule {
    type V = Rule;

    open spec fn view(&self) -> Rule {
        Rule { name: self.name@, components: self.components@.map_values(|s: Symbol| s@) }
    }
}

/// The model of a grammar given as a sequence of rules.
pub open spec fn rules_model(g: Seq<GrammarRule>) -> Seq<Rule> {
    g.map_values(|r: GrammarRule| r@)
}

/// The model of a token sequence.
pub open spec fn tokens_model(t: Seq<String>) -> Seq<Seq<char>> {
    t.map_values(|s: String| s@)
}

/// A terminal with the given pattern matches a token when the two are equal.
pub open spec fn terminal_matches(pattern: Seq<char>, token: Seq<char>) -> bool {
    pattern == token
}

impl Symbol {
    /// Whether this symbol matches the token: a terminal matches a token equal
    /// to its pattern; a nonterminal matches no token.
    pub fn matches(&self, token: &String) -> (r: bool)
        ensures
            r == match self@ {
                Sym::Terminal(p) => terminal_matches(p, token@),
                Sym::Nonterminal(_) => false,
            },
    {
        match self {
            Symbol::Terminal(p) => p.eq(token),
            Symbol::Nonterminal(_) => false,
        }
    }
}

} // verus!
