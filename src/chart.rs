//! Earley items and the chart they form: which items belong at which position,
//! defined by finite traces of predict, scan and complete steps.

use vstd::prelude::*;
use crate::grammar::{GrammarRule, Rule, Sym, Symbol, rules_model, terminal_matches};

verus! {

/// An Earley item: the rule at index `rule` of the grammar, begun at chart
/// position `start`, of which the first `current` components are matched.
#[derive(PartialEq, Eq, Structural, Clone, Copy, Debug)]
pub struct EarleyItem {
    pub rule: usize,
    pub start: usize,
    pub current: usize,
}

/// The symbol after the cursor of an item, if the rule is not yet fully matched.
pub open spec fn next_sym(g: Seq<Rule>, it: EarleyItem) -> Option<Sym> {
    if it.current < g[it.rule as int].components.len() {
        Some(g[it.rule as int].components[it.current as int])
    } else {
        None
    }
}

/// The item with its cursor moved one component further.
pub open spec fn advance(it: EarleyItem) -> EarleyItem {
    EarleyItem { rule: it.rule, start: it.start, current: (it.current + 1) as usize }
}

/// An item is well formed at position `p` when its rule exists, it starts no
/// later than `p`, and its cursor lies within the rule.
pub open spec fn item_wf(g: Seq<Rule>, p: int, it: EarleyItem) -> bool {
    &&& it.rule < g.len()
    &&& it.start <= p
    &&& it.current <= g[it.rule as int].components.len()
}

/// The fact `tr[k]`, an item at a position, is well formed and follows from facts
/// listed before it: a start item at position 0, a prediction, a scan or a
/// completion.
pub open spec fn justified(g: Seq<Rule>, toks: Seq<Seq<char>>, tr: Seq<(int, EarleyItem)>, k: int) -> bool {
    let p = tr[k].0;
    let it = tr[k].1;
    &&& 0 <= p
    &&& item_wf(g, p, it)
    &&& {
        ||| (p == 0 && it.start == 0 && it.current == 0 && g[it.rule as int].name == g[0].name)
        ||| (it.start == p && it.current == 0 && exists|a: int|
            0 <= a && a < k && #[trigger] tr[a].0 == p && next_sym(g, tr[a].1) == Some(
                Sym::Nonterminal(g[it.rule as int].name),
            ))
        ||| (0 < p && p <= toks.len() && exists|a: int|
            0 <= a && a < k && #[trigger] tr[a].0 == p - 1 && advance(tr[a].1) == it && (
            match next_sym(g, tr[a].1) {
                Some(Sym::Terminal(t)) => terminal_matches(t, toks[p - 1]),
                _ => false,
            }))
        ||| (exists|a: int, b: int|
            0 <= a && a < k && 0 <= b && b < k && #[trigger] tr[a].0 == p && next_sym(g, tr[a].1) == None::<Sym>
                && #[trigger] tr[b].0 == tr[a].1.start && advance(tr[b].1) == it && next_sym(g, tr[b].1)
                == Some(Sym::Nonterminal(g[tr[a].1.rule as int].name)))
    }
}

/// Every fact of the trace follows from those before it.
pub open spec fn valid_trace(g: Seq<Rule>, toks: Seq<Seq<char>>, tr: Seq<(int, EarleyItem)>) -> bool {
    forall|k: int| 0 <= k && k < tr.len() ==> #[trigger] justified(g, toks, tr, k)
}

/// `it` belongs to the chart at position `p`: some valid trace lists it there.
pub open spec fn in_chart(g: Seq<Rule>, toks: Seq<Seq<char>>, p: int, it: EarleyItem) -> bool {
    exists|tr: Seq<(int, EarleyItem)>| #[trigger] valid_trace(g, toks, tr) && tr.contains((p, it))
}

/// The grammar accepts the tokens: the chart holds, at the last position, a
/// fully matched item of a start rule that begins at position 0.
pub open spec fn accepts(g: Seq<Rule>, toks: Seq<Seq<char>>) -> bool {
    &&& toks.len() > 0
    &&& g.len() > 0
    &&& exists|it: EarleyItem| #[trigger] in_chart(g, toks, toks.len() as int, it) && accepting(g, it)
}

/// A fully matched item of a start rule, begun at position 0.
pub open spec fn accepting(g: Seq<Rule>, it: EarleyItem) -> bool {
    it.start == 0 && next_sym(g, it) == None::<Sym> && g[it.rule as int].name == g[0].name
}

/// A justified fact stays justified when the trace is copied into a larger one
/// at an offset.
pub(crate) proof fn lemma_justified_shift(
    g: Seq<Rule>,
    toks: Seq<Seq<char>>,
    small: Seq<(int, EarleyItem)>,
    big: Seq<(int, EarleyItem)>,
    off: int,
    k: int,
)
    requires
        0 <= k && k < small.len(),
        0 <= off,
        k + off < big.len(),
        forall|a: int| 0 <= a <= k ==> big[a + off] == #[trigger] small[a],
        justified(g, toks, small, k),
    ensures
        justified(g, toks, big, k + off),
{
    let p = small[k].0;
    let it = small[k].1;
    assert(big[k + off] == small[k]);
    if p == 0 && it.start == 0 && it.current == 0 && g[it.rule as int].name == g[0].name {
    } else if it.start == p && it.current == 0 && exists|a: int|
        0 <= a && a < k && #[trigger] small[a].0 == p && next_sym(g, small[a].1) == Some(
            Sym::Nonterminal(g[it.rule as int].name),
        ) {
        let a = choose|a: int|
            0 <= a && a < k && #[trigger] small[a].0 == p && next_sym(g, small[a].1) == Some(
                Sym::Nonterminal(g[it.rule as int].name),
            );
        assert(big[a + off] == small[a]);
        assert(big[a + off].0 == p);
    } else if 0 < p && p <= toks.len() && exists|a: int|
        0 <= a && a < k && #[trigger] small[a].0 == p - 1 && advance(small[a].1) == it && (
        match next_sym(g, small[a].1) {
            Some(Sym::Terminal(t)) => terminal_matches(t, toks[p - 1]),
            _ => false,
        }) {
        let a = choose|a: int|
            0 <= a && a < k && #[trigger] small[a].0 == p - 1 && advance(small[a].1) == it && (
            match next_sym(g, small[a].1) {
                Some(Sym::Terminal(t)) => terminal_matches(t, toks[p - 1]),
                _ => false,
            });
        assert(big[a + off] == small[a]);
        assert(big[a + off].0 == p - 1);
    } else {
        let (a, b) = choose|a: int, b: int|
            0 <= a && a < k && 0 <= b && b < k && #[trigger] small[a].0 == p && next_sym(g, small[a].1)
                == None::<Sym> && #[trigger] small[b].0 == small[a].1.start && advance(small[b].1)
                == it && next_sym(g, small[b].1) == Some(
                Sym::Nonterminal(g[small[a].1.rule as int].name),
            );
        assert(big[a + off] == small[a]);
        assert(big[b + off] == small[b]);
        assert(big[a + off].0 == p);
        assert(big[b + off].0 == big[a + off].1.start);
    }
}

/// Two valid traces, one after the other, make a valid trace.
pub(crate) proof fn lemma_trace_concat(
    g: Seq<Rule>,
    toks: Seq<Seq<char>>,
    t1: Seq<(int, EarleyItem)>,
    t2: Seq<(int, EarleyItem)>,
)
    requires
        valid_trace(g, toks, t1),
        valid_trace(g, toks, t2),
    ensures
        valid_trace(g, toks, t1 + t2),
{
    let t = t1 + t2;
    assert forall|k: int| 0 <= k && k < t.len() implies #[trigger] justified(g, toks, t, k) by {
        if k < t1.len() {
            assert forall|a: int| 0 <= a <= k implies t[a + 0] == #[trigger] t1[a] by {}
            lemma_justified_shift(g, toks, t1, t, 0, k);
            assert(k + 0 == k);
        } else {
            let k2 = k - t1.len();
            assert(justified(g, toks, t2, k2));
            assert forall|a: int| 0 <= a <= k2 implies t[a + t1.len()] == #[trigger] t2[a] by {}
            lemma_justified_shift(g, toks, t2, t, t1.len() as int, k2);
        }
    }
}

/// A valid trace extended by a fact that follows from it stays valid.
pub(crate) proof fn lemma_trace_push(
    g: Seq<Rule>,
    toks: Seq<Seq<char>>,
    t: Seq<(int, EarleyItem)>,
    f: (int, EarleyItem),
)
    requires
        valid_trace(g, toks, t),
        justified(g, toks, t.push(f), t.len() as int),
    ensures
        valid_trace(g, toks, t.push(f)),
{
    let t2 = t.push(f);
    assert forall|k: int| 0 <= k && k < t2.len() implies #[trigger] justified(g, toks, t2, k) by {
        if k < t.len() {
            assert forall|a: int| 0 <= a <= k implies t2[a + 0] == #[trigger] t[a] by {}
            lemma_justified_shift(g, toks, t, t2, 0, k);
            assert(k + 0 == k);
        }
    }
}

/// The start items at position 0 belong to the chart.
pub(crate) proof fn lemma_start_in_chart(g: Seq<Rule>, toks: Seq<Seq<char>>, r: int)
    requires
        0 <= r && r < g.len(),
        r <= usize::MAX,
        g[r].name == g[0].name,
    ensures
        in_chart(g, toks, 0, EarleyItem { rule: r as usize, start: 0, current: 0 }),
{
    let it = EarleyItem { rule: r as usize, start: 0, current: 0 };
    let t = seq![(0int, it)];
    assert(justified(g, toks, t, 0));
    assert(valid_trace(g, toks, t));
    assert(t[0] == (0int, it));
}

/// What is predicted from an item of the chart belongs to the chart.
pub(crate) proof fn lemma_predict_in_chart(g: Seq<Rule>, toks: Seq<Seq<char>>, p: int, w: EarleyItem, r: int)
    requires
        0 <= p <= usize::MAX,
        0 <= r && r < g.len(),
        r <= usize::MAX,
        in_chart(g, toks, p, w),
        next_sym(g, w) == Some(Sym::Nonterminal(g[r].name)),
    ensures
        in_chart(g, toks, p, EarleyItem { rule: r as usize, start: p as usize, current: 0 }),
{
    let it = EarleyItem { rule: r as usize, start: p as usize, current: 0 };
    let t = choose|t: Seq<(int, EarleyItem)>| #[trigger] valid_trace(g, toks, t) && t.contains((p, w));
    let a = choose|a: int| 0 <= a && a < t.len() && t[a] == (p, w);
    let t2 = t.push((p, it));
    assert(t2[a] == t[a]);
    assert(t2[a].0 == p);
    assert(justified(g, toks, t2, t.len() as int));
    lemma_trace_push(g, toks, t, (p, it));
    assert(t2[t.len() as int] == (p, it));
}

/// What is scanned from an item of the chart belongs to the chart.
pub(crate) proof fn lemma_scan_in_chart(g: Seq<Rule>, toks: Seq<Seq<char>>, p: int, w: EarleyItem, tm: Seq<char>)
    requires
        0 <= p && p < toks.len(),
        in_chart(g, toks, p, w),
        item_wf(g, p, w),
        next_sym(g, w) == Some(Sym::Terminal(tm)),
        terminal_matches(tm, toks[p]),
        g[w.rule as int].components.len() <= usize::MAX,
    ensures
        in_chart(g, toks, p + 1, advance(w)),
{
    let t = choose|t: Seq<(int, EarleyItem)>| #[trigger] valid_trace(g, toks, t) && t.contains((p, w));
    let a = choose|a: int| 0 <= a && a < t.len() && t[a] == (p, w);
    let t2 = t.push((p + 1, advance(w)));
    assert(t2[a] == t[a]);
    assert(t2[a].0 == p + 1 - 1);
    assert(item_wf(g, p + 1, advance(w)));
    assert(justified(g, toks, t2, t.len() as int));
    lemma_trace_push(g, toks, t, (p + 1, advance(w)));
    assert(t2[t.len() as int] == (p + 1, advance(w)));
}

/// What a complete item of the chart advances belongs to the chart.
pub(crate) proof fn lemma_complete_in_chart(
    g: Seq<Rule>,
    toks: Seq<Seq<char>>,
    p: int,
    c: EarleyItem,
    w: EarleyItem,
)
    requires
        0 <= p,
        in_chart(g, toks, p, c),
        next_sym(g, c) == None::<Sym>,
        in_chart(g, toks, c.start as int, w),
        item_wf(g, c.start as int, w),
        c.start <= p,
        next_sym(g, w) == Some(Sym::Nonterminal(g[c.rule as int].name)),
        g[w.rule as int].components.len() <= usize::MAX,
    ensures
        in_chart(g, toks, p, advance(w)),
{
    let t1 = choose|t: Seq<(int, EarleyItem)>| #[trigger] valid_trace(g, toks, t) && t.contains((p, c));
    let t2 = choose|t: Seq<(int, EarleyItem)>|
        #[trigger] valid_trace(g, toks, t) && t.contains((c.start as int, w));
    let a = choose|a: int| 0 <= a && a < t1.len() && t1[a] == (p, c);
    let b2 = choose|b: int| 0 <= b && b < t2.len() && t2[b] == (c.start as int, w);
    lemma_trace_concat(g, toks, t1, t2);
    let t = t1 + t2;
    let b = b2 + t1.len();
    let t3 = t.push((p, advance(w)));
    assert(t3[a] == (p, c));
    assert(t3[b] == (c.start as int, w));
    assert(t3[a].0 == p);
    assert(t3[b].0 == t3[a].1.start);
    assert(item_wf(g, p, advance(w)));
    assert(justified(g, toks, t3, t.len() as int));
    lemma_trace_push(g, toks, t, (p, advance(w)));
    assert(t3[t.len() as int] == (p, advance(w)));
}

/// Items of the chart are well formed.
pub(crate) proof fn lemma_in_chart_wf(g: Seq<Rule>, toks: Seq<Seq<char>>, p: int, it: EarleyItem)
    requires
        in_chart(g, toks, p, it),
    ensures
        item_wf(g, p, it),
{
    let t = choose|t: Seq<(int, EarleyItem)>| #[trigger] valid_trace(g, toks, t) && t.contains((p, it));
    let k = choose|k: int| 0 <= k && k < t.len() && t[k] == (p, it);
    assert(justified(g, toks, t, k));
}

impl EarleyItem {
    /// A fresh item for the rule at index `rule`, begun at position `start`.
    pub fn new(rule: usize, start: usize) -> (r: EarleyItem)
        ensures
            r == (EarleyItem { rule, start, current: 0 }),
    {
        EarleyItem { rule, start, current: 0 }
    }

    /// The component after the cursor, if the rule is not yet fully matched.
    pub fn next_unparsed<'a>(&self, grammar: &'a [GrammarRule]) -> (r: Option<&'a Symbol>)
        requires
            self.rule < grammar@.len(),
        ensures
            r is Some <==> next_sym(rules_model(grammar@), *self) is Some,
            r is Some ==> next_sym(rules_model(grammar@), *self) == Some(r->0@),
    {
        let comps = &grammar[self.rule].components;
        if self.current < comps.len() {
            Some(&comps[self.current])
        } else {
            None
        }
    }

    /// The item with its cursor moved one component further.
    pub fn advanced(&self) -> (r: EarleyItem)
        requires
            self.current < usize::MAX,
        ensures
            r == advance(*self),
    {
        EarleyItem { rule: self.rule, start: self.start, current: self.current + 1 }
    }
}

} // verus!
