//! Closure of state sets under the step operations, and the bound on their size.
//! A chart closed under all three steps holds every item that a trace derives.

use vstd::prelude::*;
use crate::grammar::{Rule, Sym, terminal_matches};
use crate::chart::{EarleyItem, advance, in_chart, item_wf, justified, next_sym, valid_trace};

verus! {

/// The length of the longest rule of the grammar.
pub open spec fn max_len(g: Seq<Rule>) -> nat
    decreases g.len(),
{
    if g.len() == 0 {
        0
    } else {
        let m = max_len(g.drop_last());
        if g.last().components.len() > m {
            g.last().components.len()
        } else {
            m
        }
    }
}

/// How many distinct well-formed items a state set at position `p` can hold.
pub open spec fn set_capacity(g: Seq<Rule>, p: int) -> int {
    g.len() * (p + 1) * (max_len(g) + 1)
}

/// No rule is longer than the longest one.
pub(crate) proof fn lemma_max_len(g: Seq<Rule>, r: int)
    requires
        0 <= r && r < g.len(),
    ensures
        g[r].components.len() <= max_len(g),
    decreases g.len(),
{
    if r < g.len() - 1 {
        lemma_max_len(g.drop_last(), r);
        assert(g.drop_last()[r] == g[r]);
    }
}

/// A state set without duplicates, of well-formed items, fits its capacity.
pub(crate) proof fn lemma_set_bound(g: Seq<Rule>, p: int, s: Seq<EarleyItem>)
    requires
        0 <= p,
        s.no_duplicates(),
        forall|k: int| 0 <= k && k < s.len() ==> item_wf(g, p, #[trigger] s[k]),
    ensures
        s.len() <= set_capacity(g, p),
{
    let m1 = max_len(g) + 1;
    let p1 = p + 1;
    let f = |it: EarleyItem| (it.rule * p1 + it.start) * m1 + it.current;
    let st = s.to_set();
    s.unique_seq_to_set();
    assert forall|it: EarleyItem| st.contains(it) implies 0 <= #[trigger] f(it) < set_capacity(g, p)
        && it.start < p1 && it.current < m1 by {
        let k = choose|k: int| 0 <= k && k < s.len() && s[k] == it;
        assert(item_wf(g, p, s[k]));
        lemma_max_len(g, it.rule as int);
        let r = it.rule as int;
        let a = it.start as int;
        let c = it.current as int;
        let gl = g.len() as int;
        assert(0 <= (r * p1 + a) * m1 + c < gl * p1 * m1) by (nonlinear_arith)
            requires
                0 <= r && r < gl,
                0 <= a && a < p1,
                0 <= c && c < m1,
        ;
    }
    assert forall|x: EarleyItem, y: EarleyItem|
        st.contains(x) && st.contains(y) && #[trigger] f(x) == #[trigger] f(y) implies x == y by {
        let (rx, ax, cx) = (x.rule as int, x.start as int, x.current as int);
        let (ry, ay, cy) = (y.rule as int, y.start as int, y.current as int);
        assert(rx == ry && ax == ay && cx == cy) by (nonlinear_arith)
            requires
                (rx * p1 + ax) * m1 + cx == (ry * p1 + ay) * m1 + cy,
                0 <= ax && ax < p1,
                0 <= ay && ay < p1,
                0 <= cx && cx < m1,
                0 <= cy && cy < m1,
                0 <= rx,
                0 <= ry,
        ;
    }
    let range = vstd::set_lib::set_int_range(0, set_capacity(g, p));
    let gl = g.len() as int;
    assert(gl * p1 * m1 >= 0) by (nonlinear_arith)
        requires
            p1 >= 1,
            m1 >= 1,
            gl >= 0,
    ;
    vstd::set_lib::lemma_int_range(0, set_capacity(g, p));
    assert(st.map(f).subset_of(range));
    vstd::set_lib::lemma_len_subset(st.map(f), range);
    vstd::set_lib::lemma_map_size(st, st.map(f), f);
}

/// `s2` extends `s`: every position of `s` holds the same item in `s2`.
pub open spec fn grows(s: Seq<EarleyItem>, s2: Seq<EarleyItem>) -> bool {
    s.len() <= s2.len() && forall|k: int| 0 <= k && k < s.len() ==> #[trigger] s2[k] == s[k]
}

/// `s` with `it` appended, unless it already holds `it`.
pub open spec fn with_item(s: Seq<EarleyItem>, it: EarleyItem) -> Seq<EarleyItem> {
    if s.contains(it) {
        s
    } else {
        s.push(it)
    }
}

/// A state set at position `p`: no duplicates, and only well-formed items that
/// belong to the chart there.
pub open spec fn set_ok(g: Seq<Rule>, toks: Seq<Seq<char>>, p: int, s: Seq<EarleyItem>) -> bool {
    &&& s.no_duplicates()
    &&& forall|k: int|
        0 <= k && k < s.len() ==> item_wf(g, p, #[trigger] s[k]) && in_chart(g, toks, p, s[k])
}

/// The item `s[k]` at position `p` has had its predictions added to `s`.
pub open spec fn predict_ok(g: Seq<Rule>, p: int, s: Seq<EarleyItem>, k: int) -> bool {
    forall|r: int|
        0 <= r && r < g.len() && next_sym(g, s[k]) == Some(Sym::Nonterminal(#[trigger] g[r].name))
            ==> s.contains(EarleyItem { rule: r as usize, start: p as usize, current: 0 })
}

/// The item waits on a terminal that matches the token at position `p`.
pub open spec fn scannable(g: Seq<Rule>, toks: Seq<Seq<char>>, p: int, it: EarleyItem) -> bool {
    match next_sym(g, it) {
        Some(Sym::Terminal(t)) => p < toks.len() && terminal_matches(t, toks[p]),
        _ => false,
    }
}

/// The item is fully matched, begun at position `p`, and its rule is named `name`.
pub open spec fn completes_at(g: Seq<Rule>, p: int, it: EarleyItem, name: Seq<char>) -> bool {
    next_sym(g, it) == None::<Sym> && it.start == p && g[it.rule as int].name == name
}

/// The models of a sequence of state sets.
pub open spec fn set_views(d: Seq<Vec<EarleyItem>>) -> Seq<Seq<EarleyItem>> {
    d.map_values(|v: Vec<EarleyItem>| v@)
}

/// The item `s[k]` at position `p` has been scanned into `next`.
pub open spec fn scan_ok(
    g: Seq<Rule>,
    toks: Seq<Seq<char>>,
    p: int,
    s: Seq<EarleyItem>,
    k: int,
    next: Seq<EarleyItem>,
) -> bool {
    scannable(g, toks, p, s[k]) ==> next.contains(advance(s[k]))
}

/// The item `s[k]` at position `p`, if complete and begun at an earlier position,
/// has advanced into `s` every item of its start set that waits on its rule.
pub open spec fn complete_ok(
    g: Seq<Rule>,
    sets: Seq<Seq<EarleyItem>>,
    p: int,
    s: Seq<EarleyItem>,
    k: int,
) -> bool {
    next_sym(g, s[k]) == None::<Sym> && s[k].start < p ==> forall|a: EarleyItem|
        #[trigger] sets[s[k].start as int].contains(a) && next_sym(g, a) == Some(
            Sym::Nonterminal(g[s[k].rule as int].name),
        ) ==> s.contains(advance(a))
}

/// For the complete item `s[kc]` begun at position `p` itself, the item `s[ka]`
/// that waits on its rule has been advanced into `s`.
pub open spec fn pair_ok(g: Seq<Rule>, p: int, s: Seq<EarleyItem>, kc: int, ka: int) -> bool {
    next_sym(g, s[kc]) == None::<Sym> && s[kc].start == p && next_sym(g, s[ka]) == Some(
        Sym::Nonterminal(g[s[kc].rule as int].name),
    ) ==> s.contains(advance(s[ka]))
}

/// The first `j` items of the set `s` at position `p` have been processed: the
/// chart is closed under predict, scan and complete for them.
pub open spec fn processed(
    g: Seq<Rule>,
    toks: Seq<Seq<char>>,
    sets: Seq<Seq<EarleyItem>>,
    p: int,
    s: Seq<EarleyItem>,
    next: Seq<EarleyItem>,
    j: int,
) -> bool {
    &&& forall|k: int|
        0 <= k && k < j ==> #[trigger] predict_ok(g, p, s, k) && scan_ok(g, toks, p, s, k, next)
            && complete_ok(g, sets, p, s, k)
    &&& forall|kc: int, ka: int| 0 <= kc && kc < j && 0 <= ka && ka < j ==> #[trigger] pair_ok(g, p, s, kc, ka)
}

/// A set that grows keeps every item it held.
pub(crate) proof fn lemma_grows_contains(s: Seq<EarleyItem>, s2: Seq<EarleyItem>)
    requires
        grows(s, s2),
    ensures
        forall|x: EarleyItem| s.contains(x) ==> #[trigger] s2.contains(x),
{
    assert forall|x: EarleyItem| s.contains(x) implies #[trigger] s2.contains(x) by {
        let k = choose|k: int| 0 <= k && k < s.len() && s[k] == x;
        assert(s2[k] == x);
    }
}

/// Inserting an item of the chart keeps a state set sound and free of duplicates.
pub(crate) proof fn lemma_with_item(g: Seq<Rule>, toks: Seq<Seq<char>>, p: int, s: Seq<EarleyItem>, it: EarleyItem)
    requires
        set_ok(g, toks, p, s),
        item_wf(g, p, it),
        in_chart(g, toks, p, it),
    ensures
        set_ok(g, toks, p, with_item(s, it)),
        grows(s, with_item(s, it)),
        with_item(s, it).contains(it),
{
    lemma_push_unique_distinct(s, it);
    if !s.contains(it) {
        assert(s.push(it)[s.len() as int] == it);
    }
}

/// What was processed stays so while the current and the next set grow.
pub(crate) proof fn lemma_processed_grows(
    g: Seq<Rule>,
    toks: Seq<Seq<char>>,
    sets: Seq<Seq<EarleyItem>>,
    p: int,
    s: Seq<EarleyItem>,
    s2: Seq<EarleyItem>,
    next: Seq<EarleyItem>,
    next2: Seq<EarleyItem>,
    j: int,
)
    requires
        processed(g, toks, sets, p, s, next, j),
        grows(s, s2),
        grows(next, next2),
        0 <= j <= s.len(),
    ensures
        processed(g, toks, sets, p, s2, next2, j),
{
    lemma_grows_contains(s, s2);
    lemma_grows_contains(next, next2);
    assert forall|k: int| 0 <= k && k < j implies #[trigger] predict_ok(g, p, s2, k) && scan_ok(
        g,
        toks,
        p,
        s2,
        k,
        next2,
    ) && complete_ok(g, sets, p, s2, k) by {
        assert(s2[k] == s[k]);
        assert(predict_ok(g, p, s, k) && scan_ok(g, toks, p, s, k, next) && complete_ok(g, sets, p, s, k));
    }
    assert forall|kc: int, ka: int| 0 <= kc && kc < j && 0 <= ka && ka < j implies #[trigger] pair_ok(
        g,
        p,
        s2,
        kc,
        ka,
    ) by {
        assert(s2[kc] == s[kc] && s2[ka] == s[ka]);
        assert(pair_ok(g, p, s, kc, ka));
    }
}

/// The set after position `p` in `c`, or `last` after the last one.
pub open spec fn following(c: Seq<Seq<EarleyItem>>, p: int, last: Seq<EarleyItem>) -> Seq<EarleyItem> {
    if p + 1 < c.len() {
        c[p + 1]
    } else {
        last
    }
}

/// The set after position `p`, or the empty set after the last one.
pub open spec fn next_set(c: Seq<Seq<EarleyItem>>, p: int) -> Seq<EarleyItem> {
    if p + 1 < c.len() {
        c[p + 1]
    } else {
        Seq::empty()
    }
}

/// The chart has one set per position, holds the start items, and every set is
/// closed under predict, scan and complete.
pub open spec fn chart_closed(g: Seq<Rule>, toks: Seq<Seq<char>>, c: Seq<Seq<EarleyItem>>) -> bool {
    &&& c.len() == toks.len() + 1
    &&& forall|r: int|
        0 <= r && r < g.len() && #[trigger] g[r].name == g[0].name ==> c[0].contains(
            EarleyItem { rule: r as usize, start: 0, current: 0 },
        )
    &&& forall|p: int|
        0 <= p && p < c.len() ==> #[trigger] processed(g, toks, c, p, c[p], next_set(c, p), c[p].len() as int)
}

/// In a closed chart, every fact of a valid trace stands in the chart.
pub(crate) proof fn lemma_trace_in_chart(
    g: Seq<Rule>,
    toks: Seq<Seq<char>>,
    c: Seq<Seq<EarleyItem>>,
    tr: Seq<(int, EarleyItem)>,
    m: int,
)
    requires
        chart_closed(g, toks, c),
        valid_trace(g, toks, tr),
        0 <= m <= tr.len(),
    ensures
        forall|k: int|
            0 <= k && k < m ==> 0 <= (#[trigger] tr[k]).0 <= toks.len() && c[tr[k].0].contains(tr[k].1),
    decreases m,
{
    if m > 0 {
        lemma_trace_in_chart(g, toks, c, tr, m - 1);
        let k = m - 1;
        assert(justified(g, toks, tr, k));
        let p = tr[k].0;
        let it = tr[k].1;
        if p == 0 && it.start == 0 && it.current == 0 && g[it.rule as int].name == g[0].name {
            assert(c[0].contains(EarleyItem { rule: it.rule as int as usize, start: 0, current: 0 }));
        } else if it.start == p && it.current == 0 && exists|a: int|
            0 <= a && a < k && #[trigger] tr[a].0 == p && next_sym(g, tr[a].1) == Some(
                Sym::Nonterminal(g[it.rule as int].name),
            ) {
            let a = choose|a: int|
                0 <= a && a < k && #[trigger] tr[a].0 == p && next_sym(g, tr[a].1) == Some(
                    Sym::Nonterminal(g[it.rule as int].name),
                );
            let s = c[p];
            let ka = choose|ka: int| 0 <= ka && ka < s.len() && s[ka] == tr[a].1;
            assert(processed(g, toks, c, p, s, next_set(c, p), s.len() as int));
            assert(predict_ok(g, p, s, ka));
            assert(s.contains(EarleyItem { rule: it.rule as int as usize, start: p as usize, current: 0 }));
        } else if 0 < p && p <= toks.len() && exists|a: int|
            0 <= a && a < k && #[trigger] tr[a].0 == p - 1 && advance(tr[a].1) == it && (
            match next_sym(g, tr[a].1) {
                Some(Sym::Terminal(t)) => terminal_matches(t, toks[p - 1]),
                _ => false,
            }) {
            let a = choose|a: int|
                0 <= a && a < k && #[trigger] tr[a].0 == p - 1 && advance(tr[a].1) == it && (
                match next_sym(g, tr[a].1) {
                    Some(Sym::Terminal(t)) => terminal_matches(t, toks[p - 1]),
                    _ => false,
                });
            let s = c[p - 1];
            let ka = choose|ka: int| 0 <= ka && ka < s.len() && s[ka] == tr[a].1;
            assert(processed(g, toks, c, p - 1, s, next_set(c, p - 1), s.len() as int));
            assert(predict_ok(g, p - 1, s, ka));
            assert(scan_ok(g, toks, p - 1, s, ka, next_set(c, p - 1)));
            assert(scannable(g, toks, p - 1, s[ka]));
        } else {
            let (a, b) = choose|a: int, b: int|
                0 <= a && a < k && 0 <= b && b < k && #[trigger] tr[a].0 == p && next_sym(g, tr[a].1)
                    == None::<Sym> && #[trigger] tr[b].0 == tr[a].1.start && advance(tr[b].1) == it
                    && next_sym(g, tr[b].1) == Some(Sym::Nonterminal(g[tr[a].1.rule as int].name));
            assert(justified(g, toks, tr, a));
            let st = tr[a].1.start as int;
            let s = c[p];
            let kc = choose|kc: int| 0 <= kc && kc < s.len() && s[kc] == tr[a].1;
            assert(processed(g, toks, c, p, s, next_set(c, p), s.len() as int));
            assert(predict_ok(g, p, s, kc));
            if st < p {
                assert(complete_ok(g, c, p, s, kc));
                assert(c[st].contains(tr[b].1));
            } else {
                let ka = choose|ka: int| 0 <= ka && ka < s.len() && s[ka] == tr[b].1;
                assert(pair_ok(g, p, s, kc, ka));
            }
        }
    }
}

/// Processing one more item of the set at position `p` keeps the processed prefix
/// closed, given what the step operation on it ensures.
pub(crate) proof fn lemma_step_processed(
    g: Seq<Rule>,
    toks: Seq<Seq<char>>,
    sets: Seq<Seq<EarleyItem>>,
    p: int,
    cur_a: Seq<EarleyItem>,
    cur_b: Seq<EarleyItem>,
    next_a: Seq<EarleyItem>,
    next_b: Seq<EarleyItem>,
    j: int,
)
    requires
        0 <= j && j < cur_a.len(),
        processed(g, toks, sets, p, cur_a, next_a, j),
        grows(cur_a, cur_b),
        grows(next_a, next_b),
        predict_ok(g, p, cur_b, j),
        scan_ok(g, toks, p, cur_b, j, next_b),
        complete_ok(g, sets, p, cur_b, j),
        forall|kc: int| 0 <= kc && kc < cur_b.len() ==> #[trigger] pair_ok(g, p, cur_b, kc, j),
        forall|ka: int| 0 <= ka && ka < cur_b.len() ==> #[trigger] pair_ok(g, p, cur_b, j, ka),
    ensures
        processed(g, toks, sets, p, cur_b, next_b, j + 1),
{
    lemma_processed_grows(g, toks, sets, p, cur_a, cur_b, next_a, next_b, j);
    assert forall|kc: int, ka: int| 0 <= kc && kc < j + 1 && 0 <= ka && ka < j + 1 implies #[trigger] pair_ok(
        g,
        p,
        cur_b,
        kc,
        ka,
    ) by {}
}

/// What was processed against the earlier sets `d` stays so against `d2`,
/// which agrees with `d` before position `p`.
pub(crate) proof fn lemma_processed_sets(
    g: Seq<Rule>,
    toks: Seq<Seq<char>>,
    d: Seq<Seq<EarleyItem>>,
    d2: Seq<Seq<EarleyItem>>,
    p: int,
    s: Seq<EarleyItem>,
    nx: Seq<EarleyItem>,
    j: int,
)
    requires
        processed(g, toks, d, p, s, nx, j),
        0 <= p,
        p <= d.len(),
        p <= d2.len(),
        j <= s.len(),
        forall|q: int| 0 <= q && q < p ==> #[trigger] d2[q] == d[q],
        forall|k: int| 0 <= k && k < s.len() ==> item_wf(g, p, #[trigger] s[k]),
    ensures
        processed(g, toks, d2, p, s, nx, j),
{
    assert forall|k: int| 0 <= k && k < j implies #[trigger] predict_ok(g, p, s, k) && scan_ok(
        g,
        toks,
        p,
        s,
        k,
        nx,
    ) && complete_ok(g, d2, p, s, k) by {
        assert(predict_ok(g, p, s, k));
        assert(item_wf(g, p, s[k]));
        if s[k].start < p {
            assert(d2[s[k].start as int] == d[s[k].start as int]);
        }
    }
}

/// At the last position nothing is scanned, so the set after it does not matter.
pub(crate) proof fn lemma_processed_last(
    g: Seq<Rule>,
    toks: Seq<Seq<char>>,
    sets: Seq<Seq<EarleyItem>>,
    p: int,
    s: Seq<EarleyItem>,
    nx: Seq<EarleyItem>,
    nx2: Seq<EarleyItem>,
    j: int,
)
    requires
        p >= toks.len(),
        processed(g, toks, sets, p, s, nx, j),
    ensures
        processed(g, toks, sets, p, s, nx2, j),
{
    assert forall|k: int| 0 <= k && k < j implies #[trigger] predict_ok(g, p, s, k) && scan_ok(
        g,
        toks,
        p,
        s,
        k,
        nx2,
    ) && complete_ok(g, sets, p, s, k) by {
        assert(predict_ok(g, p, s, k));
    }
}

/// Inserting an item into a state set by `push_unique` never creates a
/// duplicate: a set without duplicates stays without them, and then holds the item.
pub proof fn lemma_push_unique_distinct(s: Seq<EarleyItem>, it: EarleyItem)
    requires
        s.no_duplicates(),
    ensures
        with_item(s, it).no_duplicates(),
        with_item(s, it).contains(it),
{
    if !s.contains(it) {
        let s2 = s.push(it);
        assert(s2[s.len() as int] == it);
        assert forall|a: int, b: int|
            0 <= a && a < s2.len() && 0 <= b && b < s2.len() && a != b implies s2[a] != s2[b] by {
            if a == s.len() {
                assert(s[b] == s2[b]);
            } else if b == s.len() {
                assert(s[a] == s2[a]);
            }
        }
    }
}

} // verus!
