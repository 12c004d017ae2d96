//! Earley recognition: the step operations, the construction of the chart, and
//! the acceptance test.

use vstd::prelude::*;
use crate::grammar::{GrammarRule, Sym, Symbol, rules_model, tokens_model};
use crate::chart::{EarleyItem, accepting, accepts, advance, in_chart, item_wf, lemma_complete_in_chart, lemma_in_chart_wf, lemma_predict_in_chart, lemma_scan_in_chart, lemma_start_in_chart, next_sym, valid_trace};
use crate::closure::{chart_closed, complete_ok, completes_at, following, grows, lemma_grows_contains, lemma_processed_grows, lemma_processed_last, lemma_processed_sets, lemma_set_bound, lemma_step_processed, lemma_trace_in_chart, lemma_with_item, next_set, pair_ok, predict_ok, processed, scannable, set_capacity, set_ok, set_views, with_item};

verus! {

/// Scan: advances `item` into the next position's set `next` when the symbol
/// after its cursor is a terminal that matches the token at position `i`.
fn scan(
    grammar: &[GrammarRule],
    tokens: &[String],
    i: usize,
    item: EarleyItem,
    next: &mut Vec<EarleyItem>,
)
    requires
        i < tokens@.len(),
        item_wf(rules_model(grammar@), i as int, item),
        in_chart(rules_model(grammar@), tokens_model(tokens@), i as int, item),
        set_ok(rules_model(grammar@), tokens_model(tokens@), i + 1, old(next)@),
    ensures
        set_ok(rules_model(grammar@), tokens_model(tokens@), i + 1, final(next)@),
        grows(old(next)@, final(next)@),
        scannable(rules_model(grammar@), tokens_model(tokens@), i as int, item)
            ==> final(next)@.contains(advance(item)),
        final(next)@ == if scannable(rules_model(grammar@), tokens_model(tokens@), i as int, item) {
            with_item(old(next)@, advance(item))
        } else {
            old(next)@
        },
{
    let ghost g = rules_model(grammar@);
    let ghost toks = tokens_model(tokens@);
    let len = grammar[item.rule].components.len();
    assert(g[item.rule as int] == grammar@[item.rule as int]@);
    assert(g[item.rule as int].components.len() == len);
    assert(toks[i as int] == tokens@[i as int]@);
    match item.next_unparsed(grammar) {
        Some(sym) => {
            if sym.matches(&tokens[i]) {
                proof {
                    let tm = choose|tm: Seq<char>| sym@ == Sym::Terminal(tm);
                    assert(scannable(g, toks, i as int, item));
                    lemma_scan_in_chart(g, toks, i as int, item, tm);
                    lemma_with_item(g, toks, i + 1, old(next)@, advance(item));
                }
                push_unique(next, item.advanced());
            } else {
                assert(!scannable(g, toks, i as int, item));
            }
        },
        None => {},
    }
}

/// Predict: adds to the set `cur` at position `i` a fresh item for every rule
/// named `name`, the nonterminal that `cur[j]` waits on. When `cur` already holds
/// a rule of that name fully matched from position `i` itself (it matched the
/// empty input), `cur[j]` is advanced over the nonterminal at once.
fn predict(
    grammar: &[GrammarRule],
    tokens: &[String],
    name: &String,
    i: usize,
    cur: &mut Vec<EarleyItem>,
    j: usize,
)
    requires
        j < old(cur)@.len(),
        set_ok(rules_model(grammar@), tokens_model(tokens@), i as int, old(cur)@),
        next_sym(rules_model(grammar@), old(cur)@[j as int]) == Some(Sym::Nonterminal(name@)),
    ensures
        set_ok(rules_model(grammar@), tokens_model(tokens@), i as int, final(cur)@),
        grows(old(cur)@, final(cur)@),
        predict_ok(rules_model(grammar@), i as int, final(cur)@, j as int),
        forall|kc: int|
            0 <= kc && kc < final(cur)@.len() ==> #[trigger] pair_ok(
                rules_model(grammar@),
                i as int,
                final(cur)@,
                kc,
                j as int,
            ),
{
    let ghost g = rules_model(grammar@);
    let ghost toks = tokens_model(tokens@);
    let item = cur[j];
    let mut r: usize = 0;
    while r < grammar.len()
        invariant
            g == rules_model(grammar@),
            toks == tokens_model(tokens@),
            r <= grammar@.len(),
            j < cur@.len(),
            cur@[j as int] == item,
            next_sym(g, item) == Some(Sym::Nonterminal(name@)),
            set_ok(g, toks, i as int, cur@),
            grows(old(cur)@, cur@),
            forall|r2: int|
                0 <= r2 && r2 < r && #[trigger] g[r2].name == name@ ==> cur@.contains(
                    EarleyItem { rule: r2 as usize, start: i, current: 0 },
                ),
        decreases grammar@.len() - r,
    {
        assert(g[r as int] == grammar@[r as int]@);
        if grammar[r].name.eq(name) {
            let ghost before = cur@;
            proof {
                lemma_predict_in_chart(g, toks, i as int, item, r as int);
                lemma_with_item(g, toks, i as int, cur@, EarleyItem { rule: r, start: i, current: 0 });
            }
            push_unique(cur, EarleyItem::new(r, i));
            proof {
                lemma_grows_contains(before, cur@);
            }
        }
        r = r + 1;
    }
    let n0 = cur.len();
    let mut found = false;
    let ghost mut wit: int = 0;
    let mut k: usize = 0;
    while k < n0
        invariant
            g == rules_model(grammar@),
            n0 == cur@.len(),
            k <= n0,
            set_ok(g, toks, i as int, cur@),
            found ==> 0 <= wit && wit < n0 && completes_at(g, i as int, cur@[wit], name@),
            !found ==> forall|kc: int| 0 <= kc && kc < k ==> !completes_at(g, i as int, #[trigger] cur@[kc], name@),
        decreases n0 - k,
    {
        let c = cur[k];
        assert(item_wf(g, i as int, c));
        assert(g[c.rule as int] == grammar@[c.rule as int]@);
        if c.current == grammar[c.rule].components.len() && c.start == i && grammar[c.rule].name.eq(name) {
            found = true;
            proof {
                wit = k as int;
            }
        }
        k = k + 1;
    }
    if found {
        let len = grammar[item.rule].components.len();
        let ghost before = cur@;
        proof {
            assert(g[item.rule as int] == grammar@[item.rule as int]@);
            assert(g[item.rule as int].components.len() == len);
            lemma_complete_in_chart(g, toks, i as int, cur@[wit], item);
            lemma_with_item(g, toks, i as int, cur@, advance(item));
        }
        push_unique(cur, item.advanced());
        proof {
            lemma_grows_contains(before, cur@);
        }
    }
    assert(predict_ok(g, i as int, cur@, j as int));
}

/// Complete: `cur[j]` is fully matched. Every item of its start set that waits
/// on its rule's name is advanced into the set `cur` at position `i`. When it
/// began at `i` itself, the start set is `cur`, read while it grows, so that
/// items added meanwhile are advanced too.
fn complete(
    grammar: &[GrammarRule],
    tokens: &[String],
    done: &Vec<Vec<EarleyItem>>,
    i: usize,
    cur: &mut Vec<EarleyItem>,
    j: usize,
)
    requires
        j < old(cur)@.len(),
        done@.len() == i,
        forall|p: int|
            0 <= p && p < i ==> set_ok(
                rules_model(grammar@),
                tokens_model(tokens@),
                p,
                #[trigger] set_views(done@)[p],
            ),
        set_ok(rules_model(grammar@), tokens_model(tokens@), i as int, old(cur)@),
        next_sym(rules_model(grammar@), old(cur)@[j as int]) == None::<Sym>,
    ensures
        set_ok(rules_model(grammar@), tokens_model(tokens@), i as int, final(cur)@),
        grows(old(cur)@, final(cur)@),
        complete_ok(rules_model(grammar@), set_views(done@), i as int, final(cur)@, j as int),
        forall|ka: int|
            0 <= ka && ka < final(cur)@.len() ==> #[trigger] pair_ok(
                rules_model(grammar@),
                i as int,
                final(cur)@,
                j as int,
                ka,
            ),
{
    let ghost g = rules_model(grammar@);
    let ghost toks = tokens_model(tokens@);
    let c = cur[j];
    let name = &grammar[c.rule].name;
    assert(g[c.rule as int] == grammar@[c.rule as int]@);
    if c.start < i {
        let from = &done[c.start];
        assert(set_views(done@)[c.start as int] == from@);
        assert(set_ok(g, toks, c.start as int, from@));
        let mut k: usize = 0;
        while k < from.len()
            invariant
                g == rules_model(grammar@),
                toks == tokens_model(tokens@),
                k <= from@.len(),
                set_ok(g, toks, c.start as int, from@),
                j < cur@.len(),
                cur@[j as int] == c,
                c.start < i,
                in_chart(g, toks, i as int, c),
                next_sym(g, c) == None::<Sym>,
                g[c.rule as int].name == name@,
                set_ok(g, toks, i as int, cur@),
                grows(old(cur)@, cur@),
                forall|k2: int|
                    0 <= k2 && k2 < k && next_sym(g, #[trigger] from@[k2]) == Some(Sym::Nonterminal(name@))
                        ==> cur@.contains(advance(from@[k2])),
            decreases from@.len() - k,
        {
            let a = from[k];
            assert(item_wf(g, c.start as int, a));
            let len = grammar[a.rule].components.len();
            assert(g[a.rule as int] == grammar@[a.rule as int]@);
            assert(g[a.rule as int].components.len() == len);
            match a.next_unparsed(grammar) {
                Some(Symbol::Nonterminal(x)) => {
                    if x.eq(name) {
                        let ghost before = cur@;
                        proof {
                            lemma_complete_in_chart(g, toks, i as int, c, a);
                            lemma_with_item(g, toks, i as int, cur@, advance(a));
                        }
                        push_unique(cur, a.advanced());
                        proof {
                            lemma_grows_contains(before, cur@);
                        }
                    }
                },
                _ => {},
            }
            k = k + 1;
        }
        assert(set_views(done@)[c.start as int] == from@);
        assert forall|a: EarleyItem|
            #[trigger] set_views(done@)[c.start as int].contains(a) && next_sym(g, a) == Some(
                Sym::Nonterminal(g[c.rule as int].name),
            ) implies cur@.contains(advance(a)) by {
            let k2 = choose|k2: int| 0 <= k2 && k2 < from@.len() && from@[k2] == a;
        }
    } else {
        proof {
            lemma_set_bound(g, i as int, cur@);
        }
        let mut k: usize = 0;
        while k < cur.len()
            invariant
                g == rules_model(grammar@),
                toks == tokens_model(tokens@),
                k <= cur@.len(),
                j < cur@.len(),
                cur@[j as int] == c,
                c.start == i,
                in_chart(g, toks, i as int, c),
                next_sym(g, c) == None::<Sym>,
                g[c.rule as int].name == name@,
                set_ok(g, toks, i as int, cur@),
                grows(old(cur)@, cur@),
                cur@.len() <= set_capacity(g, i as int),
                forall|k2: int|
                    0 <= k2 && k2 < k && next_sym(g, #[trigger] cur@[k2]) == Some(Sym::Nonterminal(name@))
                        ==> cur@.contains(advance(cur@[k2])),
            decreases set_capacity(g, i as int) - k,
        {
            let a = cur[k];
            assert(item_wf(g, i as int, a));
            let len = grammar[a.rule].components.len();
            assert(g[a.rule as int] == grammar@[a.rule as int]@);
            assert(g[a.rule as int].components.len() == len);
            match a.next_unparsed(grammar) {
                Some(Symbol::Nonterminal(x)) => {
                    if x.eq(name) {
                        let ghost before = cur@;
                        proof {
                            lemma_complete_in_chart(g, toks, i as int, c, a);
                            lemma_with_item(g, toks, i as int, cur@, advance(a));
                        }
                        push_unique(cur, a.advanced());
                        proof {
                            lemma_grows_contains(before, cur@);
                            lemma_set_bound(g, i as int, cur@);
                            assert forall|k2: int|
                                0 <= k2 && k2 < k && next_sym(g, #[trigger] cur@[k2]) == Some(
                                    Sym::Nonterminal(name@),
                                ) implies cur@.contains(advance(cur@[k2])) by {
                                assert(cur@[k2] == before[k2]);
                            }
                        }
                    }
                },
                _ => {},
            }
            k = k + 1;
        }
    }
}

/// Builds the Earley chart of `tokens` under `grammar`: one state set per
/// position `0..=tokens.len()`, each holding exactly the items that belong to
/// the chart there, without duplicates. With no tokens, or no rules, the chart
/// is empty.
pub fn earley_table(tokens: &[String], grammar: &[GrammarRule]) -> (chart: Vec<Vec<EarleyItem>>)
    requires
        tokens@.len() < usize::MAX,
    ensures
        tokens@.len() == 0 || grammar@.len() == 0 ==> chart@.len() == 0,
        tokens@.len() > 0 && grammar@.len() > 0 ==> chart@.len() == tokens@.len() + 1,
        forall|p: int| 0 <= p && p < chart@.len() ==> (#[trigger] chart@[p])@.no_duplicates(),
        forall|p: int, it: EarleyItem|
            0 <= p && p < chart@.len() ==> (#[trigger] chart@[p]@.contains(it) <==> in_chart(
                rules_model(grammar@),
                tokens_model(tokens@),
                p,
                it,
            )),
{
    let ghost g = rules_model(grammar@);
    let ghost toks = tokens_model(tokens@);
    let n = tokens.len();
    if n == 0 || grammar.len() == 0 {
        return Vec::new();
    }
    let mut cur: Vec<EarleyItem> = Vec::new();
    let mut r: usize = 0;
    while r < grammar.len()
        invariant
            g == rules_model(grammar@),
            toks == tokens_model(tokens@),
            grammar@.len() > 0,
            r <= grammar@.len(),
            set_ok(g, toks, 0, cur@),
            forall|r2: int|
                0 <= r2 && r2 < r && #[trigger] g[r2].name == g[0].name ==> cur@.contains(
                    EarleyItem { rule: r2 as usize, start: 0, current: 0 },
                ),
        decreases grammar@.len() - r,
    {
        assert(g[r as int] == grammar@[r as int]@);
        assert(g[0] == grammar@[0]@);
        if grammar[r].name.eq(&grammar[0].name) {
            let ghost before = cur@;
            proof {
                lemma_start_in_chart(g, toks, r as int);
                lemma_with_item(g, toks, 0, cur@, EarleyItem { rule: r, start: 0, current: 0 });
            }
            push_unique(&mut cur, EarleyItem::new(r, 0));
            proof {
                lemma_grows_contains(before, cur@);
            }
        }
        r = r + 1;
    }
    let mut done: Vec<Vec<EarleyItem>> = Vec::new();
    let mut i: usize = 0;
    while i <= n
        invariant
            g == rules_model(grammar@),
            toks == tokens_model(tokens@),
            n == toks.len(),
            n < usize::MAX,
            i <= n + 1,
            done@.len() == i,
            forall|p: int| 0 <= p && p < i ==> set_ok(g, toks, p, #[trigger] set_views(done@)[p]),
            i <= n ==> set_ok(g, toks, i as int, cur@),
            forall|r2: int|
                0 <= r2 && r2 < g.len() && #[trigger] g[r2].name == g[0].name ==> (if i == 0 {
                    cur@
                } else {
                    set_views(done@)[0]
                }).contains(EarleyItem { rule: r2 as usize, start: 0, current: 0 }),
            forall|p: int|
                0 <= p && p < i ==> #[trigger] processed(
                    g,
                    toks,
                    set_views(done@),
                    p,
                    set_views(done@)[p],
                    following(set_views(done@), p, cur@),
                    set_views(done@)[p].len() as int,
                ),
        decreases n + 1 - i,
    {
        let ghost cur0 = cur@;
        let mut next: Vec<EarleyItem> = Vec::new();
        let mut j: usize = 0;
        proof {
            lemma_set_bound(g, i as int, cur@);
        }
        while j < cur.len()
            invariant
                g == rules_model(grammar@),
                toks == tokens_model(tokens@),
                n == toks.len(),
                i <= n,
                done@.len() == i,
                forall|p: int| 0 <= p && p < i ==> set_ok(g, toks, p, #[trigger] set_views(done@)[p]),
                forall|p: int|
                    0 <= p && p < i ==> #[trigger] processed(
                        g,
                        toks,
                        set_views(done@),
                        p,
                        set_views(done@)[p],
                        following(set_views(done@), p, cur0),
                        set_views(done@)[p].len() as int,
                    ),
                forall|r2: int|
                    0 <= r2 && r2 < g.len() && #[trigger] g[r2].name == g[0].name ==> (if i == 0 {
                        cur0
                    } else {
                        set_views(done@)[0]
                    }).contains(EarleyItem { rule: r2 as usize, start: 0, current: 0 }),
                j <= cur@.len(),
                cur@.len() <= set_capacity(g, i as int),
                set_ok(g, toks, i as int, cur@),
                i < n ==> set_ok(g, toks, i + 1, next@),
                i == n ==> next@.len() == 0,
                grows(cur0, cur@),
                processed(g, toks, set_views(done@), i as int, cur@, next@, j as int),
            decreases set_capacity(g, i as int) - j,
        {
            let item = cur[j];
            let ghost cur_a = cur@;
            let ghost next_a = next@;
            assert(item_wf(g, i as int, item));
            match item.next_unparsed(grammar) {
                Some(Symbol::Terminal(_)) => {
                    if i < n {
                        scan(grammar, tokens, i, item, &mut next);
                    }
                },
                Some(Symbol::Nonterminal(x)) => {
                    predict(grammar, tokens, x, i, &mut cur, j);
                },
                None => {
                    complete(grammar, tokens, &done, i, &mut cur, j);
                },
            }
            proof {
                lemma_step_processed(g, toks, set_views(done@), i as int, cur_a, cur@, next_a, next@, j as int);
                lemma_set_bound(g, i as int, cur@);
            }
            j = j + 1;
        }
        proof {
            let d = set_views(done@);
            if i > 0 {
                let p = i - 1;
                assert(processed(g, toks, d, p, d[p], following(d, p, cur0), d[p].len() as int));
                lemma_processed_grows(g, toks, d, p, d[p], d[p], cur0, cur@, d[p].len() as int);
            }
            lemma_grows_contains(cur0, cur@);
            assert forall|p: int| 0 <= p && p < i implies #[trigger] processed(
                g,
                toks,
                d,
                p,
                d[p],
                following(d, p, cur@),
                d[p].len() as int,
            ) by {
                if p + 1 < i {
                    assert(processed(g, toks, d, p, d[p], following(d, p, cur0), d[p].len() as int));
                    assert(following(d, p, cur0) == following(d, p, cur@));
                }
            }
        }
        let ghost d = set_views(done@);
        let ghost cur_f = cur@;
        done.push(cur);
        proof {
            let d2 = set_views(done@);
            assert forall|q: int| 0 <= q && q < i implies #[trigger] d2[q] == d[q] by {}
            assert(d2[i as int] == cur_f);
            assert forall|p: int| 0 <= p && p < i + 1 implies #[trigger] processed(
                g,
                toks,
                d2,
                p,
                d2[p],
                following(d2, p, next@),
                d2[p].len() as int,
            ) by {
                assert(set_ok(g, toks, p, d2[p]));
                if p < i {
                    assert(processed(g, toks, d, p, d[p], following(d, p, cur_f), d[p].len() as int));
                    assert(following(d2, p, next@) == following(d, p, cur_f));
                    lemma_processed_sets(g, toks, d, d2, p, d2[p], following(d2, p, next@), d2[p].len() as int);
                } else {
                    lemma_processed_sets(g, toks, d, d2, p, d2[p], next@, d2[p].len() as int);
                }
            }
            assert forall|p: int| 0 <= p && p < i + 1 implies set_ok(g, toks, p, #[trigger] d2[p]) by {
                if p < i {
                    assert(d2[p] == d[p]);
                }
            }
        }
        cur = next;
        i = i + 1;
    }
    proof {
        let c = set_views(done@);
        assert forall|p: int| 0 <= p && p < c.len() implies #[trigger] processed(
            g,
            toks,
            c,
            p,
            c[p],
            next_set(c, p),
            c[p].len() as int,
        ) by {
            assert(processed(g, toks, c, p, c[p], following(c, p, cur@), c[p].len() as int));
            if p + 1 < c.len() {
                assert(following(c, p, cur@) == next_set(c, p));
            } else {
                lemma_processed_last(g, toks, c, p, c[p], cur@, next_set(c, p), c[p].len() as int);
            }
        }
        assert(chart_closed(g, toks, c));
        assert forall|p: int, it: EarleyItem| 0 <= p && p < done@.len() implies (
        #[trigger] done@[p]@.contains(it) <==> in_chart(g, toks, p, it)) by {
            assert(c[p] == done@[p]@);
            if in_chart(g, toks, p, it) {
                let tr = choose|tr: Seq<(int, EarleyItem)>| #[trigger] valid_trace(g, toks, tr) && tr.contains((p, it));
                let k = choose|k: int| 0 <= k && k < tr.len() && tr[k] == (p, it);
                lemma_trace_in_chart(g, toks, c, tr, tr.len() as int);
                assert(tr[k].0 == p);
            }
            if done@[p]@.contains(it) {
                assert(set_ok(g, toks, p, c[p]));
                let k = choose|k: int| 0 <= k && k < c[p].len() && c[p][k] == it;
            }
        }
        assert forall|p: int| 0 <= p && p < done@.len() implies (#[trigger] done@[p])@.no_duplicates() by {
            assert(c[p] == done@[p]@);
            assert(set_ok(g, toks, p, c[p]));
        }
    }
    done
}

/// Whether `grammar` derives `tokens` from its start symbol, the name of its
/// first rule: the last chart set holds a fully matched start rule begun at
/// position 0. An empty token sequence, or an empty grammar, is rejected.
pub fn earley_recognize(tokens: &[String], grammar: &[GrammarRule]) -> (r: bool)
    requires
        tokens@.len() < usize::MAX,
    ensures
        r == accepts(rules_model(grammar@), tokens_model(tokens@)),
{
    let ghost g = rules_model(grammar@);
    let ghost toks = tokens_model(tokens@);
    let table = earley_table(tokens, grammar);
    if table.len() == 0 {
        return false;
    }
    let n = table.len() - 1;
    let last = &table[n];
    let mut k: usize = 0;
    while k < last.len()
        invariant
            g == rules_model(grammar@),
            toks == tokens_model(tokens@),
            toks.len() > 0,
            g.len() > 0,
            n == toks.len(),
            last@ == table@[n as int]@,
            forall|it: EarleyItem| #[trigger] last@.contains(it) <==> in_chart(g, toks, n as int, it),
            forall|k2: int| 0 <= k2 && k2 < k ==> !accepting(g, #[trigger] last@[k2]),
        decreases last@.len() - k,
    {
        let it = last[k];
        assert(last@.contains(it));
        proof {
            lemma_in_chart_wf(g, toks, n as int, it);
        }
        assert(g[it.rule as int] == grammar@[it.rule as int]@);
        assert(g[0] == grammar@[0]@);
        if it.start == 0 && it.current == grammar[it.rule].components.len() && grammar[it.rule].name.eq(
            &grammar[0].name,
        ) {
            return true;
        }
        k = k + 1;
    }
    proof {
        assert forall|it: EarleyItem| #[trigger] in_chart(g, toks, n as int, it) implies !accepting(g, it) by {
            assert(last@.contains(it));
            let k2 = choose|k2: int| 0 <= k2 && k2 < last@.len() && last@[k2] == it;
        }
    }
    false
}

/// Appends `item` to `set` unless the set already holds it.
pub fn push_unique(set: &mut Vec<EarleyItem>, item: EarleyItem)
    ensures
        final(set)@ == with_item(old(set)@, item),
{
    let mut k: usize = 0;
    while k < set.len()
        invariant
            k <= set@.len(),
            forall|m: int| 0 <= m && m < k ==> set@[m] != item,
        decreases set@.len() - k,
    {
        if set[k] == item {
            return;
        }
        k = k + 1;
    }
    set.push(item);
}

} // verus!
