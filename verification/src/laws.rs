//! Proved laws of the model: what insertion and split preserve.

use vstd::prelude::*;

use crate::model::{
    Entry, LevelModel, Price, entries_at, entries_size, entries_split, has_price, levels_nonempty,
    levels_size, levels_sorted, levels_split, prices_of, spec_add, spec_replace, wf_levels,
};

verus! {

/// On well-formed content the price keys are strictly ascending, hence free
/// of duplicates.
pub proof fn lemma_prices_strictly_ascending(s: Seq<LevelModel>)
    requires
        wf_levels(s),
    ensures
        forall|i: int, j: int|
            0 <= i < j < prices_of(s).len() ==> prices_of(s)[i] < prices_of(s)[j],
{
}

/// Inserting an entry adds its price to the key set and nothing else.
pub proof fn lemma_add_prices(s: Seq<LevelModel>, price: Price, e: Entry, q: Price)
    ensures
        has_price(spec_add(s, price, e), q) <==> (has_price(s, q) || q == price),
    decreases s.len(),
{
    let r = spec_add(s, price, e);
    if s.len() == 0 {
        if has_price(r, q) {
            let i = choose|i: int| 0 <= i < r.len() && r[i].0 == q;
            assert(i == 0);
        }
        if q == price {
            assert(r[0].0 == price);
        }
    } else if price < s[0].0 {
        if has_price(r, q) {
            let i = choose|i: int| 0 <= i < r.len() && r[i].0 == q;
            if i > 0 {
                assert(s[i - 1].0 == q);
            }
        }
        if has_price(s, q) {
            let i = choose|i: int| 0 <= i < s.len() && s[i].0 == q;
            assert(r[i + 1].0 == q);
        }
        if q == price {
            assert(r[0].0 == price);
        }
    } else if price == s[0].0 {
        if has_price(r, q) {
            let i = choose|i: int| 0 <= i < r.len() && r[i].0 == q;
            if i == 0 {
                assert(s[0].0 == q);
            } else {
                assert(s[i].0 == q);
            }
        }
        if has_price(s, q) {
            let i = choose|i: int| 0 <= i < s.len() && s[i].0 == q;
            assert(r[i].0 == q);
        }
        if q == price {
            assert(r[0].0 == price);
        }
    } else {
        let t = s.drop_first();
        let r2 = spec_add(t, price, e);
        lemma_add_prices(t, price, e, q);
        if has_price(r, q) {
            let i = choose|i: int| 0 <= i < r.len() && r[i].0 == q;
            if i == 0 {
                assert(s[0].0 == q);
            } else {
                assert(r2[i - 1].0 == q);
                assert(has_price(r2, q));
                if has_price(t, q) {
                    let j = choose|j: int| 0 <= j < t.len() && t[j].0 == q;
                    assert(s[j + 1].0 == q);
                }
            }
        }
        if has_price(s, q) {
            let i = choose|i: int| 0 <= i < s.len() && s[i].0 == q;
            if i == 0 {
                assert(r[0].0 == q);
            } else {
                assert(t[i - 1].0 == q);
                assert(has_price(t, q));
                let j = choose|j: int| 0 <= j < r2.len() && r2[j].0 == q;
                assert(r[j + 1].0 == q);
            }
        }
        if q == price {
            assert(has_price(r2, q));
            let j = choose|j: int| 0 <= j < r2.len() && r2[j].0 == q;
            assert(r[j + 1].0 == q);
        }
    }
}

/// Sort invariant: insertion keeps the levels strictly ascending by price
/// with no duplicates and every level non-empty; together with
/// `lemma_add_prices`, the price keys after any sequence of insertions are
/// exactly the sorted, deduplicated set of the prices inserted.
pub proof fn lemma_add_wf(s: Seq<LevelModel>, price: Price, e: Entry)
    requires
        wf_levels(s),
    ensures
        wf_levels(spec_add(s, price, e)),
    decreases s.len(),
{
    let r = spec_add(s, price, e);
    if s.len() == 0 {
        assert(levels_sorted(r));
        assert(levels_nonempty(r));
    } else if price < s[0].0 {
        assert forall|i: int, j: int| 0 <= i < j < r.len() implies r[i].0 < r[j].0 by {
            if i == 0 {
                assert(r[j] == s[j - 1]);
                if j > 1 {
                    assert(s[0].0 < s[j - 1].0);
                }
            } else {
                assert(r[i] == s[i - 1] && r[j] == s[j - 1]);
            }
        }
        assert(levels_nonempty(r)) by {
            assert forall|i: int| 0 <= i < r.len() implies r[i].1.len() > 0 by {
                if i > 0 {
                    assert(r[i] == s[i - 1]);
                }
            }
        }
    } else if price == s[0].0 {
        assert forall|i: int, j: int| 0 <= i < j < r.len() implies r[i].0 < r[j].0 by {
            assert(r[j] == s[j]);
            if i > 0 {
                assert(r[i] == s[i]);
            }
        }
        assert(levels_nonempty(r)) by {
            assert forall|i: int| 0 <= i < r.len() implies r[i].1.len() > 0 by {
                if i > 0 {
                    assert(r[i] == s[i]);
                }
            }
        }
    } else {
        let t = s.drop_first();
        let r2 = spec_add(t, price, e);
        assert(wf_levels(t)) by {
            assert forall|i: int| 0 <= i < t.len() implies t[i].1.len() > 0 by {
                assert(t[i] == s[i + 1]);
            }
        }
        lemma_add_wf(t, price, e);
        assert forall|i: int| 0 <= i < r2.len() implies r2[i].0 > s[0].0 by {
            lemma_add_prices(t, price, e, r2[i].0);
            assert(has_price(r2, r2[i].0));
            if has_price(t, r2[i].0) {
                let j = choose|j: int| 0 <= j < t.len() && t[j].0 == r2[i].0;
                assert(t[j] == s[j + 1]);
            }
        }
        assert forall|i: int, j: int| 0 <= i < j < r.len() implies r[i].0 < r[j].0 by {
            assert(r[j] == r2[j - 1]);
            if i > 0 {
                assert(r[i] == r2[i - 1]);
            }
        }
        assert(levels_nonempty(r)) by {
            assert forall|i: int| 0 <= i < r.len() implies r[i].1.len() > 0 by {
                if i > 0 {
                    assert(r[i] == r2[i - 1]);
                }
            }
        }
    }
}

/// Replacing a level's entries adds its price to the key set and nothing
/// else.
pub proof fn lemma_replace_prices(s: Seq<LevelModel>, price: Price, es: Seq<Entry>, q: Price)
    ensures
        has_price(spec_replace(s, price, es), q) <==> (has_price(s, q) || q == price),
    decreases s.len(),
{
    let r = spec_replace(s, price, es);
    if s.len() == 0 {
        if has_price(r, q) {
            let i = choose|i: int| 0 <= i < r.len() && r[i].0 == q;
            assert(i == 0);
        }
        if q == price {
            assert(r[0].0 == price);
        }
    } else if price < s[0].0 {
        if has_price(r, q) {
            let i = choose|i: int| 0 <= i < r.len() && r[i].0 == q;
            if i > 0 {
                assert(s[i - 1].0 == q);
            }
        }
        if has_price(s, q) {
            let i = choose|i: int| 0 <= i < s.len() && s[i].0 == q;
            assert(r[i + 1].0 == q);
        }
        if q == price {
            assert(r[0].0 == price);
        }
    } else if price == s[0].0 {
        if has_price(r, q) {
            let i = choose|i: int| 0 <= i < r.len() && r[i].0 == q;
            if i == 0 {
                assert(s[0].0 == q);
            } else {
                assert(s[i].0 == q);
            }
        }
        if has_price(s, q) {
            let i = choose|i: int| 0 <= i < s.len() && s[i].0 == q;
            if i == 0 {
                assert(r[0].0 == q);
            } else {
                assert(r[i].0 == q);
            }
        }
        if q == price {
            assert(r[0].0 == price);
        }
    } else {
        let t = s.drop_first();
        let r2 = spec_replace(t, price, es);
        lemma_replace_prices(t, price, es, q);
        if has_price(r, q) {
            let i = choose|i: int| 0 <= i < r.len() && r[i].0 == q;
            if i == 0 {
                assert(s[0].0 == q);
            } else {
                assert(r2[i - 1].0 == q);
                assert(has_price(r2, q));
                if has_price(t, q) {
                    let j = choose|j: int| 0 <= j < t.len() && t[j].0 == q;
                    assert(s[j + 1].0 == q);
                }
            }
        }
        if has_price(s, q) {
            let i = choose|i: int| 0 <= i < s.len() && s[i].0 == q;
            if i == 0 {
                assert(r[0].0 == q);
            } else {
                assert(t[i - 1].0 == q);
                assert(has_price(t, q));
                let j = choose|j: int| 0 <= j < r2.len() && r2[j].0 == q;
                assert(r[j + 1].0 == q);
            }
        }
        if q == price {
            assert(has_price(r2, q));
            let j = choose|j: int| 0 <= j < r2.len() && r2[j].0 == q;
            assert(r[j + 1].0 == q);
        }
    }
}

/// Replacement with a non-empty entry sequence keeps the levels strictly
/// ascending by price and every level non-empty.
pub proof fn lemma_replace_wf(s: Seq<LevelModel>, price: Price, es: Seq<Entry>)
    requires
        wf_levels(s),
        es.len() > 0,
    ensures
        wf_levels(spec_replace(s, price, es)),
    decreases s.len(),
{
    let r = spec_replace(s, price, es);
    if s.len() == 0 {
        assert(levels_sorted(r));
        assert(levels_nonempty(r));
    } else if price < s[0].0 {
        assert forall|i: int, j: int| 0 <= i < j < r.len() implies r[i].0 < r[j].0 by {
            if i == 0 {
                assert(r[j] == s[j - 1]);
                if j > 1 {
                    assert(s[0].0 < s[j - 1].0);
                }
            } else {
                assert(r[i] == s[i - 1] && r[j] == s[j - 1]);
            }
        }
        assert(levels_nonempty(r)) by {
            assert forall|i: int| 0 <= i < r.len() implies r[i].1.len() > 0 by {
                if i > 0 {
                    assert(r[i] == s[i - 1]);
                }
            }
        }
    } else if price == s[0].0 {
        assert forall|i: int, j: int| 0 <= i < j < r.len() implies r[i].0 < r[j].0 by {
            assert(r[j] == s[j]);
            if i > 0 {
                assert(r[i] == s[i]);
            }
        }
        assert(levels_nonempty(r)) by {
            assert forall|i: int| 0 <= i < r.len() implies r[i].1.len() > 0 by {
                if i > 0 {
                    assert(r[i] == s[i]);
                }
            }
        }
    } else {
        let t = s.drop_first();
        let r2 = spec_replace(t, price, es);
        assert(wf_levels(t)) by {
            assert forall|i: int| 0 <= i < t.len() implies t[i].1.len() > 0 by {
                assert(t[i] == s[i + 1]);
            }
        }
        lemma_replace_wf(t, price, es);
        assert forall|i: int| 0 <= i < r2.len() implies r2[i].0 > s[0].0 by {
            lemma_replace_prices(t, price, es, r2[i].0);
            assert(has_price(r2, r2[i].0));
            if has_price(t, r2[i].0) {
                let j = choose|j: int| 0 <= j < t.len() && t[j].0 == r2[i].0;
                assert(t[j] == s[j + 1]);
            }
        }
        assert forall|i: int, j: int| 0 <= i < j < r.len() implies r[i].0 < r[j].0 by {
            assert(r[j] == r2[j - 1]);
            if i > 0 {
                assert(r[i] == r2[i - 1]);
            }
        }
        assert(levels_nonempty(r)) by {
            assert forall|i: int| 0 <= i < r.len() implies r[i].1.len() > 0 by {
                if i > 0 {
                    assert(r[i] == r2[i - 1]);
                }
            }
        }
    }
}

/// Replacing at a price already present rewrites exactly that level.
pub proof fn lemma_spec_replace_found(s: Seq<LevelModel>, price: Price, es: Seq<Entry>, idx: int)
    requires
        0 <= idx < s.len(),
        forall|i: int| 0 <= i < idx ==> s[i].0 < price,
        s[idx].0 == price,
    ensures
        spec_replace(s, price, es) == s.update(idx, (price, es)),
    decreases s.len(),
{
    if idx == 0 {
        assert(spec_replace(s, price, es) =~= s.update(0, (price, es)));
    } else {
        let t = s.drop_first();
        assert(s[0].0 < price);
        assert forall|i: int| 0 <= i < idx - 1 implies t[i].0 < price by {
            assert(t[i] == s[i + 1]);
        }
        assert(t[idx - 1] == s[idx]);
        lemma_spec_replace_found(t, price, es, idx - 1);
        assert(spec_replace(s, price, es) =~= s.update(idx, (price, es)));
    }
}

/// Replacing at an absent price places a fresh level at the sorted position.
pub proof fn lemma_spec_replace_absent(s: Seq<LevelModel>, price: Price, es: Seq<Entry>, idx: int)
    requires
        0 <= idx <= s.len(),
        forall|i: int| 0 <= i < idx ==> s[i].0 < price,
        forall|i: int| idx <= i < s.len() ==> s[i].0 > price,
    ensures
        spec_replace(s, price, es) == s.insert(idx, (price, es)),
    decreases s.len(),
{
    if s.len() == 0 {
        assert(spec_replace(s, price, es) =~= s.insert(0, (price, es)));
    } else if idx == 0 {
        assert(s[0].0 > price);
        assert(spec_replace(s, price, es) =~= s.insert(0, (price, es)));
    } else {
        let t = s.drop_first();
        assert(s[0].0 < price);
        assert forall|i: int| 0 <= i < idx - 1 implies t[i].0 < price by {
            assert(t[i] == s[i + 1]);
        }
        assert forall|i: int| idx - 1 <= i < t.len() implies t[i].0 > price by {
            assert(t[i] == s[i + 1]);
        }
        lemma_spec_replace_absent(t, price, es, idx - 1);
        assert(spec_replace(s, price, es) =~= s.insert(idx, (price, es)));
    }
}

/// Distributing one level's entries loses nothing: the kept and redirected
/// parts carry exactly the level's total size between them.
pub proof fn lemma_entries_split_conserves(es: Seq<Entry>, budget: int, live: bool)
    ensures
        entries_size(entries_split(es, budget, live).0) + entries_size(
            entries_split(es, budget, live).1,
        ) == entries_size(es),
    decreases es.len(),
{
    if es.len() == 0 {
    } else if live && es[0].0 <= budget {
        let t = es.drop_first();
        lemma_entries_split_conserves(t, budget - es[0].0, live);
        let r2 = entries_split(t, budget - es[0].0, live);
        assert((seq![es[0]] + r2.0).drop_first() =~= r2.0);
        assert(entries_size(seq![es[0]] + r2.0) == es[0].0 + entries_size(r2.0));
    } else {
    }
}

/// Budget accounting over one level: distribution spends exactly the total
/// size of the entries it keeps, and a budget that starts non-negative never
/// goes negative.
pub proof fn lemma_entries_split_budget(es: Seq<Entry>, budget: int, live: bool)
    ensures
        entries_split(es, budget, live).2 == budget - entries_size(
            entries_split(es, budget, live).0,
        ),
        budget >= 0 ==> entries_split(es, budget, live).2 >= 0,
    decreases es.len(),
{
    if es.len() == 0 {
    } else if live && es[0].0 <= budget {
        let t = es.drop_first();
        lemma_entries_split_budget(t, budget - es[0].0, live);
        let r2 = entries_split(t, budget - es[0].0, live);
        assert((seq![es[0]] + r2.0).drop_first() =~= r2.0);
        assert(entries_size(seq![es[0]] + r2.0) == es[0].0 + entries_size(r2.0));
    } else {
    }
}

/// Budget accounting: a split spends exactly the total size of what it
/// keeps, and a budget that starts non-negative never goes negative.
pub proof fn lemma_split_budget(s: Seq<LevelModel>, price: Price, budget: int, live: bool)
    ensures
        levels_split(s, price, budget, live).2 == budget - levels_size(
            levels_split(s, price, budget, live).0,
        ),
        budget >= 0 ==> levels_split(s, price, budget, live).2 >= 0,
    decreases s.len(),
{
    if s.len() == 0 {
    } else {
        let t = s.drop_first();
        if s[0].0 <= price {
            let e = entries_split(s[0].1, budget, live);
            lemma_entries_split_budget(s[0].1, budget, live);
            lemma_split_budget(t, price, e.2, e.3);
            let r2 = levels_split(t, price, e.2, e.3);
            if e.0.len() > 0 {
                assert((seq![(s[0].0, e.0)] + r2.0).drop_first() =~= r2.0);
                assert(levels_size(seq![(s[0].0, e.0)] + r2.0) == entries_size(e.0) + levels_size(
                    r2.0,
                ));
            } else {
                assert(entries_size(e.0) == 0);
            }
        } else {
            lemma_split_budget(t, price, budget, live);
        }
    }
}

/// Conservation law: however a split is parameterised, the kept part and the
/// remainder together carry exactly the total size of the original content.
pub proof fn lemma_split_conserves_size(s: Seq<LevelModel>, price: Price, budget: int, live: bool)
    ensures
        levels_size(levels_split(s, price, budget, live).0) + levels_size(
            levels_split(s, price, budget, live).1,
        ) == levels_size(s),
    decreases s.len(),
{
    if s.len() == 0 {
    } else {
        let t = s.drop_first();
        if s[0].0 <= price {
            let e = entries_split(s[0].1, budget, live);
            lemma_entries_split_conserves(s[0].1, budget, live);
            lemma_split_conserves_size(t, price, e.2, e.3);
            let r2 = levels_split(t, price, e.2, e.3);
            if e.0.len() > 0 {
                assert((seq![(s[0].0, e.0)] + r2.0).drop_first() =~= r2.0);
                assert(levels_size(seq![(s[0].0, e.0)] + r2.0) == entries_size(e.0) + levels_size(
                    r2.0,
                ));
            } else {
                assert(entries_size(e.0) == 0);
            }
            if e.1.len() > 0 {
                assert((seq![(s[0].0, e.1)] + r2.1).drop_first() =~= r2.1);
                assert(levels_size(seq![(s[0].0, e.1)] + r2.1) == entries_size(e.1) + levels_size(
                    r2.1,
                ));
            } else {
                assert(entries_size(e.1) == 0);
            }
        } else {
            lemma_split_conserves_size(t, price, budget, live);
            let r2 = levels_split(t, price, budget, live);
            assert((seq![s[0]] + r2.1).drop_first() =~= r2.1);
            assert(levels_size(seq![s[0]] + r2.1) == entries_size(s[0].1) + levels_size(r2.1));
        }
    }
}

/// Whole-level pass-through: a level whose price lies strictly over the
/// threshold reaches the remainder whole, its entry sequence untouched.
pub proof fn lemma_split_passes_whole_level(
    s: Seq<LevelModel>,
    price: Price,
    budget: int,
    live: bool,
    i: int,
)
    requires
        0 <= i < s.len(),
        s[i].0 > price,
    ensures
        levels_split(s, price, budget, live).1.contains(s[i]),
    decreases s.len(),
{
    let r = levels_split(s, price, budget, live);
    let t = s.drop_first();
    if s[0].0 <= price {
        let e = entries_split(s[0].1, budget, live);
        let r2 = levels_split(t, price, e.2, e.3);
        assert(t[i - 1] == s[i]);
        lemma_split_passes_whole_level(t, price, e.2, e.3, i - 1);
        let j = choose|j: int| 0 <= j < r2.1.len() && r2.1[j] == t[i - 1];
        if e.1.len() > 0 {
            assert(r.1[j + 1] == s[i]);
        } else {
            assert(r.1[j] == s[i]);
        }
    } else {
        let r2 = levels_split(t, price, budget, live);
        if i == 0 {
            assert(r.1[0] == s[0]);
        } else {
            assert(t[i - 1] == s[i]);
            lemma_split_passes_whole_level(t, price, budget, live, i - 1);
            let j = choose|j: int| 0 <= j < r2.1.len() && r2.1[j] == t[i - 1];
            assert(r.1[j + 1] == s[i]);
        }
    }
}

/// Splitting empty content yields an empty kept part and an empty remainder,
/// whatever the threshold and the budget.
pub proof fn lemma_split_empty(price: Price, budget: int, live: bool)
    ensures
        levels_split(Seq::<LevelModel>::empty(), price, budget, live).0 == Seq::<
            LevelModel,
        >::empty(),
        levels_split(Seq::<LevelModel>::empty(), price, budget, live).1 == Seq::<
            LevelModel,
        >::empty(),
{
}

/// Every price in the kept part of a split was a price of the input.
pub proof fn lemma_split_member_kept(
    s: Seq<LevelModel>,
    price: Price,
    budget: int,
    live: bool,
    i: int,
)
    requires
        0 <= i < levels_split(s, price, budget, live).0.len(),
    ensures
        has_price(s, levels_split(s, price, budget, live).0[i].0),
    decreases s.len(),
{
    let r = levels_split(s, price, budget, live);
    let t = s.drop_first();
    if s[0].0 <= price {
        let e = entries_split(s[0].1, budget, live);
        let r2 = levels_split(t, price, e.2, e.3);
        if e.0.len() > 0 && i == 0 {
            assert(s[0].0 == r.0[0].0);
        } else {
            let k: int = if e.0.len() > 0 {
                i - 1
            } else {
                i
            };
            lemma_split_member_kept(t, price, e.2, e.3, k);
            let j = choose|j: int| 0 <= j < t.len() && t[j].0 == r2.0[k].0;
            assert(s[j + 1].0 == r.0[i].0);
        }
    } else {
        lemma_split_member_kept(t, price, budget, live, i);
        let r2 = levels_split(t, price, budget, live);
        let j = choose|j: int| 0 <= j < t.len() && t[j].0 == r2.0[i].0;
        assert(s[j + 1].0 == r.0[i].0);
    }
}

/// Every price in the remainder of a split was a price of the input.
pub proof fn lemma_split_member_rem(
    s: Seq<LevelModel>,
    price: Price,
    budget: int,
    live: bool,
    i: int,
)
    requires
        0 <= i < levels_split(s, price, budget, live).1.len(),
    ensures
        has_price(s, levels_split(s, price, budget, live).1[i].0),
    decreases s.len(),
{
    let r = levels_split(s, price, budget, live);
    let t = s.drop_first();
    if s[0].0 <= price {
        let e = entries_split(s[0].1, budget, live);
        let r2 = levels_split(t, price, e.2, e.3);
        if e.1.len() > 0 && i == 0 {
            assert(s[0].0 == r.1[0].0);
        } else {
            let k: int = if e.1.len() > 0 {
                i - 1
            } else {
                i
            };
            lemma_split_member_rem(t, price, e.2, e.3, k);
            let j = choose|j: int| 0 <= j < t.len() && t[j].0 == r2.1[k].0;
            assert(s[j + 1].0 == r.1[i].0);
        }
    } else {
        let r2 = levels_split(t, price, budget, live);
        if i == 0 {
            assert(s[0].0 == r.1[0].0);
        } else {
            lemma_split_member_rem(t, price, budget, live, i - 1);
            let j = choose|j: int| 0 <= j < t.len() && t[j].0 == r2.1[i - 1].0;
            assert(s[j + 1].0 == r.1[i].0);
        }
    }
}

/// A split of well-formed content yields two well-formed price lists.
pub proof fn lemma_split_wf(s: Seq<LevelModel>, price: Price, budget: int, live: bool)
    requires
        wf_levels(s),
    ensures
        wf_levels(levels_split(s, price, budget, live).0),
        wf_levels(levels_split(s, price, budget, live).1),
    decreases s.len(),
{
    let r = levels_split(s, price, budget, live);
    if s.len() == 0 {
    } else {
        let t = s.drop_first();
        assert(wf_levels(t)) by {
            assert forall|i: int| 0 <= i < t.len() implies t[i].1.len() > 0 by {
                assert(t[i] == s[i + 1]);
            }
        }
        if s[0].0 <= price {
            let e = entries_split(s[0].1, budget, live);
            lemma_split_wf(t, price, e.2, e.3);
            let r2 = levels_split(t, price, e.2, e.3);
            assert forall|i: int| 0 <= i < r2.0.len() implies r2.0[i].0 > s[0].0 by {
                lemma_split_member_kept(t, price, e.2, e.3, i);
                let j = choose|j: int| 0 <= j < t.len() && t[j].0 == r2.0[i].0;
                assert(t[j] == s[j + 1]);
            }
            assert forall|i: int| 0 <= i < r2.1.len() implies r2.1[i].0 > s[0].0 by {
                lemma_split_member_rem(t, price, e.2, e.3, i);
                let j = choose|j: int| 0 <= j < t.len() && t[j].0 == r2.1[i].0;
                assert(t[j] == s[j + 1]);
            }
            assert forall|a: int, b: int| 0 <= a < b < r.0.len() implies r.0[a].0 < r.0[b].0 by {
                if e.0.len() > 0 {
                    assert(r.0[b] == r2.0[b - 1]);
                    if a > 0 {
                        assert(r.0[a] == r2.0[a - 1]);
                    }
                }
            }
            assert forall|i: int| 0 <= i < r.0.len() implies r.0[i].1.len() > 0 by {
                if e.0.len() > 0 && i > 0 {
                    assert(r.0[i] == r2.0[i - 1]);
                }
            }
            assert forall|a: int, b: int| 0 <= a < b < r.1.len() implies r.1[a].0 < r.1[b].0 by {
                if e.1.len() > 0 {
                    assert(r.1[b] == r2.1[b - 1]);
                    if a > 0 {
                        assert(r.1[a] == r2.1[a - 1]);
                    }
                }
            }
            assert forall|i: int| 0 <= i < r.1.len() implies r.1[i].1.len() > 0 by {
                if e.1.len() > 0 && i > 0 {
                    assert(r.1[i] == r2.1[i - 1]);
                }
            }
        } else {
            lemma_split_wf(t, price, budget, live);
            let r2 = levels_split(t, price, budget, live);
            assert forall|i: int| 0 <= i < r2.1.len() implies r2.1[i].0 > s[0].0 by {
                lemma_split_member_rem(t, price, budget, live, i);
                let j = choose|j: int| 0 <= j < t.len() && t[j].0 == r2.1[i].0;
                assert(t[j] == s[j + 1]);
            }
            assert forall|a: int, b: int| 0 <= a < b < r.1.len() implies r.1[a].0 < r.1[b].0 by {
                assert(r.1[b] == r2.1[b - 1]);
                if a > 0 {
                    assert(r.1[a] == r2.1[a - 1]);
                }
            }
            assert forall|i: int| 0 <= i < r.1.len() implies r.1[i].1.len() > 0 by {
                if i > 0 {
                    assert(r.1[i] == r2.1[i - 1]);
                }
            }
        }
    }
}

/// Entry sizes are quantities: their sum is never negative.
pub proof fn lemma_entries_size_nonneg(es: Seq<Entry>)
    ensures
        entries_size(es) >= 0,
    decreases es.len(),
{
    if es.len() > 0 {
        lemma_entries_size_nonneg(es.drop_first());
    }
}

/// The total size of a level sequence is never negative.
pub proof fn lemma_levels_size_nonneg(s: Seq<LevelModel>)
    ensures
        levels_size(s) >= 0,
    decreases s.len(),
{
    if s.len() > 0 {
        lemma_entries_size_nonneg(s[0].1);
        lemma_levels_size_nonneg(s.drop_first());
    }
}

/// Peeling one entry off the front of a suffix.
pub proof fn lemma_entries_size_skip(es: Seq<Entry>, j: int)
    requires
        0 <= j < es.len(),
    ensures
        entries_size(es.skip(j)) == es[j].0 + entries_size(es.skip(j + 1)),
{
    assert(es.skip(j)[0] == es[j]);
    assert(es.skip(j).drop_first() =~= es.skip(j + 1));
}

/// Peeling one level off the front of a suffix.
pub proof fn lemma_levels_size_skip(s: Seq<LevelModel>, i: int)
    requires
        0 <= i < s.len(),
    ensures
        levels_size(s.skip(i)) == entries_size(s[i].1) + levels_size(s.skip(i + 1)),
{
    assert(s.skip(i)[0] == s[i]);
    assert(s.skip(i).drop_first() =~= s.skip(i + 1));
}

/// The entries at a price are those of the level found at its sorted index.
pub proof fn lemma_entries_at_found(s: Seq<LevelModel>, price: Price, idx: int)
    requires
        0 <= idx < s.len(),
        s[idx].0 == price,
        forall|i: int| 0 <= i < idx ==> s[i].0 < price,
    ensures
        entries_at(s, price) == s[idx].1,
    decreases s.len(),
{
    if idx > 0 {
        let t = s.drop_first();
        assert forall|i: int| 0 <= i < idx - 1 implies t[i].0 < price by {
            assert(t[i] == s[i + 1]);
        }
        assert(t[idx - 1] == s[idx]);
        lemma_entries_at_found(t, price, idx - 1);
    }
}

/// A price carried by no level holds no entries.
pub proof fn lemma_entries_at_absent(s: Seq<LevelModel>, price: Price)
    requires
        forall|i: int| 0 <= i < s.len() ==> s[i].0 != price,
    ensures
        entries_at(s, price) == Seq::<Entry>::empty(),
    decreases s.len(),
{
    if s.len() > 0 {
        let t = s.drop_first();
        assert forall|i: int| 0 <= i < t.len() implies t[i].0 != price by {
            assert(t[i] == s[i + 1]);
        }
        lemma_entries_at_absent(t, price);
    }
}

/// Idempotent re-add: an insertion appends exactly one entry to the end of
/// the inserted price's sequence, dropping and reordering nothing, and
/// leaves the sequence at every other price untouched.
pub proof fn lemma_add_entries(s: Seq<LevelModel>, price: Price, e: Entry, q: Price)
    requires
        levels_sorted(s),
    ensures
        entries_at(spec_add(s, price, e), price) == entries_at(s, price).push(e),
        entries_at(spec_add(s, price, e), price).len() == entries_at(s, price).len() + 1,
        q != price ==> entries_at(spec_add(s, price, e), q) == entries_at(s, q),
    decreases s.len(),
{
    let r = spec_add(s, price, e);
    if s.len() == 0 {
        assert(entries_at(s, price).push(e) =~= seq![e]);
        assert(r[0].0 == price && r[0].1 == seq![e]);
        if q != price {
            assert(r.drop_first() =~= Seq::<LevelModel>::empty());
            assert(entries_at(r, q) == entries_at(Seq::<LevelModel>::empty(), q));
        }
    } else if price < s[0].0 {
        assert forall|i: int| 0 <= i < s.len() implies s[i].0 != price by {
            if i > 0 {
                assert(s[0].0 < s[i].0);
            }
        }
        lemma_entries_at_absent(s, price);
        assert(entries_at(s, price).push(e) =~= seq![e]);
        assert(r[0].0 == price && r[0].1 == seq![e]);
        if q != price {
            assert(r.drop_first() =~= s);
            assert(entries_at(r, q) == entries_at(s, q));
        }
    } else if price == s[0].0 {
        assert(r[0].1 == s[0].1.push(e));
        if q != price {
            assert(r.drop_first() =~= s.drop_first());
            assert(entries_at(r, q) == entries_at(s.drop_first(), q));
        }
    } else {
        let t = s.drop_first();
        assert(levels_sorted(t)) by {
            assert forall|a: int, b: int| 0 <= a < b < t.len() implies t[a].0 < t[b].0 by {
                assert(t[a] == s[a + 1] && t[b] == s[b + 1]);
            }
        }
        lemma_add_entries(t, price, e, q);
        assert(r.drop_first() =~= spec_add(t, price, e));
        assert(r[0].0 == s[0].0 && s[0].0 != price);
        assert(entries_at(r, price) == entries_at(spec_add(t, price, e), price));
        assert(entries_at(s, price) == entries_at(t, price));
        if q != price {
            if q == s[0].0 {
                assert(entries_at(r, q) == r[0].1);
                assert(entries_at(s, q) == s[0].1);
            } else {
                assert(entries_at(r, q) == entries_at(spec_add(t, price, e), q));
                assert(entries_at(s, q) == entries_at(t, q));
            }
        }
    }
}

/// Merge invariant: two insertions at one price land in that single level,
/// in call order, behind whatever was already resting there.
pub proof fn lemma_add_merges_same_price(s: Seq<LevelModel>, price: Price, e1: Entry, e2: Entry)
    requires
        wf_levels(s),
    ensures
        entries_at(spec_add(spec_add(s, price, e1), price, e2), price) == entries_at(
            s,
            price,
        ).push(e1).push(e2),
{
    lemma_add_entries(s, price, e1, price);
    lemma_add_wf(s, price, e1);
    lemma_add_entries(spec_add(s, price, e1), price, e2, price);
}

/// Inserting at a price already present rewrites exactly that level,
/// appending the entry to its sequence.
pub proof fn lemma_spec_add_found(s: Seq<LevelModel>, price: Price, e: Entry, idx: int)
    requires
        0 <= idx < s.len(),
        forall|i: int| 0 <= i < idx ==> s[i].0 < price,
        s[idx].0 == price,
    ensures
        spec_add(s, price, e) == s.update(idx, (price, s[idx].1.push(e))),
    decreases s.len(),
{
    if idx == 0 {
        assert(spec_add(s, price, e) =~= s.update(0, (price, s[0].1.push(e))));
    } else {
        let t = s.drop_first();
        assert(s[0].0 < price);
        assert forall|i: int| 0 <= i < idx - 1 implies t[i].0 < price by {
            assert(t[i] == s[i + 1]);
        }
        assert(t[idx - 1] == s[idx]);
        lemma_spec_add_found(t, price, e, idx - 1);
        assert(spec_add(s, price, e) =~= s.update(idx, (price, s[idx].1.push(e))));
    }
}

/// Inserting at an absent price places a fresh one-entry level at the
/// sorted position.
pub proof fn lemma_spec_add_absent(s: Seq<LevelModel>, price: Price, e: Entry, idx: int)
    requires
        0 <= idx <= s.len(),
        forall|i: int| 0 <= i < idx ==> s[i].0 < price,
        forall|i: int| idx <= i < s.len() ==> s[i].0 > price,
    ensures
        spec_add(s, price, e) == s.insert(idx, (price, seq![e])),
    decreases s.len(),
{
    if s.len() == 0 {
        assert(spec_add(s, price, e) =~= s.insert(0, (price, seq![e])));
    } else if idx == 0 {
        assert(s[0].0 > price);
        assert(spec_add(s, price, e) =~= s.insert(0, (price, seq![e])));
    } else {
        let t = s.drop_first();
        assert(s[0].0 < price);
        assert forall|i: int| 0 <= i < idx - 1 implies t[i].0 < price by {
            assert(t[i] == s[i + 1]);
        }
        assert forall|i: int| idx - 1 <= i < t.len() implies t[i].0 > price by {
            assert(t[i] == s[i + 1]);
        }
        lemma_spec_add_absent(t, price, e, idx - 1);
        assert(spec_add(s, price, e) =~= s.insert(idx, (price, seq![e])));
    }
}

} // verus!
