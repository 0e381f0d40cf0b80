//! Mathematical model of the price list: the level sequence, its
//! well-formedness, and the meaning of insertion, replacement and split.

use vstd::prelude::*;

verus! {

/// Sort key of a level.
pub type Price = i32;

/// Quantity attached to an entry, consumed against a split budget.
pub type Size = u32;

/// Opaque payload attached to an entry; never interpreted here.
pub type Meta = u128;

/// A (size, metadata) pair resting at some price.
pub type Entry = (Size, Meta);

/// Model of one level: its price and its entries in insertion order.
pub type LevelModel = (Price, Seq<Entry>);

/// Levels are strictly ascending by price: sorted, no duplicates.
pub open spec fn levels_sorted(s: Seq<LevelModel>) -> bool {
    forall|i: int, j: int| 0 <= i < j < s.len() ==> s[i].0 < s[j].0
}

/// No level is retained with an empty entry sequence.
pub open spec fn levels_nonempty(s: Seq<LevelModel>) -> bool {
    forall|i: int| 0 <= i < s.len() ==> s[i].1.len() > 0
}

/// Well-formedness of a price list's content.
pub open spec fn wf_levels(s: Seq<LevelModel>) -> bool {
    levels_sorted(s) && levels_nonempty(s)
}

/// Whether some level carries this price.
pub open spec fn has_price(s: Seq<LevelModel>, price: Price) -> bool {
    exists|i: int| 0 <= i < s.len() && s[i].0 == price
}

/// The price keys, in level order.
pub open spec fn prices_of(s: Seq<LevelModel>) -> Seq<Price> {
    Seq::new(s.len(), |i: int| s[i].0)
}

/// The entries resting at a price: those of the first level carrying it,
/// or the empty sequence when no level does.
pub open spec fn entries_at(s: Seq<LevelModel>, price: Price) -> Seq<Entry>
    decreases s.len(),
{
    if s.len() == 0 {
        Seq::empty()
    } else if s[0].0 == price {
        s[0].1
    } else {
        entries_at(s.drop_first(), price)
    }
}

/// Insertion: append the entry to the level carrying this price, or place a
/// fresh one-entry level at the position that keeps the sequence sorted.
pub open spec fn spec_add(s: Seq<LevelModel>, price: Price, e: Entry) -> Seq<LevelModel>
    decreases s.len(),
{
    if s.len() == 0 {
        seq![(price, seq![e])]
    } else if price < s[0].0 {
        seq![(price, seq![e])] + s
    } else if price == s[0].0 {
        seq![(s[0].0, s[0].1.push(e))] + s.drop_first()
    } else {
        seq![s[0]] + spec_add(s.drop_first(), price, e)
    }
}

/// Replacement: overwrite the whole entry sequence of the level carrying
/// this price, or place a fresh level at the sorted position.
pub open spec fn spec_replace(s: Seq<LevelModel>, price: Price, es: Seq<Entry>) -> Seq<LevelModel>
    decreases s.len(),
{
    if s.len() == 0 {
        seq![(price, es)]
    } else if price < s[0].0 {
        seq![(price, es)] + s
    } else if price == s[0].0 {
        seq![(price, es)] + s.drop_first()
    } else {
        seq![s[0]] + spec_replace(s.drop_first(), price, es)
    }
}

/// The summed sizes of a sequence of entries, as an unbounded integer.
pub open spec fn entries_size(es: Seq<Entry>) -> int
    decreases es.len(),
{
    if es.len() == 0 {
        0
    } else {
        es[0].0 + entries_size(es.drop_first())
    }
}

/// The summed sizes of every entry of every level.
pub open spec fn levels_size(s: Seq<LevelModel>) -> int
    decreases s.len(),
{
    if s.len() == 0 {
        0
    } else {
        entries_size(s[0].1) + levels_size(s.drop_first())
    }
}

/// Distribution of one level's entries against the running budget.
///
/// Result: (entries kept, entries redirected, budget left, still admitting).
/// Entries are admitted in order while the budget is live and covers each
/// size; the first entry that does not fit turns admission off for good, and
/// it and everything after it is redirected.
pub open spec fn entries_split(es: Seq<Entry>, budget: int, live: bool) -> (Seq<Entry>, Seq<
    Entry,
>, int, bool)
    decreases es.len(),
{
    if es.len() == 0 {
        (Seq::empty(), Seq::empty(), budget, live)
    } else if live && es[0].0 <= budget {
        let r = entries_split(es.drop_first(), budget - es[0].0, live);
        (seq![es[0]] + r.0, r.1, r.2, r.3)
    } else {
        (Seq::empty(), es, budget, false)
    }
}

/// Distribution of whole content by a price threshold and a size budget.
///
/// Result: (levels kept, levels of the remainder, budget left, still
/// admitting). A level at or under the threshold has its entries distributed
/// against the running budget; a level over the threshold goes to the
/// remainder whole and untouched. Levels left with no entries on either side
/// are not retained.
pub open spec fn levels_split(s: Seq<LevelModel>, price: Price, budget: int, live: bool) -> (Seq<
    LevelModel,
>, Seq<LevelModel>, int, bool)
    decreases s.len(),
{
    if s.len() == 0 {
        (Seq::empty(), Seq::empty(), budget, live)
    } else if s[0].0 <= price {
        let e = entries_split(s[0].1, budget, live);
        let r = levels_split(s.drop_first(), price, e.2, e.3);
        let kept = if e.0.len() > 0 {
            seq![(s[0].0, e.0)] + r.0
        } else {
            r.0
        };
        let rem = if e.1.len() > 0 {
            seq![(s[0].0, e.1)] + r.1
        } else {
            r.1
        };
        (kept, rem, r.2, r.3)
    } else {
        let r = levels_split(s.drop_first(), price, budget, live);
        (r.0, seq![s[0]] + r.1, r.2, r.3)
    }
}

} // verus!
