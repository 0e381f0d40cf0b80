//! An ordered in-memory price list: price levels sorted strictly ascending,
//! each holding the entries resting at that price in insertion order, with
//! insertion, replacement, and a budgeted split that partitions the content
//! into a kept part and a remainder.

use vstd::prelude::*;

pub mod laws;
pub mod model;

use crate::laws::{
    lemma_add_wf, lemma_entries_at_absent, lemma_entries_at_found, lemma_entries_size_nonneg,
    lemma_entries_size_skip, lemma_levels_size_nonneg, lemma_levels_size_skip, lemma_replace_wf,
    lemma_spec_add_absent, lemma_spec_add_found, lemma_spec_replace_absent,
    lemma_spec_replace_found, lemma_split_wf,
};
use crate::model::{
    Entry, LevelModel, Meta, Price, Size, entries_at, entries_size, entries_split, levels_size,
    levels_split, prices_of, spec_add, spec_replace, wf_levels,
};

verus! {

/// The model of a level sequence held in vectors: each level's price paired
/// with the mathematical view of its entry vector.
spec fn levels_view(v: Seq<(Price, Vec<Entry>)>) -> Seq<LevelModel> {
    Seq::new(v.len(), |i: int| (v[i].0, v[i].1@))
}

/// Sorted container mapping each price to the ordered sequence of entries
/// resting at it.
pub struct PriceList {
    inner: Vec<(Price, Vec<Entry>)>,
}

impl View for PriceList {
    type V = Seq<LevelModel>;

    closed spec fn view(&self) -> Seq<LevelModel> {
        levels_view(self.inner@)
    }
}

impl PriceList {
    /// The structural invariant: levels strictly ascending by price and
    /// never empty.
    pub open spec fn wf(&self) -> bool {
        wf_levels(self@)
    }

    /// Returns an empty price list.
    pub fn new() -> (r: PriceList)
        ensures
            r@ == Seq::<LevelModel>::empty(),
            r.wf(),
    {
        let r = PriceList { inner: Vec::new() };
        proof {
            assert(r@ =~= Seq::<LevelModel>::empty());
        }
        r
    }

    /// Returns an empty price list whose backing storage is pre-reserved
    /// for `n` levels; a performance hint with no semantic difference
    /// from `new`.
    pub fn with_capacity(n: usize) -> (r: PriceList)
        ensures
            r@ == Seq::<LevelModel>::empty(),
            r.wf(),
    {
        let r = PriceList { inner: Vec::with_capacity(n) };
        proof {
            assert(r@ =~= Seq::<LevelModel>::empty());
        }
        r
    }

    /// Binary search over the sorted levels. Returns whether the price is
    /// present, and either its index or the insertion point that keeps the
    /// sequence sorted.
    #[verifier::loop_isolation(false)]
    fn locate(&self, price: Price) -> (r: (bool, usize))
        requires
            self.wf(),
        ensures
            r.1 <= self@.len(),
            forall|i: int| 0 <= i < r.1 ==> self@[i].0 < price,
            r.0 ==> r.1 < self@.len() && self@[r.1 as int].0 == price,
            !r.0 ==> forall|i: int| r.1 <= i < self@.len() ==> self@[i].0 > price,
    {
        let mut lo: usize = 0;
        let mut hi: usize = self.inner.len();
        while lo < hi
            invariant
                lo <= hi <= self@.len(),
                forall|i: int| 0 <= i < lo ==> self@[i].0 < price,
                forall|i: int| hi <= i < self@.len() ==> self@[i].0 > price,
            decreases hi - lo,
        {
            let mid = lo + (hi - lo) / 2;
            let p = self.inner[mid].0;
            assert(p == self@[mid as int].0);
            if p < price {
                lo = mid + 1;
            } else if p > price {
                hi = mid;
            } else {
                assert forall|i: int| 0 <= i < mid implies self@[i].0 < price by {
                    if i >= lo {
                        assert(self@[i].0 < self@[mid as int].0);
                    }
                }
                return (true, mid);
            }
        }
        (false, lo)
    }

    /// Inserts `size_meta` at `price`: appended to the level already carrying
    /// that price, or opening a fresh level at the sorted position. Always
    /// succeeds.
    pub fn add(&mut self, price: Price, size_meta: Entry)
        requires
            old(self).wf(),
        ensures
            final(self)@ == spec_add(old(self)@, price, size_meta),
            final(self).wf(),
    {
        proof {
            lemma_add_wf(old(self)@, price, size_meta);
        }
        let (found, idx) = self.locate(price);
        let ghost prev = self@;
        if found {
            self.inner[idx].1.push(size_meta);
            proof {
                assert(self@ =~= prev.update(
                    idx as int,
                    (price, prev[idx as int].1.push(size_meta)),
                ));
                lemma_spec_add_found(prev, price, size_meta, idx as int);
            }
        } else {
            let mut es: Vec<Entry> = Vec::new();
            es.push(size_meta);
            let ghost esv = es@;
            self.inner.insert(idx, (price, es));
            proof {
                assert(esv =~= seq![size_meta]);
                assert(self@ =~= prev.insert(idx as int, (price, seq![size_meta])));
                lemma_spec_add_absent(prev, price, size_meta, idx as int);
            }
        }
    }

    /// Sets the whole entry sequence at `price`: overwriting the level
    /// already carrying that price, or opening a fresh level at the sorted
    /// position. A level is never given an empty sequence.
    pub fn add_size_meta_list(&mut self, price: Price, size_meta_list: Vec<Entry>)
        requires
            old(self).wf(),
            size_meta_list@.len() > 0,
        ensures
            final(self)@ == spec_replace(old(self)@, price, size_meta_list@),
            final(self).wf(),
    {
        proof {
            lemma_replace_wf(old(self)@, price, size_meta_list@);
        }
        let ghost esv = size_meta_list@;
        let (found, idx) = self.locate(price);
        let ghost prev = self@;
        if found {
            self.inner[idx].1 = size_meta_list;
            proof {
                assert(self@ =~= prev.update(idx as int, (price, esv)));
                lemma_spec_replace_found(prev, price, esv, idx as int);
            }
        } else {
            self.inner.insert(idx, (price, size_meta_list));
            proof {
                assert(self@ =~= prev.insert(idx as int, (price, esv)));
                lemma_spec_replace_absent(prev, price, esv, idx as int);
            }
        }
    }

    /// Returns the price keys currently present, in level order; on a
    /// well-formed list they are strictly ascending with no duplicates.
    #[verifier::loop_isolation(false)]
    pub fn get_prices(&self) -> (r: Vec<Price>)
        ensures
            r@ == prices_of(self@),
    {
        let mut r: Vec<Price> = Vec::new();
        let n = self.inner.len();
        let mut i: usize = 0;
        while i < n
            invariant
                i <= n,
                r@.len() == i,
                forall|k: int| 0 <= k < i ==> r@[k] == self@[k].0,
            decreases n - i,
        {
            r.push(self.inner[i].0);
            i += 1;
        }
        proof {
            assert(r@ =~= prices_of(self@));
        }
        r
    }

    /// Returns a copy of the entries resting at `price`, in insertion order,
    /// or an empty vector when no level carries that price.
    #[verifier::loop_isolation(false)]
    pub fn get_entries(&self, price: Price) -> (r: Vec<Entry>)
        requires
            self.wf(),
        ensures
            r@ == entries_at(self@, price),
    {
        let (found, idx) = self.locate(price);
        let mut r: Vec<Entry> = Vec::new();
        if found {
            proof {
                lemma_entries_at_found(self@, price, idx as int);
            }
            let m = self.inner[idx].1.len();
            let ghost es = self@[idx as int].1;
            let mut j: usize = 0;
            while j < m
                invariant
                    j <= m,
                    m == es.len(),
                    es == self@[idx as int].1,
                    idx < self@.len(),
                    r@ == es.take(j as int),
                decreases m - j,
            {
                let e = self.inner[idx].1[j];
                proof {
                    assert(es.take(j as int + 1) =~= es.take(j as int).push(es[j as int]));
                }
                r.push(e);
                j += 1;
            }
            proof {
                assert(es.take(m as int) =~= es);
            }
        } else {
            proof {
                assert forall|i: int| 0 <= i < self@.len() implies self@[i].0 != price by {}
                lemma_entries_at_absent(self@, price);
                assert(r@ =~= Seq::<Entry>::empty());
            }
        }
        r
    }

    /// Returns the sum of every entry's size over every level, accumulated
    /// in 128 bits.
    #[verifier::loop_isolation(false)]
    pub fn get_size_sum(&self) -> (r: u128)
        requires
            levels_size(self@) <= u128::MAX,
        ensures
            r as int == levels_size(self@),
    {
        let mut sum: u128 = 0;
        let n = self.inner.len();
        let mut i: usize = 0;
        proof {
            assert(self@.skip(0) =~= self@);
        }
        while i < n
            invariant
                i <= n,
                sum as int + levels_size(self@.skip(i as int)) == levels_size(self@),
            decreases n - i,
        {
            let m = self.inner[i].1.len();
            let ghost es = self@[i as int].1;
            proof {
                lemma_levels_size_skip(self@, i as int);
                assert(es.skip(0) =~= es);
            }
            let mut j: usize = 0;
            while j < m
                invariant
                    j <= m,
                    i < n,
                    m == es.len(),
                    es == self@[i as int].1,
                    sum as int + entries_size(es.skip(j as int)) + levels_size(
                        self@.skip(i as int + 1),
                    ) == levels_size(self@),
                decreases m - j,
            {
                proof {
                    lemma_entries_size_skip(es, j as int);
                    lemma_entries_size_nonneg(es.skip(j as int + 1));
                    lemma_levels_size_nonneg(self@.skip(i as int + 1));
                }
                sum = sum + (self.inner[i].1[j].0 as u128);
                j += 1;
            }
            i += 1;
        }
        proof {
            assert(self@.skip(n as int) =~= Seq::<LevelModel>::empty());
        }
        sum
    }

    /// Partitions the content in two. Levels are walked in ascending price
    /// order; at or under the threshold their entries are admitted in order
    /// while the running budget is live and covers each size, and the first
    /// entry that does not fit turns admission off for good; over the
    /// threshold a level passes whole. The admitted part becomes the
    /// receiver's new content, the rest is returned.
    #[verifier::loop_isolation(false)]
    pub fn split(&mut self, price: Price, size: u128) -> (out: PriceList)
        requires
            old(self).wf(),
        ensures
            final(self)@ == levels_split(old(self)@, price, size as int, true).0,
            out@ == levels_split(old(self)@, price, size as int, true).1,
            final(self).wf(),
            out.wf(),
    {
        proof {
            lemma_split_wf(old(self)@, price, size as int, true);
        }
        if self.inner.len() == 0 {
            let r = PriceList::new();
            proof {
                assert(self@ =~= Seq::<LevelModel>::empty());
            }
            return r;
        }
        let ghost s0 = self@;
        let ghost total = levels_split(s0, price, size as int, true);
        let mut cur: Vec<(Price, Vec<Entry>)> = Vec::new();
        let mut rest: Vec<(Price, Vec<Entry>)> = Vec::new();
        let mut remaining: u128 = size;
        let mut live: bool = true;
        let n = self.inner.len();
        let mut i: usize = 0;
        proof {
            assert(s0.skip(0) =~= s0);
            assert(levels_view(cur@) =~= Seq::<LevelModel>::empty());
            assert(levels_view(rest@) =~= Seq::<LevelModel>::empty());
            assert(Seq::<LevelModel>::empty() + total.0 =~= total.0);
            assert(Seq::<LevelModel>::empty() + total.1 =~= total.1);
        }
        while i < n
            invariant
                i <= n,
                n == s0.len(),
                self@ == s0,
                total == levels_split(s0, price, size as int, true),
                total.0 == levels_view(cur@) + levels_split(
                    s0.skip(i as int),
                    price,
                    remaining as int,
                    live,
                ).0,
                total.1 == levels_view(rest@) + levels_split(
                    s0.skip(i as int),
                    price,
                    remaining as int,
                    live,
                ).1,
            decreases n - i,
        {
            let ghost b0 = remaining as int;
            let ghost l0 = live;
            let ghost suffix = levels_split(s0.skip(i as int), price, b0, l0);
            let lp = self.inner[i].0;
            let m = self.inner[i].1.len();
            let ghost es = s0[i as int].1;
            proof {
                assert(s0.skip(i as int)[0] == s0[i as int]);
                assert(s0.skip(i as int).drop_first() =~= s0.skip(i as int + 1));
                assert(es == self.inner@[i as int].1@);
            }
            if lp <= price {
                let mut kept: Vec<Entry> = Vec::new();
                let mut redir: Vec<Entry> = Vec::new();
                let ghost efull = entries_split(es, b0, l0);
                let mut j: usize = 0;
                proof {
                    assert(es.skip(0) =~= es);
                    assert(kept@ + efull.0 =~= efull.0);
                    assert(redir@ + efull.1 =~= efull.1);
                }
                while j < m
                    invariant
                        j <= m,
                        i < n,
                        m == es.len(),
                        self@ == s0,
                        es == s0[i as int].1,
                        efull == entries_split(es, b0, l0),
                        efull.0 == kept@ + entries_split(
                            es.skip(j as int),
                            remaining as int,
                            live,
                        ).0,
                        efull.1 == redir@ + entries_split(
                            es.skip(j as int),
                            remaining as int,
                            live,
                        ).1,
                        efull.2 == entries_split(es.skip(j as int), remaining as int, live).2,
                        efull.3 == entries_split(es.skip(j as int), remaining as int, live).3,
                    decreases m - j,
                {
                    let ghost pre = entries_split(es.skip(j as int), remaining as int, live);
                    let e = self.inner[i].1[j];
                    proof {
                        assert(e == es[j as int]);
                        assert(es.skip(j as int)[0] == es[j as int]);
                        assert(es.skip(j as int).drop_first() =~= es.skip(j as int + 1));
                    }
                    if live && (e.0 as u128) <= remaining {
                        let ghost kpre = kept@;
                        kept.push(e);
                        remaining = remaining - (e.0 as u128);
                        proof {
                            let post = entries_split(es.skip(j as int + 1), remaining as int, live);
                            assert(pre.0 == seq![e] + post.0);
                            assert(kpre + (seq![e] + post.0) =~= (kpre + seq![e]) + post.0);
                            assert(kept@ =~= kpre + seq![e]);
                        }
                    } else {
                        let ghost rpre = redir@;
                        live = false;
                        redir.push(e);
                        proof {
                            let post = entries_split(es.skip(j as int + 1), remaining as int, live);
                            assert(post.0 =~= Seq::<Entry>::empty());
                            assert(post.1 =~= es.skip(j as int + 1));
                            assert(pre.1 == es.skip(j as int));
                            assert(es.skip(j as int) =~= seq![e] + es.skip(j as int + 1));
                            assert(rpre + (seq![e] + post.1) =~= (rpre + seq![e]) + post.1);
                            assert(redir@ =~= rpre + seq![e]);
                        }
                    }
                    j += 1;
                }
                proof {
                    assert(es.skip(m as int) =~= Seq::<Entry>::empty());
                    assert(efull.0 =~= kept@);
                    assert(efull.1 =~= redir@);
                    assert(suffix.0 == (if efull.0.len() > 0 {
                        seq![(lp, efull.0)] + levels_split(
                            s0.skip(i as int + 1),
                            price,
                            efull.2,
                            efull.3,
                        ).0
                    } else {
                        levels_split(s0.skip(i as int + 1), price, efull.2, efull.3).0
                    }));
                }
                let ghost cpre = cur@;
                let ghost rpre = rest@;
                let ghost keptv = kept@;
                let ghost redirv = redir@;
                if kept.len() > 0 {
                    cur.push((lp, kept));
                    proof {
                        assert(levels_view(cur@) =~= levels_view(cpre).push((lp, keptv)));
                    }
                }
                if redir.len() > 0 {
                    rest.push((lp, redir));
                    proof {
                        assert(levels_view(rest@) =~= levels_view(rpre).push((lp, redirv)));
                    }
                }
                proof {
                    let post = levels_split(s0.skip(i as int + 1), price, remaining as int, live);
                    if keptv.len() > 0 {
                        assert(levels_view(cpre) + (seq![(lp, keptv)] + post.0) =~= (levels_view(
                            cpre,
                        ) + seq![(lp, keptv)]) + post.0);
                        assert(levels_view(cur@) =~= levels_view(cpre) + seq![(lp, keptv)]);
                    }
                    if redirv.len() > 0 {
                        assert(levels_view(rpre) + (seq![(lp, redirv)] + post.1) =~= (levels_view(
                            rpre,
                        ) + seq![(lp, redirv)]) + post.1);
                        assert(levels_view(rest@) =~= levels_view(rpre) + seq![(lp, redirv)]);
                    }
                }
            } else {
                let mut moved: Vec<Entry> = Vec::new();
                let mut j: usize = 0;
                proof {
                    assert(moved@ =~= es.take(0));
                }
                while j < m
                    invariant
                        j <= m,
                        i < n,
                        m == es.len(),
                        self@ == s0,
                        es == s0[i as int].1,
                        moved@ == es.take(j as int),
                    decreases m - j,
                {
                    let e = self.inner[i].1[j];
                    proof {
                        assert(e == es[j as int]);
                        assert(es.take(j as int + 1) =~= es.take(j as int).push(es[j as int]));
                    }
                    moved.push(e);
                    j += 1;
                }
                proof {
                    assert(es.take(m as int) =~= es);
                }
                let ghost rpre = rest@;
                rest.push((lp, moved));
                proof {
                    let post = levels_split(s0.skip(i as int + 1), price, remaining as int, live);
                    assert((lp, es) == s0[i as int]);
                    assert(levels_view(rest@) =~= levels_view(rpre).push((lp, es)));
                    assert(levels_view(rpre) + (seq![s0[i as int]] + post.1) =~= (levels_view(rpre)
                        + seq![s0[i as int]]) + post.1);
                    assert(levels_view(rest@) =~= levels_view(rpre) + seq![s0[i as int]]);
                }
            }
            i += 1;
        }
        proof {
            assert(s0.skip(n as int) =~= Seq::<LevelModel>::empty());
            assert(total.0 =~= levels_view(cur@));
            assert(total.1 =~= levels_view(rest@));
        }
        self.inner = cur;
        let out = PriceList { inner: rest };
        out
    }
}

} // verus!
