//! The trigger ledger: the set of untriggered threshold prices and the
//! crossing-detection rule.
//!
//! Thresholds are partitioned at startup against the initial observed price:
//! levels strictly above it are kept sorted ascending, levels strictly below
//! it sorted descending, and levels equal to it are dropped (there is no side
//! to break from, so they could never fire). Each evaluation checks only the
//! nearest remaining level on each side and consumes it when it is crossed,
//! so a threshold fires at most once for the life of the ledger.

use vstd::prelude::*;

verus! {

/// Which side of the starting price a threshold was crossed from.
#[derive(Clone, Copy, PartialEq, Eq, Structural, Debug)]
pub enum TriggerCause {
    /// The price moved to or above the threshold from below.
    BreakAboveEq,
    /// The price moved to or below the threshold from above.
    BreakBelowEq,
}

/// A crossing event: the threshold `trigger` was crossed in direction
/// `cause`. At most one event per side is produced by each evaluation.
#[derive(Clone, Copy, PartialEq, Eq, Structural, Debug)]
pub struct Crossing {
    pub trigger: i64,
    pub cause: TriggerCause,
}

/// Strictly ascending: sorted with no duplicates.
pub open spec fn sorted_strict_asc(s: Seq<i64>) -> bool {
    forall|i: int, j: int| 0 <= i < j < s.len() ==> s[i] < s[j]
}

/// Strictly descending: sorted with no duplicates.
pub open spec fn sorted_strict_desc(s: Seq<i64>) -> bool {
    forall|i: int, j: int| 0 <= i < j < s.len() ==> s[i] > s[j]
}

/// The mathematical state of a trigger ledger: the untriggered levels above
/// the starting price (ascending) and below it (descending).
#[verifier::ext_equal]
pub struct LedgerModel {
    pub above: Seq<i64>,
    pub below: Seq<i64>,
}

impl LedgerModel {
    /// Well-formed ledger state: each side is sorted strictly (so holds no
    /// duplicates), and every remaining below-level is smaller than every
    /// remaining above-level, so no level sits on both sides.
    pub open spec fn wf(self) -> bool {
        &&& sorted_strict_asc(self.above)
        &&& sorted_strict_desc(self.below)
        &&& forall|i: int, j: int|
            0 <= i < self.above.len() && 0 <= j < self.below.len()
                ==> self.below[j] < self.above[i]
    }

    /// The nearest (smallest) remaining above-level is crossed by `price`.
    pub open spec fn fires_above(self, price: i64) -> bool {
        self.above.len() > 0 && price >= self.above[0]
    }

    /// The nearest (largest) remaining below-level is crossed by `price`.
    pub open spec fn fires_below(self, price: i64) -> bool {
        self.below.len() > 0 && price <= self.below[0]
    }

    /// The events one evaluation of `price` produces: at most one per side,
    /// always for the level nearest the starting price.
    pub open spec fn events(self, price: i64) -> Seq<Crossing> {
        (if self.fires_above(price) {
            seq![(Crossing { trigger: self.above[0], cause: TriggerCause::BreakAboveEq })]
        } else {
            Seq::<Crossing>::empty()
        }) + (if self.fires_below(price) {
            seq![(Crossing { trigger: self.below[0], cause: TriggerCause::BreakBelowEq })]
        } else {
            Seq::<Crossing>::empty()
        })
    }

    /// The ledger state after one evaluation of `price`: each side that fired
    /// loses its nearest level, and nothing is ever added back.
    pub open spec fn step(self, price: i64) -> LedgerModel {
        LedgerModel {
            above: if self.fires_above(price) {
                self.above.drop_first()
            } else {
                self.above
            },
            below: if self.fires_below(price) {
                self.below.drop_first()
            } else {
                self.below
            },
        }
    }

    /// Whether the level `t` is still waiting to fire on either side.
    pub open spec fn mentions(self, t: i64) -> bool {
        self.above.contains(t) || self.below.contains(t)
    }

    /// All events produced over a whole run of sampled prices, in order.
    pub open spec fn run_events(self, prices: Seq<i64>) -> Seq<Crossing>
        decreases prices.len(),
    {
        if prices.len() == 0 {
            Seq::<Crossing>::empty()
        } else {
            self.events(prices[0]) + self.step(prices[0]).run_events(prices.drop_first())
        }
    }
}

/// How many of the events in `evs` fired for the threshold value `t`.
pub open spec fn fired_count(evs: Seq<Crossing>, t: i64) -> nat
    decreases evs.len(),
{
    if evs.len() == 0 {
        0
    } else {
        (if evs[0].trigger == t {
            1nat
        } else {
            0nat
        }) + fired_count(evs.drop_first(), t)
    }
}

/// Holds the untriggered threshold levels and consumes them as they fire.
pub struct TriggerLedger {
    pub above: Vec<i64>,
    pub below: Vec<i64>,
}

impl TriggerLedger {
    /// The mathematical state this ledger holds.
    pub open spec fn model(self) -> LedgerModel {
        LedgerModel { above: self.above@, below: self.below@ }
    }

    pub open spec fn wf(self) -> bool {
        self.model().wf()
    }

    /// Partitions the requested thresholds against the initial observed
    /// price: strictly greater levels land in `above` sorted ascending,
    /// strictly smaller ones in `below` sorted descending, each at most
    /// once; levels equal to the initial price land in neither.
    pub fn new(thresholds: &Vec<i64>, initial: i64) -> (ledger: TriggerLedger)
        ensures
            ledger.wf(),
            forall|t: i64|
                #[trigger] ledger.model().above.contains(t) <==> thresholds@.contains(t)
                    && t > initial,
            forall|t: i64|
                #[trigger] ledger.model().below.contains(t) <==> thresholds@.contains(t)
                    && t < initial,
    {
        let mut above: Vec<i64> = Vec::new();
        let mut below: Vec<i64> = Vec::new();
        let mut k: usize = 0;
        while k < thresholds.len()
            invariant
                k <= thresholds.len(),
                sorted_strict_asc(above@),
                sorted_strict_desc(below@),
                forall|t: i64|
                    above@.contains(t) <==> thresholds@.subrange(0, k as int).contains(t)
                        && t > initial,
                forall|t: i64|
                    below@.contains(t) <==> thresholds@.subrange(0, k as int).contains(t)
                        && t < initial,
            decreases thresholds.len() - k,
        {
            let t = thresholds[k];
            let ghost pre = thresholds@.subrange(0, k as int);
            proof {
                assert(pre.push(t) =~= thresholds@.subrange(0, (k + 1) as int));
                assert forall|x: i64|
                    thresholds@.subrange(0, (k + 1) as int).contains(x) <==> pre.contains(x)
                        || x == t by {
                    lemma_push_contains(pre, t, x);
                }
            }
            if t > initial {
                insert_sorted_asc(&mut above, t);
            } else if t < initial {
                insert_sorted_desc(&mut below, t);
            }
            k = k + 1;
        }
        proof {
            assert(thresholds@.subrange(0, thresholds@.len() as int) =~= thresholds@);
        }
        let ledger = TriggerLedger { above, below };
        proof {
            assert forall|i: int, j: int|
                0 <= i < ledger.model().above.len() && 0 <= j < ledger.model().below.len()
                implies ledger.model().below[j] < ledger.model().above[i] by {
                assert(ledger.model().above.contains(ledger.model().above[i]));
                assert(ledger.model().below.contains(ledger.model().below[j]));
            }
        }
        ledger
    }

    /// One evaluation tick. Consumes and reports the nearest above-level if
    /// `price` reached it, and the nearest below-level if `price` reached
    /// that, exactly as `LedgerModel::step` and `LedgerModel::events` state.
    pub fn evaluate(&mut self, price: i64) -> (events: Vec<Crossing>)
        requires
            old(self).wf(),
        ensures
            final(self).wf(),
            final(self).model() == old(self).model().step(price),
            events@ == old(self).model().events(price),
    {
        let ghost m0 = self.model();
        let mut events: Vec<Crossing> = Vec::new();
        if self.above.len() > 0 && price >= self.above[0] {
            let t = self.above.remove(0);
            events.push(Crossing { trigger: t, cause: TriggerCause::BreakAboveEq });
            proof {
                assert(self.above@ =~= m0.above.drop_first());
            }
        }
        if self.below.len() > 0 && price <= self.below[0] {
            let t = self.below.remove(0);
            events.push(Crossing { trigger: t, cause: TriggerCause::BreakBelowEq });
            proof {
                assert(self.below@ =~= m0.below.drop_first());
            }
        }
        proof {
            assert(self.model() =~= m0.step(price));
            assert(events@ =~= m0.events(price));
            lemma_step_preserves_wf(m0, price);
        }
        events
    }

    /// The ledger is exhausted once both sides are empty; it then never
    /// fires again.
    pub fn is_exhausted(&self) -> (r: bool)
        ensures
            r == (self.model().above.len() == 0 && self.model().below.len() == 0),
    {
        self.above.len() == 0 && self.below.len() == 0
    }
}

/// Inserts `x` into a strictly ascending vector, keeping it strictly
/// ascending; if `x` is already present the vector is unchanged.
fn insert_sorted_asc(v: &mut Vec<i64>, x: i64)
    requires
        sorted_strict_asc(old(v)@),
    ensures
        sorted_strict_asc(final(v)@),
        forall|t: i64| final(v)@.contains(t) <==> old(v)@.contains(t) || t == x,
{
    let ghost s0 = v@;
    let mut i: usize = 0;
    while i < v.len() && v[i] < x
        invariant
            v@ == s0,
            i <= v@.len(),
            sorted_strict_asc(v@),
            forall|k: int| 0 <= k < i ==> v@[k] < x,
        decreases v@.len() - i,
    {
        i = i + 1;
    }
    if i < v.len() && v[i] == x {
        proof {
            assert forall|t: i64| v@.contains(t) <==> s0.contains(t) || t == x by {
                assert(s0.contains(x)) by {
                    assert(s0[i as int] == x);
                }
            }
        }
        return ;
    }
    v.insert(i, x);
    proof {
        s0.insert_ensures(i as int, x);
        assert forall|p: int, q: int| 0 <= p < q < v@.len() implies v@[p] < v@[q] by {
            if q < i {
                assert(v@[p] == s0[p] && v@[q] == s0[q]);
            } else if p < i && q == i {
                assert(v@[p] == s0[p] && v@[q] == x);
            } else if p < i && q > i {
                assert(v@[p] == s0[p] && v@[q] == s0[q - 1]);
                assert(s0[p] < x);
                assert(i as int <= q - 1 < s0.len());
                assert(x < s0[q - 1] || x == s0[q - 1] || x > s0[q - 1]);
                assert(!(i < s0.len() && s0[i as int] < x));
                if i as int == q - 1 {
                    assert(s0[q - 1] >= x);
                    assert(s0[q - 1] != x);
                } else {
                    assert(s0[i as int] < s0[q - 1]);
                    assert(s0[i as int] >= x);
                }
            } else if p == i {
                assert(v@[p] == x && v@[q] == s0[q - 1]);
                assert(i as int <= q - 1 < s0.len());
                if i as int == q - 1 {
                    assert(s0[q - 1] >= x && s0[q - 1] != x);
                } else {
                    assert(s0[i as int] < s0[q - 1]);
                    assert(s0[i as int] >= x);
                    assert(s0[i as int] != x);
                }
            } else {
                assert(v@[p] == s0[p - 1] && v@[q] == s0[q - 1]);
            }
        }
        assert forall|t: i64| v@.contains(t) <==> s0.contains(t) || t == x by {
            if s0.contains(t) {
                let k = choose|k: int| 0 <= k < s0.len() && s0[k] == t;
                if k < i {
                    assert(v@[k] == t);
                } else {
                    assert(v@[k + 1] == t);
                }
            }
            assert(v@[i as int] == x);
            if v@.contains(t) {
                let k = choose|k: int| 0 <= k < v@.len() && v@[k] == t;
                if k < i {
                    assert(s0[k] == t);
                } else if k == i {
                    assert(t == x);
                } else {
                    assert(s0[k - 1] == t);
                }
            }
        }
    }
}

/// Inserts `x` into a strictly descending vector, keeping it strictly
/// descending; if `x` is already present the vector is unchanged.
fn insert_sorted_desc(v: &mut Vec<i64>, x: i64)
    requires
        sorted_strict_desc(old(v)@),
    ensures
        sorted_strict_desc(final(v)@),
        forall|t: i64| final(v)@.contains(t) <==> old(v)@.contains(t) || t == x,
{
    let ghost s0 = v@;
    let mut i: usize = 0;
    while i < v.len() && v[i] > x
        invariant
            v@ == s0,
            i <= v@.len(),
            sorted_strict_desc(v@),
            forall|k: int| 0 <= k < i ==> v@[k] > x,
        decreases v@.len() - i,
    {
        i = i + 1;
    }
    if i < v.len() && v[i] == x {
        proof {
            assert forall|t: i64| v@.contains(t) <==> s0.contains(t) || t == x by {
                assert(s0.contains(x)) by {
                    assert(s0[i as int] == x);
                }
            }
        }
        return ;
    }
    v.insert(i, x);
    proof {
        s0.insert_ensures(i as int, x);
        assert forall|p: int, q: int| 0 <= p < q < v@.len() implies v@[p] > v@[q] by {
            if q < i {
                assert(v@[p] == s0[p] && v@[q] == s0[q]);
            } else if p < i && q == i {
                assert(v@[p] == s0[p] && v@[q] == x);
            } else if p < i && q > i {
                assert(v@[p] == s0[p] && v@[q] == s0[q - 1]);
                assert(s0[p] > x);
                assert(i as int <= q - 1 < s0.len());
                if i as int == q - 1 {
                    assert(s0[q - 1] <= x && s0[q - 1] != x);
                } else {
                    assert(s0[i as int] > s0[q - 1]);
                    assert(s0[i as int] <= x);
                }
            } else if p == i {
                assert(v@[p] == x && v@[q] == s0[q - 1]);
                assert(i as int <= q - 1 < s0.len());
                if i as int == q - 1 {
                    assert(s0[q - 1] <= x && s0[q - 1] != x);
                } else {
                    assert(s0[i as int] > s0[q - 1]);
                    assert(s0[i as int] <= x);
                    assert(s0[i as int] != x);
                }
            } else {
                assert(v@[p] == s0[p - 1] && v@[q] == s0[q - 1]);
            }
        }
        assert forall|t: i64| v@.contains(t) <==> s0.contains(t) || t == x by {
            if s0.contains(t) {
                let k = choose|k: int| 0 <= k < s0.len() && s0[k] == t;
                if k < i {
                    assert(v@[k] == t);
                } else {
                    assert(v@[k + 1] == t);
                }
            }
            assert(v@[i as int] == x);
            if v@.contains(t) {
                let k = choose|k: int| 0 <= k < v@.len() && v@[k] == t;
                if k < i {
                    assert(s0[k] == t);
                } else if k == i {
                    assert(t == x);
                } else {
                    assert(s0[k - 1] == t);
                }
            }
        }
    }
}

/// Appending one element to a sequence adds exactly that element to its
/// contents.
proof fn lemma_push_contains(s: Seq<i64>, x: i64, t: i64)
    ensures
        s.push(x).contains(t) <==> s.contains(t) || t == x,
{
    assert(s.push(x)[s.len() as int] == x);
    if s.contains(t) {
        let k = choose|k: int| 0 <= k < s.len() && s[k] == t;
        assert(s.push(x)[k] == t);
    }
    if s.push(x).contains(t) {
        let k = choose|k: int| 0 <= k < s.push(x).len() && s.push(x)[k] == t;
        if k < s.len() {
            assert(s[k] == t);
        }
    }
}

/// One evaluation keeps the ledger well-formed: dropping the nearest level
/// of a strictly sorted side leaves it strictly sorted and still separated
/// from the other side.
pub proof fn lemma_step_preserves_wf(m: LedgerModel, price: i64)
    requires
        m.wf(),
    ensures
        m.step(price).wf(),
{
    if m.fires_above(price) {
        assert forall|i: int, j: int| 0 <= i < j < m.above.drop_first().len()
            implies m.above.drop_first()[i] < m.above.drop_first()[j] by {
            assert(m.above.drop_first()[i] == m.above[i + 1]);
            assert(m.above.drop_first()[j] == m.above[j + 1]);
        }
    }
    if m.fires_below(price) {
        assert forall|i: int, j: int| 0 <= i < j < m.below.drop_first().len()
            implies m.below.drop_first()[i] > m.below.drop_first()[j] by {
            assert(m.below.drop_first()[i] == m.below[i + 1]);
            assert(m.below.drop_first()[j] == m.below[j + 1]);
        }
    }
}

/// Law: an evaluation that fires nothing changes nothing, so evaluating the
/// same price again still fires nothing.
pub proof fn lemma_quiet_price_stays_quiet(m: LedgerModel, price: i64)
    requires
        m.events(price).len() == 0,
    ensures
        m.step(price) == m,
        m.step(price).events(price).len() == 0,
{
    assert(m.step(price) =~= m);
}

/// `fired_count` distributes over concatenation.
proof fn lemma_fired_count_add(a: Seq<Crossing>, b: Seq<Crossing>, t: i64)
    ensures
        fired_count(a + b, t) == fired_count(a, t) + fired_count(b, t),
    decreases a.len(),
{
    if a.len() == 0 {
        assert(a + b =~= b);
    } else {
        assert((a + b)[0] == a[0]);
        assert((a + b).drop_first() =~= a.drop_first() + b);
        lemma_fired_count_add(a.drop_first(), b, t);
    }
}

/// One evaluation fires a given threshold value at most once, and when it
/// does, the threshold is gone from the ledger afterwards; an evaluation
/// never fires a value the ledger does not hold, and never adds one.
pub proof fn lemma_evaluation_consumes(m: LedgerModel, price: i64, t: i64)
    requires
        m.wf(),
    ensures
        fired_count(m.events(price), t) <= 1,
        fired_count(m.events(price), t) >= 1 ==> !m.step(price).mentions(t),
        !m.mentions(t) ==> fired_count(m.events(price), t) == 0,
        m.step(price).mentions(t) ==> m.mentions(t),
{
    let evs = m.events(price);
    assert(fired_count(Seq::<Crossing>::empty(), t) == 0);
    if evs.len() > 0 {
        assert(fired_count(evs, t) == (if evs[0].trigger == t {
            1nat
        } else {
            0nat
        }) + fired_count(evs.drop_first(), t));
        if evs.drop_first().len() > 0 {
            assert(fired_count(evs.drop_first(), t) == (if evs.drop_first()[0].trigger == t {
                1nat
            } else {
                0nat
            }) + fired_count(evs.drop_first().drop_first(), t));
            assert(evs.drop_first().drop_first().len() == 0);
        }
    }
    if m.fires_above(price) && m.fires_below(price) {
        // the two fired levels sit on opposite sides of the starting price
        assert(m.below[0] < m.above[0]);
    }
    if m.above.len() > 0 {
        assert(m.above.contains(m.above[0]));
    }
    if m.below.len() > 0 {
        assert(m.below.contains(m.below[0]));
    }
    assert forall|x: i64| m.step(price).mentions(x) implies m.mentions(x) by {
        lemma_drop_first_contains(m.above, x);
        lemma_drop_first_contains(m.below, x);
    }
    if fired_count(evs, t) >= 1 {
        if m.fires_above(price) && t == m.above[0] {
            assert(!m.above.drop_first().contains(t)) by {
                if m.above.drop_first().contains(t) {
                    let k = choose|k: int|
                        0 <= k < m.above.drop_first().len() && m.above.drop_first()[k] == t;
                    assert(m.above[k + 1] == t);
                }
            }
            assert(!m.below.contains(t)) by {
                if m.below.contains(t) {
                    let k = choose|k: int| 0 <= k < m.below.len() && m.below[k] == t;
                }
            }
            lemma_drop_first_contains(m.below, t);
        } else {
            assert(m.fires_below(price) && t == m.below[0]);
            assert(!m.below.drop_first().contains(t)) by {
                if m.below.drop_first().contains(t) {
                    let k = choose|k: int|
                        0 <= k < m.below.drop_first().len() && m.below.drop_first()[k] == t;
                    assert(m.below[k + 1] == t);
                }
            }
            assert(!m.above.contains(t)) by {
                if m.above.contains(t) {
                    let k = choose|k: int| 0 <= k < m.above.len() && m.above[k] == t;
                }
            }
            lemma_drop_first_contains(m.above, t);
        }
    }
}

/// Dropping the first element of a sequence adds nothing to its contents.
proof fn lemma_drop_first_contains(s: Seq<i64>, t: i64)
    ensures
        s.len() > 0 && s.drop_first().contains(t) ==> s.contains(t),
{
    if s.len() > 0 && s.drop_first().contains(t) {
        let k = choose|k: int| 0 <= k < s.drop_first().len() && s.drop_first()[k] == t;
        assert(s[k + 1] == t);
    }
}

/// A threshold value the ledger does not hold never fires, over any run.
proof fn lemma_unmentioned_never_fires(m: LedgerModel, prices: Seq<i64>, t: i64)
    requires
        m.wf(),
        !m.mentions(t),
    ensures
        fired_count(m.run_events(prices), t) == 0,
    decreases prices.len(),
{
    if prices.len() == 0 {
        assert(fired_count(Seq::<Crossing>::empty(), t) == 0);
    } else {
        let p = prices[0];
        lemma_evaluation_consumes(m, p, t);
        lemma_step_preserves_wf(m, p);
        lemma_unmentioned_never_fires(m.step(p), prices.drop_first(), t);
        lemma_fired_count_add(m.events(p), m.step(p).run_events(prices.drop_first()), t);
    }
}

/// Law: over any run of sampled prices, each threshold value produces at
/// most one crossing event for the life of the ledger (one-shot firing).
pub proof fn lemma_one_shot_firing(m: LedgerModel, prices: Seq<i64>, t: i64)
    requires
        m.wf(),
    ensures
        fired_count(m.run_events(prices), t) <= 1,
    decreases prices.len(),
{
    if prices.len() == 0 {
        assert(fired_count(Seq::<Crossing>::empty(), t) == 0);
    } else {
        let p = prices[0];
        lemma_evaluation_consumes(m, p, t);
        lemma_step_preserves_wf(m, p);
        lemma_fired_count_add(m.events(p), m.step(p).run_events(prices.drop_first()), t);
        if fired_count(m.events(p), t) >= 1 {
            lemma_unmentioned_never_fires(m.step(p), prices.drop_first(), t);
        } else {
            lemma_one_shot_firing(m.step(p), prices.drop_first(), t);
        }
    }
}

} // verus!
