//! A total order over segment identifiers that survives insertion and
//! deletion.
//!
//! Identifiers are handed out once and never again, so the relative position
//! of two identifiers never changes while both are live.  The order is kept as
//! the vector of live identifiers with a reverse index from identifier to
//! position, which makes a comparison two lookups.

use vstd::prelude::*;
use std::cmp::Ordering;

verus! {

/// An opaque handle for a segment.
#[derive(Copy, Clone, Debug, PartialEq, Eq, Hash, Structural)]
pub struct SegmentId(pub u32);

/// The mathematical content of a `SegmentOrder`.
pub struct OrderView {
    /// The live identifiers, first to last.
    pub ids: Seq<SegmentId>,
    /// Every identifier ever handed out is below this number.
    pub next: nat,
}

impl OrderView {
    /// `id` is in the order.
    pub open spec fn live(self, id: SegmentId) -> bool {
        self.ids.contains(id)
    }

    /// The position of a live identifier, counted from the start.
    pub open spec fn rank(self, id: SegmentId) -> int {
        self.ids.index_of(id)
    }

    /// Both identifiers are live and `a` comes strictly before `b`.
    pub open spec fn precedes(self, a: SegmentId, b: SegmentId) -> bool {
        self.live(a) && self.live(b) && self.rank(a) < self.rank(b)
    }

    /// Both identifiers are live, `a` comes before `b`, and no live
    /// identifier lies strictly between them.
    pub open spec fn adjacent(self, a: SegmentId, b: SegmentId) -> bool {
        self.live(a) && self.live(b) && self.rank(b) == self.rank(a) + 1
    }

    /// The order starts with the start marker, holds no identifier twice, and
    /// has handed out every identifier it holds.
    pub open spec fn valid(self) -> bool {
        &&& self.ids.len() > 0
        &&& self.ids[0] == SegmentId(0)
        &&& self.ids.no_duplicates()
        &&& forall|i: int| 0 <= i < self.ids.len() ==> (#[trigger] self.ids[i]).0 < self.next
    }

    /// `later` can be reached from `self` by allocating and freeing: no
    /// identifier was handed out a second time, and two identifiers that are
    /// live in both are in the same relative order in both.
    pub open spec fn evolves_to(self, later: OrderView) -> bool {
        &&& self.next <= later.next
        &&& forall|id: SegmentId|
            #![trigger later.live(id)]
            later.live(id) && !self.live(id) ==> id.0 >= self.next
        &&& forall|a: SegmentId, b: SegmentId|
            #![trigger later.precedes(a, b)]
            #![trigger self.precedes(a, b)]
            self.live(a) && self.live(b) && later.live(a) && later.live(b) ==> (later.precedes(
                a,
                b,
            ) <==> self.precedes(a, b))
    }

    /// In a valid order the identifier at position `i` has rank `i`.
    pub proof fn lemma_rank(self, i: int)
        requires
            self.ids.no_duplicates(),
            0 <= i < self.ids.len(),
        ensures
            self.live(self.ids[i]),
            self.rank(self.ids[i]) == i,
    {
        let k = self.ids.index_of(self.ids[i]);
        assert(0 <= k < self.ids.len() && self.ids[k] == self.ids[i]);
    }

    /// A live identifier has a rank inside the order and sits at it.
    pub proof fn lemma_live(self, id: SegmentId)
        requires
            self.live(id),
        ensures
            0 <= self.rank(id) < self.ids.len(),
            self.ids[self.rank(id)] == id,
    {
    }

    /// Comparison is a strict total order on the live identifiers.
    pub proof fn lemma_strict_total_order(self, a: SegmentId, b: SegmentId, c: SegmentId)
        requires
            self.ids.no_duplicates(),
            self.live(a),
            self.live(b),
            self.live(c),
        ensures
            !self.precedes(a, a),
            a != b ==> (self.precedes(a, b) <==> !self.precedes(b, a)),
            self.precedes(a, b) && self.precedes(b, c) ==> self.precedes(a, c),
    {
        self.lemma_live(a);
        self.lemma_live(b);
    }

    /// Every order evolves to itself.
    pub proof fn lemma_evolves_reflexive(self)
        ensures
            self.evolves_to(self),
    {
    }

    /// Evolution composes.
    pub proof fn lemma_evolves_transitive(self, mid: OrderView, later: OrderView)
        requires
            self.valid(),
            self.evolves_to(mid),
            mid.evolves_to(later),
        ensures
            self.evolves_to(later),
    {
        assert forall|id: SegmentId| self.live(id) && later.live(id) implies mid.live(id) by {
            self.lemma_live(id);
            if !mid.live(id) {
                assert(id.0 >= mid.next);
            }
        }
        assert forall|a: SegmentId, b: SegmentId|
            self.live(a) && self.live(b) && later.live(a) && later.live(b) implies (later.precedes(
            a,
            b,
        ) <==> self.precedes(a, b)) by {
            assert(mid.live(a) && mid.live(b));
            assert(later.precedes(a, b) <==> mid.precedes(a, b));
            assert(mid.precedes(a, b) <==> self.precedes(a, b));
        }
    }

    /// The order after a fresh identifier was put at position `at`.
    pub open spec fn with_inserted(self, at: int, id: SegmentId) -> OrderView {
        OrderView { ids: self.ids.insert(at, id), next: self.next + 1 }
    }

    /// The order after the identifier at position `at` was taken out.
    pub open spec fn with_removed(self, at: int) -> OrderView {
        OrderView { ids: self.ids.remove(at), next: self.next }
    }

    /// Putting the next fresh identifier anywhere behind the start marker
    /// keeps the order valid, moves no other identifier past another, and
    /// places the new one at the chosen position.
    pub proof fn lemma_insert(self, at: int, id: SegmentId)
        requires
            self.valid(),
            1 <= at <= self.ids.len(),
            id.0 == self.next,
        ensures
            !self.live(id),
            self.with_inserted(at, id).valid(),
            self.evolves_to(self.with_inserted(at, id)),
            self.with_inserted(at, id).live(id),
            self.with_inserted(at, id).rank(id) == at,
            forall|x: SegmentId|
                #![trigger self.with_inserted(at, id).rank(x)]
                #![trigger self.with_inserted(at, id).live(x)]
                self.live(x) ==> self.with_inserted(at, id).live(x) && self.with_inserted(
                    at,
                    id,
                ).rank(x) == if self.rank(x) < at {
                    self.rank(x)
                } else {
                    self.rank(x) + 1
                },
            forall|x: SegmentId|
                #![trigger self.with_inserted(at, id).live(x)]
                self.with_inserted(at, id).live(x) ==> x == id || self.live(x),
    {
        let later = self.with_inserted(at, id);
        assert forall|i: int| 0 <= i < later.ids.len() implies (#[trigger] later.ids[i]).0
            < later.next by {
            if i < at {
                assert(later.ids[i] == self.ids[i]);
            } else if i > at {
                assert(later.ids[i] == self.ids[i - 1]);
            }
        }
        assert forall|i: int, j: int|
            0 <= i < later.ids.len() && 0 <= j < later.ids.len() && i != j implies later.ids[i]
            != later.ids[j] by {
            let a = if i < at { i } else { i - 1 };
            let b = if j < at { j } else { j - 1 };
            if i != at && j != at {
                assert(later.ids[i] == self.ids[a] && later.ids[j] == self.ids[b]);
            } else if i == at {
                assert(later.ids[j] == self.ids[b]);
            } else {
                assert(later.ids[i] == self.ids[a]);
            }
        }
        assert(later.ids[at] == id);
        later.lemma_rank(at);
        assert forall|x: SegmentId| self.live(x) implies later.live(x) && later.rank(x) == if self.rank(
            x,
        ) < at {
            self.rank(x)
        } else {
            self.rank(x) + 1
        } by {
            self.lemma_live(x);
            let r = self.rank(x);
            let r2 = if r < at { r } else { r + 1 };
            assert(later.ids[r2] == x);
            later.lemma_rank(r2);
        }
        assert forall|x: SegmentId| later.live(x) implies x == id || self.live(x) by {
            later.lemma_live(x);
            let r = later.rank(x);
            if r < at {
                assert(self.ids[r] == x);
            } else if r > at {
                assert(self.ids[r - 1] == x);
            }
        }
        if self.live(id) {
            self.lemma_live(id);
        }
    }

    /// Taking an identifier other than the start marker out keeps the order
    /// valid and moves no other identifier past another.
    pub proof fn lemma_remove(self, at: int)
        requires
            self.valid(),
            1 <= at < self.ids.len(),
        ensures
            self.with_removed(at).valid(),
            self.evolves_to(self.with_removed(at)),
            !self.with_removed(at).live(self.ids[at]),
            forall|x: SegmentId|
                #![trigger self.with_removed(at).rank(x)]
                #![trigger self.with_removed(at).live(x)]
                self.live(x) && x != self.ids[at] ==> self.with_removed(at).live(x)
                    && self.with_removed(at).rank(x) == if self.rank(x) < at {
                    self.rank(x)
                } else {
                    self.rank(x) - 1
                },
            forall|x: SegmentId|
                #![trigger self.with_removed(at).live(x)]
                self.with_removed(at).live(x) ==> self.live(x) && x != self.ids[at],
    {
        let later = self.with_removed(at);
        assert forall|i: int| 0 <= i < later.ids.len() implies (#[trigger] later.ids[i]).0
            < later.next by {
            if i < at {
                assert(later.ids[i] == self.ids[i]);
            } else {
                assert(later.ids[i] == self.ids[i + 1]);
            }
        }
        assert forall|i: int, j: int|
            0 <= i < later.ids.len() && 0 <= j < later.ids.len() && i != j implies later.ids[i]
            != later.ids[j] by {
            let a = if i < at { i } else { i + 1 };
            let b = if j < at { j } else { j + 1 };
            assert(later.ids[i] == self.ids[a] && later.ids[j] == self.ids[b]);
        }
        assert forall|x: SegmentId| later.live(x) implies self.live(x) && x != self.ids[at] by {
            later.lemma_live(x);
            let r = later.rank(x);
            let a = if r < at { r } else { r + 1 };
            assert(self.ids[a] == x);
        }
        assert forall|x: SegmentId| self.live(x) && x != self.ids[at] implies later.live(x)
            && later.rank(x) == if self.rank(x) < at {
            self.rank(x)
        } else {
            self.rank(x) - 1
        } by {
            self.lemma_live(x);
            let r = self.rank(x);
            let r2 = if r < at { r } else { r - 1 };
            assert(later.ids[r2] == x);
            later.lemma_rank(r2);
        }
    }
}

/// Order stability: along any history of orders in which each step is the
/// effect of one allocation or one free, two identifiers that are live at the
/// start and at the end are in the same relative order at both, whatever was
/// allocated or freed in between.
pub proof fn order_stability(history: Seq<OrderView>)
    requires
        history.len() > 0,
        forall|i: int| 0 <= i < history.len() ==> (#[trigger] history[i]).valid(),
        forall|i: int|
            0 <= i < history.len() - 1 ==> (#[trigger] history[i]).evolves_to(history[i + 1]),
    ensures
        history[0].evolves_to(history.last()),
        forall|a: SegmentId, b: SegmentId|
            history[0].live(a) && history[0].live(b) && history.last().live(a)
                && history.last().live(b) ==> (history[0].precedes(a, b)
                <==> #[trigger] history.last().precedes(a, b)),
    decreases history.len(),
{
    if history.len() == 1 {
        history[0].lemma_evolves_reflexive();
    } else {
        let shorter = history.drop_last();
        assert forall|i: int| 0 <= i < shorter.len() - 1 implies (#[trigger] shorter[i]).evolves_to(
            shorter[i + 1],
        ) by {
            assert(history[i].evolves_to(history[i + 1]));
        }
        assert forall|i: int| 0 <= i < shorter.len() implies (#[trigger] shorter[i]).valid() by {
            assert(history[i].valid());
        }
        order_stability(shorter);
        let n = history.len() - 1;
        assert(history[n - 1].evolves_to(history[n - 1 + 1]));
        assert(shorter.last() == history[n - 1]);
        history[0].lemma_evolves_transitive(history[n - 1], history[n]);
    }
}

/// The reverse-index entry of an identifier that is not live.
const NOT_LIVE: usize = usize::MAX;

/// A total order over the live segment identifiers.
pub struct SegmentOrder {
    /// The next identifier to hand out.
    high_water: u32,
    /// The live identifiers, first to last.
    order: Vec<SegmentId>,
    /// For each identifier handed out so far, its position in `order`.
    reverse: Vec<usize>,
}

/// `reverse` is the inverse of `order` on the identifiers below `high_water`.
spec fn indexed(order: Seq<SegmentId>, reverse: Seq<usize>, high_water: nat) -> bool {
    &&& reverse.len() == high_water
    &&& order.len() <= high_water <= u32::MAX
    &&& forall|i: int|
        0 <= i < order.len() ==> (#[trigger] order[i]).0 < high_water && reverse[order[i].0 as int]
            == i
    &&& forall|n: int|
        0 <= n < high_water && #[trigger] reverse[n] != NOT_LIVE ==> 0 <= reverse[n] < order.len()
            && order[reverse[n] as int].0 == n
}

proof fn lemma_indexed_valid(order: Seq<SegmentId>, reverse: Seq<usize>, high_water: nat)
    requires
        indexed(order, reverse, high_water),
    ensures
        order.no_duplicates(),
        forall|id: SegmentId|
            order.contains(id) <==> id.0 < high_water && #[trigger] reverse[id.0 as int]
                != NOT_LIVE,
        forall|id: SegmentId|
            order.contains(id) ==> #[trigger] order.index_of(id) == reverse[id.0 as int],
{
    assert forall|i: int, j: int| 0 <= i < order.len() && 0 <= j < order.len() && i != j implies order[i]
        != order[j] by {
        assert(reverse[order[i].0 as int] == i);
        assert(reverse[order[j].0 as int] == j);
    }
    assert forall|id: SegmentId|
        id.0 < high_water && #[trigger] reverse[id.0 as int] != NOT_LIVE implies order.contains(
        id,
    ) by {
        assert(order[reverse[id.0 as int] as int] == id);
    }
    assert forall|id: SegmentId| order.contains(id) implies #[trigger] order.index_of(id)
        == reverse[id.0 as int] by {
        let k = order.index_of(id);
        assert(order[k] == id);
    }
}

impl SegmentOrder {
    /// The reverse index agrees with the order, which starts with the start
    /// marker.
    pub closed spec fn wf(&self) -> bool {
        &&& self.order@.len() > 0
        &&& self.order@[0] == SegmentId(0)
        &&& indexed(self.order@, self.reverse@, self.high_water as nat)
    }

    /// The live identifiers in order, and the bound on all identifiers
    /// handed out.
    pub closed spec fn view(&self) -> OrderView {
        OrderView { ids: self.order@, next: self.high_water as nat }
    }

    /// The start marker: an identifier that is always live and always first.
    pub open spec fn start_id() -> SegmentId {
        SegmentId(0)
    }

    /// Room is left for `n` more identifiers.
    pub open spec fn has_room(&self, n: nat) -> bool {
        self@.next + n <= u32::MAX
    }

    /// A well-formed order has a valid view.
    pub proof fn lemma_valid(&self)
        requires
            self.wf(),
        ensures
            self@.valid(),
    {
        lemma_indexed_valid(self.order@, self.reverse@, self.high_water as nat);
    }

    proof fn lemma_lookup(&self)
        requires
            self.wf(),
        ensures
            self@.valid(),
            forall|id: SegmentId|
                self@.live(id) <==> id.0 < self.high_water && #[trigger] self.reverse@[id.0 as int]
                    != NOT_LIVE,
            forall|id: SegmentId|
                self@.live(id) ==> #[trigger] self@.rank(id) == self.reverse@[id.0 as int],
    {
        lemma_indexed_valid(self.order@, self.reverse@, self.high_water as nat);
    }

    /// An order that holds the start marker alone.
    pub fn new() -> (order: Self)
        ensures
            order.wf(),
            order@.ids == seq![Self::start_id()],
            order@.next == 1,
    {
        let mut order: Vec<SegmentId> = Vec::new();
        order.push(SegmentId(0));
        let mut reverse: Vec<usize> = Vec::new();
        reverse.push(0);
        assert(order@ =~= seq![SegmentId(0)]);
        SegmentOrder { high_water: 1, order, reverse }
    }

    /// The start marker.
    pub fn start(&self) -> (id: SegmentId)
        requires
            self.wf(),
        ensures
            id == Self::start_id(),
            self@.live(id),
            self@.rank(id) == 0,
    {
        proof {
            self.lemma_lookup();
            self@.lemma_rank(0);
        }
        SegmentId(0)
    }

    /// The position of `id` in the order, if it is live.
    fn position(&self, id: SegmentId) -> (at: Option<usize>)
        requires
            self.wf(),
        ensures
            at is Some <==> self@.live(id),
            at matches Some(p) ==> p == self@.rank(id) && p < self@.ids.len(),
    {
        proof {
            self.lemma_lookup();
        }
        if id.0 < self.high_water {
            let p = self.reverse[id.0 as usize];
            if p != NOT_LIVE {
                return Some(p);
            }
        }
        None
    }

    /// Whether `id` is live.
    pub fn is_live(&self, id: SegmentId) -> (live: bool)
        requires
            self.wf(),
        ensures
            live == self@.live(id),
    {
        self.position(id).is_some()
    }

    /// The number of identifiers that can still be handed out.
    pub fn room(&self) -> (n: u32)
        requires
            self.wf(),
        ensures
            n == u32::MAX - self@.next,
    {
        u32::MAX - self.high_water
    }

    /// The number of live identifiers, the start marker included.
    pub fn len(&self) -> (n: usize)
        ensures
            n == self@.ids.len(),
    {
        self.order.len()
    }

    /// Makes `reverse` right again for the positions from `from` on.
    fn reindex(&mut self, from: usize)
        requires
            old(self).order@.len() <= old(self).high_water <= u32::MAX,
            old(self).reverse@.len() == old(self).high_water,
            forall|i: int|
                0 <= i < old(self).order@.len() ==> (#[trigger] old(self).order@[i]).0 < old(
                    self).high_water,
            old(self).order@.no_duplicates(),
            forall|i: int|
                0 <= i < from && i < old(self).order@.len() ==> old(self).reverse@[(
                #[trigger] old(self).order@[i]).0 as int] == i,
            forall|n: int|
                0 <= n < old(self).high_water && #[trigger] old(self).reverse@[n] != NOT_LIVE
                    ==> exists|i: int|
                    0 <= i < old(self).order@.len() && (#[trigger] old(self).order@[i]).0 == n,
        ensures
            final(self).order == old(self).order,
            final(self).high_water == old(self).high_water,
            indexed(final(self).order@, final(self).reverse@, final(self).high_water as nat),
    {
        let n = self.order.len();
        let mut i = from;
        while i < n
            invariant
                n == self.order@.len(),
                self.order == old(self).order,
                self.high_water == old(self).high_water,
                self.order@.len() <= self.high_water <= u32::MAX,
                self.reverse@.len() == self.high_water,
                forall|i: int|
                    0 <= i < self.order@.len() ==> (#[trigger] self.order@[i]).0 < self.high_water,
                self.order@.no_duplicates(),
                forall|j: int|
                    0 <= j < i && j < self.order@.len() ==> self.reverse@[(
                    #[trigger] self.order@[j]).0 as int] == j,
                forall|n: int|
                    0 <= n < self.high_water && #[trigger] self.reverse@[n] != NOT_LIVE
                        ==> exists|i: int|
                        0 <= i < self.order@.len() && (#[trigger] self.order@[i]).0 == n,
            decreases n - i,
        {
            let id = self.order[i];
            let ghost before = self.reverse@;
            self.reverse.set(id.0 as usize, i);
            proof {
                assert forall|j: int| 0 <= j < i + 1 && j < self.order@.len() implies self.reverse@[(
                #[trigger] self.order@[j]).0 as int] == j by {
                    if j < i {
                        assert(self.order@[j] != self.order@[i as int]);
                        assert(before[self.order@[j].0 as int] == j);
                    }
                }
                assert forall|m: int|
                    0 <= m < self.high_water && #[trigger] self.reverse@[m]
                        != NOT_LIVE implies exists|k: int|
                    0 <= k < self.order@.len() && (#[trigger] self.order@[k]).0 == m by {
                    if m == id.0 {
                        assert(self.order@[i as int].0 == m);
                    } else {
                        assert(self.reverse@[m] == before[m]);
                        assert(before[m] != NOT_LIVE);
                        let k = choose|k: int|
                            0 <= k < self.order@.len() && (#[trigger] self.order@[k]).0 == m;
                        assert(self.order@[k].0 == m);
                    }
                }
            }
            i += 1;
        }
        proof {
            assert forall|n: int|
                0 <= n < self.high_water && #[trigger] self.reverse@[n] != NOT_LIVE implies 0
                <= self.reverse@[n] < self.order@.len() && self.order@[self.reverse@[n] as int].0
                == n by {
                let k = choose|k: int|
                    0 <= k < self.order@.len() && (#[trigger] self.order@[k]).0 == n;
                assert(self.reverse@[self.order@[k].0 as int] == k);
            }
        }
    }

    /// Hands out the next identifier and puts it at position `at`.
    fn insert_at(&mut self, at: usize) -> (id: SegmentId)
        requires
            old(self).wf(),
            1 <= at <= old(self)@.ids.len(),
            old(self).has_room(1),
        ensures
            final(self).wf(),
            id.0 == old(self)@.next,
            final(self)@ == old(self)@.with_inserted(at as int, id),
    {
        let id = SegmentId(self.high_water);
        let ghost before = *self;
        proof {
            self.lemma_lookup();
            self@.lemma_insert(at as int, id);
        }
        self.order.insert(at, id);
        self.reverse.push(at);
        self.high_water = self.high_water + 1;
        proof {
            assert(self.order@ == before@.with_inserted(at as int, id).ids);
            assert forall|i: int| 0 <= i < at && i < self.order@.len() implies self.reverse@[(
            #[trigger] self.order@[i]).0 as int] == i by {
                assert(self.order@[i] == before.order@[i]);
            }
            assert forall|m: int|
                0 <= m < self.high_water && #[trigger] self.reverse@[m] != NOT_LIVE implies exists|
                k: int,
            | 0 <= k < self.order@.len() && (#[trigger] self.order@[k]).0 == m by {
                if m == id.0 {
                    assert(self.order@[at as int].0 == m);
                } else {
                    let r = before.reverse@[m] as int;
                    assert(before.order@[r].0 == m);
                    let r2 = if r < at { r } else { r + 1 };
                    assert(self.order@[r2].0 == m);
                }
            }
        }
        self.reindex(at);
        id
    }

    /// Allocates a fresh identifier directly behind `id`.
    pub fn allocate_after(&mut self, id: SegmentId) -> (fresh: SegmentId)
        requires
            old(self).wf(),
            old(self)@.live(id),
            old(self).has_room(1),
        ensures
            final(self).wf(),
            !old(self)@.live(fresh),
            fresh.0 == old(self)@.next,
            final(self)@ == old(self)@.with_inserted(old(self)@.rank(id) + 1, fresh),
            final(self)@.adjacent(id, fresh),
            old(self)@.evolves_to(final(self)@),
    {
        let at = self.position(id).unwrap();
        proof {
            self.lemma_lookup();
            self@.lemma_insert(at + 1, SegmentId(self.high_water));
        }
        self.insert_at(at + 1)
    }

    /// Allocates a fresh identifier between two neighbours.
    pub fn allocate_between(&mut self, a: SegmentId, b: SegmentId) -> (fresh: SegmentId)
        requires
            old(self).wf(),
            old(self)@.adjacent(a, b),
            old(self).has_room(1),
        ensures
            final(self).wf(),
            !old(self)@.live(fresh),
            fresh.0 == old(self)@.next,
            final(self)@ == old(self)@.with_inserted(old(self)@.rank(b), fresh),
            final(self)@.adjacent(a, fresh),
            final(self)@.adjacent(fresh, b),
            old(self)@.evolves_to(final(self)@),
    {
        let at = self.position(b).unwrap();
        proof {
            self.lemma_lookup();
            self@.lemma_live(a);
            self@.lemma_insert(at as int, SegmentId(self.high_water));
        }
        self.insert_at(at)
    }

    /// Allocates `n` fresh identifiers behind all live ones, in order.
    pub fn allocate_initial(&mut self, n: usize) -> (fresh: Vec<SegmentId>)
        requires
            old(self).wf(),
            old(self).has_room(n as nat),
        ensures
            final(self).wf(),
            fresh@.len() == n,
            forall|i: int| 0 <= i < n ==> (#[trigger] fresh@[i]).0 == old(self)@.next + i,
            final(self)@.ids == old(self)@.ids + fresh@,
            final(self)@.next == old(self)@.next + n,
            old(self)@.evolves_to(final(self)@),
    {
        let ghost start = self@;
        let mut fresh: Vec<SegmentId> = Vec::new();
        proof {
            self.lemma_valid();
            start.lemma_evolves_reflexive();
            assert(self@.ids =~= start.ids + fresh@);
        }
        let mut i: usize = 0;
        while i < n
            invariant
                i <= n,
                self.wf(),
                start.valid(),
                start.next + n <= u32::MAX,
                fresh@.len() == i,
                forall|j: int| 0 <= j < i ==> (#[trigger] fresh@[j]).0 == start.next + j,
                self@.ids == start.ids + fresh@,
                self@.next == start.next + i,
                start.evolves_to(self@),
            decreases n - i,
        {
            let ghost mid = self@;
            let at = self.order.len();
            proof {
                self.lemma_valid();
                mid.lemma_insert(at as int, SegmentId(self.high_water));
            }
            let id = self.insert_at(at);
            fresh.push(id);
            proof {
                start.lemma_evolves_transitive(mid, self@);
                assert(self@.ids =~= start.ids + fresh@);
            }
            i += 1;
        }
        fresh
    }

    /// Frees a live identifier other than the start marker.
    pub fn free(&mut self, id: SegmentId)
        requires
            old(self).wf(),
            old(self)@.live(id),
            id != Self::start_id(),
        ensures
            final(self).wf(),
            final(self)@ == old(self)@.with_removed(old(self)@.rank(id)),
            !final(self)@.live(id),
            old(self)@.evolves_to(final(self)@),
    {
        let at = self.position(id).unwrap();
        let ghost before = *self;
        proof {
            self.lemma_lookup();
            self@.lemma_live(id);
            self@.lemma_remove(at as int);
        }
        self.order.remove(at);
        self.reverse.set(id.0 as usize, NOT_LIVE);
        proof {
            assert(self.order@ == before@.with_removed(at as int).ids);
            assert forall|i: int| 0 <= i < at && i < self.order@.len() implies self.reverse@[(
            #[trigger] self.order@[i]).0 as int] == i by {
                assert(self.order@[i] == before.order@[i]);
            }
            assert forall|m: int|
                0 <= m < self.high_water && #[trigger] self.reverse@[m] != NOT_LIVE implies exists|
                k: int,
            | 0 <= k < self.order@.len() && (#[trigger] self.order@[k]).0 == m by {
                let r = before.reverse@[m] as int;
                assert(before.order@[r].0 == m);
                let r2 = if r < at { r } else { r - 1 };
                assert(self.order@[r2].0 == m);
            }
        }
        self.reindex(at);
    }

    /// A copy of the order.
    pub fn duplicate(&self) -> (copy: Self)
        requires
            self.wf(),
        ensures
            copy.wf(),
            copy@ == self@,
    {
        let order = self.order.clone();
        let reverse = self.reverse.clone();
        assert(order@ =~= self.order@);
        assert(reverse@ =~= self.reverse@);
        SegmentOrder { high_water: self.high_water, order, reverse }
    }

    /// The live identifier directly behind `id`, if `id` is not the last.
    pub fn successor(&self, id: SegmentId) -> (next: Option<SegmentId>)
        requires
            self.wf(),
            self@.live(id),
        ensures
            match next {
                Some(b) => self@.adjacent(id, b),
                None => self@.rank(id) == self@.ids.len() - 1,
            },
    {
        let at = self.position(id).unwrap();
        if at + 1 < self.order.len() {
            let b = self.order[at + 1];
            proof {
                self.lemma_lookup();
                self@.lemma_rank(at + 1);
            }
            Some(b)
        } else {
            None
        }
    }

    /// Whether `a` comes strictly before `b`.
    pub fn precedes(&self, a: SegmentId, b: SegmentId) -> (before: bool)
        requires
            self.wf(),
            self@.live(a),
            self@.live(b),
        ensures
            before == self@.precedes(a, b),
    {
        let pa = self.position(a).unwrap();
        let pb = self.position(b).unwrap();
        pa < pb
    }

    /// Compares two live identifiers by their position in the order.
    pub fn compare(&self, a: SegmentId, b: SegmentId) -> (r: Ordering)
        requires
            self.wf(),
            self@.live(a),
            self@.live(b),
        ensures
            match r {
                Ordering::Less => self@.precedes(a, b),
                Ordering::Equal => a == b,
                Ordering::Greater => self@.precedes(b, a),
            },
    {
        proof {
            self.lemma_valid();
            self@.lemma_live(a);
            self@.lemma_live(b);
        }
        if self.precedes(a, b) {
            Ordering::Less
        } else if self.precedes(b, a) {
            Ordering::Greater
        } else {
            Ordering::Equal
        }
    }
}

} // verus!
