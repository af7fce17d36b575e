//! The initialised ticks of a pool, kept in ascending order.

use crate::decimal::{checked_add, checked_sub, decimal_of, is_held, lemma_decimal_of_view, Decimal};
use crate::error::PoolError;
use crate::tick_math::{MAX_TICK, MIN_TICK, tick_in_bounds};
use vstd::prelude::*;

verus! {

/// What the pool records at an initialised tick.
#[derive(Clone, Copy, Debug, PartialEq, Eq, Structural)]
pub struct TickInfo {
    /// Liquidity that becomes active when the price crosses the tick upwards,
    /// and inactive when it crosses downwards.
    pub liquidity_net: Decimal,
    /// The liquidity of all the positions that end at the tick.
    pub liquidity_gross: Decimal,
    /// Fee growth in the first asset on the side of the tick away from the
    /// current price.
    pub fee_growth_outside_a: Decimal,
    /// Fee growth in the second asset on the side of the tick away from the
    /// current price.
    pub fee_growth_outside_b: Decimal,
}

/// An initialised tick with its record.
#[derive(Clone, Copy, Debug, PartialEq, Eq, Structural)]
pub struct TickEntry {
    pub tick: i32,
    pub info: TickInfo,
}

/// The initialised ticks in ascending order.
pub struct TickLedger {
    pub entries: Vec<TickEntry>,
}

/// Whether `entries` ascend strictly by tick, every tick is supported and
/// every gross liquidity is positive.
pub open spec fn entries_well_formed(entries: Seq<TickEntry>) -> bool {
    &&& forall|i: int, j: int|
        0 <= i < j < entries.len() ==> (#[trigger] entries[i]).tick < (#[trigger] entries[j]).tick
    &&& forall|i: int|
        0 <= i < entries.len() ==> tick_in_bounds((#[trigger] entries[i]).tick as int)
            && entries[i].info.liquidity_gross@ > 0
}

/// Whether `tick` is initialised in `entries`.
pub open spec fn entries_contain(entries: Seq<TickEntry>, tick: int) -> bool {
    exists|i: int| 0 <= i < entries.len() && (#[trigger] entries[i]).tick == tick
}

/// The index at which `tick` stands in `entries`.
pub open spec fn entries_index(entries: Seq<TickEntry>, tick: int) -> int {
    choose|i: int| 0 <= i < entries.len() && (#[trigger] entries[i]).tick == tick
}

/// The record of every tick in `entries`.
pub open spec fn entries_view(entries: Seq<TickEntry>) -> Map<int, TickInfo> {
    Map::new(
        |tick: int| entries_contain(entries, tick),
        |tick: int| entries[entries_index(entries, tick)].info,
    )
}

/// In well-formed entries, the entry at index `i` is the record of its tick.
pub proof fn lemma_entry_is_record(entries: Seq<TickEntry>, i: int)
    requires
        entries_well_formed(entries),
        0 <= i < entries.len(),
    ensures
        entries_view(entries).dom().contains(entries[i].tick as int),
        entries_view(entries)[entries[i].tick as int] == entries[i].info,
        entries_index(entries, entries[i].tick as int) == i,
{
    let tick = entries[i].tick as int;
    let j = entries_index(entries, tick);
    assert(0 <= j < entries.len() && entries[j].tick == tick);
    if j < i {
        assert(entries[j].tick < entries[i].tick);
    } else if i < j {
        assert(entries[i].tick < entries[j].tick);
    }
}

/// Replacing the record at index `i` replaces it in the view.
pub proof fn lemma_view_after_update(entries: Seq<TickEntry>, i: int, info: TickInfo)
    requires
        entries_well_formed(entries),
        0 <= i < entries.len(),
        info.liquidity_gross@ > 0,
    ensures
        entries_well_formed(entries.update(i, TickEntry { tick: entries[i].tick, info })),
        entries_view(entries.update(i, TickEntry { tick: entries[i].tick, info }))
            == entries_view(entries).insert(entries[i].tick as int, info),
{
    let tick = entries[i].tick;
    let after = entries.update(i, TickEntry { tick, info });
    assert(entries_well_formed(after)) by {
        assert forall|a: int, b: int| 0 <= a < b < after.len() implies (#[trigger] after[a]).tick
            < (#[trigger] after[b]).tick by {
            assert(entries[a].tick < entries[b].tick);
        }
        assert forall|a: int| 0 <= a < after.len() implies tick_in_bounds(
            (#[trigger] after[a]).tick as int,
        ) && after[a].info.liquidity_gross@ > 0 by {
            assert(tick_in_bounds(entries[a].tick as int));
        }
    }
    let expected = entries_view(entries).insert(tick as int, info);
    assert forall|t: int| entries_view(after).dom().contains(t) == expected.dom().contains(
        t,
    ) by {
        if entries_contain(after, t) {
            let a = entries_index(after, t);
            assert(entries[a].tick == t);
        }
        if entries_contain(entries, t) {
            let a = entries_index(entries, t);
            assert(after[a].tick == t);
        }
        if t == tick {
            assert(after[i].tick == t);
        }
    }
    assert forall|t: int| entries_view(after).dom().contains(t) implies entries_view(after)[t]
        == expected[t] by {
        let a = entries_index(after, t);
        assert(after[a].tick == t);
        lemma_entry_is_record(after, a);
        if a != i {
            lemma_entry_is_record(entries, a);
        }
    }
    assert(entries_view(after) =~= expected);
}

/// Putting a fresh tick at its place in the order adds it to the view.
pub proof fn lemma_view_after_insert(entries: Seq<TickEntry>, i: int, entry: TickEntry)
    requires
        entries_well_formed(entries),
        0 <= i <= entries.len(),
        tick_in_bounds(entry.tick as int),
        entry.info.liquidity_gross@ > 0,
        forall|a: int| 0 <= a < i ==> (#[trigger] entries[a]).tick < entry.tick,
        forall|a: int| i <= a < entries.len() ==> (#[trigger] entries[a]).tick > entry.tick,
    ensures
        entries_well_formed(entries.insert(i, entry)),
        entries_view(entries.insert(i, entry)) == entries_view(entries).insert(
            entry.tick as int,
            entry.info,
        ),
{
    let after = entries.insert(i, entry);
    assert(entries_well_formed(after)) by {
        assert forall|a: int, b: int| 0 <= a < b < after.len() implies (#[trigger] after[a]).tick
            < (#[trigger] after[b]).tick by {
            let x = if a < i { a } else { a - 1 };
            let y = if b < i { b } else { b - 1 };
            if a != i && b != i {
                assert(entries[x].tick < entries[y].tick);
            } else if a == i {
                assert(entries[y].tick > entry.tick);
            } else {
                assert(entries[x].tick < entry.tick);
            }
        }
        assert forall|a: int| 0 <= a < after.len() implies tick_in_bounds(
            (#[trigger] after[a]).tick as int,
        ) && after[a].info.liquidity_gross@ > 0 by {
            if a < i {
                assert(tick_in_bounds(entries[a].tick as int));
            } else if a > i {
                assert(tick_in_bounds(entries[a - 1].tick as int));
            }
        }
    }
    let expected = entries_view(entries).insert(entry.tick as int, entry.info);
    assert forall|t: int| entries_view(after).dom().contains(t) == expected.dom().contains(
        t,
    ) by {
        if entries_contain(after, t) {
            let a = entries_index(after, t);
            if a < i {
                assert(entries[a].tick == t);
            } else if a > i {
                assert(entries[a - 1].tick == t);
            }
        }
        if entries_contain(entries, t) {
            let a = entries_index(entries, t);
            if a < i {
                assert(after[a].tick == t);
            } else {
                assert(after[a + 1].tick == t);
            }
        }
        if t == entry.tick {
            assert(after[i].tick == t);
        }
    }
    assert forall|t: int| entries_view(after).dom().contains(t) implies entries_view(after)[t]
        == expected[t] by {
        let a = entries_index(after, t);
        assert(after[a].tick == t);
        lemma_entry_is_record(after, a);
        if a < i {
            lemma_entry_is_record(entries, a);
        } else if a > i {
            lemma_entry_is_record(entries, a - 1);
        }
    }
    assert(entries_view(after) =~= expected);
}

/// Taking the entry at index `i` out takes its tick out of the view.
pub proof fn lemma_view_after_remove(entries: Seq<TickEntry>, i: int)
    requires
        entries_well_formed(entries),
        0 <= i < entries.len(),
    ensures
        entries_well_formed(entries.remove(i)),
        entries_view(entries.remove(i)) == entries_view(entries).remove(entries[i].tick as int),
{
    let after = entries.remove(i);
    let tick = entries[i].tick;
    assert(entries_well_formed(after)) by {
        assert forall|a: int, b: int| 0 <= a < b < after.len() implies (#[trigger] after[a]).tick
            < (#[trigger] after[b]).tick by {
            let x = if a < i { a } else { a + 1 };
            let y = if b < i { b } else { b + 1 };
            assert(entries[x].tick < entries[y].tick);
        }
        assert forall|a: int| 0 <= a < after.len() implies tick_in_bounds(
            (#[trigger] after[a]).tick as int,
        ) && after[a].info.liquidity_gross@ > 0 by {
            let x = if a < i { a } else { a + 1 };
            assert(tick_in_bounds(entries[x].tick as int));
        }
    }
    let expected = entries_view(entries).remove(tick as int);
    assert forall|t: int| entries_view(after).dom().contains(t) == expected.dom().contains(
        t,
    ) by {
        if entries_contain(after, t) {
            let a = entries_index(after, t);
            let x = if a < i { a } else { a + 1 };
            assert(entries[x].tick == t);
            if x < i {
                assert(entries[x].tick < entries[i].tick);
            } else {
                assert(entries[i].tick < entries[x].tick);
            }
        }
        if entries_contain(entries, t) && t != tick {
            let a = entries_index(entries, t);
            if a < i {
                assert(after[a].tick == t);
            } else {
                assert(after[a - 1].tick == t);
            }
        }
    }
    assert forall|t: int| entries_view(after).dom().contains(t) implies entries_view(after)[t]
        == expected[t] by {
        let a = entries_index(after, t);
        let x = if a < i { a } else { a + 1 };
        assert(after[a].tick == t);
        lemma_entry_is_record(after, a);
        lemma_entry_is_record(entries, x);
    }
    assert(entries_view(after) =~= expected);
}

/// The lowest tick of `ledger` above `from`, or `MAX_TICK` if there is none.
pub open spec fn lowest_above(ledger: Map<int, TickInfo>, from: int) -> int {
    if exists|t: int| ledger.dom().contains(t) && t > from {
        choose|t: int|
            ledger.dom().contains(t) && t > from && forall|u: int|
                ledger.dom().contains(u) && u > from ==> t <= u
    } else {
        MAX_TICK as int
    }
}

/// The highest tick of `ledger` below `from`, or `MIN_TICK` if there is none.
pub open spec fn highest_below(ledger: Map<int, TickInfo>, from: int) -> int {
    if exists|t: int| ledger.dom().contains(t) && t < from {
        choose|t: int|
            ledger.dom().contains(t) && t < from && forall|u: int|
                ledger.dom().contains(u) && u < from ==> u <= t
    } else {
        MIN_TICK as int
    }
}

/// A tick of `ledger` above `from` that none of its ticks above `from`
/// undercuts is the lowest above `from`.
pub proof fn lemma_next_above_is(ledger: Map<int, TickInfo>, from: int, found: int)
    requires
        ledger.dom().contains(found),
        found > from,
        forall|u: int| ledger.dom().contains(u) && u > from ==> found <= u,
    ensures
        lowest_above(ledger, from) == found,
{
    let chosen = lowest_above(ledger, from);
    assert(ledger.dom().contains(chosen) && chosen > from && forall|u: int|
        ledger.dom().contains(u) && u > from ==> chosen <= u);
}

/// A tick of `ledger` below `from` that none of its ticks below `from`
/// exceeds is the highest below `from`.
pub proof fn lemma_next_below_is(ledger: Map<int, TickInfo>, from: int, found: int)
    requires
        ledger.dom().contains(found),
        found < from,
        forall|u: int| ledger.dom().contains(u) && u < from ==> u <= found,
    ensures
        highest_below(ledger, from) == found,
{
    let chosen = highest_below(ledger, from);
    assert(ledger.dom().contains(chosen) && chosen < from && forall|u: int|
        ledger.dom().contains(u) && u < from ==> u <= chosen);
}

impl View for TickLedger {
    type V = Map<int, TickInfo>;

    /// The record of every initialised tick.
    open spec fn view(&self) -> Map<int, TickInfo> {
        entries_view(self.entries@)
    }
}

impl TickLedger {
    /// The ledger's invariant.
    pub open spec fn wf(&self) -> bool {
        entries_well_formed(self.entries@)
    }

    /// The lowest initialised tick above `from`, or `MAX_TICK` if there is
    /// none.
    pub open spec fn next_above(&self, from: int) -> int {
        lowest_above(self@, from)
    }

    /// The highest initialised tick below `from`, or `MIN_TICK` if there is
    /// none.
    pub open spec fn next_below(&self, from: int) -> int {
        highest_below(self@, from)
    }

    /// A ledger with no initialised tick.
    pub fn new() -> (ledger: TickLedger)
        ensures
            ledger.wf(),
            ledger@ == Map::<int, TickInfo>::empty(),
    {
        let ledger = TickLedger { entries: Vec::new() };
        assert(ledger@ =~= Map::<int, TickInfo>::empty());
        ledger
    }

    /// A ledger with the same entries.
    pub fn duplicate(&self) -> (copy: TickLedger)
        ensures
            copy.entries@ == self.entries@,
    {
        let mut entries: Vec<TickEntry> = Vec::new();
        let mut index: usize = 0;
        while index < self.entries.len()
            invariant
                index <= self.entries@.len(),
                entries@ == self.entries@.subrange(0, index as int),
            decreases self.entries@.len() - index,
        {
            entries.push(self.entries[index]);
            assert(entries@ == self.entries@.subrange(0, index + 1));
            index = index + 1;
        }
        assert(entries@ == self.entries@);
        TickLedger { entries }
    }

    /// The number of entries whose tick is below `tick`: where `tick` stands,
    /// or would be put.
    fn lower_bound(&self, tick: i32) -> (index: usize)
        requires
            self.wf(),
        ensures
            index <= self.entries@.len(),
            forall|i: int| 0 <= i < index ==> (#[trigger] self.entries@[i]).tick < tick,
            forall|i: int|
                index <= i < self.entries@.len() ==> (#[trigger] self.entries@[i]).tick >= tick,
    {
        let mut low: usize = 0;
        let mut high: usize = self.entries.len();
        while low < high
            invariant
                self.wf(),
                low <= high <= self.entries@.len(),
                forall|i: int| 0 <= i < low ==> (#[trigger] self.entries@[i]).tick < tick,
                forall|i: int|
                    high <= i < self.entries@.len() ==> (#[trigger] self.entries@[i]).tick
                        >= tick,
            decreases high - low,
        {
            let middle = low + (high - low) / 2;
            if self.entries[middle].tick < tick {
                assert forall|i: int| 0 <= i < middle + 1 implies (#[trigger] self.entries@[i]).tick
                    < tick by {
                    if i < middle {
                        assert(self.entries@[i].tick < self.entries@[middle as int].tick);
                    }
                }
                low = middle + 1;
            } else {
                assert forall|i: int|
                    middle <= i < self.entries@.len() implies (#[trigger] self.entries@[i]).tick
                    >= tick by {
                    if middle < i {
                        assert(self.entries@[middle as int].tick < self.entries@[i].tick);
                    }
                }
                high = middle;
            }
        }
        low
    }

    /// The record of `tick`, if it is initialised.
    pub fn get(&self, tick: i32) -> (info: Option<TickInfo>)
        requires
            self.wf(),
        ensures
            info.is_some() == self@.dom().contains(tick as int),
            info matches Some(found) ==> found == self@[tick as int],
    {
        let index = self.lower_bound(tick);
        if index < self.entries.len() && self.entries[index].tick == tick {
            proof {
                lemma_entry_is_record(self.entries@, index as int);
            }
            Some(self.entries[index].info)
        } else {
            None
        }
    }

    /// The lowest initialised tick above `from`, or `MAX_TICK`.
    fn first_above(&self, from: i32) -> (next: i32)
        requires
            self.wf(),
        ensures
            next == self.next_above(from as int),
            tick_in_bounds(next as int),
            from < MAX_TICK ==> next > from,
            forall|u: int| self@.dom().contains(u) && u > from ==> next <= u,
    {
        if from >= MAX_TICK {
            proof {
                assert forall|u: int| self@.dom().contains(u) implies u <= from by {
                    let i = entries_index(self.entries@, u);
                    assert(tick_in_bounds(self.entries@[i].tick as int));
                }
            }
            return MAX_TICK;
        }
        let index = self.lower_bound(from + 1);
        if index < self.entries.len() {
            let found = self.entries[index].tick;
            proof {
                lemma_entry_is_record(self.entries@, index as int);
                assert(tick_in_bounds(self.entries@[index as int].tick as int));
                assert forall|u: int| self@.dom().contains(u) && u > from implies found <= u by {
                    let j = entries_index(self.entries@, u);
                    assert(self.entries@[j].tick == u);
                    if j < index {
                        assert(self.entries@[j].tick < from + 1);
                    } else if j > index {
                        assert(self.entries@[index as int].tick < self.entries@[j].tick);
                    }
                }
                lemma_next_above_is(self@, from as int, found as int);
            }
            found
        } else {
            proof {
                assert forall|u: int| self@.dom().contains(u) implies u <= from by {
                    let i = entries_index(self.entries@, u);
                    assert(self.entries@[i].tick < from + 1);
                }
            }
            MAX_TICK
        }
    }

    /// The highest initialised tick below `from`, or `MIN_TICK`.
    fn last_below(&self, from: i32) -> (next: i32)
        requires
            self.wf(),
        ensures
            next == self.next_below(from as int),
            tick_in_bounds(next as int),
            from > MIN_TICK ==> next < from,
            forall|u: int| self@.dom().contains(u) && u < from ==> u <= next,
    {
        if from <= MIN_TICK {
            proof {
                assert forall|u: int| self@.dom().contains(u) implies u >= from by {
                    let i = entries_index(self.entries@, u);
                    assert(tick_in_bounds(self.entries@[i].tick as int));
                }
            }
            return MIN_TICK;
        }
        let index = self.lower_bound(from);
        if index > 0 {
            let found = self.entries[index - 1].tick;
            proof {
                lemma_entry_is_record(self.entries@, index - 1);
                assert(tick_in_bounds(self.entries@[index - 1].tick as int));
                assert forall|u: int| self@.dom().contains(u) && u < from implies u <= found by {
                    let j = entries_index(self.entries@, u);
                    assert(self.entries@[j].tick == u);
                    if j >= index {
                        assert(self.entries@[j].tick >= from);
                    } else if j < index - 1 {
                        assert(self.entries@[j].tick < self.entries@[index - 1].tick);
                    }
                }
                lemma_next_below_is(self@, from as int, found as int);
            }
            found
        } else {
            proof {
                assert forall|u: int| self@.dom().contains(u) implies u >= from by {
                    let i = entries_index(self.entries@, u);
                    assert(self.entries@[i].tick >= from);
                }
            }
            MIN_TICK
        }
    }

    /// The nearest initialised tick strictly above `from` when `upwards`,
    /// strictly below it otherwise; `MAX_TICK` or `MIN_TICK` where there is
    /// none.
    pub fn next_initialized_tick(&self, from: i32, upwards: bool) -> (next: i32)
        requires
            self.wf(),
        ensures
            upwards ==> next == self.next_above(from as int),
            !upwards ==> next == self.next_below(from as int),
            tick_in_bounds(next as int),
            upwards && from < MAX_TICK ==> next > from,
            !upwards && from > MIN_TICK ==> next < from,
            upwards ==> forall|u: int| self@.dom().contains(u) && u > from ==> next <= u,
            !upwards ==> forall|u: int| self@.dom().contains(u) && u < from ==> u <= next,
    {
        if upwards {
            self.first_above(from)
        } else {
            self.last_below(from)
        }
    }

    /// Counts `delta` more liquidity at `tick`, the lower end of a range when
    /// `is_lower` and the upper end otherwise. A tick that was not
    /// initialised starts from the fresh record of `record_or_fresh`.
    ///
    /// Refused, in this order: a tick outside the supported range, a `delta`
    /// that is not positive, a sum that cannot be held. A refusal changes
    /// nothing.
    pub fn reference(
        &mut self,
        tick: i32,
        delta: Decimal,
        is_lower: bool,
        current_tick: i32,
        global_a: Decimal,
        global_b: Decimal,
    ) -> (r: Result<(), PoolError>)
        requires
            old(self).wf(),
        ensures
            final(self).wf(),
            r == reference_outcome(
                old(self)@,
                tick as int,
                delta@,
                is_lower,
                current_tick as int,
                global_a,
                global_b,
            ),
            r.is_err() ==> final(self).entries@ == old(self).entries@,
            r.is_ok() ==> final(self)@ == referenced(
                old(self)@,
                tick as int,
                delta@,
                is_lower,
                current_tick as int,
                global_a,
                global_b,
            ),
    {
        if tick < MIN_TICK || tick > MAX_TICK {
            return Err(PoolError::OutOfBounds);
        }
        let zero = Decimal::zero();
        if !delta.gt(&zero) {
            return Err(PoolError::ZeroLiquidity);
        }
        let index = self.lower_bound(tick);
        let present = index < self.entries.len() && self.entries[index].tick == tick;
        proof {
            if present {
                lemma_entry_is_record(self.entries@, index as int);
            } else if entries_contain(self.entries@, tick as int) {
                let j = entries_index(self.entries@, tick as int);
                assert(self.entries@[j].tick == tick);
            }
        }
        let base = if present {
            self.entries[index].info
        } else {
            TickInfo {
                liquidity_net: zero,
                liquidity_gross: zero,
                fee_growth_outside_a: if tick <= current_tick {
                    global_a
                } else {
                    zero
                },
                fee_growth_outside_b: if tick <= current_tick {
                    global_b
                } else {
                    zero
                },
            }
        };
        proof {
            Decimal::lemma_view_injective(zero, Decimal { lo: 0, mid: 0, hi: 0 });
        }
        assert(base == record_or_fresh(
            self@,
            tick as int,
            current_tick as int,
            global_a,
            global_b,
        ));
        let gross = match checked_add(base.liquidity_gross, delta) {
            Some(sum) => sum,
            None => {
                return Err(PoolError::Overflow);
            },
        };
        let moved = if is_lower {
            checked_add(base.liquidity_net, delta)
        } else {
            checked_sub(base.liquidity_net, delta)
        };
        let net = match moved {
            Some(sum) => sum,
            None => {
                return Err(PoolError::Overflow);
            },
        };
        let info = TickInfo {
            liquidity_net: net,
            liquidity_gross: gross,
            fee_growth_outside_a: base.fee_growth_outside_a,
            fee_growth_outside_b: base.fee_growth_outside_b,
        };
        let entry = TickEntry { tick, info };
        proof {
            if present {
                lemma_view_after_update(self.entries@, index as int, info);
            } else {
                assert forall|a: int| index <= a < self.entries@.len() implies (
                #[trigger] self.entries@[a]).tick > tick by {
                    if a > index {
                        assert(self.entries@[index as int].tick < self.entries@[a].tick);
                    }
                }
                lemma_view_after_insert(self.entries@, index as int, entry);
            }
            lemma_decimal_of_view(net);
            lemma_decimal_of_view(gross);
        }
        if present {
            self.entries.set(index, entry);
        } else {
            self.entries.insert(index, entry);
        }
        Ok(())
    }

    /// Counts `delta` less liquidity at `tick`, and forgets the tick when no
    /// liquidity is left at it.
    ///
    /// Refused, in this order: a tick outside the supported range, a `delta`
    /// that is not positive, a `delta` above the liquidity counted at the
    /// tick or a net liquidity that cannot be held. A refusal changes
    /// nothing.
    pub fn dereference(&mut self, tick: i32, delta: Decimal, is_lower: bool) -> (r: Result<
        (),
        PoolError,
    >)
        requires
            old(self).wf(),
        ensures
            final(self).wf(),
            r == dereference_outcome(old(self)@, tick as int, delta@, is_lower),
            r.is_err() ==> final(self).entries@ == old(self).entries@,
            r.is_ok() ==> final(self)@ == dereferenced(old(self)@, tick as int, delta@, is_lower),
    {
        if tick < MIN_TICK || tick > MAX_TICK {
            return Err(PoolError::OutOfBounds);
        }
        let zero = Decimal::zero();
        if !delta.gt(&zero) {
            return Err(PoolError::ZeroLiquidity);
        }
        let index = self.lower_bound(tick);
        let present = index < self.entries.len() && self.entries[index].tick == tick;
        proof {
            if present {
                lemma_entry_is_record(self.entries@, index as int);
            } else if entries_contain(self.entries@, tick as int) {
                let j = entries_index(self.entries@, tick as int);
                assert(self.entries@[j].tick == tick);
            }
        }
        if !present {
            return Err(PoolError::Overflow);
        }
        let base = self.entries[index].info;
        if base.liquidity_gross.lt(&delta) {
            return Err(PoolError::Overflow);
        }
        let moved = if is_lower {
            checked_sub(base.liquidity_net, delta)
        } else {
            checked_add(base.liquidity_net, delta)
        };
        let net = match moved {
            Some(difference) => difference,
            None => {
                return Err(PoolError::Overflow);
            },
        };
        if base.liquidity_gross.eq(&delta) {
            proof {
                lemma_view_after_remove(self.entries@, index as int);
            }
            self.entries.remove(index);
        } else {
            let gross = checked_sub(base.liquidity_gross, delta).unwrap();
            let info = TickInfo {
                liquidity_net: net,
                liquidity_gross: gross,
                fee_growth_outside_a: base.fee_growth_outside_a,
                fee_growth_outside_b: base.fee_growth_outside_b,
            };
            proof {
                lemma_view_after_update(self.entries@, index as int, info);
                lemma_decimal_of_view(net);
                lemma_decimal_of_view(gross);
            }
            self.entries.set(index, TickEntry { tick, info });
        }
        Ok(())
    }

    /// Records that the price crosses `tick`: the fee growth outside the tick
    /// becomes the global growth less what it was, and the liquidity that the
    /// crossing makes active is handed back, the net liquidity of the tick
    /// when the price moves `upwards` and its negation otherwise.
    ///
    /// A tick that is not initialised is crossed without effect and makes no
    /// liquidity active. The crossing is refused, and changes nothing, when a
    /// difference cannot be held.
    pub fn cross(&mut self, tick: i32, global_a: Decimal, global_b: Decimal, upwards: bool) -> (r:
        Result<Decimal, PoolError>)
        requires
            old(self).wf(),
        ensures
            final(self).wf(),
            r.is_ok() == cross_is_held(old(self)@, tick as int, global_a@, global_b@, upwards),
            r matches Err(e) ==> e == PoolError::Overflow && final(self).entries@ == old(
                self,
            ).entries@,
            r matches Ok(activated) ==> activated@ == liquidity_activated(
                old(self)@,
                tick as int,
                upwards,
            ),
            r.is_ok() ==> final(self)@ == crossed(old(self)@, tick as int, global_a@, global_b@),
    {
        let zero = Decimal::zero();
        let index = self.lower_bound(tick);
        let present = index < self.entries.len() && self.entries[index].tick == tick;
        proof {
            if present {
                lemma_entry_is_record(self.entries@, index as int);
            } else if entries_contain(self.entries@, tick as int) {
                let j = entries_index(self.entries@, tick as int);
                assert(self.entries@[j].tick == tick);
            }
        }
        if !present {
            return Ok(zero);
        }
        let base = self.entries[index].info;
        let outside_a = match checked_sub(global_a, base.fee_growth_outside_a) {
            Some(difference) => difference,
            None => {
                return Err(PoolError::Overflow);
            },
        };
        let outside_b = match checked_sub(global_b, base.fee_growth_outside_b) {
            Some(difference) => difference,
            None => {
                return Err(PoolError::Overflow);
            },
        };
        let activated = if upwards {
            base.liquidity_net
        } else {
            match checked_sub(zero, base.liquidity_net) {
                Some(negated) => negated,
                None => {
                    return Err(PoolError::Overflow);
                },
            }
        };
        let info = TickInfo {
            liquidity_net: base.liquidity_net,
            liquidity_gross: base.liquidity_gross,
            fee_growth_outside_a: outside_a,
            fee_growth_outside_b: outside_b,
        };
        proof {
            assert(tick_in_bounds(self.entries@[index as int].tick as int));
            lemma_view_after_update(self.entries@, index as int, info);
            lemma_decimal_of_view(outside_a);
            lemma_decimal_of_view(outside_b);
        }
        self.entries.set(index, TickEntry { tick, info });
        Ok(activated)
    }
}

/// The ledger after a reference that is carried out.
pub open spec fn referenced(
    ledger: Map<int, TickInfo>,
    tick: int,
    delta: int,
    is_lower: bool,
    current_tick: int,
    global_a: Decimal,
    global_b: Decimal,
) -> Map<int, TickInfo> {
    let base = record_or_fresh(ledger, tick, current_tick, global_a, global_b);
    ledger.insert(
        tick,
        TickInfo {
            liquidity_net: decimal_of(base.liquidity_net@ + signed_delta(delta, is_lower)),
            liquidity_gross: decimal_of(base.liquidity_gross@ + delta),
            fee_growth_outside_a: base.fee_growth_outside_a,
            fee_growth_outside_b: base.fee_growth_outside_b,
        },
    )
}

/// The ledger after a dereference that is carried out: without the tick when
/// no liquidity is left at it.
pub open spec fn dereferenced(ledger: Map<int, TickInfo>, tick: int, delta: int, is_lower: bool)
    -> Map<int, TickInfo> {
    let base = ledger[tick];
    if base.liquidity_gross@ == delta {
        ledger.remove(tick)
    } else {
        ledger.insert(
            tick,
            TickInfo {
                liquidity_net: decimal_of(base.liquidity_net@ - signed_delta(delta, is_lower)),
                liquidity_gross: decimal_of(base.liquidity_gross@ - delta),
                fee_growth_outside_a: base.fee_growth_outside_a,
                fee_growth_outside_b: base.fee_growth_outside_b,
            },
        )
    }
}

/// The ledger after a crossing of `tick` that is carried out.
pub open spec fn crossed(ledger: Map<int, TickInfo>, tick: int, global_a: int, global_b: int)
    -> Map<int, TickInfo> {
    if ledger.dom().contains(tick) {
        let base = ledger[tick];
        ledger.insert(
            tick,
            TickInfo {
                liquidity_net: base.liquidity_net,
                liquidity_gross: base.liquidity_gross,
                fee_growth_outside_a: decimal_of(global_a - base.fee_growth_outside_a@),
                fee_growth_outside_b: decimal_of(global_b - base.fee_growth_outside_b@),
            },
        )
    } else {
        ledger
    }
}

/// Whether a dereference is carried out, and why not.
pub open spec fn dereference_outcome(
    ledger: Map<int, TickInfo>,
    tick: int,
    delta: int,
    is_lower: bool,
) -> Result<(), PoolError> {
    if !tick_in_bounds(tick) {
        Err(PoolError::OutOfBounds)
    } else if delta <= 0 {
        Err(PoolError::ZeroLiquidity)
    } else if !ledger.dom().contains(tick) || ledger[tick].liquidity_gross@ < delta || !is_held(
        ledger[tick].liquidity_net@ - signed_delta(delta, is_lower),
    ) {
        Err(PoolError::Overflow)
    } else {
        Ok(())
    }
}

/// The liquidity that becomes active when the price crosses `tick`.
pub open spec fn liquidity_activated(ledger: Map<int, TickInfo>, tick: int, upwards: bool) -> int {
    if !ledger.dom().contains(tick) {
        0
    } else if upwards {
        ledger[tick].liquidity_net@
    } else {
        -ledger[tick].liquidity_net@
    }
}

/// Whether every number that a crossing of `tick` computes can be held.
pub open spec fn cross_is_held(
    ledger: Map<int, TickInfo>,
    tick: int,
    global_a: int,
    global_b: int,
    upwards: bool,
) -> bool {
    ledger.dom().contains(tick) ==> {
        &&& is_held(global_a - ledger[tick].fee_growth_outside_a@)
        &&& is_held(global_b - ledger[tick].fee_growth_outside_b@)
        &&& is_held(liquidity_activated(ledger, tick, upwards))
    }
}

/// `delta` as it moves the net liquidity of a tick: added at the lower end of
/// a range, subtracted at the upper end.
pub open spec fn signed_delta(delta: int, is_lower: bool) -> int {
    if is_lower {
        delta
    } else {
        -delta
    }
}

/// The record that a reference starts from: that of `tick` where it is
/// initialised; otherwise one without liquidity, whose fee growth outside is
/// the global growth for a tick at or below the current one and zero for a
/// tick above it.
pub open spec fn record_or_fresh(
    ledger: Map<int, TickInfo>,
    tick: int,
    current_tick: int,
    global_a: Decimal,
    global_b: Decimal,
) -> TickInfo {
    let zero = Decimal { lo: 0, mid: 0, hi: 0 };
    if ledger.dom().contains(tick) {
        ledger[tick]
    } else {
        TickInfo {
            liquidity_net: zero,
            liquidity_gross: zero,
            fee_growth_outside_a: if tick <= current_tick {
                global_a
            } else {
                zero
            },
            fee_growth_outside_b: if tick <= current_tick {
                global_b
            } else {
                zero
            },
        }
    }
}

/// Whether a reference is carried out, and why not.
pub open spec fn reference_outcome(
    ledger: Map<int, TickInfo>,
    tick: int,
    delta: int,
    is_lower: bool,
    current_tick: int,
    global_a: Decimal,
    global_b: Decimal,
) -> Result<(), PoolError> {
    let base = record_or_fresh(ledger, tick, current_tick, global_a, global_b);
    if !tick_in_bounds(tick) {
        Err(PoolError::OutOfBounds)
    } else if delta <= 0 {
        Err(PoolError::ZeroLiquidity)
    } else if !is_held(base.liquidity_gross@ + delta) || !is_held(
        base.liquidity_net@ + signed_delta(delta, is_lower),
    ) {
        Err(PoolError::Overflow)
    } else {
        Ok(())
    }
}

} // verus!
