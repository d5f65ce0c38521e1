use vstd::prelude::*;
use std::collections::BTreeMap;

use crate::ids::{FirmId, RegionId, ShipmentId, TerminalId};
use crate::value::{Money, QuantityMilli};
use crate::world::{World, WorldError, WorldView};
use vstd::std_specs::iter::IteratorSpec;

verus! {

broadcast use vstd::std_specs::btree::group_btree_axioms;

/// A physical transshipment terminal with a daily handling throughput.
#[derive(Debug, PartialEq, Eq)]
pub struct LogisticsTerminal {
    id: TerminalId,
    region: RegionId,
    operator: FirmId,
    daily_handling_capacity: QuantityMilli,
    storage_cost_per_unit_day: Money,
    base_handling_days: u16,
}

impl Clone for LogisticsTerminal {
    fn clone(&self) -> (r: Self)
        ensures
            r == *self,
    {
        proof {
            use_type_invariant(self);
        }
        LogisticsTerminal { ..*self }
    }
}

impl LogisticsTerminal {
    pub closed spec fn spec_id(&self) -> TerminalId {
        self.id
    }

    pub closed spec fn spec_region(&self) -> RegionId {
        self.region
    }

    pub closed spec fn spec_operator(&self) -> FirmId {
        self.operator
    }

    pub closed spec fn spec_capacity(&self) -> u64 {
        self.daily_handling_capacity@
    }

    pub closed spec fn spec_storage_cost(&self) -> i64 {
        self.storage_cost_per_unit_day@
    }

    pub closed spec fn spec_handling_days(&self) -> u16 {
        self.base_handling_days
    }

    #[verifier::type_invariant]
    closed spec fn valid(&self) -> bool {
        &&& self.daily_handling_capacity@ > 0
        &&& self.storage_cost_per_unit_day@ >= 0
        &&& self.base_handling_days > 0
    }

    /// Creates a terminal, rejecting zero capacity or handling time and negative
    /// storage cost.
    pub fn new(
        id: TerminalId,
        region: RegionId,
        operator: FirmId,
        capacity: QuantityMilli,
        storage_cost: Money,
        handling_days: u16,
    ) -> (r: Result<Self, WorldError>)
        ensures
            (capacity@ == 0 || storage_cost@ < 0 || handling_days == 0) ==> r == Err::<
                Self,
                WorldError,
            >(WorldError::InvalidTerminal("invalid terminal values")),
            !(capacity@ == 0 || storage_cost@ < 0 || handling_days == 0) ==> (r matches Ok(t)
                && t.spec_id() == id && t.spec_region() == region && t.spec_operator() == operator
                && t.spec_capacity() == capacity@ && t.spec_storage_cost() == storage_cost@
                && t.spec_handling_days() == handling_days),
    {
        if capacity.get() == 0 || storage_cost.minor_units() < 0 || handling_days == 0 {
            return Err(WorldError::InvalidTerminal("invalid terminal values"));
        }
        Ok(
            LogisticsTerminal {
                id,
                region,
                operator,
                daily_handling_capacity: capacity,
                storage_cost_per_unit_day: storage_cost,
                base_handling_days: handling_days,
            },
        )
    }

    pub fn id(&self) -> (r: TerminalId)
        ensures
            r == self.spec_id(),
    {
        self.id
    }

    pub fn region(&self) -> (r: RegionId)
        ensures
            r == self.spec_region(),
    {
        self.region
    }

    pub fn operator(&self) -> (r: FirmId)
        ensures
            r == self.spec_operator(),
    {
        self.operator
    }

    pub fn capacity(&self) -> (r: QuantityMilli)
        ensures
            r@ == self.spec_capacity(),
            r@ > 0,
    {
        proof {
            use_type_invariant(self);
        }
        self.daily_handling_capacity
    }

    pub fn storage_cost(&self) -> (r: Money)
        ensures
            r@ == self.spec_storage_cost(),
            r@ >= 0,
    {
        proof {
            use_type_invariant(self);
        }
        self.storage_cost_per_unit_day
    }

    pub fn handling_days(&self) -> (r: u16)
        ensures
            r == self.spec_handling_days(),
            r > 0,
    {
        proof {
            use_type_invariant(self);
        }
        self.base_handling_days
    }
}

/// Throughput in use, zero when absent.
pub open spec fn terminal_used(m: Map<u32, u64>, id: u32) -> int {
    if m.contains_key(id) {
        m[id] as int
    } else {
        0
    }
}

/// Handling throughput in use at each terminal.
#[derive(Clone, Debug, Default, PartialEq, Eq)]
pub struct TerminalCapacityLedger {
    pub used: BTreeMap<u32, QuantityMilli>,
}

impl TerminalCapacityLedger {
    /// Throughput in use by terminal ID.
    pub open spec fn view(&self) -> Map<u32, u64> {
        self.used@.map_values(|q: QuantityMilli| q@)
    }

    /// An empty ledger.
    pub fn new() -> (r: Self)
        ensures
            r@ == Map::<u32, u64>::empty(),
    {
        let r = TerminalCapacityLedger { used: BTreeMap::new() };
        assert(r@ =~= Map::<u32, u64>::empty());
        r
    }

    pub fn used(&self) -> (r: &BTreeMap<u32, QuantityMilli>)
        ensures
            r == &self.used,
    {
        &self.used
    }

    /// The throughput in use at one terminal, zero when none.
    pub fn used_at(&self, id: TerminalId) -> (r: QuantityMilli)
        ensures
            r@ == terminal_used(self@, id@),
    {
        match self.used.get(&id.get()) {
            Some(q) => *q,
            None => QuantityMilli::new(0),
        }
    }

    /// Reserves throughput; fails without change when the terminal's capacity would
    /// be exceeded.
    pub fn reserve(&mut self, terminal: &LogisticsTerminal, quantity: QuantityMilli) -> (r: Result<
        (),
        WorldError,
    >)
        ensures
            ({
                let next = terminal_used(old(self)@, terminal.spec_id()@) + quantity@;
                &&& next > u64::MAX ==> r == Err::<(), WorldError>(
                    WorldError::ArithmeticOverflow("terminal capacity"),
                )
                &&& next <= u64::MAX && next > terminal.spec_capacity() ==> r == Err::<
                    (),
                    WorldError,
                >(WorldError::InsufficientTerminalCapacity(terminal.spec_id()))
                &&& next <= terminal.spec_capacity() ==> r is Ok && final(self)@ == old(
                    self,
                )@.insert(terminal.spec_id()@, next as u64)
            }),
            r is Err ==> final(self)@ == old(self)@,
    {
        let id = terminal.id();
        let used = self.used_at(id).get();
        if used > u64::MAX - quantity.get() {
            return Err(WorldError::ArithmeticOverflow("terminal capacity"));
        }
        let next = used + quantity.get();
        if next > terminal.capacity().get() {
            return Err(WorldError::InsufficientTerminalCapacity(id));
        }
        self.used.insert(id.get(), QuantityMilli::new(next));
        assert(self@ =~= old(self)@.insert(id@, next));
        Ok(())
    }

    /// Releases throughput, dropping a terminal that reaches zero; fails without
    /// change when more is released than is in use.
    pub fn release(&mut self, id: TerminalId, quantity: QuantityMilli) -> (r: Result<
        (),
        WorldError,
    >)
        ensures
            terminal_used(old(self)@, id@) < quantity@ ==> r == Err::<(), WorldError>(
                WorldError::InvalidTerminal("release exceeds terminal usage"),
            ) && final(self)@ == old(self)@,
            terminal_used(old(self)@, id@) >= quantity@ ==> r is Ok && final(self)@ == if terminal_used(
                old(self)@,
                id@,
            ) == quantity@ {
                old(self)@.remove(id@)
            } else {
                old(self)@.insert(id@, (terminal_used(old(self)@, id@) - quantity@) as u64)
            },
    {
        let used = self.used_at(id).get();
        if used < quantity.get() {
            return Err(WorldError::InvalidTerminal("release exceeds terminal usage"));
        }
        let next = used - quantity.get();
        if next == 0 {
            self.used.remove(&id.get());
            assert(self@ =~= old(self)@.remove(id@));
        } else {
            self.used.insert(id.get(), QuantityMilli::new(next));
            assert(self@ =~= old(self)@.insert(id@, next));
        }
        Ok(())
    }
}

/// A shipment waiting at a terminal with the quantity it needs handled.
#[derive(Clone, Copy, Debug, PartialEq, Eq, Structural)]
pub struct TerminalQueueEntry {
    pub shipment: ShipmentId,
    pub quantity: QuantityMilli,
}

impl TerminalQueueEntry {
    pub fn new(shipment: ShipmentId, quantity: QuantityMilli) -> (r: Self)
        ensures
            r == (TerminalQueueEntry { shipment, quantity }),
    {
        TerminalQueueEntry { shipment, quantity }
    }

    pub fn shipment(self) -> (r: ShipmentId)
        ensures
            r == self.shipment,
    {
        self.shipment
    }

    pub fn quantity(self) -> (r: QuantityMilli)
        ensures
            r == self.quantity,
    {
        self.quantity
    }
}

/// Whether a shipment waits in any terminal queue.
pub open spec fn queued_anywhere(queues: Map<u32, Seq<TerminalQueueEntry>>, shipment: ShipmentId) -> bool {
    exists|t: u32, i: int|
        #![trigger queues[t][i]]
        queues.contains_key(t) && 0 <= i < queues[t].len() && queues[t][i].shipment == shipment
}

/// The number of leading entries admitted against `used` of `capacity`: each is
/// admitted while its quantity still fits, and admission stops at the first that
/// does not.
pub open spec fn admitted_count(used: int, capacity: int, entries: Seq<TerminalQueueEntry>) -> nat
    decreases entries.len(),
{
    if entries.len() == 0 {
        0
    } else if used + entries[0].quantity@ <= capacity {
        1 + admitted_count(used + entries[0].quantity@, capacity, entries.drop_first())
    } else {
        0
    }
}

/// The total quantity of a run of entries.
pub open spec fn total_quantity(entries: Seq<TerminalQueueEntry>) -> int
    decreases entries.len(),
{
    if entries.len() == 0 {
        0
    } else {
        entries[0].quantity@ + total_quantity(entries.drop_first())
    }
}

proof fn lemma_total_quantity_push(entries: Seq<TerminalQueueEntry>, i: int)
    requires
        0 <= i < entries.len(),
    ensures
        total_quantity(entries.take(i + 1)) == total_quantity(entries.take(i)) + entries[i].quantity@,
    decreases i,
{
    if i == 0 {
        assert(entries.take(1).drop_first() =~= Seq::<TerminalQueueEntry>::empty());
        assert(entries.take(0) =~= Seq::<TerminalQueueEntry>::empty());
    } else {
        lemma_total_quantity_push(entries.drop_first(), i - 1);
        assert(entries.take(i + 1).drop_first() =~= entries.drop_first().take(i));
        assert(entries.take(i).drop_first() =~= entries.drop_first().take(i - 1));
    }
}

/// Deterministic FIFO queues of shipments waiting at terminals.
#[derive(Clone, Debug, Default, PartialEq, Eq)]
pub struct TerminalQueue {
    pub waiting: BTreeMap<u32, Vec<TerminalQueueEntry>>,
}

impl TerminalQueue {
    /// The waiting entries of each terminal, in FIFO order.
    pub open spec fn view(&self) -> Map<u32, Seq<TerminalQueueEntry>> {
        self.waiting@.map_values(|v: Vec<TerminalQueueEntry>| v@)
    }

    /// An empty queue.
    pub fn new() -> (r: Self)
        ensures
            r.waiting@ == Map::<u32, Vec<TerminalQueueEntry>>::empty(),
    {
        TerminalQueue { waiting: BTreeMap::new() }
    }

    pub fn waiting(&self) -> (r: &BTreeMap<u32, Vec<TerminalQueueEntry>>)
        ensures
            r == &self.waiting,
    {
        &self.waiting
    }

    /// Appends a shipment to a terminal's FIFO queue; rejects a zero quantity or a
    /// shipment already waiting at any terminal.
    pub fn enqueue(&mut self, terminal: TerminalId, entry: TerminalQueueEntry) -> (r: Result<
        (),
        WorldError,
    >)
        ensures
            (entry.quantity@ == 0 || queued_anywhere(old(self)@, entry.shipment)) ==> r == Err::<
                (),
                WorldError,
            >(WorldError::InvalidTerminal("invalid or duplicate queued shipment")) && final(self)@
                == old(self)@,
            !(entry.quantity@ == 0 || queued_anywhere(old(self)@, entry.shipment)) ==> r is Ok
                && final(self)@ == old(self)@.insert(
                terminal@,
                if old(self)@.contains_key(terminal@) {
                    old(self)@[terminal@].push(entry)
                } else {
                    seq![entry]
                },
            ),
    {
        if entry.quantity.get() == 0 || self.is_queued(entry.shipment) {
            return Err(WorldError::InvalidTerminal("invalid or duplicate queued shipment"));
        }
        let mut queue = match self.waiting.remove(&terminal.get()) {
            Some(q) => q,
            None => Vec::new(),
        };
        queue.push(entry);
        self.waiting.insert(terminal.get(), queue);
        proof {
            assert(self@ =~= old(self)@.insert(
                terminal@,
                if old(self)@.contains_key(terminal@) {
                    old(self)@[terminal@].push(entry)
                } else {
                    seq![entry]
                },
            ));
        }
        Ok(())
    }

    /// Admits waiting entries of one terminal in FIFO order while each still fits
    /// the terminal's remaining throughput, stopping at the first that does not (it
    /// blocks those behind it). Returns the admitted entries; the rest keep waiting.
    pub fn admit_waiting(&mut self, terminal: &LogisticsTerminal, capacity: &mut TerminalCapacityLedger) -> (r:
        Vec<TerminalQueueEntry>)
        ensures
            ({
                let id = terminal.spec_id()@;
                let used = terminal_used(old(capacity)@, id);
                let entries = if old(self)@.contains_key(id) {
                    old(self)@[id]
                } else {
                    Seq::<TerminalQueueEntry>::empty()
                };
                let k = admitted_count(used, terminal.spec_capacity() as int, entries);
                &&& k <= entries.len()
                &&& r@ == entries.take(k as int)
                &&& final(capacity)@ == if k == 0 {
                    old(capacity)@
                } else {
                    old(capacity)@.insert(id, (used + total_quantity(entries.take(k as int))) as u64)
                }
                &&& final(self)@ == if !old(self)@.contains_key(id) {
                    old(self)@
                } else if k == entries.len() {
                    old(self)@.remove(id)
                } else {
                    old(self)@.insert(id, entries.skip(k as int))
                }
            }),
    {
        let id = terminal.id();
        let ghost used0 = terminal_used(old(capacity)@, id@);
        let ghost cap = terminal.spec_capacity() as int;
        let mut admitted: Vec<TerminalQueueEntry> = Vec::new();
        let queue = match self.waiting.remove(&id.get()) {
            Some(queue) => queue,
            None => {
                assert(admitted@ =~= Seq::<TerminalQueueEntry>::empty().take(0));
                return admitted;
            },
        };
        let ghost entries = queue@;
        let mut i: usize = 0;
        let mut blocked = false;
        proof {
            assert(entries.skip(0) =~= entries);
            assert(entries.take(0) =~= Seq::<TerminalQueueEntry>::empty());
        }
        while i < queue.len() && !blocked
            invariant
                entries == queue@,
                i <= queue@.len(),
                admitted@ == entries.take(i as int),
                terminal.spec_id() == id,
                cap == terminal.spec_capacity(),
                used0 == terminal_used(old(capacity)@, id@),
                blocked ==> admitted_count(used0, cap, entries) == i,
                !blocked ==> admitted_count(used0, cap, entries) == i + admitted_count(
                    used0 + total_quantity(entries.take(i as int)),
                    cap,
                    entries.skip(i as int),
                ),
                terminal_used(capacity@, id@) == used0 + total_quantity(entries.take(i as int)),
                i == 0 ==> capacity@ == old(capacity)@,
                i > 0 ==> capacity@ == old(capacity)@.insert(
                    id@,
                    (used0 + total_quantity(entries.take(i as int))) as u64,
                ),
            decreases queue@.len() - i, if blocked { 0int } else { 1int },
        {
            let entry = queue[i];
            proof {
                lemma_total_quantity_push(entries, i as int);
                assert(entries.skip(i as int).drop_first() == entries.skip(i + 1));
                assert(entries.skip(i as int)[0] == entries[i as int]);
            }
            match capacity.reserve(terminal, entry.quantity) {
                Ok(()) => {
                    admitted.push(entry);
                    i = i + 1;
                    proof {
                        assert(admitted@ =~= entries.take(i as int));
                    }
                },
                Err(_) => {
                    blocked = true;
                },
            }
        }
        proof {
            if !blocked {
                assert(entries.skip(i as int) =~= Seq::<TerminalQueueEntry>::empty());
            }
        }
        let mut rest: Vec<TerminalQueueEntry> = Vec::new();
        let mut j: usize = i;
        while j < queue.len()
            invariant
                entries == queue@,
                i <= j <= queue@.len(),
                rest@ == entries.subrange(i as int, j as int),
            decreases queue@.len() - j,
        {
            rest.push(queue[j]);
            j = j + 1;
            proof {
                assert(rest@ =~= entries.subrange(i as int, j as int));
            }
        }
        proof {
            assert(rest@ =~= entries.skip(i as int));
        }
        if rest.len() > 0 {
            self.waiting.insert(id.get(), rest);
            proof {
                assert(self@ =~= old(self)@.insert(id@, entries.skip(i as int)));
            }
        } else {
            proof {
                assert(self@ =~= old(self)@.remove(id@));
            }
        }
        admitted
    }

    /// Whether a shipment waits at any terminal.
    pub fn is_queued(&self, shipment: ShipmentId) -> (r: bool)
        ensures
            r == queued_anywhere(self@, shipment),
    {
        let mut found = false;
        let ghost v = vstd::std_specs::btree::spec_btree_map_iter(&self.waiting).remaining();
        for (_terminal, queue) in it: self.waiting.iter()
            invariant
                it.seq() == v,
                found == exists|j: int, i: int|
                    #![trigger v[j].1@[i]]
                    0 <= j < it.index() && 0 <= i < v[j].1@.len() && v[j].1@[i].shipment
                        == shipment,
        {
            if queue_contains(queue, shipment) {
                found = true;
            }
        }
        proof {
            let m = self.waiting@;
            if found {
                let (j, i) = choose|j: int, i: int|
                    #![trigger v[j].1@[i]]
                    0 <= j < v.len() && 0 <= i < v[j].1@.len() && v[j].1@[i].shipment
                        == shipment;
                let t = *v[j].0;
                assert(m.contains_key(t) && m[t] == *v[j].1);
                assert(self@[t][i].shipment == shipment);
            }
            if queued_anywhere(self@, shipment) {
                let (t, i) = choose|t: u32, i: int|
                    #![trigger self@[t][i]]
                    self@.contains_key(t) && 0 <= i < self@[t].len() && self@[t][i].shipment
                        == shipment;
                assert(m.contains_key(t));
                assert(v.contains((&t, &m[t])));
                let j = choose|j: int| 0 <= j < v.len() && v[j] == (&t, &m[t]);
                assert(v[j].1@[i].shipment == shipment);
            }
        }
        found
    }
}

/// Whether a queue holds an entry for `shipment`.
fn queue_contains(queue: &Vec<TerminalQueueEntry>, shipment: ShipmentId) -> (r: bool)
    ensures
        r == exists|i: int| 0 <= i < queue@.len() && (#[trigger] queue@[i]).shipment == shipment,
{
    let mut i: usize = 0;
    while i < queue.len()
        invariant
            i <= queue@.len(),
            forall|i2: int| 0 <= i2 < i ==> (#[trigger] queue@[i2]).shipment != shipment,
        decreases queue@.len() - i,
    {
        if queue[i].shipment == shipment {
            return true;
        }
        i = i + 1;
    }
    false
}

/// What registering a terminal answers when it is refused, or `None`.
pub open spec fn terminal_refusal(w: WorldView, t: LogisticsTerminal) -> Option<WorldError> {
    if w.terminals.contains_key(t.spec_id()@) {
        Some(WorldError::DuplicateTerminal(t.spec_id()))
    } else if !w.regions.contains_key(t.spec_region()@) {
        Some(WorldError::UnknownRegion(t.spec_region()))
    } else if !w.firms.contains_key(t.spec_operator()@) {
        Some(WorldError::UnknownFirm(t.spec_operator()))
    } else {
        None
    }
}

impl World {
    /// Registers a terminal after checking its region and operator; rejects a duplicate
    /// or an unknown reference and then changes nothing.
    pub fn register_terminal(&mut self, terminal: LogisticsTerminal) -> (r: Result<(), WorldError>)
        ensures
            terminal_refusal(old(self)@, terminal) matches Some(e) ==> r == Err::<(), WorldError>(e)
                && final(self)@ == old(self)@,
            terminal_refusal(old(self)@, terminal) is None ==> r is Ok && final(self)@ == (WorldView {
                terminals: old(self)@.terminals.insert(terminal.spec_id()@, terminal),
                ..old(self)@
            }),
    {
        let id = terminal.id();
        if self.terminals.contains_key(&id.get()) {
            return Err(WorldError::DuplicateTerminal(id));
        }
        let region = terminal.region();
        if !self.regions.contains_key(&region.get()) {
            return Err(WorldError::UnknownRegion(region));
        }
        let operator = terminal.operator();
        if !self.firms.contains_key(&operator.get()) {
            return Err(WorldError::UnknownFirm(operator));
        }
        self.terminals.insert(id.get(), terminal);
        Ok(())
    }

    pub fn terminals(&self) -> (r: &BTreeMap<u32, LogisticsTerminal>)
        ensures
            r@ == self@.terminals,
    {
        &self.terminals
    }

    pub fn terminal_capacity(&self) -> (r: &TerminalCapacityLedger)
        ensures
            r@ == self@.terminal_capacity,
    {
        &self.terminal_capacity
    }

    pub fn terminal_queue(&self) -> (r: &TerminalQueue)
        ensures
            r@ == self@.terminal_queue,
    {
        &self.terminal_queue
    }
}

} // verus!
