use vstd::prelude::*;

use std::collections::BTreeMap;
use vstd::utf8::encode_utf8;

use crate::cohort::HouseholdCohort;
use crate::demand::Good;
use crate::investment::{InvestmentProject, InvestmentStatus};
use crate::logistics::{LogisticsRoute, TransportMode};
use crate::ordered::{
    is_key_order, is_pair_key_order, key_order, keys_in_order, lemma_key_order_same_dom,
    pair_key_order, pair_keys_in_order,
};
use crate::production::{Firm, ProductionInput, ProductionRecipe};
use crate::terminal::{LogisticsTerminal, TerminalQueueEntry};
use crate::value::{BasisPoints, Money, QuantityMilli};
use crate::world::{Actor, Country, Influence, PowerNode, PowerNodeKind, Region, World, WorldView};

verus! {

/// The FNV-1a offset basis.
pub const FNV_OFFSET: u64 = 0xcbf2_9ce4_8422_2325;

/// The FNV-1a prime.
pub const FNV_PRIME: u64 = 0x0000_0100_0000_01b3;

/// FNV-1a over `bytes`, starting from `hash`.
pub open spec fn fnv_from(hash: u64, bytes: Seq<u8>) -> u64
    decreases bytes.len(),
{
    if bytes.len() == 0 {
        hash
    } else {
        (fnv_from(hash, bytes.drop_last()) ^ (bytes.last() as u64)).wrapping_mul(FNV_PRIME)
    }
}

/// The 64-bit FNV-1a hash of `bytes`.
pub open spec fn fnv1a(bytes: Seq<u8>) -> u64 {
    fnv_from(FNV_OFFSET, bytes)
}

/// Byte `i` (from the least significant) of `x`.
pub open spec fn byte_of(x: int, i: int) -> u8 {
    ((x / pow256(i)) % 256) as u8
}

/// 256 to the power `i`, for the byte positions of a `u64`.
pub open spec fn pow256(i: int) -> int {
    if i <= 0 {
        1
    } else if i == 1 {
        0x100
    } else if i == 2 {
        0x1_0000
    } else if i == 3 {
        0x100_0000
    } else if i == 4 {
        0x1_0000_0000
    } else if i == 5 {
        0x100_0000_0000
    } else if i == 6 {
        0x1_0000_0000_0000
    } else {
        0x100_0000_0000_0000
    }
}

/// The `n` little-endian bytes of the non-negative `x`.
pub open spec fn le_bytes(x: int, n: int) -> Seq<u8> {
    Seq::new(n as nat, |i: int| byte_of(x, i))
}

pub open spec fn u8_bytes(x: u8) -> Seq<u8> {
    seq![x]
}

pub open spec fn u16_bytes(x: u16) -> Seq<u8> {
    le_bytes(x as int, 2)
}

pub open spec fn u32_bytes(x: u32) -> Seq<u8> {
    le_bytes(x as int, 4)
}

pub open spec fn u64_bytes(x: u64) -> Seq<u8> {
    le_bytes(x as int, 8)
}

/// Two's complement little-endian bytes.
pub open spec fn i32_bytes(x: i32) -> Seq<u8> {
    le_bytes((x as u32) as int, 4)
}

pub open spec fn i64_bytes(x: i64) -> Seq<u8> {
    le_bytes((x as u64) as int, 8)
}

/// A string as its UTF-8 length followed by its UTF-8 bytes.
pub open spec fn str_bytes(s: Seq<char>) -> Seq<u8> {
    u64_bytes(encode_utf8(s).len() as u64) + encode_utf8(s)
}

/// A stable FNV-1a hasher that remembers, as a ghost, every byte written to it.
pub struct StableHasher {
    state: u64,
    written: Ghost<Seq<u8>>,
}

impl StableHasher {
    /// The bytes written so far.
    pub closed spec fn bytes(&self) -> Seq<u8> {
        self.written@
    }

    /// The hash of what was written.
    pub closed spec fn state(&self) -> u64 {
        self.state
    }

    #[verifier::type_invariant]
    closed spec fn consistent(&self) -> bool {
        self.state == fnv1a(self.written@)
    }

    pub fn new() -> (r: Self)
        ensures
            r.bytes() == Seq::<u8>::empty(),
    {
        StableHasher { state: FNV_OFFSET, written: Ghost(Seq::empty()) }
    }

    pub fn write_u8(&mut self, b: u8)
        ensures
            final(self).bytes() == old(self).bytes().push(b),
    {
        proof {
            use_type_invariant(&*self);
        }
        let ghost next = self.written@.push(b);
        assert(next.drop_last() =~= self.written@);
        let state = (self.state ^ (b as u64)).wrapping_mul(FNV_PRIME);
        *self = StableHasher { state, written: Ghost(next) };
    }

    pub fn write_u16(&mut self, x: u16)
        ensures
            final(self).bytes() == old(self).bytes() + u16_bytes(x),
    {
        self.write_u8((x % 0x100) as u8);
        self.write_u8(((x / 0x100) % 0x100) as u8);
        assert(self.bytes() =~= old(self).bytes() + u16_bytes(x));
    }

    pub fn write_u32(&mut self, x: u32)
        ensures
            final(self).bytes() == old(self).bytes() + u32_bytes(x),
    {
        self.write_u8((x % 0x100) as u8);
        self.write_u8(((x / 0x100) % 0x100) as u8);
        self.write_u8(((x / 0x1_0000) % 0x100) as u8);
        self.write_u8(((x / 0x100_0000) % 0x100) as u8);
        assert(self.bytes() =~= old(self).bytes() + u32_bytes(x));
    }

    pub fn write_u64(&mut self, x: u64)
        ensures
            final(self).bytes() == old(self).bytes() + u64_bytes(x),
    {
        self.write_u8((x % 0x100) as u8);
        self.write_u8(((x / 0x100) % 0x100) as u8);
        self.write_u8(((x / 0x1_0000) % 0x100) as u8);
        self.write_u8(((x / 0x100_0000) % 0x100) as u8);
        self.write_u8(((x / 0x1_0000_0000) % 0x100) as u8);
        self.write_u8(((x / 0x100_0000_0000) % 0x100) as u8);
        self.write_u8(((x / 0x1_0000_0000_0000) % 0x100) as u8);
        self.write_u8(((x / 0x100_0000_0000_0000) % 0x100) as u8);
        assert(self.bytes() =~= old(self).bytes() + u64_bytes(x));
    }

    pub fn write_i32(&mut self, x: i32)
        ensures
            final(self).bytes() == old(self).bytes() + i32_bytes(x),
    {
        self.write_u32(x as u32);
    }

    pub fn write_i64(&mut self, x: i64)
        ensures
            final(self).bytes() == old(self).bytes() + i64_bytes(x),
    {
        self.write_u64(x as u64);
    }

    pub fn write_str(&mut self, s: &str)
        ensures
            final(self).bytes() == old(self).bytes() + str_bytes(s@),
    {
        let bytes = s.as_bytes();
        self.write_u64(bytes.len() as u64);
        let ghost start = self.bytes();
        let mut i: usize = 0;
        while i < bytes.len()
            invariant
                bytes@ == encode_utf8(s@),
                i <= bytes@.len(),
                self.bytes() == start + bytes@.take(i as int),
            decreases bytes.len() - i,
        {
            self.write_u8(bytes[i]);
            assert(bytes@.take(i + 1) =~= bytes@.take(i as int).push(bytes@[i as int]));
            assert(self.bytes() =~= start + bytes@.take(i + 1));
            i = i + 1;
        }
        assert(bytes@.take(bytes@.len() as int) =~= bytes@);
        assert(self.bytes() =~= old(self).bytes() + str_bytes(s@));
    }

    /// The hash of the bytes written so far.
    pub fn finish(&self) -> (r: u64)
        ensures
            r == fnv1a(self.bytes()),
    {
        proof {
            use_type_invariant(self);
        }
        self.state
    }
}

/// The encodings of `ks` in order, each by `enc`.
pub open spec fn concat_map(ks: Seq<u32>, enc: spec_fn(u32) -> Seq<u8>) -> Seq<u8>
    decreases ks.len(),
{
    if ks.len() == 0 {
        Seq::empty()
    } else {
        concat_map(ks.drop_last(), enc) + enc(ks.last())
    }
}

/// The encodings of the pair keys `ks` in order, each by `enc`.
pub open spec fn concat_pairs(ks: Seq<(u32, u32)>, enc: spec_fn((u32, u32)) -> Seq<u8>) -> Seq<u8>
    decreases ks.len(),
{
    if ks.len() == 0 {
        Seq::empty()
    } else {
        concat_pairs(ks.drop_last(), enc) + enc(ks.last())
    }
}

/// A registry: its size, then its entries in key order.
pub open spec fn keyed<V>(m: Map<u32, V>, enc: spec_fn(u32) -> Seq<u8>) -> Seq<u8> {
    u64_bytes(m.dom().len() as u64) + concat_map(key_order(m), enc)
}

/// A registry keyed by pairs: its size, then its entries in key order.
pub open spec fn pair_keyed<V>(m: Map<(u32, u32), V>, enc: spec_fn((u32, u32)) -> Seq<u8>) -> Seq<u8> {
    u64_bytes(m.dom().len() as u64) + concat_pairs(pair_key_order(m), enc)
}

/// An empty registry that this library does not hold.
pub open spec fn empty_registry() -> Seq<u8> {
    u64_bytes(0)
}

pub open spec fn good_enc(m: Map<u32, Good>) -> spec_fn(u32) -> Seq<u8> {
    |k: u32| u32_bytes(k) + str_bytes(m[k].name@)
}

/// The inputs of a recipe: each good and quantity per batch.
pub open spec fn inputs_bytes(inputs: Seq<ProductionInput>) -> Seq<u8>
    decreases inputs.len(),
{
    if inputs.len() == 0 {
        Seq::empty()
    } else {
        inputs_bytes(inputs.drop_last()) + u32_bytes(inputs.last().good@) + u64_bytes(
            inputs.last().quantity_per_batch@,
        )
    }
}

pub open spec fn recipe_bytes(k: u32, r: ProductionRecipe) -> Seq<u8> {
    u32_bytes(k) + str_bytes(r.spec_name()) + u32_bytes(r.spec_output_good()@) + u64_bytes(
        r.spec_output_per_batch(),
    ) + u64_bytes(r.spec_labor()) + u64_bytes(r.spec_inputs().len() as u64) + inputs_bytes(
        r.spec_inputs(),
    )
}

pub open spec fn recipe_enc(m: Map<u32, ProductionRecipe>) -> spec_fn(u32) -> Seq<u8> {
    |k: u32| recipe_bytes(k, m[k])
}

pub open spec fn stock_enc(m: Map<u32, u64>) -> spec_fn(u32) -> Seq<u8> {
    |k: u32| u32_bytes(k) + u64_bytes(m[k])
}

pub open spec fn firm_bytes(k: u32, f: Firm) -> Seq<u8> {
    u32_bytes(k) + str_bytes(f.spec_name()) + u32_bytes(f.spec_region()@) + u32_bytes(
        f.spec_recipe()@,
    ) + u64_bytes(f.spec_workers()) + u64_bytes(f.spec_capacity()) + i64_bytes(f.spec_cash())
        + keyed(f.spec_inventories(), stock_enc(f.spec_inventories()))
}

pub open spec fn firm_enc(m: Map<u32, Firm>) -> spec_fn(u32) -> Seq<u8> {
    |k: u32| firm_bytes(k, m[k])
}

pub open spec fn status_tag(s: InvestmentStatus) -> u8 {
    match s {
        InvestmentStatus::Planned => 1,
        InvestmentStatus::Building => 2,
        InvestmentStatus::Completed => 3,
        InvestmentStatus::Cancelled => 4,
    }
}

pub open spec fn project_bytes(k: u32, p: InvestmentProject) -> Seq<u8> {
    u32_bytes(k) + u32_bytes(p.spec_firm()@) + u32_bytes(p.spec_region()@) + i64_bytes(
        p.spec_budget(),
    ) + i64_bytes(p.spec_spent()) + u32_bytes(p.spec_duration()) + u32_bytes(p.spec_elapsed())
        + u64_bytes(p.spec_capacity()) + u8_bytes(status_tag(p.spec_status()))
}

pub open spec fn project_enc(m: Map<u32, InvestmentProject>) -> spec_fn(u32) -> Seq<u8> {
    |k: u32| project_bytes(k, m[k])
}

pub open spec fn mode_tag(mode: TransportMode) -> u8 {
    match mode {
        TransportMode::Road => 1,
        TransportMode::Rail => 2,
        TransportMode::Sea => 3,
        TransportMode::Air => 4,
    }
}

pub open spec fn route_bytes(k: u32, r: LogisticsRoute) -> Seq<u8> {
    u32_bytes(k) + u32_bytes(r.spec_origin()@) + u32_bytes(r.spec_destination()@) + u8_bytes(
        mode_tag(r.spec_mode()),
    ) + u64_bytes(r.spec_capacity()) + i64_bytes(r.spec_cost_per_unit()) + u16_bytes(
        r.spec_transit_days(),
    ) + u16_bytes(r.spec_reliability_bps()) + u32_bytes(
        match r.spec_carrier() {
            Some(c) => c@,
            None => 0,
        },
    )
}

pub open spec fn route_enc(m: Map<u32, LogisticsRoute>) -> spec_fn(u32) -> Seq<u8> {
    |k: u32| route_bytes(k, m[k])
}

pub open spec fn terminal_bytes(k: u32, t: LogisticsTerminal) -> Seq<u8> {
    u32_bytes(k) + u32_bytes(t.spec_region()@) + u32_bytes(t.spec_operator()@) + u64_bytes(
        t.spec_capacity(),
    ) + i64_bytes(t.spec_storage_cost()) + u16_bytes(t.spec_handling_days())
}

pub open spec fn terminal_enc(m: Map<u32, LogisticsTerminal>) -> spec_fn(u32) -> Seq<u8> {
    |k: u32| terminal_bytes(k, m[k])
}

/// A terminal's waiting shipments in FIFO order.
pub open spec fn queue_bytes(entries: Seq<TerminalQueueEntry>) -> Seq<u8>
    decreases entries.len(),
{
    if entries.len() == 0 {
        Seq::empty()
    } else {
        queue_bytes(entries.drop_last()) + u32_bytes(entries.last().shipment@) + u64_bytes(
            entries.last().quantity@,
        )
    }
}

pub open spec fn queue_enc(m: Map<u32, Seq<TerminalQueueEntry>>) -> spec_fn(u32) -> Seq<u8> {
    |k: u32| u32_bytes(k) + u64_bytes(m[k].len() as u64) + queue_bytes(m[k])
}

pub open spec fn money_enc(m: Map<u32, Money>) -> spec_fn(u32) -> Seq<u8> {
    |k: u32| u32_bytes(k) + i64_bytes(m[k]@)
}

pub open spec fn price_enc(m: Map<(u32, u32), Money>) -> spec_fn((u32, u32)) -> Seq<u8> {
    |k: (u32, u32)| u32_bytes(k.0) + u32_bytes(k.1) + i64_bytes(m[k]@)
}

pub open spec fn country_bytes(k: u32, c: Country) -> Seq<u8> {
    u32_bytes(k) + str_bytes(c.name@) + i64_bytes(c.indicators.treasury@) + i64_bytes(
        c.indicators.public_debt@,
    ) + u16_bytes(c.indicators.legitimacy@) + u16_bytes(c.indicators.elite_cohesion@)
}

pub open spec fn country_enc(m: Map<u32, Country>) -> spec_fn(u32) -> Seq<u8> {
    |k: u32| country_bytes(k, m[k])
}

pub open spec fn region_bytes(k: u32, r: Region) -> Seq<u8> {
    u32_bytes(k) + u32_bytes(r.country@) + str_bytes(r.name@) + u64_bytes(r.population@)
        + i64_bytes(r.annual_output@)
}

pub open spec fn region_enc(m: Map<u32, Region>) -> spec_fn(u32) -> Seq<u8> {
    |k: u32| region_bytes(k, m[k])
}

/// A household cohort: its id, region, people, households, liquid wealth and debt.
pub open spec fn cohort_bytes(k: u32, c: HouseholdCohort) -> Seq<u8> {
    u32_bytes(k) + u32_bytes(c.region@) + u64_bytes(c.people@) + u64_bytes(c.households) + i64_bytes(
        c.liquid_wealth@,
    ) + i64_bytes(c.debt@)
}

pub open spec fn cohort_enc(m: Map<u32, HouseholdCohort>) -> spec_fn(u32) -> Seq<u8> {
    |k: u32| cohort_bytes(k, m[k])
}

pub open spec fn actor_bytes(k: u32, a: Actor) -> Seq<u8> {
    u32_bytes(k) + str_bytes(a.name@) + u32_bytes(a.home_region@) + i32_bytes(a.born_year)
}

pub open spec fn actor_enc(m: Map<u32, Actor>) -> spec_fn(u32) -> Seq<u8> {
    |k: u32| actor_bytes(k, m[k])
}

pub open spec fn kind_tag(kind: PowerNodeKind) -> u8 {
    match kind {
        PowerNodeKind::PoliticalOffice => 1,
        PowerNodeKind::Capital => 2,
        PowerNodeKind::MilitaryCommand => 3,
        PowerNodeKind::MediaPlatform => 4,
        PowerNodeKind::CivicOrganization => 5,
    }
}

pub open spec fn node_bytes(k: u32, n: PowerNode) -> Seq<u8> {
    u32_bytes(k) + u32_bytes(n.country@) + str_bytes(n.name@) + u8_bytes(kind_tag(n.kind))
        + u32_bytes(
        match n.holder {
            Some(a) => a@,
            None => 0,
        },
    )
}

pub open spec fn node_enc(m: Map<u32, PowerNode>) -> spec_fn(u32) -> Seq<u8> {
    |k: u32| node_bytes(k, m[k])
}

pub open spec fn influence_enc(m: Map<(u32, u32), Influence>) -> spec_fn((u32, u32)) -> Seq<u8> {
    |k: (u32, u32)| u32_bytes(k.0) + u32_bytes(k.1) + u16_bytes(m[k].weight@)
}

/// The version of the simulation rules that a fingerprint is taken under.
pub const SIMULATION_VERSION: u32 = 70;

/// The canonical encoding of a world: its seed and date, then every registry in key
/// order. Registries that this library does not hold (ownership, boards, freight
/// contracts, shipments, households, consumption profiles, actor cash) are encoded as
/// empty. The event log is not part of it.
pub open spec fn world_bytes(w: WorldView) -> Seq<u8> {
    u32_bytes(SIMULATION_VERSION) + u64_bytes(w.seed) + i32_bytes(w.date.spec_year()) + u16_bytes(
        w.date.spec_day_of_year(),
    ) + keyed(w.goods, good_enc(w.goods)) + keyed(
        w.production_recipes,
        recipe_enc(w.production_recipes),
    ) + keyed(w.firms, firm_enc(w.firms)) + empty_registry() + empty_registry() + empty_registry()
        + empty_registry() + keyed(w.investment_projects, project_enc(w.investment_projects))
        + keyed(w.logistics_routes, route_enc(w.logistics_routes)) + keyed(
        w.route_capacity,
        stock_enc(w.route_capacity),
    ) + empty_registry() + empty_registry() + empty_registry() + empty_registry()
        + empty_registry() + keyed(w.terminals, terminal_enc(w.terminals)) + keyed(
        w.terminal_capacity,
        stock_enc(w.terminal_capacity),
    ) + keyed(w.terminal_queue, queue_enc(w.terminal_queue)) + empty_registry() + keyed(
        w.committed_investments,
        money_enc(w.committed_investments),
    ) + empty_registry() + pair_keyed(w.regional_prices, price_enc(w.regional_prices)) + keyed(
        w.countries,
        country_enc(w.countries),
    ) + keyed(w.regions, region_enc(w.regions)) + keyed(w.cohorts, cohort_enc(w.cohorts)) + keyed(
        w.actors,
        actor_enc(w.actors),
    ) + keyed(w.power_nodes, node_enc(w.power_nodes)) + pair_keyed(
        w.influences,
        influence_enc(w.influences),
    )
}

pub proof fn lemma_concat_map_step(ks: Seq<u32>, i: int, enc: spec_fn(u32) -> Seq<u8>)
    requires
        0 <= i < ks.len(),
    ensures
        concat_map(ks.take(i + 1), enc) == concat_map(ks.take(i), enc) + enc(ks[i]),
{
    assert(ks.take(i + 1).drop_last() =~= ks.take(i));
}

pub proof fn lemma_concat_pairs_step(ks: Seq<(u32, u32)>, i: int, enc: spec_fn((u32, u32)) -> Seq<u8>)
    requires
        0 <= i < ks.len(),
    ensures
        concat_pairs(ks.take(i + 1), enc) == concat_pairs(ks.take(i), enc) + enc(ks[i]),
{
    assert(ks.take(i + 1).drop_last() =~= ks.take(i));
}

/// Writes a quantity registry (`view` is `m` by the quantities' views).
fn write_stock(h: &mut StableHasher, m: &BTreeMap<u32, QuantityMilli>, Ghost(view): Ghost<Map<u32, u64>>)
    requires
        m@.map_values(|q: QuantityMilli| q@) == view,
    ensures
        final(h).bytes() == old(h).bytes() + keyed(view, stock_enc(view)),
{
    let ks = keys_in_order(m);
    proof {
        assert(m@.dom() =~= view.dom());
        lemma_key_order_same_dom(m@, view, ks@);
    }
    h.write_u64(ks.len() as u64);
    let ghost start = h.bytes();
    let mut i: usize = 0;
    while i < ks.len()
        invariant
            ks@ == key_order(view),
            m@.map_values(|q: QuantityMilli| q@) == view,
            forall|j: int| 0 <= j < ks@.len() ==> m@.contains_key(#[trigger] ks@[j]),
            i <= ks.len(),
            h.bytes() == start + concat_map(ks@.take(i as int), stock_enc(view)),
        decreases ks.len() - i,
    {
        let k = ks[i];
        let q = *m.get(&k).unwrap();
        h.write_u32(k);
        h.write_u64(q.get());
        proof {
            assert(view[k] == q@);
            lemma_concat_map_step(ks@, i as int, stock_enc(view));
        }
        assert(h.bytes() =~= start + concat_map(ks@.take(i + 1), stock_enc(view)));
        i = i + 1;
    }
    assert(ks@.take(ks@.len() as int) =~= ks@);
    assert(h.bytes() =~= old(h).bytes() + keyed(view, stock_enc(view)));
}

fn write_goods(h: &mut StableHasher, m: &BTreeMap<u32, Good>)
    ensures
        final(h).bytes() == old(h).bytes() + keyed(m@, good_enc(m@)),
{
    let ks = keys_in_order(m);
    h.write_u64(ks.len() as u64);
    let ghost start = h.bytes();
    let mut i: usize = 0;
    while i < ks.len()
        invariant
            ks@ == key_order(m@),
            forall|j: int| 0 <= j < ks@.len() ==> m@.contains_key(#[trigger] ks@[j]),
            i <= ks.len(),
            h.bytes() == start + concat_map(ks@.take(i as int), good_enc(m@)),
        decreases ks.len() - i,
    {
        let k = ks[i];
        let good = m.get(&k).unwrap();
        h.write_u32(k);
        h.write_str(good.name.as_str());
        proof {
            lemma_concat_map_step(ks@, i as int, good_enc(m@));
        }
        assert(h.bytes() =~= start + concat_map(ks@.take(i + 1), good_enc(m@)));
        i = i + 1;
    }
    assert(ks@.take(ks@.len() as int) =~= ks@);
    assert(h.bytes() =~= old(h).bytes() + keyed(m@, good_enc(m@)));
}

fn write_recipe(h: &mut StableHasher, k: u32, r: &ProductionRecipe)
    ensures
        final(h).bytes() == old(h).bytes() + recipe_bytes(k, *r),
{
    h.write_u32(k);
    h.write_str(r.name());
    h.write_u32(r.output_good().get());
    h.write_u64(r.output_per_batch().get());
    h.write_u64(r.labor_milli_worker_months());
    let inputs = r.inputs();
    h.write_u64(inputs.len() as u64);
    let ghost start = h.bytes();
    let mut i: usize = 0;
    while i < inputs.len()
        invariant
            inputs@ == r.spec_inputs(),
            i <= inputs.len(),
            h.bytes() == start + inputs_bytes(inputs@.take(i as int)),
        decreases inputs.len() - i,
    {
        let input = inputs[i];
        h.write_u32(input.good().get());
        h.write_u64(input.quantity_per_batch().get());
        assert(inputs@.take(i + 1).drop_last() =~= inputs@.take(i as int));
        assert(h.bytes() =~= start + inputs_bytes(inputs@.take(i + 1)));
        i = i + 1;
    }
    assert(inputs@.take(inputs@.len() as int) =~= inputs@);
    assert(h.bytes() =~= old(h).bytes() + recipe_bytes(k, *r));
}

fn write_recipes(h: &mut StableHasher, m: &BTreeMap<u32, ProductionRecipe>)
    ensures
        final(h).bytes() == old(h).bytes() + keyed(m@, recipe_enc(m@)),
{
    let ks = keys_in_order(m);
    h.write_u64(ks.len() as u64);
    let ghost start = h.bytes();
    let mut i: usize = 0;
    while i < ks.len()
        invariant
            ks@ == key_order(m@),
            forall|j: int| 0 <= j < ks@.len() ==> m@.contains_key(#[trigger] ks@[j]),
            i <= ks.len(),
            h.bytes() == start + concat_map(ks@.take(i as int), recipe_enc(m@)),
        decreases ks.len() - i,
    {
        let k = ks[i];
        write_recipe(h, k, m.get(&k).unwrap());
        proof {
            lemma_concat_map_step(ks@, i as int, recipe_enc(m@));
        }
        assert(h.bytes() =~= start + concat_map(ks@.take(i + 1), recipe_enc(m@)));
        i = i + 1;
    }
    assert(ks@.take(ks@.len() as int) =~= ks@);
    assert(h.bytes() =~= old(h).bytes() + keyed(m@, recipe_enc(m@)));
}

fn write_firm(h: &mut StableHasher, k: u32, f: &Firm)
    ensures
        final(h).bytes() == old(h).bytes() + firm_bytes(k, *f),
{
    h.write_u32(k);
    h.write_str(f.name());
    h.write_u32(f.region().get());
    h.write_u32(f.recipe().get());
    h.write_u64(f.workers());
    h.write_u64(f.capacity_batches());
    h.write_i64(f.cash().minor_units());
    write_stock(h, f.inventories(), Ghost(f.spec_inventories()));
    assert(h.bytes() =~= old(h).bytes() + firm_bytes(k, *f));
}

fn write_firms(h: &mut StableHasher, m: &BTreeMap<u32, Firm>)
    ensures
        final(h).bytes() == old(h).bytes() + keyed(m@, firm_enc(m@)),
{
    let ks = keys_in_order(m);
    h.write_u64(ks.len() as u64);
    let ghost start = h.bytes();
    let mut i: usize = 0;
    while i < ks.len()
        invariant
            ks@ == key_order(m@),
            forall|j: int| 0 <= j < ks@.len() ==> m@.contains_key(#[trigger] ks@[j]),
            i <= ks.len(),
            h.bytes() == start + concat_map(ks@.take(i as int), firm_enc(m@)),
        decreases ks.len() - i,
    {
        let k = ks[i];
        write_firm(h, k, m.get(&k).unwrap());
        proof {
            lemma_concat_map_step(ks@, i as int, firm_enc(m@));
        }
        assert(h.bytes() =~= start + concat_map(ks@.take(i + 1), firm_enc(m@)));
        i = i + 1;
    }
    assert(ks@.take(ks@.len() as int) =~= ks@);
    assert(h.bytes() =~= old(h).bytes() + keyed(m@, firm_enc(m@)));
}

fn write_project(h: &mut StableHasher, k: u32, p: &InvestmentProject)
    ensures
        final(h).bytes() == old(h).bytes() + project_bytes(k, *p),
{
    h.write_u32(k);
    h.write_u32(p.firm().get());
    h.write_u32(p.region().get());
    h.write_i64(p.budget().minor_units());
    h.write_i64(p.spent().minor_units());
    h.write_u32(p.duration_months());
    h.write_u32(p.elapsed_months());
    h.write_u64(p.capacity_batches());
    let tag: u8 = match p.status() {
        InvestmentStatus::Planned => 1,
        InvestmentStatus::Building => 2,
        InvestmentStatus::Completed => 3,
        InvestmentStatus::Cancelled => 4,
    };
    h.write_u8(tag);
    assert(h.bytes() =~= old(h).bytes() + project_bytes(k, *p));
}

fn write_projects(h: &mut StableHasher, m: &BTreeMap<u32, InvestmentProject>)
    ensures
        final(h).bytes() == old(h).bytes() + keyed(m@, project_enc(m@)),
{
    let ks = keys_in_order(m);
    h.write_u64(ks.len() as u64);
    let ghost start = h.bytes();
    let mut i: usize = 0;
    while i < ks.len()
        invariant
            ks@ == key_order(m@),
            forall|j: int| 0 <= j < ks@.len() ==> m@.contains_key(#[trigger] ks@[j]),
            i <= ks.len(),
            h.bytes() == start + concat_map(ks@.take(i as int), project_enc(m@)),
        decreases ks.len() - i,
    {
        let k = ks[i];
        write_project(h, k, m.get(&k).unwrap());
        proof {
            lemma_concat_map_step(ks@, i as int, project_enc(m@));
        }
        assert(h.bytes() =~= start + concat_map(ks@.take(i + 1), project_enc(m@)));
        i = i + 1;
    }
    assert(ks@.take(ks@.len() as int) =~= ks@);
    assert(h.bytes() =~= old(h).bytes() + keyed(m@, project_enc(m@)));
}

fn write_route(h: &mut StableHasher, k: u32, r: &LogisticsRoute)
    ensures
        final(h).bytes() == old(h).bytes() + route_bytes(k, *r),
{
    h.write_u32(k);
    h.write_u32(r.origin().get());
    h.write_u32(r.destination().get());
    let tag: u8 = match r.mode() {
        TransportMode::Road => 1,
        TransportMode::Rail => 2,
        TransportMode::Sea => 3,
        TransportMode::Air => 4,
    };
    h.write_u8(tag);
    h.write_u64(r.capacity().get());
    h.write_i64(r.cost_per_unit().minor_units());
    h.write_u16(r.transit_days());
    h.write_u16(r.reliability_bps());
    let carrier: u32 = match r.carrier() {
        Some(c) => c.get(),
        None => 0,
    };
    h.write_u32(carrier);
    assert(h.bytes() =~= old(h).bytes() + route_bytes(k, *r));
}

fn write_routes(h: &mut StableHasher, m: &BTreeMap<u32, LogisticsRoute>)
    ensures
        final(h).bytes() == old(h).bytes() + keyed(m@, route_enc(m@)),
{
    let ks = keys_in_order(m);
    h.write_u64(ks.len() as u64);
    let ghost start = h.bytes();
    let mut i: usize = 0;
    while i < ks.len()
        invariant
            ks@ == key_order(m@),
            forall|j: int| 0 <= j < ks@.len() ==> m@.contains_key(#[trigger] ks@[j]),
            i <= ks.len(),
            h.bytes() == start + concat_map(ks@.take(i as int), route_enc(m@)),
        decreases ks.len() - i,
    {
        let k = ks[i];
        write_route(h, k, m.get(&k).unwrap());
        proof {
            lemma_concat_map_step(ks@, i as int, route_enc(m@));
        }
        assert(h.bytes() =~= start + concat_map(ks@.take(i + 1), route_enc(m@)));
        i = i + 1;
    }
    assert(ks@.take(ks@.len() as int) =~= ks@);
    assert(h.bytes() =~= old(h).bytes() + keyed(m@, route_enc(m@)));
}

fn write_terminals(h: &mut StableHasher, m: &BTreeMap<u32, LogisticsTerminal>)
    ensures
        final(h).bytes() == old(h).bytes() + keyed(m@, terminal_enc(m@)),
{
    let ks = keys_in_order(m);
    h.write_u64(ks.len() as u64);
    let ghost start = h.bytes();
    let mut i: usize = 0;
    while i < ks.len()
        invariant
            ks@ == key_order(m@),
            forall|j: int| 0 <= j < ks@.len() ==> m@.contains_key(#[trigger] ks@[j]),
            i <= ks.len(),
            h.bytes() == start + concat_map(ks@.take(i as int), terminal_enc(m@)),
        decreases ks.len() - i,
    {
        let k = ks[i];
        let v = m.get(&k).unwrap();
        h.write_u32(k);
        h.write_u32(v.region().get());
        h.write_u32(v.operator().get());
        h.write_u64(v.capacity().get());
        h.write_i64(v.storage_cost().minor_units());
        h.write_u16(v.handling_days());
        proof {
            lemma_concat_map_step(ks@, i as int, terminal_enc(m@));
        }
        assert(h.bytes() =~= start + concat_map(ks@.take(i + 1), terminal_enc(m@)));
        i = i + 1;
    }
    assert(ks@.take(ks@.len() as int) =~= ks@);
    assert(h.bytes() =~= old(h).bytes() + keyed(m@, terminal_enc(m@)));
}

fn write_money(h: &mut StableHasher, m: &BTreeMap<u32, Money>)
    ensures
        final(h).bytes() == old(h).bytes() + keyed(m@, money_enc(m@)),
{
    let ks = keys_in_order(m);
    h.write_u64(ks.len() as u64);
    let ghost start = h.bytes();
    let mut i: usize = 0;
    while i < ks.len()
        invariant
            ks@ == key_order(m@),
            forall|j: int| 0 <= j < ks@.len() ==> m@.contains_key(#[trigger] ks@[j]),
            i <= ks.len(),
            h.bytes() == start + concat_map(ks@.take(i as int), money_enc(m@)),
        decreases ks.len() - i,
    {
        let k = ks[i];
        let v = m.get(&k).unwrap();
        h.write_u32(k);
        h.write_i64(v.minor_units());
        proof {
            lemma_concat_map_step(ks@, i as int, money_enc(m@));
        }
        assert(h.bytes() =~= start + concat_map(ks@.take(i + 1), money_enc(m@)));
        i = i + 1;
    }
    assert(ks@.take(ks@.len() as int) =~= ks@);
    assert(h.bytes() =~= old(h).bytes() + keyed(m@, money_enc(m@)));
}

fn write_countries(h: &mut StableHasher, m: &BTreeMap<u32, Country>)
    ensures
        final(h).bytes() == old(h).bytes() + keyed(m@, country_enc(m@)),
{
    let ks = keys_in_order(m);
    h.write_u64(ks.len() as u64);
    let ghost start = h.bytes();
    let mut i: usize = 0;
    while i < ks.len()
        invariant
            ks@ == key_order(m@),
            forall|j: int| 0 <= j < ks@.len() ==> m@.contains_key(#[trigger] ks@[j]),
            i <= ks.len(),
            h.bytes() == start + concat_map(ks@.take(i as int), country_enc(m@)),
        decreases ks.len() - i,
    {
        let k = ks[i];
        let v = m.get(&k).unwrap();
        h.write_u32(k);
        h.write_str(v.name.as_str());
        h.write_i64(v.indicators.treasury.minor_units());
        h.write_i64(v.indicators.public_debt.minor_units());
        h.write_u16(v.indicators.legitimacy.get());
        h.write_u16(v.indicators.elite_cohesion.get());
        proof {
            lemma_concat_map_step(ks@, i as int, country_enc(m@));
        }
        assert(h.bytes() =~= start + concat_map(ks@.take(i + 1), country_enc(m@)));
        i = i + 1;
    }
    assert(ks@.take(ks@.len() as int) =~= ks@);
    assert(h.bytes() =~= old(h).bytes() + keyed(m@, country_enc(m@)));
}

fn write_regions(h: &mut StableHasher, m: &BTreeMap<u32, Region>)
    ensures
        final(h).bytes() == old(h).bytes() + keyed(m@, region_enc(m@)),
{
    let ks = keys_in_order(m);
    h.write_u64(ks.len() as u64);
    let ghost start = h.bytes();
    let mut i: usize = 0;
    while i < ks.len()
        invariant
            ks@ == key_order(m@),
            forall|j: int| 0 <= j < ks@.len() ==> m@.contains_key(#[trigger] ks@[j]),
            i <= ks.len(),
            h.bytes() == start + concat_map(ks@.take(i as int), region_enc(m@)),
        decreases ks.len() - i,
    {
        let k = ks[i];
        let v = m.get(&k).unwrap();
        h.write_u32(k);
        h.write_u32(v.country.get());
        h.write_str(v.name.as_str());
        h.write_u64(v.population.people());
        h.write_i64(v.annual_output.minor_units());
        proof {
            lemma_concat_map_step(ks@, i as int, region_enc(m@));
        }
        assert(h.bytes() =~= start + concat_map(ks@.take(i + 1), region_enc(m@)));
        i = i + 1;
    }
    assert(ks@.take(ks@.len() as int) =~= ks@);
    assert(h.bytes() =~= old(h).bytes() + keyed(m@, region_enc(m@)));
}

fn write_cohorts(h: &mut StableHasher, m: &BTreeMap<u32, HouseholdCohort>)
    ensures
        final(h).bytes() == old(h).bytes() + keyed(m@, cohort_enc(m@)),
{
    let ks = keys_in_order(m);
    h.write_u64(ks.len() as u64);
    let ghost start = h.bytes();
    let mut i: usize = 0;
    while i < ks.len()
        invariant
            ks@ == key_order(m@),
            forall|j: int| 0 <= j < ks@.len() ==> m@.contains_key(#[trigger] ks@[j]),
            i <= ks.len(),
            h.bytes() == start + concat_map(ks@.take(i as int), cohort_enc(m@)),
        decreases ks.len() - i,
    {
        let k = ks[i];
        let v = m.get(&k).unwrap();
        h.write_u32(k);
        h.write_u32(v.region.get());
        h.write_u64(v.people.people());
        h.write_u64(v.households);
        h.write_i64(v.liquid_wealth.minor_units());
        h.write_i64(v.debt.minor_units());
        proof {
            lemma_concat_map_step(ks@, i as int, cohort_enc(m@));
        }
        assert(h.bytes() =~= start + concat_map(ks@.take(i + 1), cohort_enc(m@)));
        i = i + 1;
    }
    assert(ks@.take(ks@.len() as int) =~= ks@);
    assert(h.bytes() =~= old(h).bytes() + keyed(m@, cohort_enc(m@)));
}

fn write_actors(h: &mut StableHasher, m: &BTreeMap<u32, Actor>)
    ensures
        final(h).bytes() == old(h).bytes() + keyed(m@, actor_enc(m@)),
{
    let ks = keys_in_order(m);
    h.write_u64(ks.len() as u64);
    let ghost start = h.bytes();
    let mut i: usize = 0;
    while i < ks.len()
        invariant
            ks@ == key_order(m@),
            forall|j: int| 0 <= j < ks@.len() ==> m@.contains_key(#[trigger] ks@[j]),
            i <= ks.len(),
            h.bytes() == start + concat_map(ks@.take(i as int), actor_enc(m@)),
        decreases ks.len() - i,
    {
        let k = ks[i];
        let v = m.get(&k).unwrap();
        h.write_u32(k);
        h.write_str(v.name.as_str());
        h.write_u32(v.home_region.get());
        h.write_i32(v.born_year);
        proof {
            lemma_concat_map_step(ks@, i as int, actor_enc(m@));
        }
        assert(h.bytes() =~= start + concat_map(ks@.take(i + 1), actor_enc(m@)));
        i = i + 1;
    }
    assert(ks@.take(ks@.len() as int) =~= ks@);
    assert(h.bytes() =~= old(h).bytes() + keyed(m@, actor_enc(m@)));
}

fn write_nodes(h: &mut StableHasher, m: &BTreeMap<u32, PowerNode>)
    ensures
        final(h).bytes() == old(h).bytes() + keyed(m@, node_enc(m@)),
{
    let ks = keys_in_order(m);
    h.write_u64(ks.len() as u64);
    let ghost start = h.bytes();
    let mut i: usize = 0;
    while i < ks.len()
        invariant
            ks@ == key_order(m@),
            forall|j: int| 0 <= j < ks@.len() ==> m@.contains_key(#[trigger] ks@[j]),
            i <= ks.len(),
            h.bytes() == start + concat_map(ks@.take(i as int), node_enc(m@)),
        decreases ks.len() - i,
    {
        let k = ks[i];
        let v = m.get(&k).unwrap();
        h.write_u32(k);
        h.write_u32(v.country.get());
        h.write_str(v.name.as_str());
        let tag: u8 = match v.kind {
            PowerNodeKind::PoliticalOffice => 1,
            PowerNodeKind::Capital => 2,
            PowerNodeKind::MilitaryCommand => 3,
            PowerNodeKind::MediaPlatform => 4,
            PowerNodeKind::CivicOrganization => 5,
        };
        h.write_u8(tag);
        let holder: u32 = match v.holder {
            Some(a) => a.get(),
            None => 0,
        };
        h.write_u32(holder);
        proof {
            lemma_concat_map_step(ks@, i as int, node_enc(m@));
        }
        assert(h.bytes() =~= start + concat_map(ks@.take(i + 1), node_enc(m@)));
        i = i + 1;
    }
    assert(ks@.take(ks@.len() as int) =~= ks@);
    assert(h.bytes() =~= old(h).bytes() + keyed(m@, node_enc(m@)));
}

fn write_prices(h: &mut StableHasher, m: &BTreeMap<(u32, u32), Money>)
    ensures
        final(h).bytes() == old(h).bytes() + pair_keyed(m@, price_enc(m@)),
{
    let ks = pair_keys_in_order(m);
    h.write_u64(ks.len() as u64);
    let ghost start = h.bytes();
    let mut i: usize = 0;
    while i < ks.len()
        invariant
            ks@ == pair_key_order(m@),
            forall|j: int| 0 <= j < ks@.len() ==> m@.contains_key(#[trigger] ks@[j]),
            i <= ks.len(),
            h.bytes() == start + concat_pairs(ks@.take(i as int), price_enc(m@)),
        decreases ks.len() - i,
    {
        let k = ks[i];
        let v = m.get(&k).unwrap();
        h.write_u32(k.0);
        h.write_u32(k.1);
        h.write_i64(v.minor_units());
        proof {
            lemma_concat_pairs_step(ks@, i as int, price_enc(m@));
        }
        assert(h.bytes() =~= start + concat_pairs(ks@.take(i + 1), price_enc(m@)));
        i = i + 1;
    }
    assert(ks@.take(ks@.len() as int) =~= ks@);
    assert(h.bytes() =~= old(h).bytes() + pair_keyed(m@, price_enc(m@)));
}

fn write_influences(h: &mut StableHasher, m: &BTreeMap<(u32, u32), Influence>)
    ensures
        final(h).bytes() == old(h).bytes() + pair_keyed(m@, influence_enc(m@)),
{
    let ks = pair_keys_in_order(m);
    h.write_u64(ks.len() as u64);
    let ghost start = h.bytes();
    let mut i: usize = 0;
    while i < ks.len()
        invariant
            ks@ == pair_key_order(m@),
            forall|j: int| 0 <= j < ks@.len() ==> m@.contains_key(#[trigger] ks@[j]),
            i <= ks.len(),
            h.bytes() == start + concat_pairs(ks@.take(i as int), influence_enc(m@)),
        decreases ks.len() - i,
    {
        let k = ks[i];
        let v = m.get(&k).unwrap();
        h.write_u32(k.0);
        h.write_u32(k.1);
        h.write_u16(v.weight.get());
        proof {
            lemma_concat_pairs_step(ks@, i as int, influence_enc(m@));
        }
        assert(h.bytes() =~= start + concat_pairs(ks@.take(i + 1), influence_enc(m@)));
        i = i + 1;
    }
    assert(ks@.take(ks@.len() as int) =~= ks@);
    assert(h.bytes() =~= old(h).bytes() + pair_keyed(m@, influence_enc(m@)));
}

fn write_queue(
    h: &mut StableHasher,
    m: &BTreeMap<u32, Vec<TerminalQueueEntry>>,
    Ghost(view): Ghost<Map<u32, Seq<TerminalQueueEntry>>>,
)
    requires
        m@.map_values(|v: Vec<TerminalQueueEntry>| v@) == view,
    ensures
        final(h).bytes() == old(h).bytes() + keyed(view, queue_enc(view)),
{
    let ks = keys_in_order(m);
    proof {
        assert(m@.dom() =~= view.dom());
        lemma_key_order_same_dom(m@, view, ks@);
    }
    h.write_u64(ks.len() as u64);
    let ghost start = h.bytes();
    let mut i: usize = 0;
    while i < ks.len()
        invariant
            ks@ == key_order(view),
            m@.map_values(|v: Vec<TerminalQueueEntry>| v@) == view,
            forall|j: int| 0 <= j < ks@.len() ==> m@.contains_key(#[trigger] ks@[j]),
            i <= ks.len(),
            h.bytes() == start + concat_map(ks@.take(i as int), queue_enc(view)),
        decreases ks.len() - i,
    {
        let k = ks[i];
        let entries = m.get(&k).unwrap();
        assert(view[k] == entries@);
        h.write_u32(k);
        h.write_u64(entries.len() as u64);
        let ghost before = h.bytes();
        let mut j: usize = 0;
        while j < entries.len()
            invariant
                j <= entries@.len(),
                h.bytes() == before + queue_bytes(entries@.take(j as int)),
            decreases entries.len() - j,
        {
            let entry = entries[j];
            h.write_u32(entry.shipment.get());
            h.write_u64(entry.quantity.get());
            assert(entries@.take(j + 1).drop_last() =~= entries@.take(j as int));
            assert(h.bytes() =~= before + queue_bytes(entries@.take(j + 1)));
            j = j + 1;
        }
        assert(entries@.take(entries@.len() as int) =~= entries@);
        proof {
            lemma_concat_map_step(ks@, i as int, queue_enc(view));
        }
        assert(h.bytes() =~= start + concat_map(ks@.take(i + 1), queue_enc(view)));
        i = i + 1;
    }
    assert(ks@.take(ks@.len() as int) =~= ks@);
    assert(h.bytes() =~= old(h).bytes() + keyed(view, queue_enc(view)));
}

/// The fingerprint does not read the event log: two worlds that differ only in their
/// history share it.
pub proof fn lemma_fingerprint_ignores_history(w: WorldView, events: Seq<crate::event::EventEnvelope>)
    ensures
        world_bytes(WorldView { events, ..w }) == world_bytes(w),
{
}

/// Canonical storage ignores insertion order: registering two different countries in
/// either order yields the same fingerprint.
pub proof fn lemma_country_order_is_invisible(
    w: WorldView,
    a: Country,
    b: Country,
    first: Seq<crate::event::EventEnvelope>,
    second: Seq<crate::event::EventEnvelope>,
)
    requires
        a.id@ != b.id@,
    ensures
        world_bytes(
            WorldView { countries: w.countries.insert(a.id@, a).insert(b.id@, b), events: first, ..w },
        ) == world_bytes(
            WorldView { countries: w.countries.insert(b.id@, b).insert(a.id@, a), events: second, ..w },
        ),
{
    assert(w.countries.insert(a.id@, a).insert(b.id@, b) =~= w.countries.insert(b.id@, b).insert(
        a.id@,
        a,
    ));
}

impl World {
    /// A stable 64-bit fingerprint of the world: FNV-1a over its canonical encoding
    /// `world_bytes`, which reads every registry in key order and leaves out the event
    /// log, so two worlds with the same state share it whatever order they were built in.
    pub fn stable_fingerprint(&self) -> (r: u64)
        ensures
            r == fnv1a(world_bytes(self@)),
    {
        let mut h = StableHasher::new();
        h.write_u32(SIMULATION_VERSION);
        h.write_u64(self.seed.get());
        h.write_i32(self.date.year());
        h.write_u16(self.date.day_of_year());
        write_goods(&mut h, &self.goods);
        write_recipes(&mut h, &self.production_recipes);
        write_firms(&mut h, &self.firms);
        h.write_u64(0);
        h.write_u64(0);
        h.write_u64(0);
        h.write_u64(0);
        write_projects(&mut h, &self.investment_projects);
        write_routes(&mut h, &self.logistics_routes);
        write_stock(&mut h, &self.route_capacity.reserved, Ghost(self@.route_capacity));
        h.write_u64(0);
        h.write_u64(0);
        h.write_u64(0);
        h.write_u64(0);
        h.write_u64(0);
        write_terminals(&mut h, &self.terminals);
        write_stock(&mut h, &self.terminal_capacity.used, Ghost(self@.terminal_capacity));
        write_queue(&mut h, &self.terminal_queue.waiting, Ghost(self@.terminal_queue));
        h.write_u64(0);
        write_money(&mut h, &self.committed_investments);
        h.write_u64(0);
        write_prices(&mut h, &self.regional_prices);
        write_countries(&mut h, &self.countries);
        write_regions(&mut h, &self.regions);
        write_cohorts(&mut h, &self.cohorts);
        write_actors(&mut h, &self.actors);
        write_nodes(&mut h, &self.power_nodes);
        write_influences(&mut h, &self.influences);
        assert(h.bytes() =~= world_bytes(self@));
        h.finish()
    }
}

} // verus!
