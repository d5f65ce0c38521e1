use vstd::prelude::*;
use std::collections::BTreeMap;

use crate::ids::{FirmId, GoodId, RecipeId, RegionId};
use crate::value::{Money, QuantityMilli};
use crate::ordered::{key_order, keys_in_order};
use crate::world::{is_blank, name_is_blank, World, WorldError, WorldView};

verus! {

broadcast use vstd::std_specs::btree::group_btree_axioms;

/// One intermediate good consumed per batch.
#[derive(Clone, Copy, Debug, PartialEq, Eq, Structural)]
pub struct ProductionInput {
    pub good: GoodId,
    pub quantity_per_batch: QuantityMilli,
}

impl ProductionInput {
    pub fn new(good: GoodId, quantity_per_batch: QuantityMilli) -> (r: Self)
        ensures
            r == (ProductionInput { good, quantity_per_batch }),
    {
        ProductionInput { good, quantity_per_batch }
    }

    pub fn good(self) -> (r: GoodId)
        ensures
            r == self.good,
    {
        self.good
    }

    pub fn quantity_per_batch(self) -> (r: QuantityMilli)
        ensures
            r == self.quantity_per_batch,
    {
        self.quantity_per_batch
    }
}

/// Whether the inputs are ordered by strictly increasing good ID.
pub open spec fn inputs_sorted(inputs: Seq<ProductionInput>) -> bool {
    forall|i: int, j: int| 0 <= i < j < inputs.len() ==> inputs[i].good@ < inputs[j].good@
}

/// Whether two inputs name the same good.
pub open spec fn has_duplicate_good(inputs: Seq<ProductionInput>) -> bool {
    exists|i: int, j: int|
        #![trigger inputs[i], inputs[j]]
        0 <= i < j < inputs.len() && inputs[i].good == inputs[j].good
}

/// Whether an input names `good`.
pub open spec fn uses_good(inputs: Seq<ProductionInput>, good: GoodId) -> bool {
    exists|i: int| 0 <= i < inputs.len() && (#[trigger] inputs[i]).good == good
}

/// A fixed physical production recipe.
#[derive(Debug, PartialEq, Eq)]
pub struct ProductionRecipe {
    id: RecipeId,
    name: String,
    output_good: GoodId,
    output_per_batch: QuantityMilli,
    labor_milli_worker_months: u64,
    inputs: Vec<ProductionInput>,
}

impl Clone for ProductionRecipe {
    fn clone(&self) -> (r: Self)
        ensures
            r.spec_id() == self.spec_id(),
            r.spec_name() == self.spec_name(),
            r.spec_output_good() == self.spec_output_good(),
            r.spec_output_per_batch() == self.spec_output_per_batch(),
            r.spec_labor() == self.spec_labor(),
            r.spec_inputs() == self.spec_inputs(),
    {
        proof {
            use_type_invariant(self);
        }
        let mut inputs: Vec<ProductionInput> = Vec::new();
        let mut i: usize = 0;
        while i < self.inputs.len()
            invariant
                i <= self.inputs.len(),
                inputs@ == self.inputs@.take(i as int),
            decreases self.inputs.len() - i,
        {
            inputs.push(self.inputs[i]);
            i = i + 1;
            assert(inputs@ =~= self.inputs@.take(i as int));
        }
        assert(inputs@ =~= self.inputs@);
        ProductionRecipe {
            id: self.id,
            name: self.name.clone(),
            output_good: self.output_good,
            output_per_batch: self.output_per_batch,
            labor_milli_worker_months: self.labor_milli_worker_months,
            inputs,
        }
    }
}

impl ProductionRecipe {
    pub closed spec fn spec_id(&self) -> RecipeId {
        self.id
    }

    pub closed spec fn spec_name(&self) -> Seq<char> {
        self.name@
    }

    pub closed spec fn spec_output_good(&self) -> GoodId {
        self.output_good
    }

    pub closed spec fn spec_output_per_batch(&self) -> u64 {
        self.output_per_batch@
    }

    pub closed spec fn spec_labor(&self) -> u64 {
        self.labor_milli_worker_months
    }

    pub closed spec fn spec_inputs(&self) -> Seq<ProductionInput> {
        self.inputs@
    }

    #[verifier::type_invariant]
    closed spec fn valid(&self) -> bool {
        &&& self.output_per_batch@ > 0
        &&& self.labor_milli_worker_months > 0
        &&& inputs_sorted(self.inputs@)
        &&& !uses_good(self.inputs@, self.output_good)
        &&& forall|i: int| 0 <= i < self.inputs@.len() ==> (#[trigger] self.inputs@[i]).quantity_per_batch@ > 0
    }

    /// Creates a recipe. Rejects a blank name, zero output, labor or input quantity,
    /// and then duplicate input goods or an input equal to the output. Inputs are
    /// stored in increasing good-ID order.
    pub fn new(
        id: RecipeId,
        name: &str,
        output_good: GoodId,
        output_per_batch: QuantityMilli,
        labor_milli_worker_months: u64,
        inputs: Vec<ProductionInput>,
    ) -> (r: Result<Self, WorldError>)
        ensures
            ({
                let invalid = is_blank(name@) || output_per_batch@ == 0 || labor_milli_worker_months
                    == 0 || exists|i: int|
                    0 <= i < inputs@.len() && (#[trigger] inputs@[i]).quantity_per_batch@ == 0;
                let conflicting = has_duplicate_good(inputs@) || uses_good(inputs@, output_good);
                &&& invalid ==> r == Err::<Self, WorldError>(
                    WorldError::InvalidProduction("recipe fields must be positive and named"),
                )
                &&& !invalid && conflicting ==> r == Err::<Self, WorldError>(
                    WorldError::InvalidProduction("inputs must be unique and cannot equal output"),
                )
                &&& !invalid && !conflicting ==> (r matches Ok(recipe) && recipe.spec_id() == id
                    && recipe.spec_name() == name@ && recipe.spec_output_good() == output_good
                    && recipe.spec_output_per_batch() == output_per_batch@ && recipe.spec_labor()
                    == labor_milli_worker_months && inputs_sorted(recipe.spec_inputs())
                    && recipe.spec_inputs().len() == inputs@.len() && recipe.spec_inputs().to_set()
                    == inputs@.to_set())
            }),
    {
        let mut any_zero = false;
        let mut i: usize = 0;
        while i < inputs.len()
            invariant
                i <= inputs@.len(),
                any_zero == exists|j: int| 0 <= j < i && (#[trigger] inputs@[j]).quantity_per_batch@ == 0,
            decreases inputs@.len() - i,
        {
            if inputs[i].quantity_per_batch.get() == 0 {
                any_zero = true;
            }
            i = i + 1;
        }
        if name_is_blank(name) || output_per_batch.get() == 0 || labor_milli_worker_months == 0
            || any_zero {
            return Err(WorldError::InvalidProduction("recipe fields must be positive and named"));
        }
        if has_duplicate_or_output(&inputs, output_good) {
            return Err(WorldError::InvalidProduction("inputs must be unique and cannot equal output"));
        }
        let sorted = sort_inputs(inputs);
        proof {
            assert forall|k: int| 0 <= k < sorted@.len() implies (#[trigger] sorted@[k]).quantity_per_batch@
                > 0 && sorted@[k].good != output_good by {
                assert(sorted@.to_set().contains(sorted@[k]));
                assert(inputs@.to_set().contains(sorted@[k]));
                let j = choose|j: int| 0 <= j < inputs@.len() && inputs@[j] == sorted@[k];
                assert(inputs@[j].quantity_per_batch@ != 0);
            }
        }
        Ok(
            ProductionRecipe {
                id,
                name: name.to_owned(),
                output_good,
                output_per_batch,
                labor_milli_worker_months,
                inputs: sorted,
            },
        )
    }

    pub fn id(&self) -> (r: RecipeId)
        ensures
            r == self.spec_id(),
    {
        self.id
    }

    pub fn name(&self) -> (r: &str)
        ensures
            r@ == self.spec_name(),
    {
        self.name.as_str()
    }

    pub fn output_good(&self) -> (r: GoodId)
        ensures
            r == self.spec_output_good(),
    {
        self.output_good
    }

    pub fn output_per_batch(&self) -> (r: QuantityMilli)
        ensures
            r@ == self.spec_output_per_batch(),
            r@ > 0,
    {
        proof {
            use_type_invariant(self);
        }
        self.output_per_batch
    }

    pub fn labor_milli_worker_months(&self) -> (r: u64)
        ensures
            r == self.spec_labor(),
            r > 0,
    {
        proof {
            use_type_invariant(self);
        }
        self.labor_milli_worker_months
    }

    pub fn inputs(&self) -> (r: &[ProductionInput])
        ensures
            r@ == self.spec_inputs(),
            inputs_sorted(r@),
            !uses_good(r@, self.spec_output_good()),
            forall|i: int| 0 <= i < r@.len() ==> (#[trigger] r@[i]).quantity_per_batch@ > 0,
    {
        proof {
            use_type_invariant(self);
        }
        self.inputs.as_slice()
    }
}

/// Whether two inputs share a good or one names `output`.
fn has_duplicate_or_output(inputs: &Vec<ProductionInput>, output: GoodId) -> (r: bool)
    ensures
        r == (has_duplicate_good(inputs@) || uses_good(inputs@, output)),
{
    let mut i: usize = 0;
    while i < inputs.len()
        invariant
            i <= inputs@.len(),
            forall|a: int, b: int|
                #![trigger inputs@[a], inputs@[b]]
                0 <= a < b < i ==> inputs@[a].good != inputs@[b].good,
            forall|a: int| 0 <= a < i ==> (#[trigger] inputs@[a]).good != output,
        decreases inputs@.len() - i,
    {
        if inputs[i].good == output {
            return true;
        }
        let mut j: usize = 0;
        while j < i
            invariant
                i < inputs@.len(),
                j <= i,
                forall|a: int| 0 <= a < j ==> (#[trigger] inputs@[a]).good != inputs@[i as int].good,
            decreases i - j,
        {
            if inputs[j].good == inputs[i].good {
                assert(inputs@[j as int].good == inputs@[i as int].good);
                return true;
            }
            j = j + 1;
        }
        i = i + 1;
    }
    false
}

/// Sorts inputs with distinct goods by increasing good ID.
fn sort_inputs(inputs: Vec<ProductionInput>) -> (r: Vec<ProductionInput>)
    requires
        !has_duplicate_good(inputs@),
    ensures
        inputs_sorted(r@),
        r@.len() == inputs@.len(),
        r@.to_set() == inputs@.to_set(),
{
    let mut out: Vec<ProductionInput> = Vec::new();
    let mut i: usize = 0;
    while i < inputs.len()
        invariant
            i <= inputs@.len(),
            !has_duplicate_good(inputs@),
            inputs_sorted(out@),
            out@.len() == i,
            out@.to_set() == inputs@.take(i as int).to_set(),
        decreases inputs@.len() - i,
    {
        let item = inputs[i];
        let mut p: usize = 0;
        while p < out.len() && out[p].good.get() < item.good.get()
            invariant
                p <= out@.len(),
                forall|a: int| 0 <= a < p ==> (#[trigger] out@[a]).good@ < item.good@,
            decreases out@.len() - p,
        {
            p = p + 1;
        }
        proof {
            assert forall|a: int| p <= a < out@.len() implies (#[trigger] out@[a]).good@ > item.good@ by {
                assert(out@.to_set().contains(out@[a]));
                assert(inputs@.take(i as int).to_set().contains(out@[a]));
                let k = choose|k: int| 0 <= k < i && inputs@.take(i as int)[k] == out@[a];
                assert(inputs@[k] == out@[a]);
                if out@[a].good == item.good {
                    assert(inputs@[k].good == inputs@[i as int].good);
                    assert(has_duplicate_good(inputs@));
                }
                if (p as int) < a {
                    assert(out@[p as int].good@ <= out@[a].good@);
                }
            }
        }
        let ghost before = out@;
        out.insert(p, item);
        proof {
            assert(out@ == before.insert(p as int, item));
            assert(inputs@.take(i + 1) == inputs@.take(i as int).push(item));
            assert(out@.to_set() =~= inputs@.take(i + 1).to_set()) by {
                assert forall|x: ProductionInput| out@.to_set().contains(x) <==> inputs@.take(i + 1).to_set().contains(x) by {
                    let taken = inputs@.take(i + 1);
                    if out@.to_set().contains(x) {
                        let k = choose|k: int| 0 <= k < out@.len() && out@[k] == x;
                        if k == p {
                            assert(taken[i as int] == x);
                        } else {
                            let bk = if k < p { k } else { k - 1 };
                            assert(before[bk] == x);
                            assert(before.to_set().contains(x));
                            let small = inputs@.take(i as int);
                            assert(small.to_set().contains(x));
                            let k2 = choose|k2: int| 0 <= k2 < small.len() && small[k2] == x;
                            assert(taken[k2] == x);
                        }
                        assert(taken.contains(x));
                    }
                    if inputs@.take(i + 1).to_set().contains(x) {
                        let taken = inputs@.take(i + 1);
                        let k0 = choose|k: int| 0 <= k < taken.len() && taken[k] == x;
                        if k0 < i {
                            assert(inputs@.take(i as int)[k0] == x);
                            assert(inputs@.take(i as int).to_set().contains(x));
                        }
                        if x == item {
                            assert(out@[p as int] == x);
                        } else {
                            assert(inputs@.take(i as int).to_set().contains(x));
                            let k = choose|k: int| 0 <= k < before.len() && before[k] == x;
                            if k < p {
                                assert(out@[k] == x);
                            } else {
                                assert(out@[k + 1] == x);
                            }
                        }
                    }
                }
            }
        }
        i = i + 1;
    }
    proof {
        assert(inputs@.take(i as int) == inputs@);
    }
    out
}

} // verus!

verus! {

/// Inventory held of a good, zero when absent.
pub open spec fn held(inventories: Map<u32, u64>, good: u32) -> int {
    if inventories.contains_key(good) {
        inventories[good] as int
    } else {
        0
    }
}

/// A production unit with assigned labor, capacity, cash, and inventories.
#[derive(Clone, Debug, PartialEq, Eq)]
pub struct Firm {
    id: FirmId,
    name: String,
    region: RegionId,
    recipe: RecipeId,
    workers: u64,
    capacity_batches: u64,
    cash: Money,
    inventories: BTreeMap<u32, QuantityMilli>,
}

impl Firm {
    pub closed spec fn spec_id(&self) -> FirmId {
        self.id
    }

    pub closed spec fn spec_name(&self) -> Seq<char> {
        self.name@
    }

    pub closed spec fn spec_region(&self) -> RegionId {
        self.region
    }

    pub closed spec fn spec_recipe(&self) -> RecipeId {
        self.recipe
    }

    pub closed spec fn spec_workers(&self) -> u64 {
        self.workers
    }

    pub closed spec fn spec_capacity(&self) -> u64 {
        self.capacity_batches
    }

    pub closed spec fn spec_cash(&self) -> i64 {
        self.cash@
    }

    /// Inventory by good ID.
    pub closed spec fn spec_inventories(&self) -> Map<u32, u64> {
        self.inventories@.map_values(|q: QuantityMilli| q@)
    }

    /// Creates a firm; rejects a blank name or negative cash.
    pub fn new(
        id: FirmId,
        name: &str,
        region: RegionId,
        recipe: RecipeId,
        workers: u64,
        capacity_batches: u64,
        cash: Money,
        inventories: BTreeMap<u32, QuantityMilli>,
    ) -> (r: Result<Self, WorldError>)
        ensures
            (is_blank(name@) || cash@ < 0) ==> r == Err::<Self, WorldError>(
                WorldError::InvalidProduction("firm name must exist and cash cannot be negative"),
            ),
            !(is_blank(name@) || cash@ < 0) ==> (r matches Ok(f) && f.spec_id() == id
                && f.spec_name() == name@ && f.spec_region() == region && f.spec_recipe() == recipe
                && f.spec_workers() == workers && f.spec_capacity() == capacity_batches
                && f.spec_cash() == cash@ && f.spec_inventories() == inventories@.map_values(
                |q: QuantityMilli| q@,
            )),
    {
        if name_is_blank(name) || cash.minor_units() < 0 {
            return Err(
                WorldError::InvalidProduction("firm name must exist and cash cannot be negative"),
            );
        }
        Ok(
            Firm {
                id,
                name: name.to_owned(),
                region,
                recipe,
                workers,
                capacity_batches,
                cash,
                inventories,
            },
        )
    }

    pub fn id(&self) -> (r: FirmId)
        ensures
            r == self.spec_id(),
    {
        self.id
    }

    pub fn name(&self) -> (r: &str)
        ensures
            r@ == self.spec_name(),
    {
        self.name.as_str()
    }

    pub fn region(&self) -> (r: RegionId)
        ensures
            r == self.spec_region(),
    {
        self.region
    }

    pub fn recipe(&self) -> (r: RecipeId)
        ensures
            r == self.spec_recipe(),
    {
        self.recipe
    }

    pub fn workers(&self) -> (r: u64)
        ensures
            r == self.spec_workers(),
    {
        self.workers
    }

    pub fn capacity_batches(&self) -> (r: u64)
        ensures
            r == self.spec_capacity(),
    {
        self.capacity_batches
    }

    pub fn cash(&self) -> (r: Money)
        ensures
            r@ == self.spec_cash(),
    {
        self.cash
    }

    pub fn inventories(&self) -> (r: &BTreeMap<u32, QuantityMilli>)
        ensures
            r@.map_values(|q: QuantityMilli| q@) == self.spec_inventories(),
    {
        &self.inventories
    }

    /// The inventory held of one good, zero when none.
    pub fn inventory_of(&self, good: GoodId) -> (r: QuantityMilli)
        ensures
            r@ == held(self.spec_inventories(), good@),
    {
        match self.inventories.get(&good.get()) {
            Some(q) => *q,
            None => QuantityMilli::new(0),
        }
    }

    /// The same firm holding `cash`.
    pub closed spec fn spec_with_cash(self, cash: Money) -> Firm {
        Firm { cash, ..self }
    }

    /// Replaces the firm's cash.
    pub fn set_cash(&mut self, value: Money)
        ensures
            *final(self) == old(self).spec_with_cash(value),
            final(self).spec_cash() == value@,
            final(self).spec_id() == old(self).spec_id(),
            final(self).spec_name() == old(self).spec_name(),
            final(self).spec_region() == old(self).spec_region(),
            final(self).spec_recipe() == old(self).spec_recipe(),
            final(self).spec_workers() == old(self).spec_workers(),
            final(self).spec_capacity() == old(self).spec_capacity(),
            final(self).spec_inventories() == old(self).spec_inventories(),
    {
        self.cash = value;
    }

    /// Removes inventory, dropping a good that reaches zero; fails without change
    /// when less is held.
    pub fn debit_inventory(&mut self, good: GoodId, quantity: QuantityMilli) -> (r: Result<
        (),
        WorldError,
    >)
        ensures
            held(old(self).spec_inventories(), good@) < quantity@ ==> r == Err::<(), WorldError>(
                WorldError::InsufficientFirmInventory { firm: old(self).spec_id(), good },
            ) && *final(self) == *old(self),
            held(old(self).spec_inventories(), good@) >= quantity@ ==> r is Ok
                && final(self).spec_inventories() == if held(old(self).spec_inventories(), good@)
                == quantity@ {
                old(self).spec_inventories().remove(good@)
            } else {
                old(self).spec_inventories().insert(
                    good@,
                    (held(old(self).spec_inventories(), good@) - quantity@) as u64,
                )
            },
            final(self).spec_id() == old(self).spec_id(),
            final(self).spec_name() == old(self).spec_name(),
            final(self).spec_region() == old(self).spec_region(),
            final(self).spec_recipe() == old(self).spec_recipe(),
            final(self).spec_workers() == old(self).spec_workers(),
            final(self).spec_capacity() == old(self).spec_capacity(),
            final(self).spec_cash() == old(self).spec_cash(),
    {
        let current = self.inventory_of(good).get();
        if current < quantity.get() {
            return Err(WorldError::InsufficientFirmInventory { firm: self.id, good });
        }
        let next = current - quantity.get();
        if next == 0 {
            self.inventories.remove(&good.get());
            assert(self.spec_inventories() =~= old(self).spec_inventories().remove(good@));
        } else {
            self.inventories.insert(good.get(), QuantityMilli::new(next));
            assert(self.spec_inventories() =~= old(self).spec_inventories().insert(good@, next));
        }
        Ok(())
    }

    /// Adds inventory; fails without change when the total would overflow.
    pub fn credit_inventory(&mut self, good: GoodId, quantity: QuantityMilli) -> (r: Result<
        (),
        WorldError,
    >)
        ensures
            held(old(self).spec_inventories(), good@) + quantity@ > u64::MAX ==> r == Err::<
                (),
                WorldError,
            >(WorldError::ArithmeticOverflow("firm inventory credit")) && *final(self) == *old(self),
            held(old(self).spec_inventories(), good@) + quantity@ <= u64::MAX ==> r is Ok
                && final(self).spec_inventories() == old(self).spec_inventories().insert(
                good@,
                (held(old(self).spec_inventories(), good@) + quantity@) as u64,
            ),
            final(self).spec_id() == old(self).spec_id(),
            final(self).spec_name() == old(self).spec_name(),
            final(self).spec_region() == old(self).spec_region(),
            final(self).spec_recipe() == old(self).spec_recipe(),
            final(self).spec_workers() == old(self).spec_workers(),
            final(self).spec_capacity() == old(self).spec_capacity(),
            final(self).spec_cash() == old(self).spec_cash(),
    {
        let current = self.inventory_of(good).get();
        if current > u64::MAX - quantity.get() {
            return Err(WorldError::ArithmeticOverflow("firm inventory credit"));
        }
        let next = current + quantity.get();
        self.inventories.insert(good.get(), QuantityMilli::new(next));
        assert(self.spec_inventories() =~= old(self).spec_inventories().insert(good@, next));
        Ok(())
    }

    /// Sets the holding of one good; a zero holding drops the good.
    pub(crate) fn set_inventory(&mut self, good: u32, quantity: u64)
        ensures
            final(self).spec_inventories() == if quantity == 0 {
                old(self).spec_inventories().remove(good)
            } else {
                old(self).spec_inventories().insert(good, quantity)
            },
            final(self).spec_id() == old(self).spec_id(),
            final(self).spec_name() == old(self).spec_name(),
            final(self).spec_region() == old(self).spec_region(),
            final(self).spec_recipe() == old(self).spec_recipe(),
            final(self).spec_workers() == old(self).spec_workers(),
            final(self).spec_capacity() == old(self).spec_capacity(),
            final(self).spec_cash() == old(self).spec_cash(),
    {
        if quantity == 0 {
            self.inventories.remove(&good);
            assert(self.spec_inventories() =~= old(self).spec_inventories().remove(good));
        } else {
            self.inventories.insert(good, QuantityMilli::new(quantity));
            assert(self.spec_inventories() =~= old(self).spec_inventories().insert(good, quantity));
        }
    }

    /// Adds production capacity; fails without change on overflow.
    pub fn add_capacity(&mut self, value: u64) -> (r: Result<(), WorldError>)
        ensures
            old(self).spec_capacity() + value > u64::MAX ==> r == Err::<(), WorldError>(
                WorldError::ArithmeticOverflow("firm capacity"),
            ) && *final(self) == *old(self),
            old(self).spec_capacity() + value <= u64::MAX ==> r is Ok && final(self).spec_capacity()
                == old(self).spec_capacity() + value,
            final(self).spec_id() == old(self).spec_id(),
            final(self).spec_name() == old(self).spec_name(),
            final(self).spec_region() == old(self).spec_region(),
            final(self).spec_recipe() == old(self).spec_recipe(),
            final(self).spec_workers() == old(self).spec_workers(),
            final(self).spec_cash() == old(self).spec_cash(),
            final(self).spec_inventories() == old(self).spec_inventories(),
    {
        if self.capacity_batches > u64::MAX - value {
            return Err(WorldError::ArithmeticOverflow("firm capacity"));
        }
        self.capacity_batches = self.capacity_batches + value;
        Ok(())
    }
}

/// One firm's planned production month.
#[derive(Clone, Debug, PartialEq, Eq)]
pub struct ProductionPlan {
    pub firm: FirmId,
    pub batches: u64,
    pub output_good: GoodId,
    pub output: QuantityMilli,
    pub limiting_factor: &'static str,
}

impl ProductionPlan {
    pub fn firm(&self) -> (r: FirmId)
        ensures
            r == self.firm,
    {
        self.firm
    }

    pub fn batches(&self) -> (r: u64)
        ensures
            r == self.batches,
    {
        self.batches
    }

    pub fn output_good(&self) -> (r: GoodId)
        ensures
            r == self.output_good,
    {
        self.output_good
    }

    pub fn output(&self) -> (r: QuantityMilli)
        ensures
            r == self.output,
    {
        self.output
    }

    pub fn limiting_factor(&self) -> (r: &'static str)
        ensures
            r == self.limiting_factor,
    {
        self.limiting_factor
    }
}

} // verus!

verus! {

/// The batches and limiting factor after the first `inputs` bind, starting from
/// `batches` limited by `limiting`.
pub open spec fn limit_by_inputs(
    batches: int,
    limiting: &'static str,
    inputs: Seq<ProductionInput>,
    inventories: Map<u32, u64>,
) -> (int, &'static str)
    decreases inputs.len(),
{
    if inputs.len() == 0 {
        (batches, limiting)
    } else {
        let (b, l) = limit_by_inputs(batches, limiting, inputs.drop_last(), inventories);
        let input = inputs.last();
        let available = held(inventories, input.good@) / (input.quantity_per_batch@ as int);
        if available < b {
            (available, "intermediate input")
        } else {
            (b, l)
        }
    }
}

/// The production plan of a firm under its recipe for one month, or the overflow
/// that prevents it.
pub open spec fn firm_month_plan(firm: Firm, recipe: ProductionRecipe) -> Result<
    (u64, &'static str, u64),
    WorldError,
> {
    let labor_units = firm.spec_workers() as int * 1000;
    if labor_units > u64::MAX {
        Err(WorldError::ArithmeticOverflow("firm labor capacity"))
    } else {
        let labor_batches = labor_units / (recipe.spec_labor() as int);
        let capacity = firm.spec_capacity() as int;
        let start = if capacity < labor_batches {
            capacity
        } else {
            labor_batches
        };
        let label = if labor_batches < capacity {
            "labor"
        } else {
            "capital capacity"
        };
        let (batches, limiting) = limit_by_inputs(
            start,
            label,
            recipe.spec_inputs(),
            firm.spec_inventories(),
        );
        if recipe.spec_output_per_batch() as int * batches > u64::MAX {
            Err(WorldError::ArithmeticOverflow("planned production output"))
        } else {
            Ok((batches as u64, limiting, (recipe.spec_output_per_batch() as int * batches) as u64))
        }
    }
}

/// Plans one firm's month: batches are bounded by capital capacity, by labor, and
/// by every intermediate input in stock, and the binding constraint is named.
pub fn plan_firm_month(firm: &Firm, recipe: &ProductionRecipe) -> (r: Result<
    ProductionPlan,
    WorldError,
>)
    ensures
        firm_month_plan(*firm, *recipe) is Err ==> r == Err::<ProductionPlan, WorldError>(
            firm_month_plan(*firm, *recipe)->Err_0,
        ),
        firm_month_plan(*firm, *recipe) matches Ok((batches, limiting, output)) ==> r == Ok::<
            ProductionPlan,
            WorldError,
        >(ProductionPlan {
            firm: firm.spec_id(),
            batches,
            output_good: recipe.spec_output_good(),
            output: r->Ok_0.output,
            limiting_factor: limiting,
        }) && r->Ok_0.output@ == output,
{
    let workers = firm.workers();
    if workers > u64::MAX / 1000 {
        return Err(WorldError::ArithmeticOverflow("firm labor capacity"));
    }
    let labor_batches = workers * 1000 / recipe.labor_milli_worker_months();
    let capacity = firm.capacity_batches();
    let mut batches = if capacity < labor_batches {
        capacity
    } else {
        labor_batches
    };
    let mut limiting: &'static str = if labor_batches < capacity {
        "labor"
    } else {
        "capital capacity"
    };
    let ghost start = batches as int;
    let ghost label = limiting;
    let inputs = recipe.inputs();
    let mut i: usize = 0;
    while i < inputs.len()
        invariant
            i <= inputs@.len(),
            inputs@ == recipe.spec_inputs(),
            forall|k: int| 0 <= k < inputs@.len() ==> (#[trigger] inputs@[k]).quantity_per_batch@ > 0,
            (batches as int, limiting) == limit_by_inputs(
                start,
                label,
                inputs@.take(i as int),
                firm.spec_inventories(),
            ),
        decreases inputs@.len() - i,
    {
        let input = inputs[i];
        let available = firm.inventory_of(input.good).get();
        let input_batches = available / input.quantity_per_batch.get();
        proof {
            assert(inputs@.take(i + 1).drop_last() == inputs@.take(i as int));
            assert(inputs@.take(i + 1).last() == input);
        }
        if input_batches < batches {
            batches = input_batches;
            limiting = "intermediate input";
        }
        i = i + 1;
    }
    proof {
        assert(inputs@.take(i as int) == inputs@);
    }
    let per_batch = recipe.output_per_batch().get();
    if batches > 0 && per_batch > u64::MAX / batches {
        proof {
            assert(per_batch * batches > u64::MAX) by (nonlinear_arith)
                requires
                    batches > 0,
                    per_batch > u64::MAX / batches,
            ;
        }
        return Err(WorldError::ArithmeticOverflow("planned production output"));
    }
    proof {
        if batches > 0 {
            assert(per_batch * batches <= u64::MAX) by (nonlinear_arith)
                requires
                    batches > 0,
                    per_batch <= u64::MAX / batches,
            ;
        }
    }
    let output = per_batch * batches;
    Ok(
        ProductionPlan {
            firm: firm.id(),
            batches,
            output_good: recipe.output_good(),
            output: QuantityMilli::new(output),
            limiting_factor: limiting,
        },
    )
}

/// The first input of `inputs`, in order, whose good is not registered.
pub open spec fn first_unknown_input(goods: Map<u32, crate::demand::Good>, inputs: Seq<ProductionInput>) -> Option<
    GoodId,
>
    decreases inputs.len(),
{
    if inputs.len() == 0 {
        None
    } else if !goods.contains_key(inputs[0].good@) {
        Some(inputs[0].good)
    } else {
        first_unknown_input(goods, inputs.drop_first())
    }
}

/// The first key of `ks`, in order, that is not a registered good.
pub open spec fn first_unknown_good(goods: Map<u32, crate::demand::Good>, ks: Seq<u32>) -> Option<u32>
    decreases ks.len(),
{
    if ks.len() == 0 {
        None
    } else if !goods.contains_key(ks[0]) {
        Some(ks[0])
    } else {
        first_unknown_good(goods, ks.drop_first())
    }
}

/// What registering a recipe answers when it is refused, or `None`.
pub open spec fn recipe_refusal(w: WorldView, recipe: ProductionRecipe) -> Option<WorldError> {
    if w.production_recipes.contains_key(recipe.spec_id()@) {
        Some(WorldError::DuplicateRecipe(recipe.spec_id()))
    } else if !w.goods.contains_key(recipe.spec_output_good()@) {
        Some(WorldError::UnknownGood(recipe.spec_output_good()))
    } else {
        match first_unknown_input(w.goods, recipe.spec_inputs()) {
            Some(g) => Some(WorldError::UnknownGood(g)),
            None => None,
        }
    }
}

/// What registering a firm answers when it is refused, or `None`.
pub open spec fn firm_refusal(w: WorldView, firm: Firm) -> Option<WorldError> {
    if w.firms.contains_key(firm.spec_id()@) {
        Some(WorldError::DuplicateFirm(firm.spec_id()))
    } else if !w.regions.contains_key(firm.spec_region()@) {
        Some(WorldError::UnknownRegion(firm.spec_region()))
    } else if !w.production_recipes.contains_key(firm.spec_recipe()@) {
        Some(WorldError::UnknownRecipe(firm.spec_recipe()))
    } else {
        match first_unknown_good(w.goods, key_order(firm.spec_inventories())) {
            Some(g) => Some(WorldError::UnknownGood(GoodId(g))),
            None => None,
        }
    }
}

/// Whether every firm's recipe is registered.
pub open spec fn firm_recipes_known(w: WorldView) -> bool {
    forall|id: u32| #[trigger] w.firms.contains_key(id) ==> w.production_recipes.contains_key(
        w.firms[id].spec_recipe()@,
    )
}

/// Whether `p` is the plan of `firm` under `recipe` (see `firm_month_plan`).
pub open spec fn plan_matches(p: ProductionPlan, firm: Firm, recipe: ProductionRecipe) -> bool {
    firm_month_plan(firm, recipe) matches Ok((batches, limiting, output)) && p.firm
        == firm.spec_id() && p.batches == batches && p.output_good == recipe.spec_output_good()
        && p.output@ == output && p.limiting_factor == limiting
}

/// The first firm among `ks` whose plan overflows, as the error.
pub open spec fn first_plan_error(w: WorldView, ks: Seq<u32>) -> Option<WorldError>
    decreases ks.len(),
{
    if ks.len() == 0 {
        None
    } else {
        let firm = w.firms[ks[0]];
        match firm_month_plan(firm, w.production_recipes[firm.spec_recipe()@]) {
            Err(e) => Some(e),
            Ok(_) => first_plan_error(w, ks.drop_first()),
        }
    }
}

impl World {
    /// Registers a recipe after checking its output and input goods; rejects a duplicate
    /// id or an unknown good (output first, then inputs in order) and then changes nothing.
    pub fn register_production_recipe(&mut self, recipe: ProductionRecipe) -> (r: Result<
        (),
        WorldError,
    >)
        ensures
            recipe_refusal(old(self)@, recipe) matches Some(e) ==> r == Err::<(), WorldError>(e)
                && final(self)@ == old(self)@,
            recipe_refusal(old(self)@, recipe) is None ==> r is Ok && final(self)@ == (WorldView {
                production_recipes: old(self)@.production_recipes.insert(recipe.spec_id()@, recipe),
                ..old(self)@
            }),
    {
        let id = recipe.id();
        if self.production_recipes.contains_key(&id.get()) {
            return Err(WorldError::DuplicateRecipe(id));
        }
        let output = recipe.output_good();
        if !self.goods.contains_key(&output.get()) {
            return Err(WorldError::UnknownGood(output));
        }
        let inputs = recipe.inputs();
        proof {
            assert(inputs@.subrange(0, inputs@.len() as int) =~= inputs@);
        }
        let mut i: usize = 0;
        while i < inputs.len()
            invariant
                i <= inputs@.len(),
                !self@.production_recipes.contains_key(recipe.spec_id()@),
                self@.goods.contains_key(recipe.spec_output_good()@),
                inputs@ == recipe.spec_inputs(),
                first_unknown_input(self@.goods, inputs@) == first_unknown_input(
                    self@.goods,
                    inputs@.subrange(i as int, inputs@.len() as int),
                ),
            decreases inputs@.len() - i,
        {
            let good = inputs[i].good;
            proof {
                assert(inputs@.subrange(i as int, inputs@.len() as int).drop_first() =~= inputs@.subrange(
                    i as int + 1,
                    inputs@.len() as int,
                ));
                assert(inputs@.subrange(i as int, inputs@.len() as int)[0] == inputs@[i as int]);
            }
            if !self.goods.contains_key(&good.get()) {
                return Err(WorldError::UnknownGood(good));
            }
            i = i + 1;
        }
        proof {
            assert(inputs@.subrange(i as int, inputs@.len() as int) =~= Seq::<ProductionInput>::empty());
        }
        self.production_recipes.insert(id.get(), recipe);
        Ok(())
    }

    /// Registers a firm after checking its region, recipe and inventory goods (in id
    /// order); rejects a duplicate or an unknown reference and then changes nothing.
    pub fn register_firm(&mut self, firm: Firm) -> (r: Result<(), WorldError>)
        ensures
            firm_refusal(old(self)@, firm) matches Some(e) ==> r == Err::<(), WorldError>(e)
                && final(self)@ == old(self)@,
            firm_refusal(old(self)@, firm) is None ==> r is Ok && final(self)@ == (WorldView {
                firms: old(self)@.firms.insert(firm.spec_id()@, firm),
                ..old(self)@
            }),
    {
        let id = firm.id();
        if self.firms.contains_key(&id.get()) {
            return Err(WorldError::DuplicateFirm(id));
        }
        let region = firm.region();
        if !self.regions.contains_key(&region.get()) {
            return Err(WorldError::UnknownRegion(region));
        }
        let recipe = firm.recipe();
        if !self.production_recipes.contains_key(&recipe.get()) {
            return Err(WorldError::UnknownRecipe(recipe));
        }
        let inv = firm.inventories();
        let keys = keys_in_order(inv);
        proof {
            assert(keys@.subrange(0, keys@.len() as int) =~= keys@);
            assert(inv@.dom() =~= firm.spec_inventories().dom());
            crate::ordered::lemma_key_order_same_dom(inv@, firm.spec_inventories(), keys@);
        }
        let mut i: usize = 0;
        while i < keys.len()
            invariant
                i <= keys@.len(),
                keys@ == key_order(firm.spec_inventories()),
                !self@.firms.contains_key(firm.spec_id()@),
                self@.regions.contains_key(firm.spec_region()@),
                self@.production_recipes.contains_key(firm.spec_recipe()@),
                first_unknown_good(self@.goods, keys@) == first_unknown_good(
                    self@.goods,
                    keys@.subrange(i as int, keys@.len() as int),
                ),
            decreases keys@.len() - i,
        {
            let good = keys[i];
            proof {
                assert(keys@.subrange(i as int, keys@.len() as int).drop_first() =~= keys@.subrange(
                    i as int + 1,
                    keys@.len() as int,
                ));
                assert(keys@.subrange(i as int, keys@.len() as int)[0] == keys@[i as int]);
            }
            if !self.goods.contains_key(&good) {
                return Err(WorldError::UnknownGood(GoodId::new(good)));
            }
            i = i + 1;
        }
        proof {
            assert(keys@.subrange(i as int, keys@.len() as int) =~= Seq::<u32>::empty());
        }
        self.firms.insert(id.get(), firm);
        Ok(())
    }

    pub fn production_recipes(&self) -> (r: &BTreeMap<u32, ProductionRecipe>)
        ensures
            r@ == self@.production_recipes,
    {
        &self.production_recipes
    }

    pub fn firms(&self) -> (r: &BTreeMap<u32, Firm>)
        ensures
            r@ == self@.firms,
    {
        &self.firms
    }

    /// Plans one physical production month of every firm, in firm-id order, without
    /// changing anything; the first overflowing firm turns the answer into its error.
    pub fn plan_monthly_production(&self) -> (r: Result<Vec<ProductionPlan>, WorldError>)
        requires
            firm_recipes_known(self@),
        ensures
            first_plan_error(self@, key_order(self@.firms)) matches Some(e) ==> r == Err::<
                Vec<ProductionPlan>,
                WorldError,
            >(e),
            first_plan_error(self@, key_order(self@.firms)) is None ==> (r matches Ok(plans)
                && plans@.len() == key_order(self@.firms).len() && forall|i: int|
                0 <= i < plans@.len() ==> {
                    let firm = self@.firms[#[trigger] key_order(self@.firms)[i]];
                    plan_matches(plans@[i], firm, self@.production_recipes[firm.spec_recipe()@])
                }),
    {
        let keys = keys_in_order(&self.firms);
        let mut plans: Vec<ProductionPlan> = Vec::new();
        proof {
            assert(keys@.subrange(0, keys@.len() as int) =~= keys@);
        }
        let mut i: usize = 0;
        while i < keys.len()
            invariant
                i <= keys@.len(),
                keys@ == key_order(self@.firms),
                forall|k: int| 0 <= k < keys@.len() ==> self@.firms.contains_key(#[trigger] keys@[k]),
                firm_recipes_known(self@),
                first_plan_error(self@, keys@) == first_plan_error(
                    self@,
                    keys@.subrange(i as int, keys@.len() as int),
                ),
                plans@.len() == i,
                forall|k: int|
                    0 <= k < i ==> {
                        let firm = self@.firms[#[trigger] keys@[k]];
                        plan_matches(plans@[k], firm, self@.production_recipes[firm.spec_recipe()@])
                    },
            decreases keys@.len() - i,
        {
            let firm = self.firms.get(&keys[i]).unwrap();
            let recipe = self.production_recipes.get(&firm.recipe().get()).unwrap();
            proof {
                assert(keys@.subrange(i as int, keys@.len() as int).drop_first() =~= keys@.subrange(
                    i as int + 1,
                    keys@.len() as int,
                ));
                assert(keys@.subrange(i as int, keys@.len() as int)[0] == keys@[i as int]);
            }
            let plan = plan_firm_month(firm, recipe)?;
            plans.push(plan);
            i = i + 1;
        }
        proof {
            assert(keys@.subrange(i as int, keys@.len() as int) =~= Seq::<u32>::empty());
        }
        Ok(plans)
    }
}

} // verus!
