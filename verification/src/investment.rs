use vstd::prelude::*;

use std::collections::BTreeMap;

use crate::event::{DomainEvent, EventEnvelope};
use crate::ids::{FirmId, ProjectId, RegionId};
use crate::production::Firm;
use crate::value::Money;
use crate::world::{World, WorldError, WorldView};

verus! {

broadcast use vstd::std_specs::btree::group_btree_axioms;

/// The stage of an investment project.
#[derive(Clone, Copy, Debug, PartialEq, Eq, Structural)]
pub enum InvestmentStatus {
    Planned,
    Building,
    Completed,
    Cancelled,
}

/// A funded construction project that adds production capacity to a firm.
#[derive(Debug, PartialEq, Eq)]
pub struct InvestmentProject {
    id: ProjectId,
    firm: FirmId,
    region: RegionId,
    budget: Money,
    spent: Money,
    duration_months: u32,
    elapsed_months: u32,
    capacity_batches: u64,
    status: InvestmentStatus,
}

impl Clone for InvestmentProject {
    fn clone(&self) -> (r: Self)
        ensures
            r == *self,
    {
        proof {
            use_type_invariant(self);
        }
        InvestmentProject { ..*self }
    }
}

/// The cumulative spending after `elapsed` of `duration` months of a `budget`:
/// linear in elapsed time, rounded toward zero, and exactly the budget at the end.
pub open spec fn spending_after(budget: int, elapsed: int, duration: int) -> int {
    if elapsed >= duration {
        budget
    } else {
        budget * elapsed / duration
    }
}

impl InvestmentProject {
    pub closed spec fn spec_id(&self) -> ProjectId {
        self.id
    }

    pub closed spec fn spec_firm(&self) -> FirmId {
        self.firm
    }

    pub closed spec fn spec_region(&self) -> RegionId {
        self.region
    }

    pub closed spec fn spec_budget(&self) -> i64 {
        self.budget@
    }

    pub closed spec fn spec_spent(&self) -> i64 {
        self.spent@
    }

    pub closed spec fn spec_duration(&self) -> u32 {
        self.duration_months
    }

    pub closed spec fn spec_elapsed(&self) -> u32 {
        self.elapsed_months
    }

    pub closed spec fn spec_capacity(&self) -> u64 {
        self.capacity_batches
    }

    pub closed spec fn spec_status(&self) -> InvestmentStatus {
        self.status
    }

    #[verifier::type_invariant]
    closed spec fn valid(&self) -> bool {
        &&& self.budget@ > 0
        &&& self.duration_months > 0
        &&& self.capacity_batches > 0
    }

    /// Creates a planned project; rejects a non-positive budget, duration or capacity.
    pub fn new(
        id: ProjectId,
        firm: FirmId,
        region: RegionId,
        budget: Money,
        duration_months: u32,
        capacity_batches: u64,
    ) -> (r: Result<Self, WorldError>)
        ensures
            (budget@ <= 0 || duration_months == 0 || capacity_batches == 0) ==> r == Err::<
                Self,
                WorldError,
            >(WorldError::InvalidInvestmentProject("budget, duration, and capacity must be positive")),
            !(budget@ <= 0 || duration_months == 0 || capacity_batches == 0) ==> (r matches Ok(p)
                && p.spec_id() == id && p.spec_firm() == firm && p.spec_region() == region
                && p.spec_budget() == budget@ && p.spec_spent() == 0 && p.spec_duration()
                == duration_months && p.spec_elapsed() == 0 && p.spec_capacity() == capacity_batches
                && p.spec_status() == InvestmentStatus::Planned),
    {
        if budget.minor_units() <= 0 || duration_months == 0 || capacity_batches == 0 {
            return Err(
                WorldError::InvalidInvestmentProject("budget, duration, and capacity must be positive"),
            );
        }
        Ok(
            InvestmentProject {
                id,
                firm,
                region,
                budget,
                spent: Money::zero(),
                duration_months,
                elapsed_months: 0,
                capacity_batches,
                status: InvestmentStatus::Planned,
            },
        )
    }

    pub fn id(&self) -> (r: ProjectId)
        ensures
            r == self.spec_id(),
    {
        self.id
    }

    pub fn firm(&self) -> (r: FirmId)
        ensures
            r == self.spec_firm(),
    {
        self.firm
    }

    pub fn region(&self) -> (r: RegionId)
        ensures
            r == self.spec_region(),
    {
        self.region
    }

    pub fn budget(&self) -> (r: Money)
        ensures
            r@ == self.spec_budget(),
            r@ > 0,
    {
        proof {
            use_type_invariant(self);
        }
        self.budget
    }

    pub fn spent(&self) -> (r: Money)
        ensures
            r@ == self.spec_spent(),
    {
        self.spent
    }

    pub fn status(&self) -> (r: InvestmentStatus)
        ensures
            r == self.spec_status(),
    {
        self.status
    }

    pub fn capacity_batches(&self) -> (r: u64)
        ensures
            r == self.spec_capacity(),
    {
        self.capacity_batches
    }

    pub fn duration_months(&self) -> (r: u32)
        ensures
            r == self.spec_duration(),
    {
        self.duration_months
    }

    pub fn elapsed_months(&self) -> (r: u32)
        ensures
            r == self.spec_elapsed(),
    {
        self.elapsed_months
    }

    /// Marks a planned or running project as under construction.
    pub fn begin_building(&mut self)
        ensures
            final(self).spec_status() == InvestmentStatus::Building,
            final(self).spec_id() == old(self).spec_id(),
            final(self).spec_firm() == old(self).spec_firm(),
            final(self).spec_region() == old(self).spec_region(),
            final(self).spec_budget() == old(self).spec_budget(),
            final(self).spec_spent() == old(self).spec_spent(),
            final(self).spec_duration() == old(self).spec_duration(),
            final(self).spec_elapsed() == old(self).spec_elapsed(),
            final(self).spec_capacity() == old(self).spec_capacity(),
    {
        proof {
            use_type_invariant(&*self);
        }
        self.status = InvestmentStatus::Building;
    }

    /// Advances one construction month: spending follows `spending_after` and the
    /// project completes, returning `true`, in its final month. A completed or
    /// cancelled project is closed and stays unchanged.
    pub fn advance(&mut self) -> (r: Result<bool, WorldError>)
        requires
            !(old(self).spec_status() == InvestmentStatus::Completed || old(self).spec_status()
                == InvestmentStatus::Cancelled) ==> old(self).spec_elapsed() < u32::MAX,
        ensures
            (old(self).spec_status() == InvestmentStatus::Completed || old(self).spec_status()
                == InvestmentStatus::Cancelled) ==> r == Err::<bool, WorldError>(
                WorldError::InvalidInvestmentProject("project is closed"),
            ) && *final(self) == *old(self),
            !(old(self).spec_status() == InvestmentStatus::Completed || old(self).spec_status()
                == InvestmentStatus::Cancelled) ==> {
                let elapsed = old(self).spec_elapsed() + 1;
                let done = elapsed >= old(self).spec_duration();
                &&& r == Ok::<bool, WorldError>(done)
                &&& final(self).spec_elapsed() == elapsed
                &&& final(self).spec_spent() == spending_after(
                    old(self).spec_budget() as int,
                    elapsed,
                    old(self).spec_duration() as int,
                )
                &&& final(self).spec_status() == if done {
                    InvestmentStatus::Completed
                } else {
                    InvestmentStatus::Building
                }
                &&& final(self).spec_id() == old(self).spec_id()
                &&& final(self).spec_firm() == old(self).spec_firm()
                &&& final(self).spec_region() == old(self).spec_region()
                &&& final(self).spec_budget() == old(self).spec_budget()
                &&& final(self).spec_duration() == old(self).spec_duration()
                &&& final(self).spec_capacity() == old(self).spec_capacity()
            },
    {
        proof {
            use_type_invariant(&*self);
        }
        if self.status == InvestmentStatus::Completed || self.status == InvestmentStatus::Cancelled {
            return Err(WorldError::InvalidInvestmentProject("project is closed"));
        }
        let elapsed = self.elapsed_months + 1;
        let total = self.budget.minor_units();
        let target: i64 = if elapsed >= self.duration_months {
            total
        } else {
            proof {
                assert(total as int * elapsed as int <= 0x7fff_ffff_ffff_ffff * 0xffff_ffff)
                    by (nonlinear_arith)
                    requires
                        0 < total,
                        elapsed <= 0xffff_ffff,
                ;
                assert(0 <= total as int * elapsed as int <= total as int * self.duration_months as int)
                    by (nonlinear_arith)
                    requires
                        total > 0,
                        elapsed <= self.duration_months,
                ;
                assert(total as int * elapsed as int / self.duration_months as int <= total) by (
                nonlinear_arith)
                    requires
                        total > 0,
                        elapsed <= self.duration_months,
                        self.duration_months > 0,
                ;
            }
            let scaled: i128 = total as i128 * elapsed as i128;
            (scaled / self.duration_months as i128) as i64
        };
        let done = elapsed >= self.duration_months;
        let status = if done {
            InvestmentStatus::Completed
        } else {
            InvestmentStatus::Building
        };
        *self = InvestmentProject {
            elapsed_months: elapsed,
            spent: Money::from_minor_units(target),
            status,
            ..*self
        };
        Ok(done)
    }
}

/// Whether two projects agree on everything but their status.
pub open spec fn same_but_status(a: InvestmentProject, b: InvestmentProject) -> bool {
    &&& a.spec_id() == b.spec_id()
    &&& a.spec_firm() == b.spec_firm()
    &&& a.spec_region() == b.spec_region()
    &&& a.spec_budget() == b.spec_budget()
    &&& a.spec_spent() == b.spec_spent()
    &&& a.spec_duration() == b.spec_duration()
    &&& a.spec_elapsed() == b.spec_elapsed()
    &&& a.spec_capacity() == b.spec_capacity()
}

/// The investment funds a firm has committed and not yet spent (zero when none).
pub open spec fn committed_funds(w: WorldView, firm: FirmId) -> int {
    if w.committed_investments.contains_key(firm@) {
        w.committed_investments[firm@]@ as int
    } else {
        0
    }
}

/// What launching a project answers when it is refused, or `None`.
pub open spec fn launch_refusal(w: WorldView, p: InvestmentProject) -> Option<WorldError> {
    if w.investment_projects.contains_key(p.spec_id()@) {
        Some(WorldError::DuplicateInvestmentProject(p.spec_id()))
    } else if !w.firms.contains_key(p.spec_firm()@) {
        Some(WorldError::UnknownFirm(p.spec_firm()))
    } else if !w.regions.contains_key(p.spec_region()@) {
        Some(WorldError::UnknownRegion(p.spec_region()))
    } else if committed_funds(w, p.spec_firm()) < p.spec_budget() {
        Some(WorldError::InsufficientCommittedInvestment(p.spec_firm()))
    } else {
        None
    }
}

/// Whether a project is completed or cancelled.
pub open spec fn is_closed(p: InvestmentProject) -> bool {
    p.spec_status() == InvestmentStatus::Completed || p.spec_status() == InvestmentStatus::Cancelled
}

/// Whether `b` is `a` after one construction month (see `advance`).
pub open spec fn advanced_project(a: InvestmentProject, b: InvestmentProject) -> bool {
    let elapsed = a.spec_elapsed() + 1;
    let done = elapsed >= a.spec_duration();
    &&& b.spec_elapsed() == elapsed
    &&& b.spec_spent() == spending_after(a.spec_budget() as int, elapsed, a.spec_duration() as int)
    &&& b.spec_status() == if done {
        InvestmentStatus::Completed
    } else {
        InvestmentStatus::Building
    }
    &&& b.spec_id() == a.spec_id()
    &&& b.spec_firm() == a.spec_firm()
    &&& b.spec_region() == a.spec_region()
    &&& b.spec_budget() == a.spec_budget()
    &&& b.spec_duration() == a.spec_duration()
    &&& b.spec_capacity() == a.spec_capacity()
}

/// Whether firm `b` is firm `a` with `extra` more capacity.
pub open spec fn expanded_firm(a: Firm, b: Firm, extra: int) -> bool {
    &&& b.spec_capacity() == a.spec_capacity() + extra
    &&& b.spec_id() == a.spec_id()
    &&& b.spec_name() == a.spec_name()
    &&& b.spec_region() == a.spec_region()
    &&& b.spec_recipe() == a.spec_recipe()
    &&& b.spec_workers() == a.spec_workers()
    &&& b.spec_cash() == a.spec_cash()
    &&& b.spec_inventories() == a.spec_inventories()
}

impl World {
    /// Launches a project from funds the firm committed earlier: the budget leaves the
    /// commitment and the project starts building. Rejects a duplicate id, an unknown
    /// firm or region, or too small a commitment, and then changes nothing.
    pub fn launch_investment_project(&mut self, project: InvestmentProject) -> (r: Result<
        (),
        WorldError,
    >)
        ensures
            launch_refusal(old(self)@, project) matches Some(e) ==> r == Err::<(), WorldError>(e)
                && final(self)@ == old(self)@,
            launch_refusal(old(self)@, project) is None ==> r is Ok && exists|p: InvestmentProject|
                same_but_status(p, project) && p.spec_status() == InvestmentStatus::Building
                    && final(self)@ == (WorldView {
                    committed_investments: old(self)@.committed_investments.insert(
                        project.spec_firm()@,
                        Money::spec_from(
                            (committed_funds(old(self)@, project.spec_firm())
                                - project.spec_budget()) as i64,
                        ),
                    ),
                    investment_projects: old(self)@.investment_projects.insert(
                        project.spec_id()@,
                        p,
                    ),
                    events: old(self)@.events.push(
                        EventEnvelope {
                            date: old(self)@.date,
                            event: DomainEvent::InvestmentProjectLaunched {
                                project: project.spec_id(),
                                firm: project.spec_firm(),
                                budget: Money::spec_from(project.spec_budget()),
                            },
                        },
                    ),
                    ..old(self)@
                }),
    {
        let id = project.id();
        let firm = project.firm();
        let region = project.region();
        if self.investment_projects.contains_key(&id.get()) {
            return Err(WorldError::DuplicateInvestmentProject(id));
        }
        if !self.firms.contains_key(&firm.get()) {
            return Err(WorldError::UnknownFirm(firm));
        }
        if !self.regions.contains_key(&region.get()) {
            return Err(WorldError::UnknownRegion(region));
        }
        let committed: i64 = match self.committed_investments.get(&firm.get()) {
            Some(m) => m.minor_units(),
            None => 0,
        };
        let budget = project.budget();
        if committed < budget.minor_units() {
            return Err(WorldError::InsufficientCommittedInvestment(firm));
        }
        self.committed_investments.insert(
            firm.get(),
            Money::from_minor_units(committed - budget.minor_units()),
        );
        let mut project = project;
        project.begin_building();
        proof {
            broadcast use crate::value::Money::lemma_from_own_view;
        }
        self.events.append(
            self.date,
            DomainEvent::InvestmentProjectLaunched { project: id, firm, budget },
        );
        self.investment_projects.insert(id.get(), project);
        Ok(())
    }

    /// Advances one construction month of a project and, when it completes, adds its
    /// capacity to the firm. An unknown or closed project is refused without change.
    /// On completion the steps are applied in order (project, event, firm, event) and
    /// an unknown firm or a capacity overflow stops there with an error.
    pub fn advance_investment_project(&mut self, id: ProjectId) -> (r: Result<(), WorldError>)
        requires
            old(self)@.investment_projects.contains_key(id@) && !is_closed(
                old(self)@.investment_projects[id@],
            ) ==> old(self)@.investment_projects[id@].spec_elapsed() < u32::MAX,
        ensures
            !old(self)@.investment_projects.contains_key(id@) ==> r == Err::<(), WorldError>(
                WorldError::UnknownInvestmentProject(id),
            ) && final(self)@ == old(self)@,
            old(self)@.investment_projects.contains_key(id@) && is_closed(
                old(self)@.investment_projects[id@],
            ) ==> r == Err::<(), WorldError>(WorldError::InvalidInvestmentProject("project is closed"))
                && final(self)@ == old(self)@,
            old(self)@.investment_projects.contains_key(id@) && !is_closed(
                old(self)@.investment_projects[id@],
            ) ==> {
                let old_p = old(self)@.investment_projects[id@];
                let firm = old_p.spec_firm();
                let done = old_p.spec_elapsed() + 1 >= old_p.spec_duration();
                let advanced_event = EventEnvelope {
                    date: old(self)@.date,
                    event: DomainEvent::InvestmentProjectAdvanced { project: id },
                };
                exists|p: InvestmentProject|
                    advanced_project(old_p, p) && {
                        let stepped = WorldView {
                            investment_projects: old(self)@.investment_projects.insert(id@, p),
                            events: old(self)@.events.push(advanced_event),
                            ..old(self)@
                        };
                        if !done {
                            r is Ok && final(self)@ == stepped
                        } else if !old(self)@.firms.contains_key(firm@) {
                            r == Err::<(), WorldError>(WorldError::UnknownFirm(firm))
                                && final(self)@ == stepped
                        } else if old(self)@.firms[firm@].spec_capacity() + old_p.spec_capacity()
                            > u64::MAX {
                            r == Err::<(), WorldError>(WorldError::ArithmeticOverflow("firm capacity"))
                                && final(self)@ == stepped
                        } else {
                            r is Ok && exists|f: Firm|
                                expanded_firm(old(self)@.firms[firm@], f, old_p.spec_capacity() as int)
                                    && final(self)@ == (WorldView {
                                    firms: old(self)@.firms.insert(firm@, f),
                                    events: stepped.events.push(
                                        EventEnvelope {
                                            date: old(self)@.date,
                                            event: DomainEvent::InvestmentProjectCompleted {
                                                project: id,
                                                firm,
                                            },
                                        },
                                    ),
                                    ..stepped
                                })
                        }
                    }
            },
    {
        let mut project = match self.investment_projects.remove(&id.get()) {
            Some(p) => p,
            None => {
                return Err(WorldError::UnknownInvestmentProject(id));
            },
        };
        let ghost old_p = project;
        let outcome = project.advance();
        let ghost p = project;
        let firm = project.firm();
        let capacity = project.capacity_batches();
        self.investment_projects.insert(id.get(), project);
        let completed = match outcome {
            Ok(done) => done,
            Err(e) => {
                proof {
                    assert(self.investment_projects@ =~= old(self).investment_projects@);
                }
                return Err(e);
            },
        };
        self.events.append(self.date, DomainEvent::InvestmentProjectAdvanced { project: id });
        proof {
            assert(advanced_project(old_p, p));
        }
        if completed {
            let mut f = match self.firms.remove(&firm.get()) {
                Some(f) => f,
                None => {
                    return Err(WorldError::UnknownFirm(firm));
                },
            };
            let ghost old_f = f;
            let added = f.add_capacity(capacity);
            let ghost new_f = f;
            self.firms.insert(firm.get(), f);
            match added {
                Ok(()) => {},
                Err(e) => {
                    proof {
                        assert(self.firms@ =~= old(self).firms@);
                    }
                    return Err(e);
                },
            }
            self.events.append(
                self.date,
                DomainEvent::InvestmentProjectCompleted { project: id, firm },
            );
            proof {
                assert(expanded_firm(old_f, new_f, capacity as int));
            }
        }
        Ok(())
    }

    pub fn investment_projects(&self) -> (r: &BTreeMap<u32, InvestmentProject>)
        ensures
            r@ == self@.investment_projects,
    {
        &self.investment_projects
    }

    pub fn committed_investments(&self) -> (r: &BTreeMap<u32, Money>)
        ensures
            r@ == self@.committed_investments,
    {
        &self.committed_investments
    }
}

} // verus!
