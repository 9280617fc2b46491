//! The plans that an executor keeps, and what its scans are pruned by.

use vstd::prelude::*;

use crate::executor::scan::ConjunctMode;
use crate::expr::borrowed_trees;
use crate::expr::lent;
use crate::expr::static_conjuncts;
use crate::expr::unbind;
use crate::expr::BoundExpression;
use crate::expr::ExprError;
use crate::expr::ExprTree;
use crate::expr::Expression;

verus! {

/// What a plan is made for.
pub struct PlanKey {
    /// The projection expression.
    pub projection: Expression,
    /// The predicate used to filter rows.
    pub filter: Option<Expression>,
    /// The conjunct evaluation policy.
    pub conjunct_mode: ConjunctMode,
    /// The number of the first row.
    pub row_offset: u64,
}

/// What a plan is made for, as contracts see it.
#[verifier::ext_equal]
pub struct PlanKeyModel {
    /// The projection expression.
    pub projection: ExprTree,
    /// The predicate used to filter rows.
    pub filter: Option<ExprTree>,
    /// The conjunct evaluation policy.
    pub conjunct_mode: ConjunctMode,
    /// The number of the first row.
    pub row_offset: u64,
}

impl View for PlanKey {
    type V = PlanKeyModel;

    open spec fn view(&self) -> PlanKeyModel {
        PlanKeyModel {
            projection: self.projection@,
            filter: match self.filter {
                Some(filter) => Some(filter@),
                None => None,
            },
            conjunct_mode: self.conjunct_mode,
            row_offset: self.row_offset,
        }
    }
}

impl PlanKeyModel {
    /// What a plan is found by: its expressions by what they are told apart by, and the rest.
    pub open spec fn key(self) -> PlanKeyModel {
        PlanKeyModel {
            projection: self.projection.key(),
            filter: match self.filter {
                Some(filter) => Some(filter.key()),
                None => None,
            },
            ..self
        }
    }
}

impl PlanKey {
    /// Whether two plans are made for the same.
    pub fn same(&self, other: &PlanKey) -> (same: bool)
        ensures
            same == (self@.key() == other@.key()),
    {
        let filters: bool = match (&self.filter, &other.filter) {
            (Some(a), Some(b)) => a.same(b),
            (None, None) => true,
            _ => false,
        };
        filters && self.projection.same(&other.projection) && self.conjunct_mode
            == other.conjunct_mode && self.row_offset == other.row_offset
    }
}

/// Plans are told apart by everything that they are made for: the expressions, the evaluation of
/// conjuncts and the number of the first row.
pub proof fn law_plan_keys(a: PlanKeyModel, b: PlanKeyModel)
    ensures
        a.key() == b.key() <==> {
            &&& a.projection.key() == b.projection.key()
            &&& a.filter is Some <==> b.filter is Some
            &&& a.filter is Some ==> a.filter->0.key() == b.filter->0.key()
            &&& a.conjunct_mode == b.conjunct_mode
            &&& a.row_offset == b.row_offset
        },
{
}

/// The plans, known by handles `P`, that an executor keeps.
pub struct PlanCache<P> {
    entries: Vec<(PlanKey, P)>,
}

/// The plan for `key` among the entries from `n` on.
pub open spec fn lookup<P>(entries: Seq<(PlanKey, P)>, key: PlanKeyModel, n: int) -> Option<P>
    decreases entries.len() - n,
{
    if n < 0 || n >= entries.len() {
        None
    } else if entries[n].0@.key() == key.key() {
        Some(entries[n].1)
    } else {
        lookup(entries, key, n + 1)
    }
}

/// Another entry at the end is found for its own key, and only if none is found before it.
proof fn lemma_lookup_push<P>(
    entries: Seq<(PlanKey, P)>,
    entry: (PlanKey, P),
    key: PlanKeyModel,
    n: int,
)
    requires
        0 <= n <= entries.len(),
    ensures
        lookup(entries.push(entry), key, n) == (match lookup(entries, key, n) {
            Some(plan) => Some(plan),
            None => if entry.0@.key() == key.key() {
                Some(entry.1)
            } else {
                None
            },
        }),
    decreases entries.len() - n,
{
    let more = entries.push(entry);
    if n < entries.len() {
        lemma_lookup_push(entries, entry, key, n + 1);
    } else {
        assert(lookup(more, key, n + 1) is None);
    }
}

/// The same plan is found for whatever has the same key.
proof fn lemma_lookup_same<P>(
    entries: Seq<(PlanKey, P)>,
    key: PlanKeyModel,
    other: PlanKeyModel,
    n: int,
)
    requires
        key.key() == other.key(),
    ensures
        lookup(entries, key, n) == lookup(entries, other, n),
    decreases entries.len() - n,
{
    if 0 <= n < entries.len() {
        lemma_lookup_same(entries, key, other, n + 1);
    }
}

/// A plan, or what it has to be made for.
pub enum PlanLookup<P> {
    /// The plan is kept.
    Kept(P),
    /// The plan has to be made for this.
    Build(PlanKey),
}

impl<P: Copy> PlanCache<P> {
    /// The plan that is kept for a key.
    pub closed spec fn kept(&self, key: PlanKeyModel) -> Option<P> {
        lookup(self.entries@, key, 0)
    }

    /// No plan is kept.
    pub fn new() -> (cache: Self)
        ensures
            forall|key: PlanKeyModel| #[trigger] cache.kept(key) is None,
    {
        PlanCache { entries: Vec::new() }
    }

    /// The plan of a scan, or what it has to be made for.
    pub fn plan(
        &self,
        projection: &BoundExpression,
        filter: Option<&BoundExpression>,
        conjunct_mode: ConjunctMode,
        row_offset: u64,
    ) -> (plan: Result<PlanLookup<P>, ExprError>)
        ensures
            ({
                let key = PlanKeyModel {
                    projection: projection@,
                    filter: match filter {
                        Some(filter) => Some(filter@),
                        None => None,
                    },
                    conjunct_mode,
                    row_offset,
                };
                if !projection@.well_formed() || (filter matches Some(filter)
                    && !filter@.well_formed()) {
                    plan == Err::<PlanLookup<P>, _>(ExprError::ArityMismatch)
                } else {
                    match self.kept(key) {
                        Some(kept) => plan == Ok::<_, ExprError>(PlanLookup::Kept(kept)),
                        None => plan matches Ok(PlanLookup::Build(built)) && built@ == key,
                    }
                }
            }),
    {
        let projection: Expression = match unbind(projection) {
            Ok(projection) => projection,
            Err(error) => return Err(error),
        };
        let filter: Option<Expression> = match filter {
            Some(filter) => match unbind(filter) {
                Ok(filter) => Some(filter),
                Err(error) => return Err(error),
            },
            None => None,
        };
        let key = PlanKey { projection, filter, conjunct_mode, row_offset };
        match self.find(&key) {
            Some(plan) => Ok(PlanLookup::Kept(plan)),
            None => Ok(PlanLookup::Build(key)),
        }
    }

    fn find(&self, key: &PlanKey) -> (plan: Option<P>)
        ensures
            plan == self.kept(key@),
    {
        let mut i: usize = 0;
        while i < self.entries.len()
            invariant
                i <= self.entries@.len(),
                self.kept(key@) == lookup(self.entries@, key@, i as int),
            decreases self.entries@.len() - i,
        {
            if self.entries[i].0.same(key) {
                return Some(self.entries[i].1);
            }
            i = i + 1;
        }
        None
    }

    /// Keep the plan that was made for a key. There was none for it before.
    pub fn insert(&mut self, key: PlanKey, plan: P)
        requires
            old(self).kept(key@) is None,
        ensures
            forall|other: PlanKeyModel| #[trigger]
                final(self).kept(other) == if other.key() == key@.key() {
                    Some(plan)
                } else {
                    old(self).kept(other)
                },
    {
        let ghost before = self.entries@;
        let ghost entry = (key, plan);
        self.entries.push((key, plan));
        proof {
            assert forall|other: PlanKeyModel| #[trigger]
                self.kept(other) == if other.key() == entry.0@.key() {
                    Some(plan)
                } else {
                    old(self).kept(other)
                } by {
                lemma_lookup_push(before, entry, other, 0);
                if other.key() == entry.0@.key() {
                    lemma_lookup_same(before, other, entry.0@, 0);
                }
            }
        }
    }
}

/// What a scan's morsels are pruned by before they are read: the static conjuncts of its filter,
/// if there are any.
pub fn pruning_conjuncts(filter: Option<&BoundExpression>) -> (conjuncts: Option<
    Vec<&BoundExpression>,
>)
    ensures
        match filter {
            None => conjuncts is None,
            Some(filter) => if filter@.static_conjuncts().len() == 0 {
                conjuncts is None
            } else {
                conjuncts is Some && borrowed_trees(conjuncts->Some_0@)
                    == filter@.static_conjuncts() && lent(conjuncts->Some_0@)
                    == filter.bound_conjuncts()
            },
        },
{
    match filter {
        None => None,
        Some(filter) => {
            let conjuncts: Vec<&BoundExpression> = static_conjuncts(filter);
            assert(borrowed_trees(conjuncts@).len() == conjuncts@.len());
            if conjuncts.len() == 0 {
                None
            } else {
                Some(conjuncts)
            }
        },
    }
}

} // verus!
