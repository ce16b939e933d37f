//! Cost-model parameters for the tree builder.

use vstd::prelude::*;

verus! {

/// Upper bound accepted for either cost parameter, so that every scaled cost
/// fits comfortably in a machine integer.
pub const COST_LIMIT: i64 = 1_000_000;

/// The largest item count the builder accepts; keeps item identifiers and
/// every scaled cost inside machine integers.
pub const MAX_ITEMS: usize = 1_000_000_000;

/// The empty-cut bonus is a fraction expressed in hundredths; this is the
/// denominator.
pub const BONUS_SCALE: i64 = 100;

/// Default cost of one traversal step.
pub const DEFAULT_COST_TRAVERSAL: i64 = 15;

/// Default cost of one intersection test.
pub const DEFAULT_COST_INTERSECTION: i64 = 20;

/// Default empty-cut bonus, in hundredths (one fifth).
pub const DEFAULT_EMPTY_CUT_BONUS: i64 = 20;

/// Configuration for the builder: the parameters of the Surface Area
/// Heuristic cost model.
#[derive(Clone, Copy, Debug, PartialEq, Eq, Structural)]
pub struct BuilderConfig {
    /// Cost of a traversal step in the tree; strictly positive.
    cost_traversal: i64,
    /// Cost of an intersection test; strictly positive.
    cost_intersection: i64,
    /// Bonus for cutting an empty space, in hundredths:
    /// * `100` means that cutting an empty space is in any case better than
    ///   cutting a full space.
    /// * `0` means that cutting an empty space is not better than cutting a
    ///   full space.
    empty_cut_bonus: i64,
}

impl BuilderConfig {
    /// A valid configuration: positive bounded costs, bonus within
    /// `[0, BONUS_SCALE]`.
    pub open spec fn wf(self) -> bool {
        &&& 0 < self.spec_cost_traversal() <= COST_LIMIT
        &&& 0 < self.spec_cost_intersection() <= COST_LIMIT
        &&& 0 <= self.spec_empty_cut_bonus() <= BONUS_SCALE
    }

    /// The values a valid configuration must hold.
    pub open spec fn spec_valid(cost_traversal: i64, cost_intersection: i64, empty_cut_bonus: i64) -> bool {
        &&& 0 < cost_traversal <= COST_LIMIT
        &&& 0 < cost_intersection <= COST_LIMIT
        &&& 0 <= empty_cut_bonus <= BONUS_SCALE
    }

    /// Create a configuration from the cost of a traversal, the cost of an
    /// intersection test and the bonus for cutting an empty space (in
    /// hundredths).  The values must be valid; [`BuilderConfig::try_new`]
    /// checks them at run time instead.
    pub fn new(cost_traversal: i64, cost_intersection: i64, empty_cut_bonus: i64) -> (r: BuilderConfig)
        requires
            BuilderConfig::spec_valid(cost_traversal, cost_intersection, empty_cut_bonus),
        ensures
            r.spec_cost_traversal() == cost_traversal,
            r.spec_cost_intersection() == cost_intersection,
            r.spec_empty_cut_bonus() == empty_cut_bonus,
            r.wf(),
    {
        BuilderConfig { cost_traversal, cost_intersection, empty_cut_bonus }
    }

    /// Create a configuration, rejecting invalid parameters: a configuration
    /// is returned if and only if both costs are strictly positive and at
    /// most [`COST_LIMIT`], and the bonus lies within `[0, BONUS_SCALE]`.
    pub fn try_new(cost_traversal: i64, cost_intersection: i64, empty_cut_bonus: i64) -> (r: Option<
        BuilderConfig,
    >)
        ensures
            r is Some <==> BuilderConfig::spec_valid(cost_traversal, cost_intersection, empty_cut_bonus),
            r is Some ==> {
                &&& r->Some_0.spec_cost_traversal() == cost_traversal
                &&& r->Some_0.spec_cost_intersection() == cost_intersection
                &&& r->Some_0.spec_empty_cut_bonus() == empty_cut_bonus
                &&& r->Some_0.wf()
            },
    {
        if 0 < cost_traversal && cost_traversal <= COST_LIMIT && 0 < cost_intersection
            && cost_intersection <= COST_LIMIT && 0 <= empty_cut_bonus && empty_cut_bonus
            <= BONUS_SCALE {
            Some(BuilderConfig { cost_traversal, cost_intersection, empty_cut_bonus })
        } else {
            None
        }
    }

    /// The cost of a traversal step, as a specification value.
    pub closed spec fn spec_cost_traversal(self) -> i64 {
        self.cost_traversal
    }

    /// The cost of an intersection test, as a specification value.
    pub closed spec fn spec_cost_intersection(self) -> i64 {
        self.cost_intersection
    }

    /// The empty-cut bonus, as a specification value.
    pub closed spec fn spec_empty_cut_bonus(self) -> i64 {
        self.empty_cut_bonus
    }

    /// Retrieve the cost of a traversal step.
    pub fn cost_traversal(&self) -> (r: i64)
        ensures
            r == self.spec_cost_traversal(),
    {
        self.cost_traversal
    }

    /// Retrieve the cost of an intersection test.
    pub fn cost_intersection(&self) -> (r: i64)
        ensures
            r == self.spec_cost_intersection(),
    {
        self.cost_intersection
    }

    /// Retrieve the bonus for cutting an empty space, in hundredths.
    pub fn empty_cut_bonus(&self) -> (r: i64)
        ensures
            r == self.spec_empty_cut_bonus(),
    {
        self.empty_cut_bonus
    }
}

impl Default for BuilderConfig {
    /// The default configuration: traversal cost `15`, intersection cost
    /// `20`, empty-cut bonus `20` hundredths.
    fn default() -> (r: BuilderConfig)
        ensures
            r.spec_cost_traversal() == DEFAULT_COST_TRAVERSAL,
            r.spec_cost_intersection() == DEFAULT_COST_INTERSECTION,
            r.spec_empty_cut_bonus() == DEFAULT_EMPTY_CUT_BONUS,
            r.wf(),
    {
        BuilderConfig {
            cost_traversal: DEFAULT_COST_TRAVERSAL,
            cost_intersection: DEFAULT_COST_INTERSECTION,
            empty_cut_bonus: DEFAULT_EMPTY_CUT_BONUS,
        }
    }
}

} // verus!
