//! The filter policy: a pure predicate over the two timestamp dimensions
//! of a part, used by the store to derive its cached exclusion set.

use vstd::prelude::*;
use crate::entity::{render_opt_ts_input, spec_opt_ts_input, Part};

verus! {

/// One dimension of the filter: how an optional timestamp must relate to a
/// configured inclusive range. "Must be set" stands for the full range from
/// the minimum to the maximum representable timestamp.
#[derive(Debug, Clone, Copy, PartialEq, Eq, Structural)]
pub enum RangeFilter {
    /// No constraint on this dimension.
    Unconstrained,
    /// The timestamp must be absent.
    MustBeUnset,
    /// The timestamp must be present.
    MustBeSet,
    /// The timestamp must be present and at most the bound.
    UpperBounded(i64),
    /// The timestamp must be present and at least the bound.
    LowerBounded(i64),
    /// The timestamp must be present and within the inclusive interval.
    Ranged(i64, i64),
}

impl RangeFilter {
    /// Whether an optional timestamp satisfies this range configuration.
    pub open spec fn spec_allows(self, ts: Option<i64>) -> bool {
        match self {
            RangeFilter::Unconstrained => true,
            RangeFilter::MustBeUnset => ts is None,
            RangeFilter::MustBeSet => ts is Some,
            RangeFilter::UpperBounded(end) => ts matches Some(t) && t <= end,
            RangeFilter::LowerBounded(start) => ts matches Some(t) && t >= start,
            RangeFilter::Ranged(start, end) => ts matches Some(t) && start <= t && t <= end,
        }
    }

    /// Evaluates the dimension on an optional timestamp.
    pub fn allows(self, ts: Option<i64>) -> (r: bool)
        ensures
            r == self.spec_allows(ts),
    {
        match self {
            RangeFilter::Unconstrained => true,
            RangeFilter::MustBeUnset => ts.is_none(),
            RangeFilter::MustBeSet => ts.is_some(),
            RangeFilter::UpperBounded(end) => match ts {
                Some(t) => t <= end,
                None => false,
            },
            RangeFilter::LowerBounded(start) => match ts {
                Some(t) => t >= start,
                None => false,
            },
            RangeFilter::Ranged(start, end) => match ts {
                Some(t) => start <= t && t <= end,
                None => false,
            },
        }
    }

    /// The lower bound the dimension shows in a range form, when any.
    pub open spec fn spec_start(self) -> Option<i64> {
        match self {
            RangeFilter::Unconstrained => None,
            RangeFilter::MustBeUnset => None,
            RangeFilter::MustBeSet => Some(i64::MIN),
            RangeFilter::UpperBounded(_) => None,
            RangeFilter::LowerBounded(start) => Some(start),
            RangeFilter::Ranged(start, _) => Some(start),
        }
    }

    /// The upper bound the dimension shows in a range form, when any.
    pub open spec fn spec_end(self) -> Option<i64> {
        match self {
            RangeFilter::Unconstrained => None,
            RangeFilter::MustBeUnset => None,
            RangeFilter::MustBeSet => Some(i64::MAX),
            RangeFilter::UpperBounded(end) => Some(end),
            RangeFilter::LowerBounded(_) => None,
            RangeFilter::Ranged(_, end) => Some(end),
        }
    }

    pub fn start(self) -> (r: Option<i64>)
        ensures
            r == self.spec_start(),
    {
        match self {
            RangeFilter::MustBeSet => Some(i64::MIN),
            RangeFilter::LowerBounded(start) => Some(start),
            RangeFilter::Ranged(start, _) => Some(start),
            _ => None,
        }
    }

    pub fn end(self) -> (r: Option<i64>)
        ensures
            r == self.spec_end(),
    {
        match self {
            RangeFilter::MustBeSet => Some(i64::MAX),
            RangeFilter::UpperBounded(end) => Some(end),
            RangeFilter::Ranged(_, end) => Some(end),
            _ => None,
        }
    }
}

/// The filter policy: a deadline dimension and a completion-time dimension,
/// combined by logical AND.
#[derive(Debug, Clone, Copy, PartialEq, Eq, Structural)]
pub struct FilterMethod {
    pub deadline: RangeFilter,
    pub completed_at: RangeFilter,
}

impl FilterMethod {
    /// Whether the policy constrains nothing, in which case the store keeps
    /// no exclusion set at all.
    pub open spec fn spec_allows_all(self) -> bool {
        self.deadline is Unconstrained && self.completed_at is Unconstrained
    }

    pub fn allows_all(&self) -> (r: bool)
        ensures
            r == self.spec_allows_all(),
    {
        matches!(self.deadline, RangeFilter::Unconstrained) && matches!(
            self.completed_at,
            RangeFilter::Unconstrained,
        )
    }

    /// Whether a part passes the policy: both dimensions must accept it.
    pub open spec fn spec_passes(self, part: Part) -> bool {
        self.deadline.spec_allows(part.deadline) && self.completed_at.spec_allows(
            part.completed_at,
        )
    }

    /// Evaluates the policy on one part.
    pub fn passes_filter(&self, part: &Part) -> (r: bool)
        ensures
            r == self.spec_passes(*part),
    {
        self.deadline.allows(part.deadline) && self.completed_at.allows(part.completed_at)
    }

    /// Whether the policy is exactly "completion time must be set".
    pub fn all_completed(&self) -> (r: bool)
        ensures
            r == (self.completed_at is MustBeSet),
    {
        matches!(self.completed_at, RangeFilter::MustBeSet)
    }

    /// Whether the policy is exactly "deadline must be set".
    pub fn has_deadline(&self) -> (r: bool)
        ensures
            r == (self.deadline is MustBeSet),
    {
        matches!(self.deadline, RangeFilter::MustBeSet)
    }

    /// The completion-time lower bound as a `datetime-local` form value.
    pub fn completed_at_start_to_input(&self, off_secs: i32) -> (r: String)
        ensures
            r@ == spec_opt_ts_input(self.completed_at.spec_start(), off_secs as int),
    {
        render_opt_ts_input(&self.completed_at.start(), off_secs)
    }

    /// The completion-time upper bound as a `datetime-local` form value.
    pub fn completed_at_end_to_input(&self, off_secs: i32) -> (r: String)
        ensures
            r@ == spec_opt_ts_input(self.completed_at.spec_end(), off_secs as int),
    {
        render_opt_ts_input(&self.completed_at.end(), off_secs)
    }

    /// The deadline lower bound as a `datetime-local` form value.
    pub fn deadline_start_to_input(&self, off_secs: i32) -> (r: String)
        ensures
            r@ == spec_opt_ts_input(self.deadline.spec_start(), off_secs as int),
    {
        render_opt_ts_input(&self.deadline.start(), off_secs)
    }

    /// The deadline upper bound as a `datetime-local` form value.
    pub fn deadline_end_to_input(&self, off_secs: i32) -> (r: String)
        ensures
            r@ == spec_opt_ts_input(self.deadline.spec_end(), off_secs as int),
    {
        render_opt_ts_input(&self.deadline.end(), off_secs)
    }
}

impl Default for FilterMethod {
    /// The policy that allows every part.
    fn default() -> (r: Self)
        ensures
            r.deadline is Unconstrained,
            r.completed_at is Unconstrained,
            r.spec_allows_all(),
    {
        FilterMethod { deadline: RangeFilter::Unconstrained, completed_at: RangeFilter::Unconstrained }
    }
}

/// A policy that allows everything excludes no part.
pub broadcast proof fn lemma_allows_all_passes_everything(fm: FilterMethod, part: Part)
    requires
        fm.spec_allows_all(),
    ensures
        #[trigger] fm.spec_passes(part),
{
}

} // verus!
