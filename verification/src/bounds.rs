//! Why an anytime bound solve stopped.

use vstd::prelude::*;

verus! {

#[derive(Clone, Copy, Debug)]
pub enum Stop {
    /// Root width within the target.
    WidthMet,
    /// The root's lower bound is above the threshold band.
    ProvenAbove,
    /// The root's upper bound is below the threshold band.
    ProvenBelow,
    /// The root interval lies inside the threshold band.
    Contained,
    WorkExhausted,
    NodeBudget,
}

/// Where the root interval stands against the threshold band, when one is
/// given.
#[derive(Clone, Copy, Debug)]
pub struct BandCheck {
    /// `lo > tau_hi`.
    pub above: bool,
    /// `hi < tau_lo`.
    pub below: bool,
    /// `lo >= tau_lo && hi <= tau_hi`.
    pub inside: bool,
}

/// The stop rule, in priority order: the width target, then the band
/// verdicts (above, below, inside), then the work budget, then the node
/// budget.
pub open spec fn stop_spec(width_met: bool, band: Option<BandCheck>, runs: u64, work_limit: u64, nodes: usize, node_budget: usize) -> Option<Stop> {
    if width_met {
        Some(Stop::WidthMet)
    } else if band matches Some(b) && b.above {
        Some(Stop::ProvenAbove)
    } else if band matches Some(b) && b.below {
        Some(Stop::ProvenBelow)
    } else if band matches Some(b) && b.inside {
        Some(Stop::Contained)
    } else if runs >= work_limit {
        Some(Stop::WorkExhausted)
    } else if nodes >= node_budget {
        Some(Stop::NodeBudget)
    } else {
        None
    }
}

/// Whether (and why) the solve stops at this iteration.
pub fn stop_reason(width_met: bool, band: Option<BandCheck>, runs: u64, work_limit: u64, nodes: usize, node_budget: usize) -> (r: Option<Stop>)
    ensures
        r == stop_spec(width_met, band, runs, work_limit, nodes, node_budget),
{
    if width_met {
        return Some(Stop::WidthMet);
    }
    match band {
        Some(b) => {
            if b.above {
                return Some(Stop::ProvenAbove);
            }
            if b.below {
                return Some(Stop::ProvenBelow);
            }
            if b.inside {
                return Some(Stop::Contained);
            }
        },
        None => {},
    }
    if runs >= work_limit {
        Some(Stop::WorkExhausted)
    } else if nodes >= node_budget {
        Some(Stop::NodeBudget)
    } else {
        None
    }
}

} // verus!
