//! Affinity criteria and terms.

use vstd::prelude::*;
use crate::monitor::{Monitor, MonitorView};

verus! {

/// A property by which monitors are selected.
///
/// `Primary`, `Nonprimary`, `Portrait` and `Landscape` are predicates: each
/// holds or does not hold of a monitor taken alone. The others are rankings:
/// they pick the monitors at one extreme of the set under consideration.
#[derive(Copy, Clone, Debug, PartialEq, Eq, Structural)]
pub enum Affinity {
    Primary,
    Nonprimary,
    Largest,
    Smallest,
    Leftmost,
    Rightmost,
    Topmost,
    Bottommost,
    Portrait,
    Landscape,
}

/// One term of a list of affinities: a criterion, and whether the
/// monitors that match it are wanted (`true`) or those that do not (`false`).
#[derive(Copy, Clone, Debug, PartialEq, Eq, Structural)]
pub struct AffinityPair(pub Affinity, pub bool);

impl Affinity {
    /// Whether this criterion is decided monitor by monitor.
    pub open spec fn predicate(self) -> bool {
        self == Affinity::Primary || self == Affinity::Nonprimary || self == Affinity::Portrait
            || self == Affinity::Landscape
    }

    /// Whether this criterion picks the extreme of a set of monitors.
    pub open spec fn ranking(self) -> bool {
        !self.predicate()
    }

    /// Whether a predicate criterion holds of the monitor `m`. A ranking
    /// criterion holds of no monitor taken alone.
    pub open spec fn holds(self, m: MonitorView) -> bool {
        match self {
            Affinity::Primary => m.primary,
            Affinity::Nonprimary => !m.primary,
            Affinity::Landscape => m.width > m.height,
            Affinity::Portrait => m.height > m.width,
            _ => false,
        }
    }

    /// The key by which a ranking criterion orders monitors: the monitors it
    /// prefers are those with the least key. Areas are products of the pixel
    /// dimensions; `Rightmost` prefers the greatest `x`, `Topmost` the
    /// greatest `y`, `Leftmost` and `Bottommost` the least. A predicate
    /// criterion gives every monitor the key 0.
    pub open spec fn key(self, m: MonitorView) -> int {
        match self {
            Affinity::Largest => -(m.width * m.height),
            Affinity::Smallest => (m.width * m.height) as int,
            Affinity::Rightmost => -m.x,
            Affinity::Leftmost => m.x,
            Affinity::Topmost => -m.y,
            Affinity::Bottommost => m.y,
            _ => 0,
        }
    }

    /// Tells predicates from rankings.
    pub fn is_predicate(self) -> (b: bool)
        ensures
            b == self.predicate(),
    {
        match self {
            Affinity::Primary | Affinity::Nonprimary | Affinity::Portrait | Affinity::Landscape => true,
            _ => false,
        }
    }

    /// Evaluates a predicate criterion on one monitor.
    pub fn holds_for(self, m: &Monitor) -> (b: bool)
        ensures
            b == self.holds(m@),
    {
        match self {
            Affinity::Primary => m.primary,
            Affinity::Nonprimary => !m.primary,
            Affinity::Landscape => m.width > m.height,
            Affinity::Portrait => m.height > m.width,
            _ => false,
        }
    }

    /// Computes the ranking key of one monitor. The key is wide enough for
    /// the area of any monitor, so nothing wraps.
    pub fn key_for(self, m: &Monitor) -> (k: i128)
        ensures
            k == self.key(m@),
    {
        let w: i128 = m.width as i128;
        let h: i128 = m.height as i128;
        assert(0 <= w * h <= 0xffff_ffff * 0xffff_ffff) by (nonlinear_arith)
            requires
                0 <= w <= 0xffff_ffff,
                0 <= h <= 0xffff_ffff,
        ;
        match self {
            Affinity::Largest => -(w * h),
            Affinity::Smallest => w * h,
            Affinity::Rightmost => -(m.x as i128),
            Affinity::Leftmost => m.x as i128,
            Affinity::Topmost => -(m.y as i128),
            Affinity::Bottommost => m.y as i128,
            _ => 0,
        }
    }
}

} // verus!
