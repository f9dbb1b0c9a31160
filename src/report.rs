//! What the report shows beside the numbers: the verdict on an anomaly score.
use vstd::prelude::*;
use crate::stats::Fraction;

verus! {

/// Settings of a printed report.
pub struct ReportGenerator {
    pub color: bool,
}

impl ReportGenerator {
    pub fn new(color: bool) -> (r: ReportGenerator)
        ensures
            r.color == color,
    {
        ReportGenerator { color }
    }
}

/// The verdict on a whole-number score: up to 20 healthy, up to 50 moderate,
/// up to 79 elevated, critical above.
pub open spec fn verdict(points: int) -> Seq<char> {
    if points <= 20 {
        "Healthy"@
    } else if points <= 50 {
        "Moderate"@
    } else if points <= 79 {
        "Elevated"@
    } else {
        "Critical"@
    }
}

/// The verdict on an anomaly score, by its whole part.
pub fn anomaly_label(score: Fraction) -> (r: &'static str)
    requires
        score.den > 0,
    ensures
        r@ == verdict(score.num as int / score.den as int),
{
    let points = score.num / score.den;
    if points <= 20 {
        "Healthy"
    } else if points <= 50 {
        "Moderate"
    } else if points <= 79 {
        "Elevated"
    } else {
        "Critical"
    }
}

} // verus!
