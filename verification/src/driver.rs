//! Selection of a step strategy by name, for the presentation drivers.

use vstd::prelude::*;

verus! {

/// Which of the four step strategies a driver should run.
pub enum StrategySelection {
    AllSteps,
    SolutionsWithSteps,
    OnlySolutions,
    OnlyCount,
}

impl StrategySelection {
    /// The name of this selection.
    pub open spec fn spec_name(&self) -> Seq<char> {
        match self {
            StrategySelection::AllSteps => "AllSteps"@,
            StrategySelection::SolutionsWithSteps => "SolutionsWithSteps"@,
            StrategySelection::OnlySolutions => "OnlySolutions"@,
            StrategySelection::OnlyCount => "OnlyCount"@,
        }
    }

    pub fn to_str(&self) -> (name: &'static str)
        ensures
            name@ == self.spec_name(),
    {
        match self {
            StrategySelection::AllSteps => "AllSteps",
            StrategySelection::SolutionsWithSteps => "SolutionsWithSteps",
            StrategySelection::OnlySolutions => "OnlySolutions",
            StrategySelection::OnlyCount => "OnlyCount",
        }
    }
}

} // verus!
