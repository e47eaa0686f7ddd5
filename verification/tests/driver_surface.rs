use n_queens::driver::StrategySelection;
use n_queens::drivers::console::ConsoleDriver;

#[test]
fn strategy_selection_names() {
    assert_eq!(StrategySelection::AllSteps.to_str(), "AllSteps");
    assert_eq!(StrategySelection::SolutionsWithSteps.to_str(), "SolutionsWithSteps");
    assert_eq!(StrategySelection::OnlySolutions.to_str(), "OnlySolutions");
    assert_eq!(StrategySelection::OnlyCount.to_str(), "OnlyCount");
}

#[test]
fn console_driver_keeps_its_board_size() {
    let driver = ConsoleDriver::new(7);
    assert_eq!(driver.board_size(), 7);
}
