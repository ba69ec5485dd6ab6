use vstd::prelude::*;

verus! {

/// The puzzle of each day of the calendar.
#[derive(Clone, Copy, Debug, PartialEq, Eq, Structural)]
pub enum Puzzle {
    HistorianHysteria,
    RedNosedReports,
    MullItOver,
    CeresSearch,
    PrintQueue,
    GuardGallivant,
    BridgeRepair,
    ResonantCollinearity,
    DiskFragmenter,
    HoofIt,
    PlutonianPebbles,
    GardenGroups,
    ClawContraption,
    RestroomRedoubt,
    WarehouseWoes,
    ReindeerMaze,
    ChronospatialComputer,
    RamRun,
    LinenLayout,
    RaceCondition,
    KeypadConformity,
    MonkeyMarket,
    LanParty,
    CrossedWires,
    CodeChronicle,
}

impl Puzzle {
    /// The day of the calendar that the puzzle belongs to.
    pub open spec fn day(self) -> int {
        match self {
            Puzzle::HistorianHysteria => 1,
            Puzzle::RedNosedReports => 2,
            Puzzle::MullItOver => 3,
            Puzzle::CeresSearch => 4,
            Puzzle::PrintQueue => 5,
            Puzzle::GuardGallivant => 6,
            Puzzle::BridgeRepair => 7,
            Puzzle::ResonantCollinearity => 8,
            Puzzle::DiskFragmenter => 9,
            Puzzle::HoofIt => 10,
            Puzzle::PlutonianPebbles => 11,
            Puzzle::GardenGroups => 12,
            Puzzle::ClawContraption => 13,
            Puzzle::RestroomRedoubt => 14,
            Puzzle::WarehouseWoes => 15,
            Puzzle::ReindeerMaze => 16,
            Puzzle::ChronospatialComputer => 17,
            Puzzle::RamRun => 18,
            Puzzle::LinenLayout => 19,
            Puzzle::RaceCondition => 20,
            Puzzle::KeypadConformity => 21,
            Puzzle::MonkeyMarket => 22,
            Puzzle::LanParty => 23,
            Puzzle::CrossedWires => 24,
            Puzzle::CodeChronicle => 25,
        }
    }
}

/// The puzzle to solve for `day`; the calendar runs from day 1 to day 25.
pub fn run(day: u8) -> (r: Puzzle)
    requires
        1 <= day <= 25,
    ensures
        r.day() == day,
{
    match day {
        1 => Puzzle::HistorianHysteria,
        2 => Puzzle::RedNosedReports,
        3 => Puzzle::MullItOver,
        4 => Puzzle::CeresSearch,
        5 => Puzzle::PrintQueue,
        6 => Puzzle::GuardGallivant,
        7 => Puzzle::BridgeRepair,
        8 => Puzzle::ResonantCollinearity,
        9 => Puzzle::DiskFragmenter,
        10 => Puzzle::HoofIt,
        11 => Puzzle::PlutonianPebbles,
        12 => Puzzle::GardenGroups,
        13 => Puzzle::ClawContraption,
        14 => Puzzle::RestroomRedoubt,
        15 => Puzzle::WarehouseWoes,
        16 => Puzzle::ReindeerMaze,
        17 => Puzzle::ChronospatialComputer,
        18 => Puzzle::RamRun,
        19 => Puzzle::LinenLayout,
        20 => Puzzle::RaceCondition,
        21 => Puzzle::KeypadConformity,
        22 => Puzzle::MonkeyMarket,
        23 => Puzzle::LanParty,
        24 => Puzzle::CrossedWires,
        _ => Puzzle::CodeChronicle,
    }
}

} // verus!
