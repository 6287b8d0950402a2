//! A system-inventory engine: it parses kernel text records into typed
//! entities, reconstructs the process parent/child forest from the flat
//! process list, keeps filtered and sorted views of it consistent, and
//! assembles service-manager unit records from one remote query cycle.
//! The presentation layer and all file and bus I/O live outside this
//! crate; everything here is verified.

use vstd::prelude::*;

pub mod cpuinfo;
pub mod filter;
pub mod forest;
pub mod procinfos;
pub mod sorting;
pub mod text;
pub mod unitinfo;

verus! {

/// Which of the three inventory pages the presentation layer is showing.
#[derive(Debug, Clone, Copy, PartialEq, Eq, Structural)]
pub enum Page {
    CpuInfoPage,
    ProcInfoPage,
    SystemdUnitInfoPage,
}

impl Default for Page {
    fn default() -> (r: Self)
        ensures
            r == Page::CpuInfoPage,
    {
        Page::CpuInfoPage
    }
}

/// What the presentation layer asks of the inventories, and what it is
/// told back.
#[derive(Debug)]
pub enum Message {
    RequestCpuInfoUpdate,
    RequestProcInfoUpdate,
    RequestSystemdUnitInfoUpdate,
    SystemdUnitUpdateFinished(
        Result<crate::unitinfo::UnitInterfaceInfoVec, crate::unitinfo::UnitGetError>,
    ),
    StateChanged(Page),
    ProcInfoShowTree(crate::procinfos::InfoShowKind),
    ProcSortMethodChanged(crate::procinfos::SortMethod),
    ProcSearchBarVisibleChanged(bool),
    ProcSearchPatternChanged(String),
    Nothing,
}

} // verus!
