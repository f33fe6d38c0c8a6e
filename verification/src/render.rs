//! What stands where on the screen of the terminal UI. Drawing it is left to
//! others.

use vstd::prelude::*;

use crate::apps::AppInfo;
use crate::devscan::DevArtifact;
use crate::model::{SafetyTier, TargetScan};
use crate::paths::{opt_view, shown_below, FsPath};
use crate::trash::TrashSummary;
use crate::tui::{App, Row, Tab};
use crate::ui::{self, counted, left_aligned, right_aligned, shown_bytes, truncated};

verus! {

/// A part of the screen.
#[derive(Debug, Clone, Copy, PartialEq, Eq, Structural)]
pub struct Area {
    pub x: u16,
    pub y: u16,
    pub width: u16,
    pub height: u16,
}

/// The smaller of the two.
pub open spec fn smaller(a: u16, b: u16) -> u16 {
    if a < b {
        a
    } else {
        b
    }
}

/// A box in the middle of an area, no larger than it.
pub open spec fn in_the_middle(area: Area, width: u16, height: u16) -> Area {
    let w = smaller(width, area.width);
    let h = smaller(height, area.height);
    Area {
        x: (area.x + (area.width - w) / 2) as u16,
        y: (area.y + (area.height - h) / 2) as u16,
        width: w,
        height: h,
    }
}

/// A box in the middle of an area, no larger than it.
pub fn centered(area: Area, width: u16, height: u16) -> (r: Area)
    requires
        area.x + area.width <= u16::MAX,
        area.y + area.height <= u16::MAX,
    ensures
        r == in_the_middle(area, width, height),
        r.width == smaller(width, area.width),
        r.height == smaller(height, area.height),
        r.x == area.x + (area.width - r.width) / 2,
        r.y == area.y + (area.height - r.height) / 2,
        r.x + r.width <= area.x + area.width,
        r.y + r.height <= area.y + area.height,
{
    let width: u16 = if width < area.width {
        width
    } else {
        area.width
    };
    let height: u16 = if height < area.height {
        height
    } else {
        area.height
    };
    Area {
        x: area.x + (area.width - width) / 2,
        y: area.y + (area.height - height) / 2,
        width,
        height,
    }
}

/// The word for a tier.
pub fn tier_word(tier: SafetyTier) -> (r: &'static str)
    ensures
        r@ == tier.wire(),
{
    tier.wire_name()
}

/// The keys that are named for a tab.
pub fn keys(tab: Tab) -> (r: &'static str)
    ensures
        r@ == if tab == Tab::Scan || tab == Tab::Dev {
            "· a all · r rescan · tab switch · q quit"@
        } else {
            "· r refresh · tab switch · q quit"@
        },
{
    match tab {
        Tab::Scan | Tab::Dev => "· a all · r rescan · tab switch · q quit",
        Tab::Apps | Tab::Trash => "· r refresh · tab switch · q quit",
    }
}

/// What the number in the title is.
pub open spec fn title_label(tab: Tab) -> Seq<char> {
    match tab {
        Tab::Scan | Tab::Dev => "selected"@,
        Tab::Apps => "highlighted"@,
        Tab::Trash => "in the Trash"@,
    }
}

/// The number in the title, and what it is.
pub fn title_text(app: &App) -> (r: String)
    ensures
        r@ == shown_bytes(app@.chosen_bytes()) + " "@ + title_label(app@.tab),
{
    let mut r = ui::bytes(app.selected_bytes());
    r.append(" ");
    match app.tab {
        Tab::Scan | Tab::Dev => r.append("selected"),
        Tab::Apps => r.append("highlighted"),
        Tab::Trash => r.append("in the Trash"),
    }
    r
}

/// How wide the last column is: what the fixed ones leave, and not too
/// narrow.
pub open spec fn last_column(width: u16, taken: int) -> nat {
    if width - taken > 12 {
        (width - taken) as nat
    } else {
        12
    }
}

fn last_column_width(width: u16, taken: u16) -> (r: usize)
    ensures
        r == last_column(width, taken as int),
{
    if width > taken && width - taken > 12 {
        (width - taken) as usize
    } else {
        12
    }
}

/// The mark of a row that can be ticked.
pub fn tick(selected: bool) -> (r: &'static str)
    ensures
        r@ == if selected {
            " [x] "@
        } else {
            " [ ] "@
        },
{
    if selected {
        " [x] "
    } else {
        " [ ] "
    }
}

/// The size column.
pub fn size_cell(bytes: u64) -> (r: String)
    ensures
        r@ == right_aligned(shown_bytes(bytes as nat), 9),
{
    let size = ui::bytes(bytes);
    ui::rpad(size.as_str(), 9)
}

/// The cells of a target: its size, its tier and its name. A narrow screen
/// takes from the name.
pub fn scan_cells(row: &Row<TargetScan>, width: u16) -> (r: (String, String, String))
    ensures
        r.0@ == right_aligned(shown_bytes(row.item.total_bytes as nat), 9),
        r.1@ == left_aligned(row.item.target.safety.wire(), 8),
        r.2@ == truncated(row.item.target.name@, last_column(width, 30)),
{
    (
        size_cell(row.item.total_bytes),
        ui::lpad(tier_word(row.item.target.safety), 8),
        ui::truncate_path(row.item.target.name.as_str(), last_column_width(width, 30)),
    )
}

/// A path as it is shown below the home directory, where there is one.
pub open spec fn below_home(path: Seq<char>, home: Option<Seq<char>>) -> Seq<char> {
    match home {
        Some(home) => shown_below(path, home),
        None => path,
    }
}

/// The cells of an artifact: its size, its tool and its path below the home
/// directory.
pub fn dev_cells(row: &Row<DevArtifact>, home: Option<&FsPath>, width: u16) -> (r: (String, String, String))
    ensures
        r.0@ == right_aligned(shown_bytes(row.item.size_bytes as nat), 9),
        r.1@ == left_aligned(row.item.tool@, 10),
        r.2@ == truncated(below_home(row.item.path@, opt_view(home)), last_column(width, 32)),
{
    let shown: FsPath = match home {
        Some(home) => row.item.path.below(home),
        None => row.item.path.clone(),
    };
    (
        size_cell(row.item.size_bytes),
        ui::lpad(row.item.tool.as_str(), 10),
        ui::truncate_path(shown.as_str(), last_column_width(width, 32)),
    )
}

/// The cells of an app: its size and its name.
pub fn app_cells(app: &AppInfo, width: u16) -> (r: (String, String))
    ensures
        r.0@ == right_aligned(
            shown_bytes(match app.size_bytes {
                Some(size) => size as nat,
                None => 0,
            }),
            9,
        ),
        r.1@ == truncated(app.name@, last_column(width, 20)),
{
    let size: u64 = match app.size_bytes {
        Some(size) => size,
        None => 0,
    };
    (size_cell(size), ui::truncate_path(app.name.as_str(), last_column_width(width, 20)))
}

/// What stands in place of an empty list.
pub fn empty_message(busy: bool) -> (r: &'static str)
    ensures
        r@ == if busy {
            "Measuring…"@
        } else {
            "Nothing here. Press r to scan again."@
        },
{
    if busy {
        "Measuring…"
    } else {
        "Nothing here. Press r to scan again."
    }
}

/// What is said of the Trash.
#[derive(Debug)]
pub enum TrashText {
    /// It was not measured yet: to call it empty would be a lie.
    Unmeasured,
    Empty,
    /// How much is in it, and in how many items.
    Holds(String, String),
}

/// What is said of the Trash.
pub fn trash_text(trash: &Option<TrashSummary>) -> (r: TrashText)
    ensures
        match *trash {
            None => r is Unmeasured,
            Some(trash) => if trash.items == 0 {
                r is Empty
            } else {
                r is Holds && r->Holds_0@ == shown_bytes(trash.bytes as nat) && r->Holds_1@ == " in "@ + counted(
                    trash.items as nat,
                    "item"@,
                    "items"@,
                ) + "."@
            },
        },
{
    match trash {
        None => TrashText::Unmeasured,
        Some(trash) => if trash.items == 0 {
            TrashText::Empty
        } else {
            let mut what = " in ".to_owned();
            let items = ui::count(trash.items, "item", "items");
            what.append(items.as_str());
            what.append(".");
            TrashText::Holds(ui::bytes(trash.bytes), what)
        },
    }
}

/// The box lies inside the area, as large as asked where that fits and else as
/// large as the area; and what is left stands on both sides alike, but for one
/// column or row that cannot be halved.
pub proof fn the_box_is_in_the_middle(area: Area, width: u16, height: u16)
    requires
        area.x + area.width <= u16::MAX,
        area.y + area.height <= u16::MAX,
    ensures
        width <= area.width ==> in_the_middle(area, width, height).width == width,
        width > area.width ==> in_the_middle(area, width, height).width == area.width,
        height <= area.height ==> in_the_middle(area, width, height).height == height,
        height > area.height ==> in_the_middle(area, width, height).height == area.height,
        ({
            let r = in_the_middle(area, width, height);
            let (left, right) = (r.x - area.x, area.x + area.width - (r.x + r.width));
            let (above, below) = (r.y - area.y, area.y + area.height - (r.y + r.height));
            &&& 0 <= left <= right <= left + 1
            &&& 0 <= above <= below <= above + 1
        }),
{
}

/// The last column takes all that the others leave, and never less than
/// twelve.
pub proof fn the_last_column_takes_the_rest(width: u16, taken: int)
    ensures
        width >= taken + 12 ==> last_column(width, taken) + taken == width,
        width < taken + 12 ==> last_column(width, taken) == 12,
{
}

/// With no home directory a path is shown whole; with one, whatever lies
/// under it is shown from there.
pub proof fn paths_are_shown_from_home(path: Seq<char>, home: Seq<char>)
    ensures
        below_home(path, None) == path,
        below_home(path, Some(home)) == shown_below(path, home),
{
}

} // verus!
