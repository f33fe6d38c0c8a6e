//! The interactive terminal UI, as far as it decides anything.
//!
//! Keys and the messages of a worker come in; the state changes, and where
//! there is work to do a [`Job`] comes out. Only one worker runs at a time;
//! while it does, the keys that would start another do nothing.

use vstd::prelude::*;

use crate::apps::AppInfo;
use crate::devscan::{DevArtifact, DevProgress};
use crate::model::{capped, CleanReport, SafetyTier, ScanItem, ScanTarget, TargetScan};
use crate::order::{self, largest_order, reordered};
use crate::text::{self, digits};
use crate::trash::{EmptyReport, TrashSummary};
use crate::ui::{self, counted, shown_bytes};

verus! {

/// The four things that can be shown.
#[derive(Debug, Clone, Copy, PartialEq, Eq, Structural)]
pub enum Tab {
    Scan,
    Dev,
    Apps,
    Trash,
}

impl Tab {
    /// The place of the tab.
    pub open spec fn place(self) -> int {
        match self {
            Tab::Scan => 0,
            Tab::Dev => 1,
            Tab::Apps => 2,
            Tab::Trash => 3,
        }
    }

    /// The tab at a place, going round.
    pub open spec fn at(place: int) -> Tab {
        let p = place % 4;
        if p == 0 {
            Tab::Scan
        } else if p == 1 {
            Tab::Dev
        } else if p == 2 {
            Tab::Apps
        } else {
            Tab::Trash
        }
    }

    pub open spec fn heading(self) -> Seq<char> {
        match self {
            Tab::Scan => "Scan"@,
            Tab::Dev => "Developer"@,
            Tab::Apps => "Apps"@,
            Tab::Trash => "Trash"@,
        }
    }

    pub fn title(self) -> (r: &'static str)
        ensures
            r@ == self.heading(),
    {
        match self {
            Tab::Scan => "Scan",
            Tab::Dev => "Developer",
            Tab::Apps => "Apps",
            Tab::Trash => "Trash",
        }
    }

    pub fn index(self) -> (r: usize)
        ensures
            r == self.place(),
            r < 4,
    {
        match self {
            Tab::Scan => 0,
            Tab::Dev => 1,
            Tab::Apps => 2,
            Tab::Trash => 3,
        }
    }

    /// The tab so many places on, going round in both directions.
    pub fn shifted(self, by: isize) -> (r: Tab)
        ensures
            r == Tab::at(self.place() + by),
    {
        let on: usize = if by >= 0 {
            (by as usize) % 4
        } else {
            let back: usize = (-(by + 1)) as usize;
            3 - back % 4
        };
        proof {
            if by >= 0 {
                lemma_goes_round(self.place() + on, by as int / 4);
                assert(by == on + 4 * (by as int / 4));
            } else {
                let back = -(by + 1);
                lemma_goes_round(self.place() + on, -(back / 4) - 1);
                assert(by == on + 4 * (-(back / 4) - 1));
            }
        }
        let next: usize = (self.index() + on) % 4;
        if next == 0 {
            Tab::Scan
        } else if next == 1 {
            Tab::Dev
        } else if next == 2 {
            Tab::Apps
        } else {
            Tab::Trash
        }
    }
}

proof fn lemma_goes_round(a: int, k: int)
    ensures
        (a + 4 * k) % 4 == a % 4,
{
    vstd::arithmetic::div_mod::lemma_mod_multiples_vanish(k, a, 4);
}

/// Going one way and as far back comes to the same tab, and four steps go
/// round.
pub proof fn tabs_go_round(tab: Tab, by: int)
    ensures
        Tab::at(Tab::at(tab.place() + by).place() - by) == tab,
        Tab::at(tab.place() + 4) == tab,
        Tab::at(tab.place()) == tab,
{
}

/// A list row that can be ticked.
pub struct Row<T> {
    pub item: T,
    pub selected: bool,
}

/// What a worker sends back.
pub enum Msg {
    Progress(String),
    ScanDone(Vec<TargetScan>),
    DevDone(Vec<DevArtifact>),
    AppsDone(Vec<AppInfo>),
    TrashDone(TrashSummary),
    /// A finished action, as the line to show.
    Finished(String),
}

/// A removal that waits for an answer.
#[derive(Debug, Clone, Copy, PartialEq, Eq, Structural)]
pub enum Action {
    CleanScan,
    CleanDev,
    Uninstall,
    EmptyTrash,
}

/// A question about a removal.
pub struct Confirm {
    pub question: String,
    pub action: Action,
}

/// A key that was pressed.
#[derive(Debug, Clone, Copy, PartialEq, Eq, Structural)]
pub enum Key {
    Char(char),
    Esc,
    Tab,
    BackTab,
    Left,
    Right,
    Up,
    Down,
    Other,
}

/// Work for a worker.
pub enum Job {
    Scan,
    Dev,
    Apps,
    Trash,
    CleanScan(Vec<ScanItem>),
    CleanDev(Vec<DevArtifact>),
    Uninstall(AppInfo),
    EmptyTrash,
}

/// Work for a worker, as a mathematical value.
pub enum JobView {
    Scan,
    Dev,
    Apps,
    Trash,
    CleanScan(Seq<ScanItem>),
    CleanDev(Seq<DevArtifact>),
    Uninstall(AppInfo),
    EmptyTrash,
}

impl View for Job {
    type V = JobView;

    open spec fn view(&self) -> JobView {
        match *self {
            Job::Scan => JobView::Scan,
            Job::Dev => JobView::Dev,
            Job::Apps => JobView::Apps,
            Job::Trash => JobView::Trash,
            Job::CleanScan(items) => JobView::CleanScan(items@),
            Job::CleanDev(artifacts) => JobView::CleanDev(artifacts@),
            Job::Uninstall(app) => JobView::Uninstall(app),
            Job::EmptyTrash => JobView::EmptyTrash,
        }
    }
}

impl JobView {
    /// The work removes something.
    pub open spec fn removes(self) -> bool {
        self is CleanScan || self is CleanDev || self is Uninstall || self is EmptyTrash
    }
}

/// The work, where there is any.
pub open spec fn job_view(job: Option<Job>) -> Option<JobView> {
    match job {
        Some(job) => Some(job@),
        None => None,
    }
}

/// What the UI holds.
pub struct App {
    pub tab: Tab,
    /// The rules, kept so that a clean approves the roots that the scan used.
    pub targets: Vec<ScanTarget>,
    pub scan: Vec<Row<TargetScan>>,
    pub dev: Vec<Row<DevArtifact>>,
    pub apps: Vec<AppInfo>,
    /// Nothing until the Trash has been measured, which is not the same as an
    /// empty one.
    pub trash: Option<TrashSummary>,
    pub cursor: [usize; 4],
    /// The latest line of progress, while a worker runs.
    pub busy: Option<String>,
    pub status: String,
    pub confirm: Option<Confirm>,
    pub quit: bool,
}

/// What the UI holds, as a mathematical value.
pub struct State {
    pub tab: Tab,
    pub targets: Seq<ScanTarget>,
    pub scan: Seq<Row<TargetScan>>,
    pub dev: Seq<Row<DevArtifact>>,
    pub apps: Seq<AppInfo>,
    pub trash: Option<TrashSummary>,
    pub cursor: Seq<usize>,
    pub busy: Option<Seq<char>>,
    pub status: Seq<char>,
    pub confirm: Option<(Seq<char>, Action)>,
    pub quit: bool,
}

impl View for App {
    type V = State;

    open spec fn view(&self) -> State {
        State {
            tab: self.tab,
            targets: self.targets@,
            scan: self.scan@,
            dev: self.dev@,
            apps: self.apps@,
            trash: self.trash,
            cursor: self.cursor@,
            busy: match self.busy {
                Some(line) => Some(line@),
                None => None,
            },
            status: self.status@,
            confirm: match self.confirm {
                Some(confirm) => Some((confirm.question@, confirm.action)),
                None => None,
            },
            quit: self.quit,
        }
    }
}

impl State {
    /// How many rows the shown tab has.
    pub open spec fn rows(self) -> nat {
        match self.tab {
            Tab::Scan => self.scan.len(),
            Tab::Dev => self.dev.len(),
            Tab::Apps => self.apps.len(),
            Tab::Trash => 0,
        }
    }

    /// The row that the cursor is on.
    pub open spec fn here(self) -> nat {
        self.cursor[self.tab.place()] as nat
    }

    /// The cursor of the shown tab put on a row.
    pub open spec fn with_cursor(self, at: nat) -> State {
        State { cursor: self.cursor.update(self.tab.place(), at as usize), ..self }
    }

    /// The cursor on a row that is there.
    pub open spec fn clamped(self) -> State {
        let last = if self.rows() == 0 {
            0
        } else {
            (self.rows() - 1) as nat
        };
        if self.here() <= last {
            self.with_cursor(self.here())
        } else {
            self.with_cursor(last)
        }
    }

    /// The worker is done.
    pub open spec fn finished(self, status: Seq<char>) -> State {
        (State { busy: None, status, ..self }).clamped()
    }

    /// Measuring the shown tab again begins, unless a worker runs.
    pub open spec fn refreshed(self) -> (State, Option<JobView>) {
        if self.busy is Some {
            (self, None)
        } else {
            match self.tab {
                Tab::Scan => (State { busy: Some("scanning…"@), ..self }, Some(JobView::Scan)),
                Tab::Dev => (
                    State { busy: Some("looking for build artifacts…"@), ..self },
                    Some(JobView::Dev),
                ),
                Tab::Apps => (
                    State { busy: Some("measuring applications…"@), ..self },
                    Some(JobView::Apps),
                ),
                Tab::Trash => (
                    State { busy: Some("measuring the Trash…"@), ..self },
                    Some(JobView::Trash),
                ),
            }
        }
    }

    /// The shown tab has not been loaded.
    pub open spec fn unloaded(self) -> bool {
        match self.tab {
            Tab::Scan => self.scan.len() == 0,
            Tab::Dev => self.dev.len() == 0,
            Tab::Apps => self.apps.len() == 0,
            Tab::Trash => self.trash is None,
        }
    }

    /// Another tab is shown; it loads on the first visit.
    pub open spec fn switched(self, tab: Tab) -> (State, Option<JobView>) {
        let shown = State { tab, ..self };
        if shown.unloaded() {
            shown.refreshed()
        } else {
            (shown, None)
        }
    }

    /// The cursor moved, as far as there are rows.
    pub open spec fn moved(self, by: int) -> State {
        if self.rows() == 0 {
            self
        } else {
            let to = self.here() + by;
            if to < 0 {
                self.with_cursor(0)
            } else if to >= self.rows() {
                self.with_cursor((self.rows() - 1) as nat)
            } else {
                self.with_cursor(to as nat)
            }
        }
    }

    /// The row under the cursor ticked, or no longer.
    pub open spec fn toggled(self) -> State {
        match self.tab {
            Tab::Scan => State { scan: flipped(self.scan, self.here() as int), ..self },
            Tab::Dev => State { dev: flipped(self.dev, self.here() as int), ..self },
            _ => self,
        }
    }

    /// All rows ticked, or none where all were.
    pub open spec fn toggled_all(self) -> State {
        match self.tab {
            Tab::Scan => State { scan: all_set(self.scan, !all_ticked(self.scan)), ..self },
            Tab::Dev => State { dev: all_set(self.dev, !all_ticked(self.dev)), ..self },
            _ => self,
        }
    }

    /// How many bytes are chosen on the shown tab.
    pub open spec fn chosen_bytes(self) -> nat {
        match self.tab {
            Tab::Scan => capped(ticked_scan_bytes(self.scan)),
            Tab::Dev => capped(ticked_dev_bytes(self.dev)),
            Tab::Apps => if self.here() < self.apps.len() && self.apps[self.here() as int].size_bytes is Some {
                self.apps[self.here() as int].size_bytes->0 as nat
            } else {
                0
            },
            Tab::Trash => match self.trash {
                Some(trash) => trash.bytes as nat,
                None => 0,
            },
        }
    }

    /// A question stands.
    pub open spec fn asking(self, question: Seq<char>, action: Action) -> State {
        State { confirm: Some((question, action)), ..self }
    }

    /// The question before a clean, where anything is ticked.
    pub open spec fn asked_clean(self) -> State {
        if self.busy is Some {
            self
        } else {
            match self.tab {
                Tab::Scan => if any_ticked(self.scan) {
                    self.asking("Move "@ + shown_bytes(self.chosen_bytes()) + " to the Trash?"@, Action::CleanScan)
                } else {
                    State { status: "Nothing selected — press Space first."@, ..self }
                },
                Tab::Dev => if any_ticked(self.dev) {
                    self.asking(
                        "Move "@ + shown_bytes(self.chosen_bytes()) + " of build artifacts to the Trash?"@,
                        Action::CleanDev,
                    )
                } else {
                    State { status: "Nothing selected — press Space first."@, ..self }
                },
                _ => self,
            }
        }
    }

    /// The question before an uninstall.
    pub open spec fn asked_uninstall(self) -> State {
        if self.tab != Tab::Apps || self.busy is Some || self.here() >= self.apps.len() {
            self
        } else {
            self.asking(
                "Uninstall "@ + self.apps[self.here() as int].name@ + " and its leftovers?"@,
                Action::Uninstall,
            )
        }
    }

    /// The question before the Trash is emptied, where anything is in it.
    pub open spec fn asked_empty(self) -> State {
        if self.tab != Tab::Trash || self.busy is Some || self.trash is None || self.trash->0.items == 0 {
            self
        } else {
            self.asking(
                "Permanently delete "@ + shown_bytes(self.trash->0.bytes as nat)
                    + " in the Trash? This cannot be undone."@,
                Action::EmptyTrash,
            )
        }
    }

    /// The removal that was asked about begins.
    pub open spec fn committed(self) -> (State, Option<JobView>) {
        match self.confirm {
            None => (self, None),
            Some((_, action)) => {
                let begun = State { confirm: None, busy: Some("removing…"@), ..self };
                match action {
                    Action::CleanScan => (begun, Some(JobView::CleanScan(ticked_items(self.scan)))),
                    Action::CleanDev => (begun, Some(JobView::CleanDev(ticked_artifacts(self.dev)))),
                    Action::Uninstall => if self.here() < self.apps.len() {
                        (begun, Some(JobView::Uninstall(self.apps[self.here() as int])))
                    } else {
                        (begun.finished("The app is no longer in the list."@), None)
                    },
                    Action::EmptyTrash => (begun, Some(JobView::EmptyTrash)),
                }
            },
        }
    }

    /// What a key does. A question takes every key as its answer.
    pub open spec fn after_key(self, key: Key, control: bool) -> (State, Option<JobView>) {
        if self.confirm is Some {
            if key == Key::Char('y') || key == Key::Char('Y') {
                self.committed()
            } else {
                (State { confirm: None, status: "Cancelled."@, ..self }, None)
            }
        } else {
            match key {
                Key::Esc => (State { quit: true, ..self }, None),
                Key::Tab | Key::Right => self.switched(Tab::at(self.tab.place() + 1)),
                Key::BackTab | Key::Left => self.switched(Tab::at(self.tab.place() - 1)),
                Key::Down => (self.moved(1), None),
                Key::Up => (self.moved(-1), None),
                Key::Char(c) => if c == 'q' || (c == 'c' && control) {
                    (State { quit: true, ..self }, None)
                } else if c == 'l' {
                    self.switched(Tab::at(self.tab.place() + 1))
                } else if c == 'h' {
                    self.switched(Tab::at(self.tab.place() - 1))
                } else if c == 'j' {
                    (self.moved(1), None)
                } else if c == 'k' {
                    (self.moved(-1), None)
                } else if c == ' ' {
                    (self.toggled(), None)
                } else if c == 'a' {
                    (self.toggled_all(), None)
                } else if c == 'r' {
                    self.refreshed()
                } else if c == 'c' {
                    (self.asked_clean(), None)
                } else if c == 'u' {
                    (self.asked_uninstall(), None)
                } else if c == 'e' {
                    (self.asked_empty(), None)
                } else {
                    (self, None)
                },
                Key::Other => (self, None),
            }
        }
    }

    /// What a message does. After a removal the shown tab is measured again.
    pub open spec fn after_msg(self, msg: Msg) -> (State, Option<JobView>) {
        match msg {
            Msg::Progress(line) => (State { busy: Some(line@), ..self }, None),
            Msg::ScanDone(targets) => (
                (State { scan: scan_rows(targets@), ..self }).finished("space selects · c cleans"@),
                None,
            ),
            Msg::DevDone(artifacts) => (
                (State { dev: dev_rows(artifacts@), ..self }).finished("space selects · c cleans"@),
                None,
            ),
            Msg::AppsDone(apps) => (
                (State { apps: apps@, ..self }).finished("u uninstalls the highlighted app"@),
                None,
            ),
            Msg::TrashDone(summary) => (
                (State { trash: Some(summary), ..self }).finished("e empties the Trash"@),
                None,
            ),
            Msg::Finished(line) => self.finished(line@).refreshed(),
        }
    }
}

/// The row at a place ticked, or no longer.
pub open spec fn flipped<T>(rows: Seq<Row<T>>, at: int) -> Seq<Row<T>> {
    if 0 <= at < rows.len() {
        rows.update(at, Row { item: rows[at].item, selected: !rows[at].selected })
    } else {
        rows
    }
}

/// All rows are ticked.
pub open spec fn all_ticked<T>(rows: Seq<Row<T>>) -> bool {
    forall|i: int| 0 <= i < rows.len() ==> (#[trigger] rows[i]).selected
}

/// Some row is ticked.
pub open spec fn any_ticked<T>(rows: Seq<Row<T>>) -> bool {
    exists|i: int| 0 <= i < rows.len() && (#[trigger] rows[i]).selected
}

/// All rows ticked, or none.
pub open spec fn all_set<T>(rows: Seq<Row<T>>, on: bool) -> Seq<Row<T>> {
    rows.map_values(|r: Row<T>| Row { item: r.item, selected: on })
}

/// The bytes of the ticked targets.
pub open spec fn ticked_scan_bytes(rows: Seq<Row<TargetScan>>) -> nat
    decreases rows.len(),
{
    if rows.len() == 0 {
        0
    } else {
        ticked_scan_bytes(rows.drop_last()) + if rows.last().selected {
            rows.last().item.total_bytes as nat
        } else {
            0
        }
    }
}

/// The bytes of the ticked artifacts.
pub open spec fn ticked_dev_bytes(rows: Seq<Row<DevArtifact>>) -> nat
    decreases rows.len(),
{
    if rows.len() == 0 {
        0
    } else {
        ticked_dev_bytes(rows.drop_last()) + if rows.last().selected {
            rows.last().item.size_bytes as nat
        } else {
            0
        }
    }
}

/// The items of the ticked targets.
pub open spec fn ticked_items(rows: Seq<Row<TargetScan>>) -> Seq<ScanItem>
    decreases rows.len(),
{
    if rows.len() == 0 {
        Seq::empty()
    } else {
        ticked_items(rows.drop_last()) + if rows.last().selected {
            rows.last().item.items@
        } else {
            Seq::empty()
        }
    }
}

/// The ticked artifacts.
pub open spec fn ticked_artifacts(rows: Seq<Row<DevArtifact>>) -> Seq<DevArtifact>
    decreases rows.len(),
{
    if rows.len() == 0 {
        Seq::empty()
    } else {
        let before = ticked_artifacts(rows.drop_last());
        if rows.last().selected {
            before.push(rows.last().item)
        } else {
            before
        }
    }
}

/// The row of a target: ticked from the start where it is safe.
pub open spec fn scan_row(scan: TargetScan) -> Row<TargetScan> {
    Row { item: scan, selected: scan.target.safety == SafetyTier::Safe }
}

/// The targets that hold anything.
pub open spec fn holding(targets: Seq<TargetScan>) -> Seq<TargetScan> {
    targets.filter(|t: TargetScan| t.total_bytes > 0)
}

/// The rows of a scan: the targets that hold anything, largest first.
pub open spec fn scan_rows(targets: Seq<TargetScan>) -> Seq<Row<TargetScan>> {
    let found = holding(targets);
    reordered(
        found,
        largest_order(found.map_values(|t: TargetScan| t.total_bytes)),
    ).map_values(|t: TargetScan| scan_row(t))
}

/// The rows of a search: nothing is ticked from the start.
pub open spec fn dev_rows(artifacts: Seq<DevArtifact>) -> Seq<Row<DevArtifact>> {
    artifacts.map_values(|a: DevArtifact| Row { item: a, selected: false })
}

/// The targets that hold anything.
fn keep_holding(targets: Vec<TargetScan>) -> (r: Vec<TargetScan>)
    ensures
        r@ == holding(targets@),
{
    let ghost all = targets@;
    let ghost keep = |t: TargetScan| t.total_bytes > 0;
    let mut rest = targets;
    let ghost mut j: int = 0;
    let mut i: usize = 0;
    reveal(Seq::filter);
    assert(rest@.take(0) =~= all.take(0).filter(keep));
    assert(rest@.skip(0) =~= all.skip(0));
    while i < rest.len()
        invariant
            keep == (|t: TargetScan| t.total_bytes > 0),
            0 <= i <= rest@.len(),
            0 <= j <= all.len(),
            rest@.take(i as int) == all.take(j).filter(keep),
            rest@.skip(i as int) == all.skip(j),
        decreases all.len() - j,
    {
        let ghost before = rest@;
        proof {
            reveal(Seq::filter);
            assert(before.skip(i as int).len() == all.skip(j).len());
            assert(all.take(j + 1).drop_last() =~= all.take(j));
            assert(before[i as int] == before.skip(i as int)[0]);
            assert(all[j] == all.skip(j)[0]);
            j = j + 1;
        }
        if rest[i].total_bytes > 0 {
            i += 1;
            assert(rest@.take(i as int) =~= before.take(i - 1).push(all[j - 1]));
            assert(rest@.skip(i as int) =~= before.skip(i - 1).skip(1));
            assert(all.skip(j) =~= all.skip(j - 1).skip(1));
        } else {
            rest.remove(i);
            assert(rest@.take(i as int) =~= before.take(i as int));
            assert(rest@.skip(i as int) =~= before.skip(i as int).skip(1));
            assert(all.skip(j) =~= all.skip(j - 1).skip(1));
        }
    }
    proof {
        assert(all.skip(j).len() == 0);
        assert(all.take(j) =~= all);
        assert(rest@.take(i as int) =~= rest@);
    }
    rest
}

/// The rows of a scan: the targets that hold anything, largest first.
pub fn to_scan_rows(targets: Vec<TargetScan>) -> (r: Vec<Row<TargetScan>>)
    ensures
        r@ == scan_rows(targets@),
{
    let found = keep_holding(targets);
    let ghost all = found@.map_values(|t: TargetScan| t.total_bytes);
    let mut keys: Vec<u64> = Vec::new();
    let mut i: usize = 0;
    while i < found.len()
        invariant
            all == found@.map_values(|t: TargetScan| t.total_bytes),
            i <= found@.len(),
            keys@ =~= all.take(i as int),
        decreases found@.len() - i,
    {
        keys.push(found[i].total_bytes);
        i += 1;
    }
    assert(keys@ =~= all);
    let by_size = order::order_larger_first(&keys);
    proof {
        order::lemma_largest_order(by_size@, keys@);
        order::lemma_ordered_distinct(by_size@, keys@.len() as int, order::larger_first(keys@));
    }
    let sorted = order::reorder(found, &by_size);
    let ghost goal = sorted@;
    let ghost row = |t: TargetScan| scan_row(t);
    let mut rest = order::reversed(sorted);
    let mut rows: Vec<Row<TargetScan>> = Vec::new();
    assert(rows@ =~= goal.take(0).map_values(row));
    while rest.len() > 0
        invariant
            row == (|t: TargetScan| scan_row(t)),
            rest@.len() + rows@.len() == goal.len(),
            forall|k: int| 0 <= k < rest@.len() ==> #[trigger] rest@[k] == goal[goal.len() - 1 - k],
            rows@ == goal.take(rows@.len() as int).map_values(row),
        decreases rest@.len(),
    {
        let ghost n = rows@.len();
        if let Some(scan) = rest.pop() {
            let selected = scan.target.safety == SafetyTier::Safe;
            rows.push(Row { item: scan, selected });
        }
        assert(rows@ =~= goal.take(n as int + 1).map_values(row));
    }
    assert(rows@ =~= scan_rows(targets@));
    rows
}

/// The rows of a search: nothing is ticked from the start.
pub fn to_dev_rows(artifacts: Vec<DevArtifact>) -> (r: Vec<Row<DevArtifact>>)
    ensures
        r@ == dev_rows(artifacts@),
{
    let ghost goal = artifacts@;
    let mut rest = order::reversed(artifacts);
    let mut rows: Vec<Row<DevArtifact>> = Vec::new();
    while rest.len() > 0
        invariant
            rest@.len() + rows@.len() == goal.len(),
            forall|k: int| 0 <= k < rest@.len() ==> #[trigger] rest@[k] == goal[goal.len() - 1 - k],
            rows@ =~= dev_rows(goal).take(rows@.len() as int),
        decreases rest@.len(),
    {
        if let Some(item) = rest.pop() {
            rows.push(Row { item, selected: false });
        }
    }
    assert(rows@ =~= dev_rows(goal));
    rows
}

/// Ticks all rows, or none.
fn set_all<T>(rows: &mut Vec<Row<T>>, on: bool)
    ensures
        final(rows)@ == all_set(old(rows)@, on),
{
    let ghost all = rows@;
    let n: usize = rows.len();
    let mut i: usize = 0;
    while i < n
        invariant
            n == all.len(),
            rows@.len() == n,
            i <= n,
            forall|k: int| 0 <= k < i ==> #[trigger] rows@[k] == all_set(all, on)[k],
            forall|k: int| i <= k < n ==> #[trigger] rows@[k] == all[k],
        decreases n - i,
    {
        rows[i].selected = on;
        i += 1;
    }
    assert(rows@ =~= all_set(all, on));
}

/// Ticks the row at a place, or no longer.
fn flip<T>(rows: &mut Vec<Row<T>>, at: usize)
    ensures
        final(rows)@ == flipped(old(rows)@, at as int),
{
    let ghost all = rows@;
    if at < rows.len() {
        let was: bool = rows[at].selected;
        rows[at].selected = !was;
        assert(rows@ =~= flipped(all, at as int));
    }
}

/// Whether all rows are ticked.
fn are_all_ticked<T>(rows: &Vec<Row<T>>) -> (r: bool)
    ensures
        r == all_ticked(rows@),
{
    let mut i: usize = 0;
    while i < rows.len()
        invariant
            i <= rows@.len(),
            forall|k: int| 0 <= k < i ==> (#[trigger] rows@[k]).selected,
        decreases rows@.len() - i,
    {
        if !rows[i].selected {
            return false;
        }
        i += 1;
    }
    true
}

/// Whether some row is ticked.
fn is_any_ticked<T>(rows: &Vec<Row<T>>) -> (r: bool)
    ensures
        r == any_ticked(rows@),
{
    let mut i: usize = 0;
    while i < rows.len()
        invariant
            i <= rows@.len(),
            forall|k: int| 0 <= k < i ==> !(#[trigger] rows@[k]).selected,
        decreases rows@.len() - i,
    {
        if rows[i].selected {
            return true;
        }
        i += 1;
    }
    false
}

impl App {
    /// The UI before anything was measured.
    pub fn new(targets: Vec<ScanTarget>) -> (r: App)
        ensures
            r@.tab == Tab::Scan,
            r@.targets == targets@,
            r@.scan.len() == 0 && r@.dev.len() == 0 && r@.apps.len() == 0,
            r@.trash is None,
            r@.cursor == seq![0usize, 0, 0, 0],
            r@.busy is None,
            r@.status == "Scanning…"@,
            r@.confirm is None,
            !r@.quit,
    {
        let r = App {
            tab: Tab::Scan,
            targets,
            scan: Vec::new(),
            dev: Vec::new(),
            apps: Vec::new(),
            trash: None,
            cursor: [0, 0, 0, 0],
            busy: None,
            status: "Scanning…".to_owned(),
            confirm: None,
            quit: false,
        };
        assert(r@.cursor =~= seq![0usize, 0, 0, 0]);
        r
    }

    fn rows(&self) -> (r: usize)
        ensures
            r == self@.rows(),
    {
        match self.tab {
            Tab::Scan => self.scan.len(),
            Tab::Dev => self.dev.len(),
            Tab::Apps => self.apps.len(),
            Tab::Trash => 0,
        }
    }

    /// The row that the cursor is on.
    pub fn here(&self) -> (r: usize)
        ensures
            r == self@.here(),
    {
        self.cursor[self.tab.index()]
    }

    fn set_cursor(&mut self, at: usize)
        ensures
            final(self)@ == old(self)@.with_cursor(at as nat),
    {
        let slot = self.tab.index();
        let ghost before = self.cursor@;
        self.cursor[slot] = at;
        assert(self.cursor@ =~= before.update(slot as int, at));
    }

    fn clamp_cursor(&mut self)
        ensures
            final(self)@ == old(self)@.clamped(),
    {
        let rows = self.rows();
        let last: usize = if rows == 0 {
            0
        } else {
            rows - 1
        };
        let at = self.here();
        if at <= last {
            self.set_cursor(at);
        } else {
            self.set_cursor(last);
        }
    }

    fn finish(&mut self, status: &str)
        ensures
            final(self)@ == old(self)@.finished(status@),
    {
        self.busy = None;
        self.status = status.to_owned();
        self.clamp_cursor();
    }

    /// Begins measuring the shown tab again, unless a worker runs.
    pub fn refresh(&mut self) -> (r: Option<Job>)
        ensures
            (final(self)@, job_view(r)) == old(self)@.refreshed(),
    {
        if self.busy.is_some() {
            return None;
        }
        match self.tab {
            Tab::Scan => {
                self.busy = Some("scanning…".to_owned());
                Some(Job::Scan)
            },
            Tab::Dev => {
                self.busy = Some("looking for build artifacts…".to_owned());
                Some(Job::Dev)
            },
            Tab::Apps => {
                self.busy = Some("measuring applications…".to_owned());
                Some(Job::Apps)
            },
            Tab::Trash => {
                self.busy = Some("measuring the Trash…".to_owned());
                Some(Job::Trash)
            },
        }
    }

    fn switch(&mut self, tab: Tab) -> (r: Option<Job>)
        ensures
            (final(self)@, job_view(r)) == old(self)@.switched(tab),
    {
        self.tab = tab;
        let unloaded = match tab {
            Tab::Scan => self.scan.len() == 0,
            Tab::Dev => self.dev.len() == 0,
            Tab::Apps => self.apps.len() == 0,
            Tab::Trash => self.trash.is_none(),
        };
        if unloaded {
            self.refresh()
        } else {
            None
        }
    }

    fn move_cursor(&mut self, by: isize)
        ensures
            final(self)@ == old(self)@.moved(by as int),
    {
        let rows = self.rows();
        if rows == 0 {
            return;
        }
        let at = self.here();
        let to: usize = if by >= 0 {
            at.saturating_add(by as usize)
        } else {
            let back: usize = (-(by + 1)) as usize;
            if at > back {
                at - back - 1
            } else {
                0
            }
        };
        if to >= rows {
            self.set_cursor(rows - 1);
        } else {
            self.set_cursor(to);
        }
    }

    fn toggle(&mut self)
        ensures
            final(self)@ == old(self)@.toggled(),
    {
        let at = self.here();
        match self.tab {
            Tab::Scan => flip(&mut self.scan, at),
            Tab::Dev => flip(&mut self.dev, at),
            _ => {},
        }
    }

    fn toggle_all(&mut self)
        ensures
            final(self)@ == old(self)@.toggled_all(),
    {
        match self.tab {
            Tab::Scan => {
                let on = !are_all_ticked(&self.scan);
                set_all(&mut self.scan, on);
            },
            Tab::Dev => {
                let on = !are_all_ticked(&self.dev);
                set_all(&mut self.dev, on);
            },
            _ => {},
        }
    }

    /// How many bytes are chosen on the shown tab.
    pub fn selected_bytes(&self) -> (r: u64)
        ensures
            r == self@.chosen_bytes(),
    {
        match self.tab {
            Tab::Scan => {
                let rows: &Vec<Row<TargetScan>> = &self.scan;
                let mut total: u64 = 0;
                let mut i: usize = 0;
                assert(rows@.take(0).len() == 0);
                while i < rows.len()
                    invariant
                        i <= rows@.len(),
                        total == capped(ticked_scan_bytes(rows@.take(i as int))),
                    decreases rows@.len() - i,
                {
                    assert(rows@.take(i + 1).drop_last() =~= rows@.take(i as int));
                    if rows[i].selected {
                        total = total.saturating_add(rows[i].item.total_bytes);
                    }
                    i += 1;
                }
                assert(rows@.take(i as int) =~= rows@);
                total
            },
            Tab::Dev => {
                let rows: &Vec<Row<DevArtifact>> = &self.dev;
                let mut total: u64 = 0;
                let mut i: usize = 0;
                assert(rows@.take(0).len() == 0);
                while i < rows.len()
                    invariant
                        i <= rows@.len(),
                        total == capped(ticked_dev_bytes(rows@.take(i as int))),
                    decreases rows@.len() - i,
                {
                    assert(rows@.take(i + 1).drop_last() =~= rows@.take(i as int));
                    if rows[i].selected {
                        total = total.saturating_add(rows[i].item.size_bytes);
                    }
                    i += 1;
                }
                assert(rows@.take(i as int) =~= rows@);
                total
            },
            Tab::Apps => {
                let at = self.here();
                if at < self.apps.len() {
                    match self.apps[at].size_bytes {
                        Some(size) => size,
                        None => 0,
                    }
                } else {
                    0
                }
            },
            Tab::Trash => match &self.trash {
                Some(trash) => trash.bytes,
                None => 0,
            },
        }
    }

    fn ask_clean(&mut self)
        ensures
            final(self)@ == old(self)@.asked_clean(),
    {
        if self.busy.is_some() {
            return;
        }
        let size = ui::bytes(self.selected_bytes());
        match self.tab {
            Tab::Scan => {
                if is_any_ticked(&self.scan) {
                    let mut question = "Move ".to_owned();
                    question.append(size.as_str());
                    question.append(" to the Trash?");
                    self.confirm = Some(Confirm { question, action: Action::CleanScan });
                } else {
                    self.status = "Nothing selected — press Space first.".to_owned();
                }
            },
            Tab::Dev => {
                if is_any_ticked(&self.dev) {
                    let mut question = "Move ".to_owned();
                    question.append(size.as_str());
                    question.append(" of build artifacts to the Trash?");
                    self.confirm = Some(Confirm { question, action: Action::CleanDev });
                } else {
                    self.status = "Nothing selected — press Space first.".to_owned();
                }
            },
            _ => {},
        }
    }

    fn ask_uninstall(&mut self)
        ensures
            final(self)@ == old(self)@.asked_uninstall(),
    {
        let at = self.here();
        if self.tab != Tab::Apps || self.busy.is_some() || at >= self.apps.len() {
            return;
        }
        let mut question = "Uninstall ".to_owned();
        question.append(self.apps[at].name.as_str());
        question.append(" and its leftovers?");
        self.confirm = Some(Confirm { question, action: Action::Uninstall });
    }

    fn ask_empty(&mut self)
        ensures
            final(self)@ == old(self)@.asked_empty(),
    {
        if self.tab != Tab::Trash || self.busy.is_some() {
            return;
        }
        let bytes: u64 = match &self.trash {
            Some(trash) => {
                if trash.items == 0 {
                    return;
                }
                trash.bytes
            },
            None => {
                return;
            },
        };
        let mut question = "Permanently delete ".to_owned();
        let size = ui::bytes(bytes);
        question.append(size.as_str());
        question.append(" in the Trash? This cannot be undone.");
        self.confirm = Some(Confirm { question, action: Action::EmptyTrash });
    }

    fn chosen_items(&self) -> (r: Vec<ScanItem>)
        ensures
            r@ == ticked_items(self.scan@),
    {
        let rows: &Vec<Row<TargetScan>> = &self.scan;
        let mut items: Vec<ScanItem> = Vec::new();
        let mut i: usize = 0;
        assert(items@ =~= ticked_items(rows@.take(0)));
        while i < rows.len()
            invariant
                i <= rows@.len(),
                items@ == ticked_items(rows@.take(i as int)),
            decreases rows@.len() - i,
        {
            assert(rows@.take(i + 1).drop_last() =~= rows@.take(i as int));
            let ghost before = items@;
            if rows[i].selected {
                let mut more = rows[i].item.items.clone();
                assert(more@ =~= rows@[i as int].item.items@);
                items.append(&mut more);
            } else {
                assert(before + Seq::<ScanItem>::empty() =~= before);
            }
            i += 1;
        }
        assert(rows@.take(i as int) =~= rows@);
        items
    }

    fn chosen_artifacts(&self) -> (r: Vec<DevArtifact>)
        ensures
            r@ == ticked_artifacts(self.dev@),
    {
        let rows: &Vec<Row<DevArtifact>> = &self.dev;
        let mut artifacts: Vec<DevArtifact> = Vec::new();
        let mut i: usize = 0;
        assert(artifacts@ =~= ticked_artifacts(rows@.take(0)));
        while i < rows.len()
            invariant
                i <= rows@.len(),
                artifacts@ == ticked_artifacts(rows@.take(i as int)),
            decreases rows@.len() - i,
        {
            assert(rows@.take(i + 1).drop_last() =~= rows@.take(i as int));
            if rows[i].selected {
                artifacts.push(rows[i].item.clone());
            }
            i += 1;
        }
        assert(rows@.take(i as int) =~= rows@);
        artifacts
    }

    /// Begins the removal that was asked about.
    fn commit(&mut self) -> (r: Option<Job>)
        ensures
            (final(self)@, job_view(r)) == old(self)@.committed(),
    {
        let action: Action = match &self.confirm {
            None => {
                return None;
            },
            Some(confirm) => confirm.action,
        };
        self.confirm = None;
        self.busy = Some("removing…".to_owned());
        match action {
            Action::CleanScan => Some(Job::CleanScan(self.chosen_items())),
            Action::CleanDev => Some(Job::CleanDev(self.chosen_artifacts())),
            Action::Uninstall => {
                let at = self.here();
                if at < self.apps.len() {
                    Some(Job::Uninstall(self.apps[at].clone()))
                } else {
                    self.finish("The app is no longer in the list.");
                    None
                }
            },
            Action::EmptyTrash => Some(Job::EmptyTrash),
        }
    }

    /// Takes a key. A pending question takes every key as its answer: there
    /// is no navigating away from a question about deleting things.
    pub fn on_key(&mut self, key: Key, control: bool) -> (r: Option<Job>)
        ensures
            (final(self)@, job_view(r)) == old(self)@.after_key(key, control),
    {
        if self.confirm.is_some() {
            match key {
                Key::Char('y') | Key::Char('Y') => {
                    return self.commit();
                },
                _ => {
                    self.confirm = None;
                    self.status = "Cancelled.".to_owned();
                    return None;
                },
            }
        }
        match key {
            Key::Esc | Key::Char('q') => {
                self.quit = true;
                None
            },
            Key::Tab | Key::Right | Key::Char('l') => {
                let tab = self.tab.shifted(1);
                self.switch(tab)
            },
            Key::BackTab | Key::Left | Key::Char('h') => {
                let tab = self.tab.shifted(-1);
                self.switch(tab)
            },
            Key::Down | Key::Char('j') => {
                self.move_cursor(1);
                None
            },
            Key::Up | Key::Char('k') => {
                self.move_cursor(-1);
                None
            },
            Key::Char(' ') => {
                self.toggle();
                None
            },
            Key::Char('a') => {
                self.toggle_all();
                None
            },
            Key::Char('r') => self.refresh(),
            Key::Char('c') => {
                if control {
                    self.quit = true;
                } else {
                    self.ask_clean();
                }
                None
            },
            Key::Char('u') => {
                self.ask_uninstall();
                None
            },
            Key::Char('e') => {
                self.ask_empty();
                None
            },
            _ => None,
        }
    }

    /// Takes a message of the worker.
    pub fn handle(&mut self, msg: Msg) -> (r: Option<Job>)
        ensures
            (final(self)@, job_view(r)) == old(self)@.after_msg(msg),
    {
        match msg {
            Msg::Progress(line) => {
                self.busy = Some(line);
                None
            },
            Msg::ScanDone(targets) => {
                self.scan = to_scan_rows(targets);
                self.finish("space selects · c cleans");
                None
            },
            Msg::DevDone(artifacts) => {
                self.dev = to_dev_rows(artifacts);
                self.finish("space selects · c cleans");
                None
            },
            Msg::AppsDone(apps) => {
                self.apps = apps;
                self.finish("u uninstalls the highlighted app");
                None
            },
            Msg::TrashDone(summary) => {
                self.trash = Some(summary);
                self.finish("e empties the Trash");
                None
            },
            Msg::Finished(line) => {
                self.finish(line.as_str());
                self.refresh()
            },
        }
    }
}

/// What a removal came to, in one line.
pub open spec fn removed_text(report: CleanReport) -> Seq<char> {
    "Reclaimed "@ + shown_bytes(report.bytes_reclaimed as nat) + " from "@ + counted(
        report.removed@.len(),
        "item"@,
        "items"@,
    ) + "."@ + (if report.refused@.len() > 0 {
        " "@ + digits(report.refused@.len()) + " refused."@
    } else {
        Seq::empty()
    }) + if report.failed@.len() > 0 {
        " "@ + digits(report.failed@.len()) + " failed."@
    } else {
        Seq::empty()
    }
}

/// What a removal came to, in one line. What was refused and what failed is
/// what a user most needs to see, so it stands in the same line.
pub fn removed_line(report: &CleanReport) -> (r: String)
    ensures
        r@ == removed_text(*report),
{
    let mut r = "Reclaimed ".to_owned();
    let size = ui::bytes(report.bytes_reclaimed);
    r.append(size.as_str());
    r.append(" from ");
    let what = ui::count(report.removed.len(), "item", "items");
    r.append(what.as_str());
    r.append(".");
    let mut refusals = String::new();
    assert(refusals@ =~= Seq::<char>::empty());
    if report.refused.len() > 0 {
        refusals = " ".to_owned();
        let n = text::decimal(report.refused.len() as u64);
        refusals.append(n.as_str());
        refusals.append(" refused.");
    }
    r.append(refusals.as_str());
    let mut failures = String::new();
    assert(failures@ =~= Seq::<char>::empty());
    if report.failed.len() > 0 {
        failures = " ".to_owned();
        let n = text::decimal(report.failed.len() as u64);
        failures.append(n.as_str());
        failures.append(" failed.");
    }
    r.append(failures.as_str());
    r
}

/// What emptying the Trash came to, in one line.
pub fn emptied_line(report: &EmptyReport) -> (r: String)
    ensures
        r@ == "Emptied "@ + shown_bytes(report.bytes_reclaimed as nat) + " from "@ + counted(
            report.removed as nat,
            "item"@,
            "items"@,
        ) + "."@,
{
    let mut r = "Emptied ".to_owned();
    let size = ui::bytes(report.bytes_reclaimed);
    r.append(size.as_str());
    r.append(" from ");
    let what = ui::count(report.removed, "item", "items");
    r.append(what.as_str());
    r.append(".");
    r
}

/// How far a scan is, in one line.
pub fn scan_progress(name: &str) -> (r: String)
    ensures
        r@ == "scanning "@ + name@,
{
    let mut r = "scanning ".to_owned();
    r.append(name);
    r
}

/// How far a search for artifacts is, in one line.
pub fn dev_progress(progress: &DevProgress) -> (r: String)
    ensures
        r@ == digits(progress.dirs_scanned as nat) + " folders · "@ + digits(progress.found as nat) + " found · "@
            + shown_bytes(progress.bytes_found as nat),
{
    let mut r = text::decimal(progress.dirs_scanned);
    r.append(" folders · ");
    let n = text::decimal(progress.found);
    r.append(n.as_str());
    r.append(" found · ");
    let size = ui::bytes(progress.bytes_found);
    r.append(size.as_str());
    r
}

impl State {
    /// A question stands only while no worker runs.
    pub open spec fn settled(self) -> bool {
        &&& self.confirm is Some ==> self.busy is None
        &&& self.cursor.len() == 4
    }
}

/// A question stands only while no worker runs, whatever keys are pressed.
/// Messages come while a worker runs, and keep to it too.
pub proof fn questions_wait_for_workers(state: State, key: Key, control: bool, msg: Msg)
    requires
        state.settled(),
    ensures
        state.after_key(key, control).0.settled(),
        state.busy is Some ==> state.after_msg(msg).0.settled(),
{
}

/// Only one worker runs at a time: a key starts one only where none runs, and
/// then one does.
pub proof fn one_worker_at_a_time(state: State, key: Key, control: bool)
    requires
        state.settled(),
        state.after_key(key, control).1 is Some,
    ensures
        state.busy is None,
        state.after_key(key, control).0.busy is Some,
{
}

/// A message that the work is done leaves either no worker running, or one
/// that it starts itself.
pub proof fn done_means_done(state: State, msg: Msg)
    requires
        !(msg is Progress),
    ensures
        state.after_msg(msg).0.busy is Some <==> state.after_msg(msg).1 is Some,
        state.after_msg(msg).1 is Some ==> !state.after_msg(msg).1->0.removes(),
{
}

/// Nothing is removed but on a yes to a question that stands. Any other key
/// takes the question back.
pub proof fn removal_takes_a_yes(state: State, key: Key, control: bool)
    ensures
        state.after_key(key, control).1 is Some && state.after_key(key, control).1->0.removes() ==> state.confirm is Some
            && (key == Key::Char('y') || key == Key::Char('Y')),
        state.confirm is Some ==> state.after_key(key, control).0.confirm is None,
        state.confirm is Some && key != Key::Char('y') && key != Key::Char('Y') ==> state.after_key(key, control).1
            is None,
{
}

/// What a clean removes is what is ticked and nothing else: an item of the
/// job is an item of a ticked row.
pub proof fn only_what_is_ticked_is_cleaned(rows: Seq<Row<TargetScan>>, item: ScanItem)
    requires
        ticked_items(rows).contains(item),
    ensures
        exists|i: int| 0 <= i < rows.len() && (#[trigger] rows[i]).selected && rows[i].item.items@.contains(item),
    decreases rows.len(),
{
    if rows.len() > 0 {
        let front = ticked_items(rows.drop_last());
        let own = rows.last().item.items@;
        let k = choose|k: int| 0 <= k < ticked_items(rows).len() && ticked_items(rows)[k] == item;
        if k < front.len() {
            assert(front[k] == item);
            only_what_is_ticked_is_cleaned(rows.drop_last(), item);
            let i = choose|i: int|
                0 <= i < rows.drop_last().len() && (#[trigger] rows.drop_last()[i]).selected
                    && rows.drop_last()[i].item.items@.contains(item);
            assert(rows[i] == rows.drop_last()[i]);
        } else {
            assert(own[k - front.len()] == item);
            assert(rows[rows.len() - 1].selected);
        }
    }
}

/// From the start the safe targets are ticked, and only they; of the
/// artifacts none is.
pub proof fn safe_targets_start_ticked(targets: Seq<TargetScan>, artifacts: Seq<DevArtifact>, i: int)
    ensures
        0 <= i < scan_rows(targets).len() ==> (scan_rows(targets)[i].selected <==> scan_rows(
            targets,
        )[i].item.target.safety == SafetyTier::Safe),
        0 <= i < dev_rows(artifacts).len() ==> !dev_rows(artifacts)[i].selected,
{
}

/// Ticking a row twice leaves it as it was, and so does ticking all rows of a
/// list that was ticked or unticked as a whole.
pub proof fn ticking_twice_changes_nothing(state: State)
    ensures
        state.toggled().toggled() == state,
        all_ticked(state.scan) && all_ticked(state.dev) && state.scan.len() > 0 && state.dev.len() > 0
            ==> state.toggled_all().toggled_all() == state,
{
    let twice = state.toggled().toggled();
    assert(twice.scan =~= state.scan);
    assert(twice.dev =~= state.dev);
    if all_ticked(state.scan) && all_ticked(state.dev) && state.scan.len() > 0 && state.dev.len() > 0 {
        let off = state.toggled_all();
        if state.tab == Tab::Scan {
            assert(!off.scan[0].selected);
        }
        if state.tab == Tab::Dev {
            assert(!off.dev[0].selected);
        }
        assert(off.toggled_all().scan =~= state.scan);
        assert(off.toggled_all().dev =~= state.dev);
    }
}

/// The cursor stays on a row that is there, however it is moved, and comes
/// back onto one when a list shrinks.
pub proof fn the_cursor_stays_on_a_row(state: State, by: int, status: Seq<char>)
    requires
        state.settled(),
        state.rows() > 0,
        state.rows() <= usize::MAX,
    ensures
        state.moved(by).here() < state.rows(),
        state.finished(status).here() < state.rows(),
{
}

/// A scan is shown as every target that holds something, and no other, the
/// largest first, whatever is ticked.
pub proof fn what_a_scan_shows(targets: Seq<TargetScan>, k: int, i: int, j: int)
    requires
        targets.len() <= usize::MAX,
    ensures
        0 <= k < targets.len() && targets[k].total_bytes > 0 ==> exists|r: int|
            0 <= r < scan_rows(targets).len() && (#[trigger] scan_rows(targets)[r]).item == targets[k],
        0 <= i < scan_rows(targets).len() ==> scan_rows(targets)[i].item.total_bytes > 0 && targets.contains(
            scan_rows(targets)[i].item,
        ),
        0 <= i < j < scan_rows(targets).len() ==> scan_rows(targets)[i].item.total_bytes >= scan_rows(
            targets,
        )[j].item.total_bytes,
{
    let keep = |t: TargetScan| t.total_bytes > 0;
    let found = targets.filter(keep);
    assert(found == holding(targets));
    let keys = found.map_values(|t: TargetScan| t.total_bytes);
    let by = largest_order(keys);
    targets.lemma_filter_len(keep);
    order::keys_can_be_ordered(keys);
    let rows = scan_rows(targets);
    assert(rows.len() == by.len() == found.len());
    assert(forall|p: int| 0 <= p < by.len() ==> (#[trigger] rows[p]).item == found[by[p] as int]);
    if 0 <= k < targets.len() && targets[k].total_bytes > 0 {
        targets.lemma_filter_contains(keep, k);
        let f = choose|f: int| 0 <= f < found.len() && found[f] == targets[k];
        order::lemma_ordered_complete(by, keys.len() as int, order::larger_first(keys), f);
        let p = choose|p: int| 0 <= p < by.len() && #[trigger] by[p] == f;
        assert(rows[p].item == targets[k]);
    }
    if 0 <= i < rows.len() {
        let f = by[i] as int;
        targets.lemma_filter_pred(keep, f);
        assert(found.contains(found[f]));
        targets.lemma_filter_contains_rev(keep, found[f]);
    }
    if 0 <= i < j < rows.len() {
        assert(order::larger_first(keys)(by[i] as int, by[j] as int));
        assert(keys[by[i] as int] == rows[i].item.total_bytes && keys[by[j] as int] == rows[j].item.total_bytes);
    }
}

/// A ticked row adds its bytes and its things to what would go, and a row that
/// is not ticked adds nothing.
pub proof fn a_tick_adds_a_row(
    scan: Seq<Row<TargetScan>>,
    s: Row<TargetScan>,
    dev: Seq<Row<DevArtifact>>,
    d: Row<DevArtifact>,
)
    ensures
        s.selected ==> ticked_items(scan.push(s)) == ticked_items(scan) + s.item.items@ && ticked_scan_bytes(scan.push(s))
            == ticked_scan_bytes(scan) + s.item.total_bytes,
        !s.selected ==> ticked_items(scan.push(s)) == ticked_items(scan) && ticked_scan_bytes(scan.push(s))
            == ticked_scan_bytes(scan),
        d.selected ==> ticked_artifacts(dev.push(d)) == ticked_artifacts(dev).push(d.item) && ticked_dev_bytes(dev.push(d))
            == ticked_dev_bytes(dev) + d.item.size_bytes,
        !d.selected ==> ticked_artifacts(dev.push(d)) == ticked_artifacts(dev) && ticked_dev_bytes(dev.push(d))
            == ticked_dev_bytes(dev),
        ticked_items(Seq::empty()).len() == 0 && ticked_artifacts(Seq::empty()).len() == 0,
        ticked_scan_bytes(Seq::empty()) == 0 && ticked_dev_bytes(Seq::empty()) == 0,
{
    assert(scan.push(s).drop_last() =~= scan);
    assert(dev.push(d).drop_last() =~= dev);
    assert(ticked_items(scan) + Seq::<ScanItem>::empty() =~= ticked_items(scan));
}

/// A step goes to the next row or the one before, and stays on the last and on
/// the first. The cursors of the other tabs stay where they are.
pub proof fn a_step_is_one_row(state: State, control: bool)
    requires
        state.settled(),
        state.confirm is None,
        state.here() < state.rows() <= usize::MAX,
    ensures
        state.here() + 1 < state.rows() ==> state.after_key(Key::Down, control).0.here() == state.here() + 1,
        state.here() + 1 == state.rows() ==> state.after_key(Key::Down, control).0.here() == state.here(),
        state.here() > 0 ==> state.after_key(Key::Up, control).0.here() == state.here() - 1,
        state.here() == 0 ==> state.after_key(Key::Up, control).0.here() == 0,
        state.after_key(Key::Down, control).0 == state.after_key(Key::Char('j'), control).0,
        state.after_key(Key::Up, control).0 == state.after_key(Key::Char('k'), control).0,
        forall|t: int|
            0 <= t < 4 && t != state.tab.place() ==> state.after_key(Key::Down, control).0.cursor[t] == (
            #[trigger] state.cursor[t]),
        forall|t: int|
            0 <= t < 4 && t != state.tab.place() ==> state.after_key(Key::Up, control).0.cursor[t] == (
            #[trigger] state.cursor[t]),
{
}

/// A space ticks or unticks the row under the cursor and no other; `a` ticks
/// every row, or unticks every row where each was ticked.
pub proof fn what_is_ticked(state: State, control: bool, i: int)
    requires
        state.confirm is None,
        state.settled(),
    ensures
        state.tab == Tab::Scan && 0 <= i < state.scan.len() ==> {
            let after = state.after_key(Key::Char(' '), control).0;
            &&& after.scan.len() == state.scan.len()
            &&& after.scan[i].item == state.scan[i].item
            &&& after.scan[i].selected <==> (state.scan[i].selected != (i == state.here()))
            &&& after.dev == state.dev
        },
        state.tab == Tab::Dev && 0 <= i < state.dev.len() ==> {
            let after = state.after_key(Key::Char(' '), control).0;
            &&& after.dev.len() == state.dev.len()
            &&& after.dev[i].item == state.dev[i].item
            &&& after.dev[i].selected <==> (state.dev[i].selected != (i == state.here()))
            &&& after.scan == state.scan
        },
        state.tab == Tab::Scan && 0 <= i < state.scan.len() ==> {
            let after = state.after_key(Key::Char('a'), control).0;
            &&& after.scan[i].item == state.scan[i].item
            &&& !state.scan[i].selected ==> after.scan[i].selected
            &&& (forall|k: int| 0 <= k < state.scan.len() ==> (#[trigger] state.scan[k]).selected)
                ==> !after.scan[i].selected
        },
        state.tab == Tab::Dev && 0 <= i < state.dev.len() ==> {
            let after = state.after_key(Key::Char('a'), control).0;
            &&& after.dev[i].item == state.dev[i].item
            &&& !state.dev[i].selected ==> after.dev[i].selected
            &&& (forall|k: int| 0 <= k < state.dev.len() ==> (#[trigger] state.dev[k]).selected)
                ==> !after.dev[i].selected
        },
{
}

/// Whether the state holds a question about the action.
pub open spec fn asks(state: State, action: Action) -> bool {
    match state.confirm {
        Some((_, asked)) => asked == action,
        None => false,
    }
}

/// A question is put exactly where there is something to ask about: a ticked
/// row, an app under the cursor, something in the Trash. While a worker runs
/// there is none.
pub proof fn when_a_question_is_put(state: State, i: int)
    requires
        state.confirm is None,
        state.settled(),
    ensures
        state.busy is Some ==> forall|c: char|
            (#[trigger] state.after_key(Key::Char(c), false)).0.confirm is None && state.after_key(Key::Char(c), false).1
                is None,
        state.busy is None && state.tab == Tab::Scan && 0 <= i < state.scan.len() && state.scan[i].selected ==> asks(
            state.after_key(Key::Char('c'), false).0,
            Action::CleanScan,
        ),
        state.busy is None && state.tab == Tab::Dev && 0 <= i < state.dev.len() && state.dev[i].selected ==> asks(
            state.after_key(Key::Char('c'), false).0,
            Action::CleanDev,
        ),
        state.busy is None && state.tab == Tab::Apps && state.here() < state.apps.len() ==> asks(
            state.after_key(Key::Char('u'), false).0,
            Action::Uninstall,
        ),
        state.busy is None && state.tab == Tab::Trash && state.trash is Some && state.trash->0.items > 0 ==> asks(
            state.after_key(Key::Char('e'), false).0,
            Action::EmptyTrash,
        ),
        (forall|k: int| 0 <= k < state.scan.len() ==> !(#[trigger] state.scan[k]).selected) && state.tab == Tab::Scan
            ==> state.after_key(Key::Char('c'), false).0.confirm is None,
        (forall|k: int| 0 <= k < state.dev.len() ==> !(#[trigger] state.dev[k]).selected) && state.tab == Tab::Dev
            ==> state.after_key(Key::Char('c'), false).0.confirm is None,
        state.tab == Tab::Apps || state.tab == Tab::Trash ==> state.after_key(Key::Char('c'), false).0.confirm is None,
        state.tab != Tab::Apps || state.here() >= state.apps.len() ==> state.after_key(
            Key::Char('u'),
            false,
        ).0.confirm is None,
        state.tab != Tab::Trash || state.trash is None || state.trash->0.items == 0 ==> state.after_key(
            Key::Char('e'),
            false,
        ).0.confirm is None,
{
    if state.tab == Tab::Scan && 0 <= i < state.scan.len() && state.scan[i].selected {
        assert(any_ticked(state.scan));
    }
    if state.tab == Tab::Dev && 0 <= i < state.dev.len() && state.dev[i].selected {
        assert(any_ticked(state.dev));
    }
}

/// A yes does what was asked, on what the state holds.
pub proof fn a_yes_does_what_was_asked(state: State, yes: char, control: bool)
    requires
        state.confirm is Some,
        yes == 'y' || yes == 'Y',
        state.settled(),
    ensures
        asks(state, Action::CleanScan) ==> state.after_key(Key::Char(yes), control).1 == Some(
            JobView::CleanScan(ticked_items(state.scan)),
        ),
        asks(state, Action::CleanDev) ==> state.after_key(Key::Char(yes), control).1 == Some(
            JobView::CleanDev(ticked_artifacts(state.dev)),
        ),
        asks(state, Action::Uninstall) && state.here() < state.apps.len() ==> state.after_key(
            Key::Char(yes),
            control,
        ).1 == Some(JobView::Uninstall(state.apps[state.here() as int])),
        asks(state, Action::Uninstall) && state.here() >= state.apps.len() ==> state.after_key(
            Key::Char(yes),
            control,
        ).1 is None,
        asks(state, Action::EmptyTrash) ==> state.after_key(Key::Char(yes), control).1 == Some(
            JobView::EmptyTrash,
        ),
{
}

/// The tabs follow one another, and a tab that holds nothing yet starts
/// looking when it is shown, unless something else is being done.
pub proof fn what_follows_a_tab(state: State, control: bool)
    requires
        state.confirm is None,
        state.settled(),
    ensures
        state.tab == Tab::Scan ==> state.after_key(Key::Tab, control).0.tab == Tab::Dev && state.after_key(
            Key::BackTab,
            control,
        ).0.tab == Tab::Trash,
        state.tab == Tab::Dev ==> state.after_key(Key::Tab, control).0.tab == Tab::Apps && state.after_key(
            Key::BackTab,
            control,
        ).0.tab == Tab::Scan,
        state.tab == Tab::Apps ==> state.after_key(Key::Tab, control).0.tab == Tab::Trash && state.after_key(
            Key::BackTab,
            control,
        ).0.tab == Tab::Dev,
        state.tab == Tab::Trash ==> state.after_key(Key::Tab, control).0.tab == Tab::Scan && state.after_key(
            Key::BackTab,
            control,
        ).0.tab == Tab::Apps,
        state.after_key(Key::Right, control) == state.after_key(Key::Tab, control),
        state.after_key(Key::Char('l'), control) == state.after_key(Key::Tab, control),
        state.after_key(Key::Left, control) == state.after_key(Key::BackTab, control),
        state.after_key(Key::Char('h'), control) == state.after_key(Key::BackTab, control),
        state.tab == Tab::Scan && state.busy is None ==> state.after_key(Key::Tab, control).1 == (if state.dev.len() == 0 {
            Some(JobView::Dev)
        } else {
            None::<JobView>
        }),
        state.tab == Tab::Dev && state.busy is None ==> state.after_key(Key::Tab, control).1 == (if state.apps.len()
            == 0 {
            Some(JobView::Apps)
        } else {
            None::<JobView>
        }),
        state.tab == Tab::Apps && state.busy is None ==> state.after_key(Key::Tab, control).1 == (if state.trash is None {
            Some(JobView::Trash)
        } else {
            None::<JobView>
        }),
        state.tab == Tab::Trash && state.busy is None ==> state.after_key(Key::Tab, control).1 == (if state.scan.len()
            == 0 {
            Some(JobView::Scan)
        } else {
            None::<JobView>
        }),
{
}

/// `q`, Escape and control-`c` end it, and no other key does.
pub proof fn what_ends_it(state: State, key: Key, control: bool)
    requires
        state.confirm is None,
        !state.quit,
    ensures
        state.after_key(key, control).0.quit <==> key == Key::Char('q') || key is Esc || (key == Key::Char('c')
            && control),
        state.after_key(key, control).0.quit ==> state.after_key(key, control).1 is None,
{
}

/// The number in the title: the bytes of what is ticked, of the app under the
/// cursor, or of the Trash; and where nothing is known, none.
pub proof fn what_the_title_counts(state: State)
    ensures
        state.tab == Tab::Scan && ticked_scan_bytes(state.scan) <= u64::MAX ==> state.chosen_bytes() == ticked_scan_bytes(
            state.scan,
        ),
        state.tab == Tab::Dev && ticked_dev_bytes(state.dev) <= u64::MAX ==> state.chosen_bytes() == ticked_dev_bytes(
            state.dev,
        ),
        state.tab == Tab::Apps && state.here() >= state.apps.len() ==> state.chosen_bytes() == 0,
        state.tab == Tab::Apps && state.here() < state.apps.len() ==> state.chosen_bytes() == (
        match state.apps[state.here() as int].size_bytes {
            Some(n) => n as nat,
            None => 0,
        }),
        state.tab == Tab::Trash && state.trash is None ==> state.chosen_bytes() == 0,
        state.tab == Tab::Trash && state.trash is Some ==> state.chosen_bytes() == state.trash->0.bytes,
{
}

/// What a removal came to is told: nothing is said of refusals and failures
/// where there were none, and their number where there were.
pub proof fn what_a_removal_came_to(report: CleanReport)
    ensures
        report.refused@.len() == 0 && report.failed@.len() == 0 ==> removed_text(report) == "Reclaimed "@ + shown_bytes(
            report.bytes_reclaimed as nat,
        ) + " from "@ + counted(report.removed@.len(), "item"@, "items"@) + "."@,
        report.refused@.len() > 0 && report.failed@.len() == 0 ==> removed_text(report) == "Reclaimed "@ + shown_bytes(
            report.bytes_reclaimed as nat,
        ) + " from "@ + counted(report.removed@.len(), "item"@, "items"@) + "."@ + (" "@ + digits(report.refused@.len())
            + " refused."@),
        report.refused@.len() == 0 && report.failed@.len() > 0 ==> removed_text(report) == "Reclaimed "@ + shown_bytes(
            report.bytes_reclaimed as nat,
        ) + " from "@ + counted(report.removed@.len(), "item"@, "items"@) + "."@ + (" "@ + digits(report.failed@.len())
            + " failed."@),
{
    let said = "Reclaimed "@ + shown_bytes(report.bytes_reclaimed as nat) + " from "@ + counted(
        report.removed@.len(),
        "item"@,
        "items"@,
    ) + "."@;
    let none = Seq::<char>::empty();
    assert(said + none + none =~= said);
    assert(said + none =~= said);
    if report.refused@.len() > 0 {
        let refused = said + (" "@ + digits(report.refused@.len()) + " refused."@);
        assert(refused + none =~= refused);
    }
}

/// What a worker brings is kept, and nothing else is changed by it but the
/// line below and, where rows are gone, the cursor.
pub proof fn what_a_worker_brings_is_kept(
    state: State,
    targets: Vec<TargetScan>,
    artifacts: Vec<DevArtifact>,
    apps: Vec<AppInfo>,
    summary: TrashSummary,
)
    ensures
        state.after_msg(Msg::ScanDone(targets)).0.scan == scan_rows(targets@),
        state.after_msg(Msg::ScanDone(targets)).0.dev == state.dev,
        state.after_msg(Msg::DevDone(artifacts)).0.dev == dev_rows(artifacts@),
        state.after_msg(Msg::DevDone(artifacts)).0.scan == state.scan,
        state.after_msg(Msg::AppsDone(apps)).0.apps == apps@,
        state.after_msg(Msg::TrashDone(summary)).0.trash == Some(summary),
        state.after_msg(Msg::ScanDone(targets)).0.busy is None,
        state.after_msg(Msg::DevDone(artifacts)).0.busy is None,
        state.after_msg(Msg::AppsDone(apps)).0.busy is None,
        state.after_msg(Msg::TrashDone(summary)).0.busy is None,
        state.after_msg(Msg::ScanDone(targets)).0.tab == state.tab,
        dev_rows(artifacts@).len() == artifacts@.len(),
        forall|i: int| 0 <= i < artifacts@.len() ==> dev_rows(artifacts@)[i].item == #[trigger] artifacts@[i],
{
}

/// When something was removed, what is shown is looked for anew.
pub proof fn a_removal_is_followed_by_a_look(state: State, line: String)
    ensures
        state.tab == Tab::Scan ==> state.after_msg(Msg::Finished(line)).1 == Some(JobView::Scan),
        state.tab == Tab::Dev ==> state.after_msg(Msg::Finished(line)).1 == Some(JobView::Dev),
        state.tab == Tab::Apps ==> state.after_msg(Msg::Finished(line)).1 == Some(JobView::Apps),
        state.tab == Tab::Trash ==> state.after_msg(Msg::Finished(line)).1 == Some(JobView::Trash),
        state.after_msg(Msg::Finished(line)).0.status == line@,
{
}

} // verus!
