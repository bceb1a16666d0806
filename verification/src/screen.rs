//! What the terminal frontend draws, as plain panels of styled lines.
//!
//! Shares of a total are fractions, which the caller computes; the text of a
//! share and the length of its bar are handed in.
use vstd::prelude::*;
use vstd::string::StringExecFns;

use crate::browse::Dialog;
use crate::browse::DialogView;
use crate::browse::Tab;
use crate::mounts::MountPoint;
use crate::mounts::MountView;
use crate::path::FsPath;
use crate::path::SpelledView;
use crate::scan::ExtensionStat;
use crate::scan::ExtensionView;
use crate::snapshot::EntrySnapshot;
use crate::snapshot::RowView;
use crate::snapshot::SnapshotView;
use crate::snapshot::UiSnapshot;
use crate::style::bold_colored;
use crate::style::colored;
use crate::style::line_of;
use crate::style::line_of_two;
use crate::style::plain;
use crate::style::push_line;
use crate::style::Color;
use crate::style::Line;
use crate::style::Span;
use crate::style::SpanView;
use crate::style::Style;
use crate::text::decimal;
use crate::text::lossy;
use crate::top::SizedEntry;
use crate::top::SizedView;
use crate::tui::TuiApp;
use crate::tui::TuiView;
use crate::util::format_size;

verus! {

/// A rectangle of the terminal.
#[derive(Clone, Copy, Debug, PartialEq, Eq)]
pub struct Area {
    pub x: u16,
    pub y: u16,
    pub width: u16,
    pub height: u16,
}

/// Wraps `ratatui::layout::Layout::split` for three rows of a fixed, a least
/// and a fixed height. The rows have the area's left edge and width. Where all
/// of them fit, the outer two have their heights, the middle one has the rest,
/// and each starts where the one above it ends. Where they do not fit, or the
/// area ends beyond the last row that can be numbered, the solver behind it
/// weighs equal wishes against each other in an order that is not fixed, and
/// nothing is said of the heights.
#[verifier::external_body]
fn split_rows(area: Area, top: u16, least: u16, bottom: u16) -> (r: Vec<Area>)
    ensures
        r@.len() == 3,
        forall|i: int|
            0 <= i < 3 ==> (#[trigger] r@[i]).x == area.x && r@[i].width == area.width,
        rows_fit(area, top, least, bottom) ==> {
            &&& r@[0].y == area.y && r@[0].height == top
            &&& r@[1].y == area.y + top && r@[1].height == area.height - top - bottom
            &&& r@[2].y == area.y + area.height - bottom && r@[2].height == bottom
        },
{
    let rect = ratatui::layout::Rect { x: area.x, y: area.y, width: area.width, height: area.height };
    let rows = ratatui::layout::Layout::default()
        .direction(ratatui::layout::Direction::Vertical)
        .constraints([
            ratatui::layout::Constraint::Length(top),
            ratatui::layout::Constraint::Min(least),
            ratatui::layout::Constraint::Length(bottom),
        ])
        .split(rect);
    rows.iter().map(|p| Area { x: p.x, y: p.y, width: p.width, height: p.height }).collect()
}

/// Whether three rows of these heights fit into an area.
pub open spec fn rows_fit(area: Area, top: u16, least: u16, bottom: u16) -> bool {
    &&& top + least + bottom <= area.height
    &&& area.y + area.height <= u16::MAX
    &&& least <= i16::MAX
}

/// The rows of the screen.
#[derive(Clone, Copy, Debug, PartialEq, Eq)]
pub struct Parts {
    pub header: Area,
    pub body: Area,
    pub help: Area,
}

/// Parts the screen into a header and a line of help of three rows each, and a
/// body with the rest, which has five rows at least where there is room.
pub fn screen_parts(area: Area) -> (r: Parts)
    ensures
        r.header.x == area.x && r.header.width == area.width,
        r.body.x == area.x && r.body.width == area.width,
        r.help.x == area.x && r.help.width == area.width,
        rows_fit(area, 3, 5, 3) ==> {
            &&& r.header.y == area.y && r.header.height == 3
            &&& r.body.y == area.y + 3 && r.body.height == area.height - 6
            &&& r.help.y == area.y + area.height - 3 && r.help.height == 3
        },
{
    let rows = split_rows(area, 3, 5, 3);
    Parts { header: rows[0], body: rows[1], help: rows[2] }
}

/// A framed panel of lines.
#[verifier::ext_equal]
pub struct PanelView {
    pub area: Area,
    pub title: Option<Seq<char>>,
    pub style: Style,
    pub lines: Seq<Seq<SpanView>>,
}

/// A framed panel of lines.
#[derive(Debug)]
pub struct Panel {
    pub area: Area,
    pub title: Option<String>,
    pub style: Style,
    pub lines: Vec<Line>,
}

impl View for Panel {
    type V = PanelView;

    open spec fn view(&self) -> PanelView {
        PanelView {
            area: self.area,
            title: match self.title {
                Some(title) => Some(title@),
                None => None,
            },
            style: self.style,
            lines: crate::style::line_views(self.lines@),
        }
    }
}

/// The text of a path.
pub open spec fn path_text(path: SpelledView) -> Seq<char> {
    crate::text::lossy_text(path.bytes)
}

/// The name that a path ends in, or the path where it has none.
pub open spec fn name_text(path: SpelledView) -> Seq<char> {
    match path.at.file_name() {
        Some(name) => crate::text::lossy_text(name),
        None => path_text(path),
    }
}

/// Computes [`path_text`].
pub fn show_path(path: &FsPath) -> (r: String)
    ensures
        r@ == path_text(path.named()),
{
    lossy(&path.to_bytes())
}

/// Computes [`name_text`].
pub fn show_name(path: &FsPath) -> (r: String)
    ensures
        r@ == name_text(path.named()),
{
    match path.file_name() {
        Some(name) => lossy(&name),
        None => show_path(path),
    }
}

/// The rows inside a frame.
pub open spec fn inner_height(area: Area) -> nat {
    if area.height < 2 {
        0
    } else {
        (area.height - 2) as nat
    }
}

/// The columns of an area without the `frame` columns that its frame takes.
pub open spec fn inner_width(area: Area, frame: nat) -> nat {
    if area.width < frame {
        0
    } else {
        (area.width - frame) as nat
    }
}

/// Where a box of a share of the width stands in the middle of an area. It ends
/// with the last column and row that have a number.
pub open spec fn centered(percent: int, height: int, area: Area) -> (int, int, int, int) {
    let width = area.width * percent / 100;
    let dx = if area.width < width {
        0
    } else {
        (area.width - width) / 2
    };
    let dy = if area.height < height {
        0
    } else {
        (area.height - height) / 2
    };
    let x = area.x + dx;
    let y = area.y + dy;
    let columns = if width < area.width {
        width
    } else {
        area.width as int
    };
    let rows = if height < area.height {
        height
    } else {
        area.height as int
    };
    (
        x,
        y,
        if columns < u16::MAX - x {
            columns
        } else {
            u16::MAX - x
        },
        if rows < u16::MAX - y {
            rows
        } else {
            u16::MAX - y
        },
    )
}

/// Whether such a box can be stated.
pub open spec fn centered_fits(percent: int, height: int, area: Area) -> bool {
    let (x, y, _, _) = centered(percent, height, area);
    &&& area.width * percent <= u16::MAX
    &&& x <= u16::MAX
    &&& y <= u16::MAX
}

/// A box of a share of the width in the middle of an area.
pub fn centered_rect(percent_x: u16, height: u16, area: Area) -> (r: Area)
    requires
        centered_fits(percent_x as int, height as int, area),
    ensures
        (r.x as int, r.y as int, r.width as int, r.height as int) == centered(
            percent_x as int,
            height as int,
            area,
        ),
{
    let width: u16 = area.width * percent_x / 100;
    let dx: u16 = area.width.saturating_sub(width) / 2;
    let dy: u16 = area.height.saturating_sub(height) / 2;
    let x: u16 = area.x + dx;
    let y: u16 = area.y + dy;
    let columns: u16 = if width < area.width {
        width
    } else {
        area.width
    };
    let rows: u16 = if height < area.height {
        height
    } else {
        area.height
    };
    Area {
        x,
        y,
        width: if columns < u16::MAX - x {
            columns
        } else {
            u16::MAX - x
        },
        height: if rows < u16::MAX - y {
            rows
        } else {
            u16::MAX - y
        },
    }
}

fn centered_has_room(percent_x: u16, height: u16, area: Area) -> (r: bool)
    ensures
        r == centered_fits(percent_x as int, height as int, area),
{
    proof {
        assert(0 <= area.width * percent_x <= 0xffff * 0xffff) by (nonlinear_arith)
            requires
                0 <= area.width <= 0xffff,
                0 <= percent_x <= 0xffff,
        ;
    }
    let scaled: u64 = area.width as u64 * percent_x as u64;
    if scaled > u16::MAX as u64 {
        return false;
    }
    let width: u16 = (scaled / 100) as u16;
    let dx: u16 = area.width.saturating_sub(width) / 2;
    let dy: u16 = area.height.saturating_sub(height) / 2;
    dx <= u16::MAX - area.x && dy <= u16::MAX - area.y
}

/// The name of a tab.
pub open spec fn tab_text(tab: Tab) -> Seq<char> {
    match tab {
        Tab::Explorer => "Explorer"@,
        Tab::Overview => "Overview"@,
    }
}

/// What the header says of a running scan.
pub open spec fn scan_text(snapshot: SnapshotView, rate: u64) -> Seq<char> {
    if snapshot.scanning {
        " [scanning... "@ + crate::text::decimal_text(snapshot.files_scanned as nat) + " files, "@
            + crate::text::decimal_text(rate as nat) + "/min]"@
    } else {
        ""@
    }
}

/// The text of the header.
pub open spec fn header_text(app: TuiView, rate: u64) -> Seq<char> {
    let snapshot = app.browser.snapshot;
    " ["@ + tab_text(app.browser.tab) + "] "@ + path_text(app.browser.app.current_dir) + " | "@
        + crate::text::decimal_text(snapshot.entries.len()) + " items | "@ + crate::util::size_text(
        snapshot.total_entry_size as nat,
    ) + " total | sort: "@ + (if app.browser.app.sort_by_size {
        "size"@
    } else {
        "name"@
    }) + scan_text(snapshot, rate) + " "@
}

/// The header.
pub open spec fn header_panel(app: TuiView, rate: u64, area: Area) -> PanelView {
    PanelView {
        area,
        title: Some(" rdirstat "@),
        style: crate::style::in_color(Color::Cyan),
        lines: seq![crate::style::plain_line(header_text(app, rate))],
    }
}

fn draw_header(app: &TuiApp, rate: u64, area: Area) -> (r: Panel)
    ensures
        r@ == header_panel(app@, rate, area),
{
    let snapshot = &app.browser.snapshot;
    let tab = match app.browser.tab {
        Tab::Explorer => "Explorer",
        Tab::Overview => "Overview",
    };
    let sort = if app.browser.state.sort_by_size {
        "size"
    } else {
        "name"
    };
    let scanning = if snapshot.scanning {
        String::from_str(" [scanning... ").concat(decimal(snapshot.files_scanned).as_str()).concat(
            " files, ",
        ).concat(decimal(rate).as_str()).concat("/min]")
    } else {
        String::from_str("")
    };
    let text = String::from_str(" [").concat(tab).concat("] ").concat(
        show_path(&app.browser.state.current_dir).as_str(),
    ).concat(" | ").concat(decimal(snapshot.entries.len() as u64).as_str()).concat(
        " items | ",
    ).concat(format_size(snapshot.total_entry_size).as_str()).concat(" total | sort: ").concat(
        sort,
    ).concat(scanning.as_str()).concat(" ");
    let mut lines: Vec<Line> = Vec::new();
    push_line(&mut lines, line_of(text, plain()));
    let r = Panel {
        area,
        title: Some(String::from_str(" rdirstat ")),
        style: colored(Color::Cyan),
        lines,
    };
    assert(r@.lines =~= seq![crate::style::plain_line(header_text(app@, rate))]);
    r
}

/// The line of help.
pub open spec fn help_panel(tab: Tab, area: Area) -> PanelView {
    PanelView {
        area,
        title: None,
        style: crate::style::in_color(Color::DarkGray),
        lines: seq![
            crate::style::plain_line(
                match tab {
                    Tab::Explorer => " q:Quit  j/k:Nav  Enter:Open  Bksp:Back  s:Sort  r:Scan  d:Delete  g:Drives  Tab:Overview"@,
                    Tab::Overview => " q:Quit  j/k:Scroll  r:Scan  g:Drives  Tab:Explorer"@,
                },
            ),
        ],
    }
}

fn draw_help(tab: Tab, area: Area) -> (r: Panel)
    ensures
        r@ == help_panel(tab, area),
{
    let text = match tab {
        Tab::Explorer => " q:Quit  j/k:Nav  Enter:Open  Bksp:Back  s:Sort  r:Scan  d:Delete  g:Drives  Tab:Overview",
        Tab::Overview => " q:Quit  j/k:Scroll  r:Scan  g:Drives  Tab:Explorer",
    };
    let mut lines: Vec<Line> = Vec::new();
    push_line(&mut lines, line_of(String::from_str(text), plain()));
    let r = Panel { area, title: None, style: colored(Color::DarkGray), lines };
    assert(r@.lines =~= help_panel(tab, area).lines);
    r
}

/// How many columns of a row of the listing are taken by everything but the
/// name and the bar.
pub const FIXED_COLUMNS: usize = 20;

/// The width of a row's name in a row of `width` columns.
pub open spec fn name_width(width: nat) -> nat {
    if width < FIXED_COLUMNS {
        0
    } else {
        ((width - FIXED_COLUMNS) * 55 / 100) as nat
    }
}

/// The width of a row's bar in a row of `width` columns.
pub open spec fn bar_width(width: nat) -> nat {
    if width < FIXED_COLUMNS {
        0
    } else {
        (width - FIXED_COLUMNS - name_width(width)) as nat
    }
}

/// The widths of a row's name and bar in a row of `width` columns.
pub fn columns(width: u16) -> (r: (usize, usize))
    ensures
        r.0 == name_width(width as nat),
        r.1 == bar_width(width as nat),
{
    let flexible: usize = (width as usize).saturating_sub(FIXED_COLUMNS);
    let name: usize = flexible * 55 / 100;
    (name, flexible - name)
}

/// The share of a row in the total: its text, and how many blocks of its bar
/// are full.
#[derive(Debug)]
pub struct Share {
    pub percent: String,
    pub fill: usize,
}

/// The character that shows that work goes on, in each of four frames.
pub open spec fn spinner(frame: usize) -> char {
    let n = frame % 4;
    if n == 0 {
        '|'
    } else if n == 1 {
        '/'
    } else if n == 2 {
        '-'
    } else {
        '\\'
    }
}

/// A row's name as it is shown: shortened, or filled up with spaces.
pub open spec fn shown_name(name: Seq<char>, width: nat) -> Seq<char> {
    if crate::text::byte_len(name) > width {
        crate::text::shortened(name, width)
    } else {
        crate::text::left_aligned(name, width)
    }
}

/// The text of a row.
pub open spec fn row_text(
    row: RowView,
    frame: usize,
    width: nat,
    percent: Seq<char>,
    fill: usize,
) -> Seq<char> {
    (if row.is_dir {
        "/"@
    } else {
        " "@
    }) + shown_name(row.name, name_width(width)) + (if row.scanning {
        " "@.push(spinner(frame))
    } else {
        "  "@
    }) + " "@ + crate::text::right_aligned(crate::util::size_text(row.size as nat), 9) + " "@
        + percent + " "@ + crate::text::bar_text(fill as nat, bar_width(width))
}

/// The style of a row.
pub open spec fn row_style(row: RowView, selected: bool) -> Style {
    if selected {
        Style {
            fg: Some(Color::Black),
            bg: Some(
                if row.scanning {
                    Color::Yellow
                } else {
                    Color::Cyan
                },
            ),
            bold: true,
        }
    } else {
        crate::style::in_color(
            if row.scanning {
                Color::Yellow
            } else if row.is_dir {
                Color::Blue
            } else {
                Color::White
            },
        )
    }
}

fn row_line(
    row: &EntrySnapshot,
    selected: bool,
    frame: usize,
    width: u16,
    share: &Share,
) -> (r: Line)
    requires
        crate::text::can_shorten(row@.name, name_width(width as nat)),
    ensures
        r@ == row_spans(row@, selected, frame, width as nat, share@),
{
    let (name, bar) = columns(width);
    let shown = if row.name.as_str().as_bytes().len() > name {
        crate::text::shorten(row.name.as_str(), name)
    } else {
        crate::text::align_left(row.name.as_str(), name)
    };
    let mut status = String::from_str(" ");
    if row.scanning {
        let n: usize = frame % 4;
        let c: char = if n == 0 {
            '|'
        } else if n == 1 {
            '/'
        } else if n == 2 {
            '-'
        } else {
            '\\'
        };
        crate::text::push_char(&mut status, c);
    } else {
        status = String::from_str("  ");
    }
    let icon = if row.is_dir {
        "/"
    } else {
        " "
    };
    let text = String::from_str(icon).concat(shown.as_str()).concat(status.as_str()).concat(
        " ",
    ).concat(crate::text::align_right(format_size(row.size).as_str(), 9).as_str()).concat(
        " ",
    ).concat(share.percent.as_str()).concat(" ").concat(
        crate::text::bar(share.fill, bar).as_str(),
    );
    let style = if selected {
        Style {
            fg: Some(Color::Black),
            bg: Some(
                if row.scanning {
                    Color::Yellow
                } else {
                    Color::Cyan
                },
            ),
            bold: true,
        }
    } else if row.scanning {
        colored(Color::Yellow)
    } else if row.is_dir {
        colored(Color::Blue)
    } else {
        colored(Color::White)
    };
    line_of(text, style)
}

/// The line of a row.
pub open spec fn row_spans(
    row: RowView,
    selected: bool,
    frame: usize,
    width: nat,
    share: (Seq<char>, usize),
) -> Seq<SpanView> {
    seq![
        crate::style::span_of(
            row_text(row, frame, width, share.0, share.1),
            row_style(row, selected),
        ),
    ]
}

impl View for Share {
    type V = (Seq<char>, usize);

    open spec fn view(&self) -> (Seq<char>, usize) {
        (self.percent@, self.fill)
    }
}

/// The views of some shares.
pub open spec fn share_views(shares: Seq<Share>) -> Seq<(Seq<char>, usize)> {
    Seq::new(shares.len(), |i: int| shares[i]@)
}

/// How many rows are shown from the first visible one on.
pub open spec fn rows_shown(len: int, scroll: int, height: int) -> int {
    if scroll >= len {
        0
    } else if len - scroll < height {
        len - scroll
    } else {
        height
    }
}

/// Computes [`rows_shown`].
pub fn count_rows(len: usize, scroll: usize, height: usize) -> (r: usize)
    ensures
        r == rows_shown(len as int, scroll as int, height as int),
{
    if scroll >= len {
        0
    } else if len - scroll < height {
        len - scroll
    } else {
        height
    }
}

/// Where a listing stands: the first visible row, the selected row, and the
/// number of the frame.
#[derive(Clone, Copy, Debug, PartialEq, Eq)]
pub struct Place {
    pub scroll: usize,
    pub selected: usize,
    pub frame: usize,
}

/// Where the listing of a frontend stands.
pub open spec fn place_of(app: TuiView) -> Place {
    Place {
        scroll: app.browser.scroll,
        selected: app.browser.selected,
        frame: app.frame_count,
    }
}

/// The lines of the rows that are shown.
pub open spec fn list_lines(
    rows: Seq<RowView>,
    place: Place,
    area: Area,
    shares: Seq<(Seq<char>, usize)>,
) -> Seq<Seq<SpanView>> {
    Seq::new(
        rows_shown(rows.len() as int, place.scroll as int, inner_height(area) as int) as nat,
        |i: int|
            row_spans(
                rows[place.scroll + i],
                place.scroll + i == place.selected,
                place.frame,
                inner_width(area, 2),
                shares[i],
            ),
    )
}

/// The listing.
pub open spec fn list_panel(
    rows: Seq<RowView>,
    place: Place,
    area: Area,
    shares: Seq<(Seq<char>, usize)>,
) -> PanelView {
    if rows.len() == 0 {
        PanelView {
            area,
            title: None,
            style: crate::style::in_color(Color::DarkGray),
            lines: seq![crate::style::plain_line("  (empty directory)"@)],
        }
    } else {
        PanelView {
            area,
            title: None,
            style: crate::style::plain_style(),
            lines: list_lines(rows, place, area, shares),
        }
    }
}

/// Whether every name of the rows that are shown can be shortened.
pub open spec fn names_fit(rows: Seq<RowView>, scroll: usize, area: Area) -> bool {
    forall|i: int|
        scroll <= i < scroll + rows_shown(
            rows.len() as int,
            scroll as int,
            inner_height(area) as int,
        ) ==> crate::text::can_shorten(
            (#[trigger] rows[i]).name,
            name_width(inner_width(area, 2)),
        )
}

/// Computes [`names_fit`].
pub fn names_have_room(rows: &Vec<EntrySnapshot>, scroll: usize, area: Area) -> (r: bool)
    ensures
        r == names_fit(crate::snapshot::snapshot_rows(rows@), scroll, area),
{
    let n: usize = count_rows(rows.len(), scroll, area.height.saturating_sub(2) as usize);
    let (name, _) = columns(area.width.saturating_sub(2));
    let ghost views = crate::snapshot::snapshot_rows(rows@);
    let mut i: usize = 0;
    while i < n
        invariant
            i <= n,
            views == crate::snapshot::snapshot_rows(rows@),
            rows@.len() <= usize::MAX,
            n == rows_shown(views.len() as int, scroll as int, inner_height(area) as int),
            name == name_width(inner_width(area, 2)),
            forall|k: int|
                scroll <= k < scroll + i ==> crate::text::can_shorten(
                    (#[trigger] views[k]).name,
                    name as nat,
                ),
        decreases n - i,
    {
        assert(views[scroll + i] == rows@[scroll + i]@);
        if !crate::text::shortens(rows[scroll + i].name.as_str(), name) {
            return false;
        }
        i += 1;
    }
    true
}

/// Draws a listing.
pub fn draw_file_list(
    rows: &Vec<EntrySnapshot>,
    place: Place,
    area: Area,
    shares: &Vec<Share>,
) -> (r: Panel)
    requires
        names_fit(crate::snapshot::snapshot_rows(rows@), place.scroll, area),
        shares@.len() >= rows_shown(
            rows@.len() as int,
            place.scroll as int,
            inner_height(area) as int,
        ),
    ensures
        r@ == list_panel(
            crate::snapshot::snapshot_rows(rows@),
            place,
            area,
            share_views(shares@),
        ),
{
    let mut lines: Vec<Line> = Vec::new();
    if rows.len() == 0 {
        push_line(&mut lines, line_of(String::from_str("  (empty directory)"), plain()));
        let r = Panel { area, title: None, style: colored(Color::DarkGray), lines };
        assert(r@.lines =~= seq![crate::style::plain_line("  (empty directory)"@)]);
        return r;
    }
    let scroll: usize = place.scroll;
    let n: usize = count_rows(rows.len(), scroll, area.height.saturating_sub(2) as usize);
    let width: u16 = area.width.saturating_sub(2);
    let ghost views = crate::snapshot::snapshot_rows(rows@);
    let ghost all = list_lines(views, place, area, share_views(shares@));
    let mut i: usize = 0;
    assert(crate::style::line_views(lines@) =~= all.take(0));
    while i < n
        invariant
            i <= n,
            n <= shares@.len(),
            names_fit(views, scroll, area),
            scroll == place.scroll,
            views == crate::snapshot::snapshot_rows(rows@),
            rows@.len() <= usize::MAX,
            width == inner_width(area, 2),
            n == rows_shown(views.len() as int, scroll as int, inner_height(area) as int),
            all == list_lines(views, place, area, share_views(shares@)),
            crate::style::line_views(lines@) == all.take(i as int),
        decreases n - i,
    {
        assert(views[scroll + i] == rows@[scroll + i]@);
        let line = row_line(
            &rows[scroll + i],
            scroll + i == place.selected,
            place.frame,
            width,
            &shares[i],
        );
        assert(all.take(i + 1) =~= all.take(i as int).push(all[i as int]));
        assert(share_views(shares@)[i as int] == shares@[i as int]@);
        assert(line@ == all[i as int]);
        push_line(&mut lines, line);
        i += 1;
    }
    assert(all.take(all.len() as int) =~= all);
    Panel { area, title: None, style: plain(), lines }
}

/// A heading of the overview.
pub open spec fn heading_line(text: Seq<char>) -> Seq<SpanView> {
    seq![crate::style::span_of(text, crate::style::bold_in(Color::Cyan))]
}

/// Columns less a number of them, none if there are fewer.
pub open spec fn less(width: nat, n: nat) -> nat {
    if width < n {
        0
    } else {
        (width - n) as nat
    }
}

/// The line of one of the largest files or directories.
pub open spec fn sized_line(item: SizedView, color: Color, width: nat) -> Seq<SpanView> {
    seq![
        crate::style::span_of(
            "  "@ + crate::text::right_aligned(crate::util::size_text(item.size as nat), 9),
            crate::style::bold_in(color),
        ),
        crate::style::span_of(
            "  "@ + crate::text::shortened(name_text(item.path), less(width, 14)),
            crate::style::plain_style(),
        ),
    ]
}

/// The lines of the largest files or directories, or what is said where there
/// are none.
pub open spec fn sized_lines(
    items: Seq<SizedView>,
    none: Seq<char>,
    color: Color,
    width: nat,
) -> Seq<Seq<SpanView>> {
    if items.len() == 0 {
        seq![crate::style::plain_line(none)]
    } else {
        Seq::new(items.len(), |i: int| sized_line(items[i], color, width))
    }
}

/// Whether the names of the largest can be shortened.
pub open spec fn sized_fit(items: Seq<SizedView>, width: nat) -> bool {
    forall|i: int|
        0 <= i < items.len() ==> crate::text::can_shorten(
            name_text((#[trigger] items[i]).path),
            less(width, 14),
        )
}

/// The width of the bars of the extensions.
pub open spec fn ext_bar_width(width: nat) -> nat {
    if less(width, 32) < 30 {
        less(width, 32)
    } else {
        30
    }
}

/// Computes [`ext_bar_width`].
pub fn ext_bar(width: u16) -> (r: usize)
    ensures
        r == ext_bar_width(width as nat),
{
    let room: usize = (width as usize).saturating_sub(32);
    if room < 30 {
        room
    } else {
        30
    }
}

/// The line of an extension.
pub open spec fn ext_line(stat: ExtensionView, fill: usize, width: nat) -> Seq<SpanView> {
    seq![
        crate::style::span_of(
            "  ."@ + crate::text::left_aligned(stat.extension, 7) + " "@
                + crate::text::right_aligned(crate::text::decimal_text(stat.count as nat), 7)
                + " "@,
            crate::style::plain_style(),
        ),
        crate::style::span_of(
            crate::text::right_aligned(crate::util::size_text(stat.total_size as nat), 9),
            Style { fg: None, bg: None, bold: true },
        ),
        crate::style::span_of("  "@, crate::style::plain_style()),
        crate::style::span_of(
            crate::text::bar_text(fill as nat, ext_bar_width(width)),
            crate::style::in_color(Color::Cyan),
        ),
    ]
}

/// The head of the table of extensions.
pub open spec fn ext_head() -> Seq<SpanView> {
    seq![
        crate::style::span_of(
            "  "@ + crate::text::left_aligned("Ext"@, 8) + " "@ + crate::text::right_aligned(
                "Files"@,
                7,
            ) + " "@ + crate::text::right_aligned("Size"@, 9) + "  "@,
            crate::style::in_color(Color::DarkGray),
        ),
    ]
}

/// The lines of the extensions, or what is said where there are none.
pub open spec fn ext_lines(
    stats: Seq<ExtensionView>,
    fills: Seq<usize>,
    width: nat,
) -> Seq<Seq<SpanView>> {
    if stats.len() == 0 {
        seq![crate::style::plain_line("  No file type data yet."@)]
    } else {
        seq![ext_head()] + Seq::new(stats.len(), |i: int| ext_line(stats[i], fills[i], width))
    }
}

/// The line of the deepest directory, if one was met.
pub open spec fn deepest_lines(deepest: (SpelledView, usize), width: nat) -> Seq<Seq<SpanView>> {
    if deepest.1 > 0 {
        seq![
            crate::style::plain_line(
                "  Deepest:     "@ + crate::text::ending(path_text(deepest.0), less(width, 20))
                    + " (depth "@ + crate::text::decimal_text(deepest.1 as nat) + ")"@,
            ),
        ]
    } else {
        Seq::empty()
    }
}

/// The summary of the scan.
pub open spec fn summary_lines(
    snapshot: SnapshotView,
    root: SpelledView,
    width: nat,
) -> Seq<Seq<SpanView>> {
    seq![
        heading_line(" Summary"@),
        seq![
            crate::style::span_of("  Status:      "@, crate::style::plain_style()),
            if snapshot.scanning {
                crate::style::span_of("Scanning..."@, crate::style::in_color(Color::Yellow))
            } else {
                crate::style::span_of("Complete"@, crate::style::in_color(Color::Green))
            },
        ],
        crate::style::plain_line("  Scan root:   "@ + path_text(root)),
        seq![
            crate::style::span_of("  Total size:  "@, crate::style::plain_style()),
            crate::style::span_of(
                crate::util::size_text(snapshot.total_bytes as nat),
                Style { fg: None, bg: None, bold: true },
            ),
        ],
        crate::style::plain_line(
            "  Files:       "@ + crate::text::decimal_text(snapshot.files_scanned as nat),
        ),
        crate::style::plain_line(
            "  Directories: "@ + crate::text::decimal_text(snapshot.dirs_scanned as nat),
        ),
    ] + deepest_lines(snapshot.deepest, width)
}

/// All lines of the overview.
pub open spec fn overview_lines(
    snapshot: SnapshotView,
    root: SpelledView,
    fills: Seq<usize>,
    width: nat,
) -> Seq<Seq<SpanView>> {
    let blank = seq![crate::style::plain_line(""@)];
    summary_lines(snapshot, root, width) + blank + seq![heading_line(" Biggest Files"@)]
        + sized_lines(snapshot.top_files, "  No files scanned yet."@, Color::White, width) + blank
        + seq![heading_line(" Biggest Directories"@)] + sized_lines(
        snapshot.top_dirs,
        "  No directories scanned yet."@,
        Color::Blue,
        width,
    ) + blank + seq![heading_line(" Biggest File Types"@)] + ext_lines(
        snapshot.top_exts,
        fills,
        width,
    )
}

/// Whether the names and the deepest path of the overview can be shortened.
pub open spec fn overview_fits(snapshot: SnapshotView, width: nat) -> bool {
    &&& sized_fit(snapshot.top_files, width)
    &&& sized_fit(snapshot.top_dirs, width)
    &&& snapshot.deepest.1 > 0 ==> crate::text::can_end(
        path_text(snapshot.deepest.0),
        less(width, 20),
    )
}

/// `n` of some lines, from `from` on.
pub open spec fn lines_from(
    lines: Seq<Seq<SpanView>>,
    from: int,
    n: int,
) -> Seq<Seq<SpanView>> {
    lines.subrange(
        if from < lines.len() {
            from
        } else {
            lines.len() as int
        },
        if from + n < lines.len() {
            from + n
        } else {
            lines.len() as int
        },
    )
}

/// Whether there is anything to give an overview of: a scan was begun.
pub open spec fn has_overview(app: TuiView) -> bool {
    app.browser.app.scan.scan_start is Some
}

/// The overview.
pub open spec fn overview_panel(app: TuiView, area: Area, fills: Seq<usize>) -> PanelView {
    let browser = app.browser;
    if !has_overview(app) {
        PanelView {
            area,
            title: Some(" Overview "@),
            style: crate::style::in_color(Color::DarkGray),
            lines: seq![crate::style::plain_line("  Press 'r' to start scanning."@)],
        }
    } else {
        PanelView {
            area,
            title: Some(" Overview "@),
            style: crate::style::plain_style(),
            lines: lines_from(
                overview_lines(
                    browser.snapshot,
                    browser.app.scan_root,
                    fills,
                    inner_width(area, 4),
                ),
                app.overview_scroll as int,
                inner_height(area) as int,
            ),
        }
    }
}

fn sized_have_room(items: &Vec<SizedEntry>, width: u16) -> (r: bool)
    ensures
        r == sized_fit(crate::top::sized_views(items@), width as nat),
{
    let ghost views = crate::top::sized_views(items@);
    let room: usize = (width as usize).saturating_sub(14);
    let mut i: usize = 0;
    while i < items.len()
        invariant
            i <= items@.len(),
            views == crate::top::sized_views(items@),
            room == less(width as nat, 14),
            forall|k: int|
                0 <= k < i ==> crate::text::can_shorten(
                    name_text((#[trigger] views[k]).path),
                    room as nat,
                ),
        decreases items@.len() - i,
    {
        assert(views[i as int] == items@[i as int]@);
        let name = show_name(&items[i].path);
        if !crate::text::shortens(name.as_str(), room) {
            return false;
        }
        i += 1;
    }
    true
}

fn overview_has_room(snapshot: &UiSnapshot, width: u16) -> (r: bool)
    ensures
        r == overview_fits(snapshot@, width as nat),
{
    if !sized_have_room(&snapshot.top_files, width) || !sized_have_room(&snapshot.top_dirs, width) {
        return false;
    }
    if snapshot.deepest.1 == 0 {
        return true;
    }
    let text = show_path(&snapshot.deepest.0);
    crate::text::ends(text.as_str(), (width as usize).saturating_sub(20))
}

fn push_heading(lines: &mut Vec<Line>, text: &str)
    ensures
        crate::style::line_views(final(lines)@) == crate::style::line_views(old(lines)@).push(
            heading_line(text@),
        ),
{
    push_line(lines, line_of(text.to_owned(), bold_colored(Color::Cyan)));
}

fn push_plain(lines: &mut Vec<Line>, text: String)
    ensures
        crate::style::line_views(final(lines)@) == crate::style::line_views(old(lines)@).push(
            crate::style::plain_line(text@),
        ),
{
    push_line(lines, line_of(text, plain()));
}

fn push_sized(lines: &mut Vec<Line>, items: &Vec<SizedEntry>, none: &str, color: Color, width: u16)
    requires
        sized_fit(crate::top::sized_views(items@), width as nat),
    ensures
        crate::style::line_views(final(lines)@) == crate::style::line_views(old(lines)@)
            + sized_lines(crate::top::sized_views(items@), none@, color, width as nat),
{
    let ghost before = crate::style::line_views(lines@);
    let ghost views = crate::top::sized_views(items@);
    let ghost all = sized_lines(views, none@, color, width as nat);
    if items.len() == 0 {
        push_plain(lines, none.to_owned());
        assert(before.push(crate::style::plain_line(none@)) =~= before + all);
        return ;
    }
    let room: usize = (width as usize).saturating_sub(14);
    let mut i: usize = 0;
    assert(before + all.take(0) =~= before);
    while i < items.len()
        invariant
            i <= items@.len(),
            views == crate::top::sized_views(items@),
            views.len() > 0,
            all == sized_lines(views, none@, color, width as nat),
            room == less(width as nat, 14),
            sized_fit(views, width as nat),
            crate::style::line_views(lines@) == before + all.take(i as int),
        decreases items@.len() - i,
    {
        assert(views[i as int] == items@[i as int]@);
        let name = show_name(&items[i].path);
        let size = String::from_str("  ").concat(
            crate::text::align_right(format_size(items[i].size).as_str(), 9).as_str(),
        );
        let label = String::from_str("  ").concat(
            crate::text::shorten(name.as_str(), room).as_str(),
        );
        let line = line_of_two(size, bold_colored(color), label, plain());
        assert(line@ == all[i as int]);
        push_line(lines, line);
        assert(before + all.take(i + 1) =~= (before + all.take(i as int)).push(all[i as int]));
        i += 1;
    }
    assert(all.take(all.len() as int) =~= all);
}

fn push_exts(lines: &mut Vec<Line>, stats: &Vec<ExtensionStat>, fills: &Vec<usize>, width: u16)
    requires
        fills@.len() >= stats@.len(),
    ensures
        crate::style::line_views(final(lines)@) == crate::style::line_views(old(lines)@)
            + ext_lines(crate::scan::extension_views(stats@), fills@, width as nat),
{
    let ghost before = crate::style::line_views(lines@);
    let ghost views = crate::scan::extension_views(stats@);
    let ghost all = ext_lines(views, fills@, width as nat);
    if stats.len() == 0 {
        push_plain(lines, String::from_str("  No file type data yet."));
        assert(crate::style::line_views(lines@) =~= before + all);
        return ;
    }
    let head = String::from_str("  ").concat(
        crate::text::align_left("Ext", 8).as_str(),
    ).concat(" ").concat(crate::text::align_right("Files", 7).as_str()).concat(" ").concat(
        crate::text::align_right("Size", 9).as_str(),
    ).concat("  ");
    push_line(lines, line_of(head, colored(Color::DarkGray)));
    let room: usize = ext_bar(width);
    let mut i: usize = 0;
    assert(crate::style::line_views(lines@) =~= before + all.take(1));
    while i < stats.len()
        invariant
            i <= stats@.len() <= fills@.len(),
            views == crate::scan::extension_views(stats@),
            views.len() > 0,
            all == ext_lines(views, fills@, width as nat),
            room == ext_bar_width(width as nat),
            crate::style::line_views(lines@) == before + all.take(i + 1),
        decreases stats@.len() - i,
    {
        assert(views[i as int] == stats@[i as int]@);
        let stat = &stats[i];
        let mut spans: Vec<Span> = Vec::new();
        spans.push(
            Span {
                text: String::from_str("  .").concat(
                    crate::text::align_left(stat.extension.as_str(), 7).as_str(),
                ).concat(" ").concat(
                    crate::text::align_right(decimal(stat.count).as_str(), 7).as_str(),
                ).concat(" "),
                style: plain(),
            },
        );
        spans.push(
            Span {
                text: crate::text::align_right(format_size(stat.total_size).as_str(), 9),
                style: Style { fg: None, bg: None, bold: true },
            },
        );
        spans.push(Span { text: String::from_str("  "), style: plain() });
        spans.push(
            Span { text: crate::text::bar(fills[i], room), style: colored(Color::Cyan) },
        );
        let line = Line { spans };
        assert(line@ =~= all[i + 1]);
        push_line(lines, line);
        assert(before + all.take(i + 2) =~= (before + all.take(i + 1)).push(all[i + 1]));
        i += 1;
    }
    assert(all.take(all.len() as int) =~= all);
}

fn push_summary(lines: &mut Vec<Line>, snapshot: &UiSnapshot, root: &FsPath, width: u16)
    requires
        overview_fits(snapshot@, width as nat),
    ensures
        crate::style::line_views(final(lines)@) == crate::style::line_views(old(lines)@)
            + summary_lines(snapshot@, root.named(), width as nat),
{
    let ghost before = crate::style::line_views(lines@);
    push_heading(lines, " Summary");
    let (status, color) = if snapshot.scanning {
        ("Scanning...", Color::Yellow)
    } else {
        ("Complete", Color::Green)
    };
    push_line(
        lines,
        line_of_two(
            String::from_str("  Status:      "),
            plain(),
            String::from_str(status),
            colored(color),
        ),
    );
    push_plain(lines, String::from_str("  Scan root:   ").concat(show_path(root).as_str()));
    push_line(
        lines,
        line_of_two(
            String::from_str("  Total size:  "),
            plain(),
            format_size(snapshot.total_bytes),
            Style { fg: None, bg: None, bold: true },
        ),
    );
    push_plain(
        lines,
        String::from_str("  Files:       ").concat(decimal(snapshot.files_scanned).as_str()),
    );
    push_plain(
        lines,
        String::from_str("  Directories: ").concat(decimal(snapshot.dirs_scanned).as_str()),
    );
    if snapshot.deepest.1 > 0 {
        let text = show_path(&snapshot.deepest.0);
        let shown = crate::text::end_of(text.as_str(), (width as usize).saturating_sub(20));
        push_plain(
            lines,
            String::from_str("  Deepest:     ").concat(shown.as_str()).concat(" (depth ").concat(
                decimal(snapshot.deepest.1 as u64).as_str(),
            ).concat(")"),
        );
    }
    assert(crate::style::line_views(lines@) =~= before + summary_lines(
        snapshot@,
        root.named(),
        width as nat,
    ));
}

/// Takes `n` of some lines, from `from` on.
fn take_lines(lines: Vec<Line>, from: usize, n: usize) -> (r: Vec<Line>)
    ensures
        crate::style::line_views(r@) == lines_from(
            crate::style::line_views(lines@),
            from as int,
            n as int,
        ),
{
    let ghost views = crate::style::line_views(lines@);
    let mut lines = lines;
    if from >= lines.len() {
        let r: Vec<Line> = Vec::new();
        assert(crate::style::line_views(r@) =~= lines_from(views, from as int, n as int));
        return r;
    }
    let mut r = lines.split_off(from);
    if r.len() > n {
        r.truncate(n);
    }
    assert(crate::style::line_views(r@) =~= lines_from(views, from as int, n as int));
    r
}

fn draw_overview(app: &TuiApp, area: Area, fills: &Vec<usize>) -> (r: Panel)
    requires
        has_overview(app@) ==> overview_fits(app@.browser.snapshot, inner_width(area, 4)),
        fills@.len() >= app@.browser.snapshot.top_exts.len(),
    ensures
        r@ == overview_panel(app@, area, fills@),
{
    let mut lines: Vec<Line> = Vec::new();
    let title = Some(String::from_str(" Overview "));
    if !app.browser.state.has_scanned() {
        push_plain(&mut lines, String::from_str("  Press 'r' to start scanning."));
        let r = Panel { area, title, style: colored(Color::DarkGray), lines };
        assert(r@.lines =~= seq![crate::style::plain_line("  Press 'r' to start scanning."@)]);
        return r;
    }
    let snapshot = &app.browser.snapshot;
    let width: u16 = area.width.saturating_sub(4);
    push_summary(&mut lines, snapshot, &app.browser.state.scan_root, width);
    push_plain(&mut lines, String::from_str(""));
    push_heading(&mut lines, " Biggest Files");
    push_sized(
        &mut lines,
        &snapshot.top_files,
        "  No files scanned yet.",
        Color::White,
        width,
    );
    push_plain(&mut lines, String::from_str(""));
    push_heading(&mut lines, " Biggest Directories");
    push_sized(
        &mut lines,
        &snapshot.top_dirs,
        "  No directories scanned yet.",
        Color::Blue,
        width,
    );
    push_plain(&mut lines, String::from_str(""));
    push_heading(&mut lines, " Biggest File Types");
    push_exts(&mut lines, &snapshot.top_exts, fills, width);
    assert(crate::style::line_views(lines@) =~= overview_lines(
        snapshot@,
        app@.browser.app.scan_root,
        fills@,
        width as nat,
    ));
    let shown = take_lines(lines, app.overview_scroll, area.height.saturating_sub(2) as usize);
    Panel { area, title, style: plain(), lines: shown }
}

/// The lines that ask whether to delete.
pub open spec fn confirm_lines(name: Seq<char>, is_dir: bool, size: u64) -> Seq<Seq<SpanView>> {
    let blank = crate::style::plain_line(""@);
    seq![
        blank,
        seq![
            crate::style::span_of(
                "  Delete "@ + (if is_dir {
                    "directory"@
                } else {
                    "file"@
                }) + ": "@ + name,
                crate::style::bold_in(Color::White),
            ),
        ],
        crate::style::plain_line("  Size: "@ + crate::util::size_text(size as nat)),
        blank,
        seq![
            crate::style::span_of(
                "  This action cannot be undone!"@,
                crate::style::in_color(Color::Red),
            ),
        ],
        blank,
        crate::style::plain_line("  [y] Yes, delete    [n] Cancel"@),
        blank,
    ]
}

/// The colour of a result.
pub open spec fn result_color(success: bool) -> Color {
    if success {
        Color::Green
    } else {
        Color::Red
    }
}

/// The lines that tell a result.
pub open spec fn result_lines(message: Seq<char>, success: bool) -> Seq<Seq<SpanView>> {
    let blank = crate::style::plain_line(""@);
    seq![
        blank,
        seq![
            crate::style::span_of(
                "  "@ + message,
                crate::style::in_color(result_color(success)),
            ),
        ],
        blank,
        crate::style::plain_line("  Press any key to continue"@),
        blank,
    ]
}

/// The line of a drive.
pub open spec fn drive_line(mount: MountView, selected: bool) -> Seq<SpanView> {
    seq![
        if selected {
            crate::style::span_of(
                "> "@ + mount.label,
                Style { fg: Some(Color::Black), bg: Some(Color::Cyan), bold: true },
            )
        } else {
            crate::style::span_of("  "@ + mount.label, crate::style::in_color(Color::White))
        },
    ]
}

/// The lines of the drive picker.
pub open spec fn picker_lines(mounts: Seq<MountView>, selected: usize) -> Seq<Seq<SpanView>> {
    let blank = crate::style::plain_line(""@);
    seq![blank] + Seq::new(mounts.len(), |i: int| drive_line(mounts[i], i == selected)) + seq![
        blank,
        seq![
            crate::style::span_of(
                "  j/k:Navigate  Enter:Select  Esc:Cancel"@,
                crate::style::in_color(Color::DarkGray),
            ),
        ],
        blank,
    ]
}

/// The height of a box of `n` lines.
pub open spec fn box_height(n: nat) -> int {
    (n as u16) + 2
}

/// The height of the drive picker: it leaves four rows of the screen free.
pub open spec fn picker_height(n: nat, area: Area) -> int {
    let free = if area.height < 4 {
        0
    } else {
        area.height - 4
    };
    if box_height(n) < free {
        box_height(n)
    } else {
        free
    }
}

/// The lines, title, colour, share of the width and height of a dialog.
pub open spec fn dialog_parts(
    dialog: DialogView,
    area: Area,
) -> Option<(Seq<Seq<SpanView>>, Seq<char>, Color, int, int)> {
    match dialog {
        DialogView::Closed => None,
        DialogView::ConfirmDelete { name, is_dir, size, .. } => Some(
            (confirm_lines(name, is_dir, size), " Confirm Delete "@, Color::Red, 50, 10),
        ),
        DialogView::DeleteResult { message, success } => Some(
            (result_lines(message, success), " Result "@, result_color(success), 50, 7),
        ),
        DialogView::DrivePicker { mounts, selected } => Some(
            (
                picker_lines(mounts, selected),
                " Select Drive "@,
                Color::Cyan,
                40,
                picker_height(picker_lines(mounts, selected).len(), area),
            ),
        ),
    }
}

/// Whether a dialog's box can be stated.
pub open spec fn dialog_fits(dialog: DialogView, area: Area) -> bool {
    match dialog_parts(dialog, area) {
        None => true,
        Some((lines, _, _, percent, height)) => {
            &&& box_height(lines.len()) <= u16::MAX
            &&& centered_fits(percent, height, area)
        },
    }
}

/// Whether a panel is a dialog, in the middle of an area.
pub open spec fn is_dialog_panel(panel: PanelView, dialog: DialogView, area: Area) -> bool {
    match dialog_parts(dialog, area) {
        None => false,
        Some((lines, title, color, percent, height)) => {
            &&& panel.lines == lines
            &&& panel.title == Some(title)
            &&& panel.style == crate::style::in_color(color)
            &&& (
                panel.area.x as int,
                panel.area.y as int,
                panel.area.width as int,
                panel.area.height as int,
            ) == centered(percent, height, area)
        },
    }
}

fn confirm_dialog(name: &String, is_dir: bool, size: u64) -> (r: Vec<Line>)
    ensures
        crate::style::line_views(r@) == confirm_lines(name@, is_dir, size),
{
    let mut lines: Vec<Line> = Vec::new();
    let kind = if is_dir {
        "directory"
    } else {
        "file"
    };
    push_plain(&mut lines, String::from_str(""));
    push_line(
        &mut lines,
        line_of(
            String::from_str("  Delete ").concat(kind).concat(": ").concat(name.as_str()),
            bold_colored(Color::White),
        ),
    );
    push_plain(&mut lines, String::from_str("  Size: ").concat(format_size(size).as_str()));
    push_plain(&mut lines, String::from_str(""));
    push_line(
        &mut lines,
        line_of(String::from_str("  This action cannot be undone!"), colored(Color::Red)),
    );
    push_plain(&mut lines, String::from_str(""));
    push_plain(&mut lines, String::from_str("  [y] Yes, delete    [n] Cancel"));
    push_plain(&mut lines, String::from_str(""));
    assert(crate::style::line_views(lines@) =~= confirm_lines(name@, is_dir, size));
    lines
}

fn result_dialog(message: &String, color: Color, Ghost(success): Ghost<bool>) -> (r: Vec<Line>)
    requires
        color == result_color(success),
    ensures
        crate::style::line_views(r@) == result_lines(message@, success),
{
    let mut lines: Vec<Line> = Vec::new();
    push_plain(&mut lines, String::from_str(""));
    push_line(
        &mut lines,
        line_of(String::from_str("  ").concat(message.as_str()), colored(color)),
    );
    push_plain(&mut lines, String::from_str(""));
    push_plain(&mut lines, String::from_str("  Press any key to continue"));
    push_plain(&mut lines, String::from_str(""));
    assert(crate::style::line_views(lines@) =~= result_lines(message@, success));
    lines
}

fn picker_dialog(mounts: &Vec<MountPoint>, selected: usize) -> (r: Vec<Line>)
    ensures
        crate::style::line_views(r@) == picker_lines(
            crate::mounts::mount_views(mounts@),
            selected,
        ),
{
    let ghost views = crate::mounts::mount_views(mounts@);
    let ghost rows = Seq::new(views.len(), |i: int| drive_line(views[i], i == selected));
    let ghost first = seq![crate::style::plain_line(""@)];
    let mut lines: Vec<Line> = Vec::new();
    push_plain(&mut lines, String::from_str(""));
    let mut i: usize = 0;
    assert(crate::style::line_views(lines@) =~= first + rows.take(0));
    while i < mounts.len()
        invariant
            i <= mounts@.len(),
            views == crate::mounts::mount_views(mounts@),
            rows == Seq::new(views.len(), |i: int| drive_line(views[i], i == selected)),
            crate::style::line_views(lines@) == first + rows.take(i as int),
        decreases mounts@.len() - i,
    {
        assert(views[i as int] == mounts@[i as int]@);
        let line = if i == selected {
            line_of(
                String::from_str("> ").concat(mounts[i].label.as_str()),
                Style { fg: Some(Color::Black), bg: Some(Color::Cyan), bold: true },
            )
        } else {
            line_of(
                String::from_str("  ").concat(mounts[i].label.as_str()),
                colored(Color::White),
            )
        };
        assert(line@ =~= rows[i as int]);
        push_line(&mut lines, line);
        assert(first + rows.take(i + 1) =~= (first + rows.take(i as int)).push(rows[i as int]));
        i += 1;
    }
    assert(rows.take(rows.len() as int) =~= rows);
    push_plain(&mut lines, String::from_str(""));
    push_line(
        &mut lines,
        line_of(
            String::from_str("  j/k:Navigate  Enter:Select  Esc:Cancel"),
            colored(Color::DarkGray),
        ),
    );
    push_plain(&mut lines, String::from_str(""));
    assert(crate::style::line_views(lines@) =~= picker_lines(views, selected));
    lines
}

/// A box of lines in the middle of an area, unless it cannot be stated.
fn framed(
    lines: Vec<Line>,
    title: &str,
    color: Color,
    percent: u16,
    height: u16,
    area: Area,
) -> (r: Option<Panel>)
    ensures
        r is Some <==> centered_fits(percent as int, height as int, area),
        match r {
            Some(panel) => {
                let at = panel@.area;
                &&& panel@.lines == crate::style::line_views(lines@)
                &&& panel@.title == Some(title@)
                &&& panel@.style == crate::style::in_color(color)
                &&& (at.x as int, at.y as int, at.width as int, at.height as int) == centered(
                    percent as int,
                    height as int,
                    area,
                )
            },
            None => true,
        },
{
    if !centered_has_room(percent, height, area) {
        return None;
    }
    Some(
        Panel {
            area: centered_rect(percent, height, area),
            title: Some(title.to_owned()),
            style: colored(color),
            lines,
        },
    )
}

/// The box of an open dialog, unless it cannot be stated.
pub fn draw_dialog(dialog: &Dialog, area: Area) -> (r: Option<Panel>)
    ensures
        r is Some <==> !(dialog@ is Closed) && dialog_fits(dialog@, area),
        match r {
            Some(panel) => is_dialog_panel(panel@, dialog@, area),
            None => true,
        },
{
    match dialog {
        Dialog::Closed => None,
        Dialog::ConfirmDelete { name, is_dir, size, .. } => {
            let lines = confirm_dialog(name, *is_dir, *size);
            framed(lines, " Confirm Delete ", Color::Red, 50, 10, area)
        },
        Dialog::DeleteResult { message, success } => {
            let color = if *success {
                Color::Green
            } else {
                Color::Red
            };
            let lines = result_dialog(message, color, Ghost(*success));
            framed(lines, " Result ", color, 50, 7, area)
        },
        Dialog::DrivePicker { mounts, selected } => {
            let lines = picker_dialog(mounts, *selected);
            let n: u16 = lines.len() as u16;
            if n > u16::MAX - 2 {
                return None;
            }
            let free: u16 = area.height.saturating_sub(4);
            let height: u16 = if n + 2 < free {
                n + 2
            } else {
                free
            };
            framed(lines, " Select Drive ", Color::Cyan, 40, height, area)
        },
    }
}

/// A screen: the header, the listing or the overview, the line of help, and a
/// dialog over them.
#[derive(Debug)]
pub struct Screen {
    pub header: Panel,
    pub body: Panel,
    pub help: Panel,
    pub popup: Option<Panel>,
    pub visible_rows: usize,
}

/// Whether the screen can be drawn: every name that is cut is cut between
/// characters, and the dialog's box can be stated.
pub open spec fn can_draw(app: TuiView, parts: Parts, area: Area) -> bool {
    &&& dialog_fits(app.browser.dialog, area)
    &&& match app.browser.tab {
        Tab::Explorer => names_fit(
            app.browser.snapshot.entries,
            app.browser.scroll,
            parts.body,
        ),
        Tab::Overview => has_overview(app) ==> overview_fits(
            app.browser.snapshot,
            inner_width(parts.body, 4),
        ),
    }
}

/// Draws the screen, parted as `parts`, with the rate of the scan in files per
/// minute, the shares of the visible rows, and the full blocks of the
/// extensions' bars. There is no screen where a name would be cut within a
/// character or the dialog's box cannot be stated.
pub fn draw_ui(
    app: &TuiApp,
    parts: Parts,
    area: Area,
    rate: u64,
    shares: &Vec<Share>,
    fills: &Vec<usize>,
) -> (r: Option<Screen>)
    requires
        shares@.len() >= rows_shown(
            app@.browser.snapshot.entries.len() as int,
            app@.browser.scroll as int,
            inner_height(parts.body) as int,
        ),
        fills@.len() >= app@.browser.snapshot.top_exts.len(),
    ensures
        r is Some <==> can_draw(app@, parts, area),
        match r {
            Some(screen) => {
                &&& screen.header@ == header_panel(app@, rate, parts.header)
                &&& screen.body@ == match app@.browser.tab {
                    Tab::Explorer => list_panel(
                        app@.browser.snapshot.entries,
                        place_of(app@),
                        parts.body,
                        share_views(shares@),
                    ),
                    Tab::Overview => overview_panel(app@, parts.body, fills@),
                }
                &&& screen.help@ == help_panel(app@.browser.tab, parts.help)
                &&& match screen.popup {
                    Some(panel) => is_dialog_panel(panel@, app@.browser.dialog, area),
                    None => app@.browser.dialog is Closed,
                }
                &&& screen.visible_rows == inner_height(parts.body)
            },
            None => true,
        },
{
    let popup = draw_dialog(&app.browser.dialog, area);
    match app.browser.dialog {
        Dialog::Closed => {},
        _ => {
            if popup.is_none() {
                return None;
            }
        },
    }
    let body = match app.browser.tab {
        Tab::Explorer => {
            let rows = &app.browser.snapshot.entries;
            let place = Place {
                scroll: app.browser.scroll,
                selected: app.browser.selected,
                frame: app.frame_count,
            };
            if !names_have_room(rows, place.scroll, parts.body) {
                return None;
            }
            draw_file_list(rows, place, parts.body, shares)
        },
        Tab::Overview => {
            if app.browser.state.has_scanned() && !overview_has_room(
                &app.browser.snapshot,
                parts.body.width.saturating_sub(4),
            ) {
                return None;
            }
            draw_overview(app, parts.body, fills)
        },
    };
    Some(
        Screen {
            header: draw_header(app, rate, parts.header),
            body,
            help: draw_help(app.browser.tab, parts.help),
            popup,
            visible_rows: parts.body.height.saturating_sub(2) as usize,
        },
    )
}

} // verus!
