//! What can be read on the screen.
use vstd::prelude::*;

use crate::app::AppView;
use crate::browse::DialogView;
use crate::browse::Tab;
use crate::path::SpelledView;
use crate::scan::ExtensionView;
use crate::screen::Area;
use crate::screen::PanelView;
use crate::screen::Place;
use crate::snapshot::RowView;
use crate::snapshot::SnapshotView;
use crate::style::Color;
use crate::style::SpanView;
use crate::theme::Role;
use crate::top::SizedView;
use crate::tui::TuiView;

verus! {

/// Whether a text says something, as one piece of it.
pub open spec fn says(text: Seq<char>, piece: Seq<char>) -> bool {
    exists|at: int|
        0 <= at && at + piece.len() <= text.len() && #[trigger] text.subrange(
            at,
            at + piece.len(),
        ) == piece
}

proof fn lemma_ends(before: Seq<char>, piece: Seq<char>)
    ensures
        says(before + piece, piece),
{
    let text = before + piece;
    let at = before.len() as int;
    assert(text.subrange(at, at + piece.len()) =~= piece);
}

proof fn lemma_goes_on(text: Seq<char>, more: Seq<char>, piece: Seq<char>)
    requires
        says(text, piece),
    ensures
        says(text + more, piece),
{
    let at = choose|at: int|
        0 <= at && at + piece.len() <= text.len() && #[trigger] text.subrange(
            at,
            at + piece.len(),
        ) == piece;
    assert((text + more).subrange(at, at + piece.len()) =~= text.subrange(at, at + piece.len()));
}

proof fn lemma_says_part(text: Seq<char>, whole: Seq<char>, piece: Seq<char>)
    requires
        says(text, whole),
        says(whole, piece),
    ensures
        says(text, piece),
{
    let a = choose|at: int|
        0 <= at && at + whole.len() <= text.len() && #[trigger] text.subrange(
            at,
            at + whole.len(),
        ) == whole;
    let b = choose|at: int|
        0 <= at && at + piece.len() <= whole.len() && #[trigger] whole.subrange(
            at,
            at + piece.len(),
        ) == piece;
    assert(text.subrange(a + b, a + b + piece.len()) =~= whole.subrange(b, b + piece.len()));
}

/// The name that a path is read by: its last component, or all of it where
/// that is none.
pub open spec fn reads_name(path: SpelledView, name: Seq<char>) -> bool {
    if path.at.parts.len() == 0 || path.at.parts.last() == seq![46u8] || path.at.parts.last()
        == seq![46u8, 46u8] {
        name == crate::text::lossy_text(path.bytes)
    } else {
        name == crate::text::lossy_text(path.at.parts.last())
    }
}

/// A path is read by its last component.
pub proof fn law_path_is_read_by_its_name(path: SpelledView)
    ensures
        reads_name(path, crate::screen::name_text(path)),
        crate::screen::path_text(path) == crate::text::lossy_text(path.bytes),
{
    if path.at.parts.len() > 0 {
        let last = path.at.parts.last();
        if crate::path::is_dot(last) {
            assert(last =~= seq![46u8]);
        }
        if crate::path::is_dot_dot(last) {
            assert(last =~= seq![46u8, 46u8]);
        }
    }
}

/// The header says which tab and which directory is shown, how many rows there
/// are and how much they take, how they are sorted, and how many files a running
/// scan has found.
#[verifier::spinoff_prover]
pub proof fn law_header_says_where_one_is(app: TuiView, rate: u64, area: Area)
    ensures
        ({
            let panel = crate::screen::header_panel(app, rate, area);
            let text = panel.lines[0][0].text;
            let snapshot = app.browser.snapshot;
            &&& panel.area == area
            &&& panel.lines.len() == 1
            &&& panel.lines[0].len() == 1
            &&& app.browser.tab == Tab::Explorer ==> says(text, "Explorer"@)
            &&& app.browser.tab == Tab::Overview ==> says(text, "Overview"@)
            &&& says(text, crate::text::lossy_text(app.browser.app.current_dir.bytes))
            &&& says(text, crate::text::decimal_text(snapshot.entries.len()))
            &&& says(text, crate::util::size_text(snapshot.total_entry_size as nat))
            &&& app.browser.app.sort_by_size ==> says(text, "size"@)
            &&& !app.browser.app.sort_by_size ==> says(text, "name"@)
            &&& snapshot.scanning ==> says(
                text,
                crate::text::decimal_text(snapshot.files_scanned as nat),
            ) && says(text, crate::text::decimal_text(rate as nat))
        }),
{
    let snapshot = app.browser.snapshot;
    let tab = crate::screen::tab_text(app.browser.tab);
    let path = crate::text::lossy_text(app.browser.app.current_dir.bytes);
    let items = crate::text::decimal_text(snapshot.entries.len());
    let total = crate::util::size_text(snapshot.total_entry_size as nat);
    let order = if app.browser.app.sort_by_size {
        "size"@
    } else {
        "name"@
    };
    let scan = crate::screen::scan_text(snapshot, rate);
    let a = " ["@ + tab;
    let b = a + "] "@;
    let c = b + path;
    let d = c + " | "@;
    let e = d + items;
    let f = e + " items | "@;
    let g = f + total;
    let h = g + " total | sort: "@;
    let i = h + order;
    let j = i + scan;
    let k = j + " "@;
    assert(crate::screen::header_text(app, rate) == k);
    lemma_ends(" ["@, tab);
    lemma_goes_on(a, "] "@, tab);
    lemma_goes_on(b, path, tab);
    lemma_goes_on(c, " | "@, tab);
    lemma_goes_on(d, items, tab);
    lemma_goes_on(e, " items | "@, tab);
    lemma_goes_on(f, total, tab);
    lemma_goes_on(g, " total | sort: "@, tab);
    lemma_goes_on(h, order, tab);
    lemma_goes_on(i, scan, tab);
    lemma_goes_on(j, " "@, tab);
    lemma_ends(b, path);
    lemma_goes_on(c, " | "@, path);
    lemma_goes_on(d, items, path);
    lemma_goes_on(e, " items | "@, path);
    lemma_goes_on(f, total, path);
    lemma_goes_on(g, " total | sort: "@, path);
    lemma_goes_on(h, order, path);
    lemma_goes_on(i, scan, path);
    lemma_goes_on(j, " "@, path);
    lemma_ends(d, items);
    lemma_goes_on(e, " items | "@, items);
    lemma_goes_on(f, total, items);
    lemma_goes_on(g, " total | sort: "@, items);
    lemma_goes_on(h, order, items);
    lemma_goes_on(i, scan, items);
    lemma_goes_on(j, " "@, items);
    lemma_ends(f, total);
    lemma_goes_on(g, " total | sort: "@, total);
    lemma_goes_on(h, order, total);
    lemma_goes_on(i, scan, total);
    lemma_goes_on(j, " "@, total);
    lemma_ends(h, order);
    lemma_goes_on(i, scan, order);
    lemma_goes_on(j, " "@, order);
    if snapshot.scanning {
        let files = crate::text::decimal_text(snapshot.files_scanned as nat);
        let fast = crate::text::decimal_text(rate as nat);
        let m = " [scanning... "@ + files;
        let n = m + " files, "@;
        let o = n + fast;
        lemma_ends(" [scanning... "@, files);
        lemma_goes_on(m, " files, "@, files);
        lemma_goes_on(n, fast, files);
        lemma_goes_on(o, "/min]"@, files);
        lemma_ends(n, fast);
        lemma_goes_on(o, "/min]"@, fast);
        assert(scan == o + "/min]"@);
        lemma_ends(i, scan);
        lemma_says_part(j, scan, files);
        lemma_says_part(j, scan, fast);
        lemma_goes_on(j, " "@, files);
        lemma_goes_on(j, " "@, fast);
    }
}

/// A row begins with a slash if it is a directory. It says its name, where that
/// is no wider than its column, its size and its share. The selected row stands
/// out from all others, and so does one that is being walked.
#[verifier::spinoff_prover]
pub proof fn law_row_says_its_name_and_size(
    row: RowView,
    selected: bool,
    frame: usize,
    width: nat,
    share: (Seq<char>, usize),
)
    ensures
        ({
            let line = crate::screen::row_spans(row, selected, frame, width, share);
            let text = line[0].text;
            let style = line[0].style;
            &&& line.len() == 1
            &&& text.len() > 0
            &&& row.is_dir ==> text[0] == '/'
            &&& !row.is_dir ==> text[0] == ' '
            &&& width >= 20 && vstd::utf8::encode_utf8(row.name).len() <= (width - 20) * 55 / 100
                ==> says(text, row.name)
            &&& says(text, crate::util::size_text(row.size as nat))
            &&& says(text, share.0)
            &&& selected <==> style.bg is Some
            &&& selected ==> style.bold
            &&& row.scanning ==> style.bg == Some(Color::Yellow) || style.fg == Some(Color::Yellow)
            &&& !row.scanning ==> style.bg != Some(Color::Yellow) && style.fg != Some(
                Color::Yellow,
            )
            &&& !selected && !row.scanning ==> (row.is_dir <==> style.fg == Some(Color::Blue))
        }),
{
    let first = if row.is_dir {
        "/"@
    } else {
        " "@
    };
    reveal_strlit("/");
    reveal_strlit(" ");
    let wide = crate::screen::name_width(width);
    let name = crate::screen::shown_name(row.name, wide);
    let mark = if row.scanning {
        " "@.push(crate::screen::spinner(frame))
    } else {
        "  "@
    };
    let size = crate::util::size_text(row.size as nat);
    let column = crate::text::right_aligned(size, 9);
    let bar = crate::text::bar_text(share.1 as nat, crate::screen::bar_width(width));
    let a = first + name;
    let b = a + mark;
    let c = b + " "@;
    let d = c + column;
    let e = d + " "@;
    let f = e + share.0;
    let g = f + " "@;
    let h = g + bar;
    assert(crate::screen::row_text(row, frame, width, share.0, share.1) == h);
    lemma_ends(crate::text::spaces(9 - size.len()), size);
    lemma_ends(c, column);
    lemma_says_part(d, column, size);
    lemma_goes_on(d, " "@, size);
    lemma_goes_on(e, share.0, size);
    lemma_goes_on(f, " "@, size);
    lemma_goes_on(g, bar, size);
    lemma_ends(e, share.0);
    lemma_goes_on(f, " "@, share.0);
    lemma_goes_on(g, bar, share.0);
    if width >= 20 && vstd::utf8::encode_utf8(row.name).len() <= (width - 20) * 55 / 100 {
        let pad = crate::text::spaces(wide - row.name.len());
        assert(name == row.name + pad);
        lemma_ends(Seq::empty(), row.name);
        assert(Seq::<char>::empty() + row.name =~= row.name);
        lemma_goes_on(row.name, pad, row.name);
        lemma_ends(first, name);
        lemma_says_part(a, name, row.name);
        lemma_goes_on(a, mark, row.name);
        lemma_goes_on(b, " "@, row.name);
        lemma_goes_on(c, column, row.name);
        lemma_goes_on(d, " "@, row.name);
        lemma_goes_on(e, share.0, row.name);
        lemma_goes_on(f, " "@, row.name);
        lemma_goes_on(g, bar, row.name);
    }
}

/// The listing shows the rows from the first visible one on, as many as there
/// are lines for, and the selected one as such.
pub proof fn law_listing_shows_its_rows(
    rows: Seq<RowView>,
    place: Place,
    area: Area,
    shares: Seq<(Seq<char>, usize)>,
)
    requires
        area.height >= 2,
        area.width >= 2,
        rows.len() > 0,
    ensures
        ({
            let lines = crate::screen::list_panel(rows, place, area, shares).lines;
            &&& place.scroll >= rows.len() ==> lines.len() == 0
            &&& place.scroll < rows.len() && rows.len() - place.scroll >= area.height - 2
                ==> lines.len() == area.height - 2
            &&& place.scroll < rows.len() && rows.len() - place.scroll < area.height - 2
                ==> lines.len() == rows.len() - place.scroll
            &&& forall|i: int|
                0 <= i < lines.len() ==> #[trigger] lines[i] == crate::screen::row_spans(
                    rows[place.scroll + i],
                    place.scroll + i == place.selected,
                    place.frame,
                    (area.width - 2) as nat,
                    shares[i],
                )
        }),
{
}

/// The mark of work going on turns with each frame, through four marks.
#[verifier::spinoff_prover]
pub proof fn law_spinner_turns(turn: nat)
    requires
        4 * turn + 3 <= usize::MAX,
    ensures
        crate::screen::spinner((4 * turn) as usize) == '|',
        crate::screen::spinner((4 * turn + 1) as usize) == '/',
        crate::screen::spinner((4 * turn + 2) as usize) == '-',
        crate::screen::spinner((4 * turn + 3) as usize) == '\\',
{
    assert((4 * turn) % 4 == 0 && (4 * turn + 1) % 4 == 1 && (4 * turn + 2) % 4 == 2 && (4 * turn
        + 3) % 4 == 3) by (nonlinear_arith);
}

proof fn lemma_column(before: Seq<char>, text: Seq<char>, width: nat)
    ensures
        says(before + crate::text::right_aligned(text, width), text),
{
    let column = crate::text::right_aligned(text, width);
    lemma_ends(crate::text::spaces(width - text.len()), text);
    lemma_ends(before, column);
    lemma_says_part(before + column, column, text);
}

proof fn lemma_short_name(before: Seq<char>, name: Seq<char>, width: nat)
    ensures
        vstd::utf8::encode_utf8(name).len() + 14 <= width ==> says(
            before + crate::text::shortened(name, crate::screen::less(width, 14)),
            name,
        ),
{
    lemma_ends(before, name);
}

#[verifier::spinoff_prover]
proof fn lemma_sized_line(item: SizedView, color: Color, width: nat)
    ensures
        says_sized(crate::screen::sized_line(item, color, width), item, width),
{
    let line = crate::screen::sized_line(item, color, width);
    let name = crate::screen::name_text(item.path);
    lemma_column("  "@, crate::util::size_text(item.size as nat), 9);
    lemma_short_name("  "@, name, width);
    law_path_is_read_by_its_name(item.path);
    assert(line.len() == 2);
    assert(says(line[0].text, crate::util::size_text(item.size as nat)));
    assert(line[1].text == "  "@ + crate::text::shortened(name, crate::screen::less(width, 14)));
    assert(reads_name(item.path, name));
}

/// Whether a line says the size and the name of one of the biggest.
pub open spec fn says_sized(line: Seq<SpanView>, item: SizedView, width: nat) -> bool {
    &&& line.len() == 2
    &&& says(line[0].text, crate::util::size_text(item.size as nat))
    &&& exists|name: Seq<char>| #[trigger]
        reads_name(item.path, name) && (vstd::utf8::encode_utf8(name).len() + 14 <= width
            ==> says(line[1].text, name))
}

/// Whether a line says an extension, the number of its files and their bytes.
pub open spec fn says_extension(line: Seq<SpanView>, stat: ExtensionView) -> bool {
    &&& line.len() == 4
    &&& says(line[0].text, stat.extension)
    &&& says(line[0].text, crate::text::decimal_text(stat.count as nat))
    &&& says(line[1].text, crate::util::size_text(stat.total_size as nat))
}

proof fn lemma_ext_line(stat: ExtensionView, fill: usize, width: nat)
    ensures
        says_extension(crate::screen::ext_line(stat, fill, width), stat),
{
    let name = crate::text::left_aligned(stat.extension, 7);
    let count = crate::text::decimal_text(stat.count as nat);
    let column = crate::text::right_aligned(count, 7);
    let a = "  ."@ + name;
    let b = a + " "@;
    let c = b + column;
    lemma_ends(Seq::empty(), stat.extension);
    assert(Seq::<char>::empty() + stat.extension =~= stat.extension);
    lemma_goes_on(
        stat.extension,
        crate::text::spaces(7 - stat.extension.len()),
        stat.extension,
    );
    lemma_ends("  ."@, name);
    lemma_says_part(a, name, stat.extension);
    lemma_goes_on(a, " "@, stat.extension);
    lemma_goes_on(b, column, stat.extension);
    lemma_goes_on(c, " "@, stat.extension);
    lemma_ends(crate::text::spaces(7 - count.len()), count);
    lemma_ends(b, column);
    lemma_says_part(c, column, count);
    lemma_goes_on(c, " "@, count);
    let size = crate::util::size_text(stat.total_size as nat);
    lemma_ends(crate::text::spaces(9 - size.len()), size);
}

/// How many lines the summary of an overview takes.
pub open spec fn summary_len(snapshot: SnapshotView) -> int {
    if snapshot.deepest.1 > 0 {
        7
    } else {
        6
    }
}

/// How many lines some of the biggest take: one each, or one that says that
/// there are none.
pub open spec fn lines_for(n: nat) -> int {
    if n == 0 {
        1
    } else {
        n as int
    }
}

/// The overview lists each of the biggest files, directories and file types of
/// the scan, in their order.
#[verifier::spinoff_prover]
pub proof fn law_overview_lists_the_biggest(
    snapshot: SnapshotView,
    root: SpelledView,
    fills: Seq<usize>,
    width: nat,
)
    ensures
        ({
            let lines = crate::screen::overview_lines(snapshot, root, fills, width);
            let files = summary_len(snapshot) + 2;
            let dirs = files + lines_for(snapshot.top_files.len()) + 2;
            let exts = dirs + lines_for(snapshot.top_dirs.len()) + 3;
            &&& forall|i: int|
                0 <= i < snapshot.top_files.len() ==> says_sized(
                    lines[files + i],
                    #[trigger] snapshot.top_files[i],
                    width,
                )
            &&& forall|i: int|
                0 <= i < snapshot.top_dirs.len() ==> says_sized(
                    lines[dirs + i],
                    #[trigger] snapshot.top_dirs[i],
                    width,
                )
            &&& forall|i: int|
                0 <= i < snapshot.top_exts.len() ==> says_extension(
                    lines[exts + i],
                    #[trigger] snapshot.top_exts[i],
                )
        }),
{
    let lines = crate::screen::overview_lines(snapshot, root, fills, width);
    let files = summary_len(snapshot) + 2;
    let dirs = files + lines_for(snapshot.top_files.len()) + 2;
    let exts = dirs + lines_for(snapshot.top_dirs.len()) + 3;
    assert forall|i: int| 0 <= i < snapshot.top_files.len() implies says_sized(
        lines[files + i],
        #[trigger] snapshot.top_files[i],
        width,
    ) by {
        lemma_sized_line(snapshot.top_files[i], Color::White, width);
        assert(lines[files + i] == crate::screen::sized_line(
            snapshot.top_files[i],
            Color::White,
            width,
        ));
    }
    assert forall|i: int| 0 <= i < snapshot.top_dirs.len() implies says_sized(
        lines[dirs + i],
        #[trigger] snapshot.top_dirs[i],
        width,
    ) by {
        lemma_sized_line(snapshot.top_dirs[i], Color::Blue, width);
        assert(lines[dirs + i] == crate::screen::sized_line(
            snapshot.top_dirs[i],
            Color::Blue,
            width,
        ));
    }
    assert forall|i: int| 0 <= i < snapshot.top_exts.len() implies says_extension(
        lines[exts + i],
        #[trigger] snapshot.top_exts[i],
    ) by {
        lemma_ext_line(snapshot.top_exts[i], fills[i], width);
        assert(lines[exts + i] == crate::screen::ext_line(
            snapshot.top_exts[i],
            fills[i],
            width,
        ));
    }
}

/// The overview says whether the scan runs, its root, its bytes, its files and
/// its directories.
pub proof fn law_overview_says_the_counts(
    snapshot: SnapshotView,
    root: SpelledView,
    fills: Seq<usize>,
    width: nat,
)
    ensures
        ({
            let lines = crate::screen::overview_lines(snapshot, root, fills, width);
            &&& lines.len() >= 6
            &&& snapshot.scanning ==> lines[1][1].text == "Scanning..."@
            &&& !snapshot.scanning ==> lines[1][1].text == "Complete"@
            &&& says(lines[2][0].text, crate::text::lossy_text(root.bytes))
            &&& lines[3][1].text == crate::util::size_text(snapshot.total_bytes as nat)
            &&& says(
                lines[4][0].text,
                crate::text::decimal_text(snapshot.files_scanned as nat),
            )
            &&& says(
                lines[5][0].text,
                crate::text::decimal_text(snapshot.dirs_scanned as nat),
            )
            &&& snapshot.deepest.1 > 0 ==> says(
                lines[6][0].text,
                crate::text::decimal_text(snapshot.deepest.1 as nat),
            )
        }),
{
    let summary = crate::screen::summary_lines(snapshot, root, width);
    let lines = crate::screen::overview_lines(snapshot, root, fills, width);
    assert forall|i: int| 0 <= i < summary.len() implies lines[i] == summary[i] by {}
    lemma_ends("  Scan root:   "@, crate::text::lossy_text(root.bytes));
    lemma_ends("  Files:       "@, crate::text::decimal_text(snapshot.files_scanned as nat));
    lemma_ends("  Directories: "@, crate::text::decimal_text(snapshot.dirs_scanned as nat));
    let depth = crate::text::decimal_text(snapshot.deepest.1 as nat);
    let before = "  Deepest:     "@ + crate::text::ending(
        crate::screen::path_text(snapshot.deepest.0),
        crate::screen::less(width, 20),
    ) + " (depth "@;
    lemma_ends(before, depth);
    lemma_goes_on(before + depth, ")"@, depth);
}

/// The question whether to delete says what is to be deleted, whether that is a
/// directory, and its size.
pub proof fn law_question_says_what_goes(panel: PanelView, dialog: DialogView, area: Area)
    requires
        dialog is ConfirmDelete,
        crate::screen::is_dialog_panel(panel, dialog, area),
    ensures
        says(panel.lines[1][0].text, dialog->name),
        dialog->is_dir ==> says(panel.lines[1][0].text, "directory"@),
        !dialog->is_dir ==> says(panel.lines[1][0].text, "file"@),
        says(panel.lines[2][0].text, crate::util::size_text(dialog->size as nat)),
{
    let kind = if dialog->is_dir {
        "directory"@
    } else {
        "file"@
    };
    let a = "  Delete "@ + kind;
    let b = a + ": "@;
    lemma_ends("  Delete "@, kind);
    lemma_goes_on(a, ": "@, kind);
    lemma_goes_on(b, dialog->name, kind);
    lemma_ends(b, dialog->name);
    lemma_ends("  Size: "@, crate::util::size_text(dialog->size as nat));
}

/// A result says its message, in green if it is a good one and else in red; the
/// drive picker has a line for each drive, with its label, and marks the
/// selected one.
pub proof fn law_dialogs_say_their_content(panel: PanelView, dialog: DialogView, area: Area)
    requires
        crate::screen::is_dialog_panel(panel, dialog, area),
    ensures
        dialog is DeleteResult ==> says(panel.lines[1][0].text, dialog->message) && (
        dialog->success <==> panel.lines[1][0].style.fg == Some(Color::Green)) && (
        !dialog->success <==> panel.lines[1][0].style.fg == Some(Color::Red)),
        dialog is DrivePicker ==> panel.lines.len() == dialog->mounts.len() + 4 && forall|i: int|
            0 <= i < dialog->mounts.len() ==> says(
                panel.lines[i + 1][0].text,
                (#[trigger] dialog->mounts[i]).label,
            ) && (panel.lines[i + 1][0].style.bg is Some <==> i == dialog->selected),
        !(dialog is Closed),
{
    if dialog is DeleteResult {
        lemma_ends("  "@, dialog->message);
    }
    if dialog is DrivePicker {
        assert forall|i: int| 0 <= i < dialog->mounts.len() implies says(
            panel.lines[i + 1][0].text,
            (#[trigger] dialog->mounts[i]).label,
        ) && (panel.lines[i + 1][0].style.bg is Some <==> i == dialog->selected) by {
            lemma_ends("> "@, dialog->mounts[i].label);
            lemma_ends("  "@, dialog->mounts[i].label);
            assert(panel.lines[i + 1] == crate::screen::drive_line(
                dialog->mounts[i],
                i == dialog->selected,
            ));
        }
    }
}

/// A box stands in the middle of its area and within it, with its share of the
/// width and the height that it needs, as far as there is room.
pub proof fn law_box_is_in_the_middle(percent: int, height: int, area: Area)
    requires
        0 <= percent <= 100,
        0 <= height,
        area.x + area.width < u16::MAX,
        area.y + area.height < u16::MAX,
    ensures
        ({
            let (x, y, w, h) = crate::screen::centered(percent, height, area);
            let right = area.x + area.width - (x + w);
            let under = area.y + area.height - (y + h);
            &&& w == area.width * percent / 100
            &&& h == if height < area.height {
                height
            } else {
                area.height as int
            }
            &&& area.x <= x && 0 <= right
            &&& area.y <= y && 0 <= under
            &&& 0 <= right - (x - area.x) <= 1
            &&& 0 <= under - (y - area.y) <= 1
        }),
{
    let wide = area.width as int;
    assert(wide * percent / 100 <= wide) by (nonlinear_arith)
        requires
            0 <= percent <= 100,
            0 <= wide,
    ;
    assert(0 <= wide * percent / 100) by (nonlinear_arith)
        requires
            0 <= percent <= 100,
            0 <= wide,
    ;
}

/// In a window a row's bar tells directories from files and both from what is
/// being walked; the row that leads to the parent is muted.
pub proof fn law_window_tells_rows_apart(row: RowView)
    ensures
        row.scanning <==> crate::gui::bar_role(row) == Role::Scan,
        !row.scanning && row.is_dir <==> crate::gui::bar_role(row) == Role::Dir,
        !row.scanning && !row.is_dir <==> crate::gui::bar_role(row) == Role::File,
        row.is_parent ==> crate::gui::text_role(row) == Role::Muted,
        !row.is_parent ==> crate::gui::text_role(row) == crate::gui::bar_role(row),
{
}

/// In a window one of the biggest is given with its size, its name and its
/// path; a file type with a dot and its name, its number of files and its
/// bytes.
pub proof fn law_window_lists_the_biggest(item: SizedView, stat: ExtensionView)
    ensures
        crate::gui::large_of(item).size == crate::util::size_text(item.size as nat),
        reads_name(item.path, crate::gui::large_of(item).name),
        crate::gui::large_of(item).path == crate::text::lossy_text(item.path.bytes),
        crate::gui::ext_row_of(stat).label == "."@ + stat.extension,
        crate::gui::ext_row_of(stat).count == crate::text::decimal_text(stat.count as nat),
        crate::gui::ext_row_of(stat).size == crate::util::size_text(stat.total_size as nat),
{
    law_path_is_read_by_its_name(item.path);
}

/// The crumbs of a directory lead down to it: the last is the directory itself,
/// each is the parent of the next, each after the first is labelled with its
/// name, and only the last is where one is.
pub proof fn law_crumbs_lead_down(dir: SpelledView)
    requires
        dir.at.absolute || dir.at.parts.len() > 0,
    ensures
        ({
            let crumbs = crate::gui::crumbs_of(dir);
            &&& crumbs.len() > 0
            &&& crumbs.len() == dir.at.parts.len() + if dir.at.absolute {
                1int
            } else {
                0int
            }
            &&& crumbs.last().path == dir
            &&& crumbs.last().here
            &&& crumbs[0].label == crate::text::lossy_text(crumbs[0].path.bytes)
            &&& forall|i: int|
                0 < i < crumbs.len() ==> reads_name(
                    (#[trigger] crumbs[i]).path,
                    crumbs[i].label,
                )
            &&& forall|i: int, j: int|
                #![trigger crumbs[i], crumbs[j]]
                0 <= i && j == i + 1 && j < crumbs.len() ==> crumbs[j].path.parent() == Some(
                    crumbs[i].path,
                )
            &&& forall|i: int|
                0 <= i < crumbs.len() ==> ((#[trigger] crumbs[i]).here <==> crumbs[i].path.at
                    == dir.at)
        }),
{
    crate::path::law_trail_leads_down(dir);
    crate::path::law_trail_begins_at_the_top(dir);
    let crumbs = crate::gui::crumbs_of(dir);
    let trail = crate::path::trail_of(dir);
    assert(crumbs.last().path == trail.last());
    assert forall|i: int| 0 < i < crumbs.len() implies reads_name(
        (#[trigger] crumbs[i]).path,
        crumbs[i].label,
    ) by {
        law_path_is_read_by_its_name(trail[i]);
    }
    assert forall|i: int, j: int|
        #![trigger crumbs[i], crumbs[j]]
        0 <= i && j == i + 1 && j < crumbs.len() implies crumbs[j].path.parent() == Some(
        crumbs[i].path,
    ) by {
        assert(trail[j].parent() == Some(trail[i]));
    }
}

/// Without tabs too the header says the directory, how many rows there are and
/// how much they take, and how many files a running scan has found.
#[verifier::spinoff_prover]
pub proof fn law_plain_header_says_where_one_is(app: AppView)
    ensures
        ({
            let text = crate::classic::header_text(app);
            &&& says(text, crate::text::lossy_text(app.current_dir.bytes))
            &&& says(text, crate::text::decimal_text(app.entries.len()))
            &&& says(
                text,
                crate::util::size_text(crate::model::sizes_sum(app.entries, app.scan)),
            )
            &&& app.sort_by_size ==> says(text, "size"@)
            &&& !app.sort_by_size ==> says(text, "name"@)
            &&& app.scan.scanning ==> says(
                text,
                crate::text::decimal_text(app.scan.files_scanned as nat),
            )
        }),
{
    let path = crate::text::lossy_text(app.current_dir.bytes);
    let items = crate::text::decimal_text(app.entries.len());
    let total = crate::util::size_text(crate::model::sizes_sum(app.entries, app.scan));
    let order = if app.sort_by_size {
        "size"@
    } else {
        "name"@
    };
    let scan = if app.scan.scanning {
        " [scanning... "@ + crate::text::decimal_text(app.scan.files_scanned as nat) + " files]"@
    } else {
        ""@
    };
    let c = " "@ + path;
    let d = c + " | "@;
    let e = d + items;
    let f = e + " items | "@;
    let g = f + total;
    let h = g + " total | sort: "@;
    let i = h + order;
    let j = i + scan;
    let k = j + " "@;
    assert(crate::classic::header_text(app) == k);
    lemma_ends(" "@, path);
    lemma_goes_on(c, " | "@, path);
    lemma_goes_on(d, items, path);
    lemma_goes_on(e, " items | "@, path);
    lemma_goes_on(f, total, path);
    lemma_goes_on(g, " total | sort: "@, path);
    lemma_goes_on(h, order, path);
    lemma_goes_on(i, scan, path);
    lemma_goes_on(j, " "@, path);
    lemma_ends(d, items);
    lemma_goes_on(e, " items | "@, items);
    lemma_goes_on(f, total, items);
    lemma_goes_on(g, " total | sort: "@, items);
    lemma_goes_on(h, order, items);
    lemma_goes_on(i, scan, items);
    lemma_goes_on(j, " "@, items);
    lemma_ends(f, total);
    lemma_goes_on(g, " total | sort: "@, total);
    lemma_goes_on(h, order, total);
    lemma_goes_on(i, scan, total);
    lemma_goes_on(j, " "@, total);
    lemma_ends(h, order);
    lemma_goes_on(i, scan, order);
    lemma_goes_on(j, " "@, order);
    if app.scan.scanning {
        let files = crate::text::decimal_text(app.scan.files_scanned as nat);
        lemma_ends(" [scanning... "@, files);
        lemma_goes_on(" [scanning... "@ + files, " files]"@, files);
        lemma_ends(i, scan);
        lemma_says_part(j, scan, files);
        lemma_goes_on(j, " "@, files);
    }
}

/// Of the overview the lines from the scroll on are shown, as many as there is
/// room for.
pub proof fn law_overview_is_scrolled(lines: Seq<Seq<SpanView>>, from: int, n: int)
    requires
        0 <= from,
        0 <= n,
    ensures
        ({
            let shown = crate::screen::lines_from(lines, from, n);
            &&& from >= lines.len() ==> shown.len() == 0
            &&& from < lines.len() && lines.len() - from <= n ==> shown.len() == lines.len() - from
            &&& from < lines.len() && lines.len() - from > n ==> shown.len() == n
            &&& forall|i: int| 0 <= i < shown.len() ==> #[trigger] shown[i] == lines[from + i]
        }),
{
}

/// Before the first scan the overview asks for one; after that it shows the
/// latest snapshot, whether or not the scan still runs.
pub proof fn law_overview_needs_a_scan(app: TuiView, area: Area, fills: Seq<usize>)
    requires
        area.width >= 4,
        area.height >= 2,
    ensures
        ({
            let panel = crate::screen::overview_panel(app, area, fills);
            &&& panel.area == area
            &&& app.browser.app.scan.scan_start is None ==> panel.lines.len() == 1
                && panel.lines[0][0].text == "  Press 'r' to start scanning."@
            &&& app.browser.app.scan.scan_start is Some ==> panel.lines
                == crate::screen::lines_from(
                crate::screen::overview_lines(
                    app.browser.snapshot,
                    app.browser.app.scan_root,
                    fills,
                    (area.width - 4) as nat,
                ),
                app.overview_scroll as int,
                area.height - 2,
            )
        }),
{
}

/// A dialog takes half of the width, the drive picker two fifths; it is as high
/// as its content, and the picker leaves four rows free.
#[verifier::spinoff_prover]
pub proof fn law_dialogs_have_their_size(panel: PanelView, dialog: DialogView, area: Area)
    requires
        crate::screen::is_dialog_panel(panel, dialog, area),
        area.x + area.width < u16::MAX,
        area.y + area.height < u16::MAX,
        area.height >= 10,
    ensures
        !(dialog is DrivePicker) ==> panel.area.width == area.width * 50 / 100,
        dialog is DrivePicker ==> panel.area.width == area.width * 40 / 100,
        dialog is ConfirmDelete ==> panel.area.height == 10,
        dialog is DeleteResult ==> panel.area.height == 7,
        dialog is DrivePicker && dialog->mounts.len() + 6 <= area.height - 4
            ==> panel.area.height == dialog->mounts.len() + 6,
        dialog is DrivePicker && area.height - 4 < dialog->mounts.len() + 6 <= u16::MAX
            ==> panel.area.height == area.height - 4,
{
    if dialog is DrivePicker {
        law_dialogs_say_their_content(panel, dialog, area);
        let height = crate::screen::picker_height(panel.lines.len(), area);
        if dialog->mounts.len() + 6 <= u16::MAX {
            law_box_is_in_the_middle(40, height, area);
        }
    }
    law_box_is_in_the_middle(50, 10, area);
    law_box_is_in_the_middle(50, 7, area);
}

/// Names of ASCII can always be cut to their column, so a listing of such names
/// can always be drawn.
pub proof fn law_ascii_names_can_be_drawn(rows: Seq<RowView>, scroll: usize, area: Area)
    requires
        forall|i: int|
            0 <= i < rows.len() ==> vstd::utf8::is_ascii_chars((#[trigger] rows[i]).name),
    ensures
        crate::screen::names_fit(rows, scroll, area),
{
    let room = crate::screen::name_width(crate::screen::inner_width(area, 2));
    assert forall|i: int|
        scroll <= i < scroll + crate::screen::rows_shown(
            rows.len() as int,
            scroll as int,
            crate::screen::inner_height(area) as int,
        ) implies crate::text::can_shorten((#[trigger] rows[i]).name, room) by {
        let name = rows[i].name;
        if crate::text::byte_len(name) > room {
            let n = crate::text::cut_place(room);
            let bytes = vstd::utf8::encode_utf8(name);
            vstd::utf8::encode_utf8_valid_utf8(name);
            vstd::utf8::is_ascii_chars_encode_utf8(name);
            vstd::utf8::is_char_boundary_iff_not_is_continuation_byte(bytes, n);
        }
    }
}

/// A tally says its files, its directories and its bytes.
pub proof fn law_tally_says_its_counts(tally: crate::bench::Tally)
    ensures
        says(tally.text(), crate::text::decimal_text(tally.files as nat)),
        says(tally.text(), crate::text::decimal_text(tally.dirs as nat)),
        says(tally.text(), crate::bench::size_text(tally.bytes as nat)),
{
    let files = crate::text::decimal_text(tally.files as nat);
    let dirs = crate::text::decimal_text(tally.dirs as nat);
    let bytes = crate::bench::size_text(tally.bytes as nat);
    let a = "  Files: "@ + files;
    let b = a + ", Dirs: "@;
    let c = b + dirs;
    let d = c + ", Bytes: "@;
    lemma_ends("  Files: "@, files);
    lemma_goes_on(a, ", Dirs: "@, files);
    lemma_goes_on(b, dirs, files);
    lemma_goes_on(c, ", Bytes: "@, files);
    lemma_goes_on(d, bytes, files);
    lemma_ends(b, dirs);
    lemma_goes_on(c, ", Bytes: "@, dirs);
    lemma_goes_on(d, bytes, dirs);
    lemma_ends(d, bytes);
    assert(tally.text() == d + bytes);
}

/// A coloured style has its colour and no background; a plain one has neither,
/// and only a bold one is bold.
pub proof fn law_styles_have_their_colour(color: Color)
    ensures
        crate::style::in_color(color).fg == Some(color),
        crate::style::in_color(color).bg is None,
        !crate::style::in_color(color).bold,
        crate::style::bold_in(color).fg == Some(color),
        crate::style::bold_in(color).bg is None,
        crate::style::bold_in(color).bold,
        crate::style::plain_style().fg is None,
        crate::style::plain_style().bg is None,
        !crate::style::plain_style().bold,
{
}

/// In a window what text stands on is dark, text is lighter than any of it, and
/// what rows are told apart by has colours of its own.
pub proof fn law_window_colours_are_apart(ground: Role, text: Role)
    requires
        ground == Role::Panel || ground == Role::Subtle || ground == Role::Inactive || ground
            == Role::Hover || ground == Role::Selection || ground == Role::Bar,
        text == Role::Text || text == Role::Muted || text == Role::Dim || text == Role::Dir
            || text == Role::File || text == Role::Scan || text == Role::Done || text
            == Role::Heading || text == Role::Warning,
    ensures
        ({
            let under = crate::theme::role_color(ground);
            let over = crate::theme::role_color(text);
            under.r < over.r && under.g < over.g && under.b < over.b
        }),
        crate::theme::role_color(Role::Dir) != crate::theme::role_color(Role::File),
        crate::theme::role_color(Role::Dir) != crate::theme::role_color(Role::Scan),
        crate::theme::role_color(Role::File) != crate::theme::role_color(Role::Scan),
        crate::theme::role_color(Role::Muted) != crate::theme::role_color(Role::Text),
        crate::theme::role_color(Role::Done) != crate::theme::role_color(Role::Scan),
        crate::theme::role_color(Role::Warning) != crate::theme::role_color(Role::Text),
{
}

/// A dialog can be drawn wherever the screen is not so wide that its columns
/// overflow, and the drives are not so many.
pub proof fn law_dialogs_can_be_drawn(dialog: DialogView, area: Area)
    requires
        area.width <= 1310,
        area.x + area.width <= u16::MAX,
        area.y + area.height <= u16::MAX,
        dialog is DrivePicker ==> dialog->mounts.len() < 60000,
    ensures
        crate::screen::dialog_fits(dialog, area),
{
    let wide = area.width as int;
    assert(wide * 50 / 100 <= wide && 0 <= wide * 50 / 100 && wide * 40 / 100 <= wide && 0 <= wide
        * 40 / 100);
}

/// The overview can be drawn wherever the names of the biggest and the path of
/// the deepest are of ASCII.
pub proof fn law_ascii_overview_can_be_drawn(snapshot: SnapshotView, width: nat)
    requires
        forall|i: int|
            0 <= i < snapshot.top_files.len() ==> vstd::utf8::is_ascii_chars(
                crate::screen::name_text((#[trigger] snapshot.top_files[i]).path),
            ),
        forall|i: int|
            0 <= i < snapshot.top_dirs.len() ==> vstd::utf8::is_ascii_chars(
                crate::screen::name_text((#[trigger] snapshot.top_dirs[i]).path),
            ),
        vstd::utf8::is_ascii_chars(crate::text::lossy_text(snapshot.deepest.0.bytes)),
    ensures
        crate::screen::overview_fits(snapshot, width),
{
    let room = crate::screen::less(width, 14);
    assert forall|i: int| 0 <= i < snapshot.top_files.len() implies crate::text::can_shorten(
        crate::screen::name_text((#[trigger] snapshot.top_files[i]).path),
        room,
    ) by {
        lemma_ascii_cuts(crate::screen::name_text(snapshot.top_files[i].path));
    }
    assert forall|i: int| 0 <= i < snapshot.top_dirs.len() implies crate::text::can_shorten(
        crate::screen::name_text((#[trigger] snapshot.top_dirs[i]).path),
        room,
    ) by {
        lemma_ascii_cuts(crate::screen::name_text(snapshot.top_dirs[i].path));
    }
    lemma_ascii_cuts(crate::text::lossy_text(snapshot.deepest.0.bytes));
}

proof fn lemma_ascii_cuts(text: Seq<char>)
    requires
        vstd::utf8::is_ascii_chars(text),
    ensures
        forall|n: int|
            0 <= n <= crate::text::byte_len(text) ==> #[trigger] crate::text::cuts_at(text, n),
{
    let bytes = vstd::utf8::encode_utf8(text);
    vstd::utf8::encode_utf8_valid_utf8(text);
    vstd::utf8::is_ascii_chars_encode_utf8(text);
    vstd::utf8::is_char_boundary_start_end_of_seq(bytes);
    assert forall|n: int| 0 <= n <= crate::text::byte_len(text) implies #[trigger]
    crate::text::cuts_at(text, n) by {
        if 0 < n < bytes.len() {
            vstd::utf8::is_char_boundary_iff_not_is_continuation_byte(bytes, n);
        }
    }
}

/// Of a row's width twenty columns are fixed; of the rest 55 in a hundred are
/// the name's and the others the bar's. The bar of a file type takes what 32
/// columns leave, thirty at most.
pub proof fn law_columns_share_the_width(width: nat)
    ensures
        width >= 20 ==> crate::screen::name_width(width) == (width - 20) * 55 / 100
            && crate::screen::name_width(width) + crate::screen::bar_width(width) + 20 == width,
        width < 20 ==> crate::screen::name_width(width) == 0 && crate::screen::bar_width(width)
            == 0,
        width >= 62 ==> crate::screen::ext_bar_width(width) == 30,
        32 <= width < 62 ==> crate::screen::ext_bar_width(width) + 32 == width,
        width < 32 ==> crate::screen::ext_bar_width(width) == 0,
{
}

/// A page of the window has twenty rows.
pub proof fn law_page_of_the_window()
    ensures
        crate::gui::PAGE_ROWS == 20,
{
}

} // verus!
