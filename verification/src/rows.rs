//! What the rows of a listing and of a snapshot say of the files and of the
//! scan that they stand for.
use vstd::prelude::*;

use crate::app::AppView;
use crate::app::ListedKind;
use crate::app::ListedView;
use crate::model::EntryView;
use crate::path::FsPath;
use crate::path::PathView;
use crate::path::SpelledView;
use crate::scan::ScanView;
use crate::snapshot::RowView;
use crate::snapshot::SnapshotView;

verus! {

/// The sum of the sizes that rows show.
pub open spec fn rows_total(rows: Seq<RowView>) -> nat
    decreases rows.len(),
{
    if rows.len() == 0 {
        0
    } else {
        rows_total(rows.drop_last()) + rows.last().size as nat
    }
}

proof fn lemma_total_is_fold(rows: Seq<RowView>, b: nat)
    ensures
        rows.fold_right(|r: RowView, sum: nat| (r.size as nat + sum) as nat, b) == rows_total(rows)
            + b,
    decreases rows.len(),
{
    reveal(Seq::fold_right);
    if rows.len() > 0 {
        lemma_total_is_fold(rows.drop_last(), rows.last().size as nat + b);
    }
}

proof fn lemma_total_of_permuted(one: Seq<RowView>, two: Seq<RowView>)
    requires
        one.to_multiset() == two.to_multiset(),
    ensures
        rows_total(one) == rows_total(two),
{
    let f = |r: RowView, sum: nat| (r.size as nat + sum) as nat;
    lemma_total_is_fold(one, 0);
    lemma_total_is_fold(two, 0);
    assert(vstd::seq_lib::commutative_foldr(f));
    vstd::seq_lib::lemma_fold_right_permutation(one, two, f, 0);
}

proof fn lemma_total_of_shown(entries: Seq<EntryView>, scan: ScanView)
    ensures
        rows_total(crate::snapshot::shown_rows(entries, scan)) == crate::model::sizes_sum(
            entries,
            scan,
        ),
    decreases entries.len(),
{
    if entries.len() > 0 {
        let rows = crate::snapshot::shown_rows(entries, scan);
        lemma_total_of_shown(entries.drop_last(), scan);
        assert(rows.drop_last() =~= crate::snapshot::shown_rows(entries.drop_last(), scan));
    }
}

/// A directory is shown with the bytes that the scan has for it so far, whether
/// or not it is still being walked, and with 0 only if there are none; it is
/// being walked while the scan runs and has not completed it. The row that
/// leads to the parent is shown with 0 and never as being walked, and so is no
/// file.
pub proof fn law_directory_shows_its_bytes(
    snapshot: SnapshotView,
    scan: ScanView,
    entries: Seq<EntryView>,
    by_size: bool,
    i: int,
)
    requires
        crate::snapshot::is_snapshot_of(snapshot, scan, entries, by_size),
        0 <= i < snapshot.entries.len(),
    ensures
        ({
            let row = snapshot.entries[i];
            &&& row.is_dir && !row.is_parent && scan.dir_sizes.contains_key(row.path.at)
                ==> row.size == scan.dir_sizes[row.path.at]
            &&& row.is_dir && !row.is_parent && !scan.dir_sizes.contains_key(row.path.at)
                ==> row.size == 0
            &&& row.is_parent ==> row.size == 0 && !row.scanning
            &&& !row.is_dir ==> !row.scanning
            &&& row.is_dir && !row.is_parent ==> (row.scanning <==> scan.scanning
                && !scan.completed.contains(row.path.at))
        }),
{
    law_snapshot_shows_each_row(snapshot, scan, entries, by_size);
    lemma_row_is_shown(snapshot, scan, entries, by_size, i);
}

proof fn lemma_row_is_shown(
    snapshot: SnapshotView,
    scan: ScanView,
    entries: Seq<EntryView>,
    by_size: bool,
    i: int,
) -> (j: int)
    requires
        crate::snapshot::is_snapshot_of(snapshot, scan, entries, by_size),
        0 <= i < snapshot.entries.len(),
    ensures
        0 <= j < entries.len(),
        snapshot.entries[i] == crate::snapshot::shown(entries[j], scan),
{
    let before = crate::snapshot::shown_rows(entries, scan);
    let order = choose|order: Seq<int>| #[trigger]
        crate::order::is_stable_order(
            before.map_values(crate::snapshot::row_rank(by_size)),
            order,
        ) && snapshot.entries == crate::order::picked(before, order);
    assert(0 <= order[i] < before.len());
    order[i]
}

/// Whether a row shows a listed one: the same name, path and kind, and the
/// listed size if it is a file.
pub open spec fn stands_for(row: RowView, entry: EntryView) -> bool {
    &&& row.name == entry.name
    &&& row.path == entry.path
    &&& row.is_dir == entry.is_dir
    &&& row.is_parent == entry.is_parent
    &&& !row.is_dir && !row.is_parent ==> row.size == entry.file_size
}

/// A snapshot shows each listed row in one place of its own, and rows that are
/// alike in what they are sorted by in the order of the listing.
pub proof fn law_snapshot_shows_each_row(
    snapshot: SnapshotView,
    scan: ScanView,
    entries: Seq<EntryView>,
    by_size: bool,
) -> (order: Seq<int>)
    requires
        crate::snapshot::is_snapshot_of(snapshot, scan, entries, by_size),
    ensures
        order.len() == entries.len(),
        order.len() == snapshot.entries.len(),
        order.no_duplicates(),
        forall|i: int|
            0 <= i < order.len() ==> 0 <= #[trigger] order[i] < entries.len() && stands_for(
                snapshot.entries[i],
                entries[order[i]],
            ),
        forall|j: int| 0 <= j < entries.len() ==> #[trigger] order.contains(j),
        forall|i: int, j: int|
            0 <= i < j < order.len() && snapshot.entries[i].is_parent
                == snapshot.entries[j].is_parent && (if by_size {
                snapshot.entries[i].size == snapshot.entries[j].size
            } else {
                snapshot.entries[i].name == snapshot.entries[j].name
            }) ==> #[trigger] order[i] < #[trigger] order[j],
{
    let before = crate::snapshot::shown_rows(entries, scan);
    let ranks = before.map_values(crate::snapshot::row_rank(by_size));
    let order = choose|order: Seq<int>| #[trigger]
        crate::order::is_stable_order(ranks, order) && snapshot.entries == crate::order::picked(
            before,
            order,
        );
    crate::order::lemma_order_has_no_duplicates(ranks, order);
    assert forall|j: int| 0 <= j < entries.len() implies #[trigger] order.contains(j) by {
        crate::order::lemma_order_names_every_place(ranks, order, j);
    }
    assert forall|i: int, j: int|
        0 <= i < j < order.len() && snapshot.entries[i].is_parent == snapshot.entries[j].is_parent
            && (if by_size {
            snapshot.entries[i].size == snapshot.entries[j].size
        } else {
            snapshot.entries[i].name == snapshot.entries[j].name
        }) implies #[trigger] order[i] < #[trigger] order[j] by {
        let text = ranks[order[i]].text;
        law_texts_are_in_byte_order(text, text);
        assert(crate::order::goes_before(ranks, order[i], order[j]));
        assert(ranks[order[i]] == ranks[order[j]]);
    }
    order
}

/// The total of a snapshot is the sum of what its rows show, where that fits in
/// 64 bits; its counters and lists are those of the scan.
pub proof fn law_snapshot_agrees_with_the_scan(
    snapshot: SnapshotView,
    scan: ScanView,
    entries: Seq<EntryView>,
    by_size: bool,
)
    requires
        crate::snapshot::is_snapshot_of(snapshot, scan, entries, by_size),
        rows_total(snapshot.entries) <= u64::MAX,
    ensures
        snapshot.total_entry_size == rows_total(snapshot.entries),
        snapshot.scanning == scan.scanning,
        snapshot.files_scanned == scan.files_scanned,
        snapshot.dirs_scanned == scan.dirs_scanned,
        snapshot.total_bytes == scan.total_bytes,
        snapshot.top_files == scan.top_files,
        snapshot.top_dirs == scan.top_dirs,
        snapshot.top_exts == scan.top_exts,
        snapshot.deepest == scan.deepest_path,
        snapshot.scan_start == scan.scan_start,
{
    crate::snapshot::law_snapshot_permutes(snapshot, scan, entries, by_size);
    lemma_total_of_permuted(snapshot.entries, crate::snapshot::shown_rows(entries, scan));
    lemma_total_of_shown(entries, scan);
}

/// Whether a text comes before another as bytes do: they are alike up to some
/// place, where the first ends or has the smaller byte.
pub open spec fn comes_before(a: Seq<u8>, b: Seq<u8>) -> bool {
    exists|k: int|
        0 <= k <= a.len() && k < b.len() && a.take(k) == #[trigger] b.take(k) && (k == a.len()
            || a[k] < b[k])
}

/// Texts are in the order of their first difference, and a beginning comes
/// before what goes on.
pub proof fn law_texts_are_in_byte_order(a: Seq<u8>, b: Seq<u8>)
    ensures
        crate::order::text_before(a, b) <==> comes_before(a, b),
    decreases a.len(),
{
    if b.len() > 0 && a.len() > 0 {
        let c = a.drop_first();
        let d = b.drop_first();
        law_texts_are_in_byte_order(c, d);
        if a[0] < b[0] {
            assert(a.take(0) =~= b.take(0));
        }
        if a[0] == b[0] && comes_before(c, d) {
            let k = choose|k: int|
                0 <= k <= c.len() && k < d.len() && c.take(k) == #[trigger] d.take(k) && (k
                    == c.len() || c[k] < d[k]);
            assert forall|i: int| 0 <= i < k + 1 implies #[trigger] a[i] == b[i] by {
                if i > 0 {
                    assert(c.take(k)[i - 1] == d.take(k)[i - 1]);
                }
            }
            assert(a.take(k + 1) =~= b.take(k + 1));
        }
        if comes_before(a, b) {
            let k = choose|k: int|
                0 <= k <= a.len() && k < b.len() && a.take(k) == #[trigger] b.take(k) && (k
                    == a.len() || a[k] < b[k]);
            if k > 0 {
                assert(a.take(k)[0] == b.take(k)[0]);
                assert forall|i: int| 0 <= i < k - 1 implies #[trigger] c[i] == d[i] by {
                    assert(a.take(k)[i + 1] == b.take(k)[i + 1]);
                }
                assert(c.take(k - 1) =~= d.take(k - 1));
            }
        }
    } else if b.len() > 0 {
        assert(a.take(0) =~= b.take(0));
    }
}

/// The rows of a snapshot are in the order that was asked for: the row that
/// leads to the parent first, and then none is larger than one above it, or
/// none comes before one above it by the lowercase of its name.
pub proof fn law_snapshot_is_in_order(
    snapshot: SnapshotView,
    scan: ScanView,
    entries: Seq<EntryView>,
    by_size: bool,
    i: int,
    j: int,
)
    requires
        crate::snapshot::is_snapshot_of(snapshot, scan, entries, by_size),
        0 <= i < j < snapshot.entries.len(),
    ensures
        ({
            let above = snapshot.entries[i];
            let below = snapshot.entries[j];
            &&& below.is_parent ==> above.is_parent
            &&& by_size && above.is_parent == below.is_parent ==> below.size <= above.size
            &&& !by_size && above.is_parent == below.is_parent ==> !comes_before(
                vstd::utf8::encode_utf8(crate::text::lowercase_text(below.name)),
                vstd::utf8::encode_utf8(crate::text::lowercase_text(above.name)),
            )
        }),
{
    crate::snapshot::law_snapshot_rows(snapshot, scan, entries, by_size, i, j);
    law_texts_are_in_byte_order(
        vstd::utf8::encode_utf8(crate::text::lowercase_text(snapshot.entries[j].name)),
        vstd::utf8::encode_utf8(crate::text::lowercase_text(snapshot.entries[i].name)),
    );
}

/// The size and the state of a row of a listing: a directory has what the scan
/// has for its path, a file what was listed, the row that leads to the parent
/// nothing.
pub proof fn law_row_has_its_size(entry: EntryView, scan: ScanView)
    ensures
        entry.is_parent ==> entry.size_now(scan) == 0,
        !entry.is_parent && !entry.is_dir ==> entry.size_now(scan) == entry.file_size,
        !entry.is_parent && entry.is_dir && scan.dir_sizes.contains_key(entry.path.at)
            ==> entry.size_now(scan) == scan.dir_sizes[entry.path.at],
        !entry.is_parent && entry.is_dir && !scan.dir_sizes.contains_key(entry.path.at)
            ==> entry.size_now(scan) == 0,
        entry.scanning_now(scan) ==> entry.is_dir && !entry.is_parent && scan.scanning,
        entry.is_dir && !entry.is_parent && scan.scanning ==> (entry.scanning_now(scan)
            <==> !scan.completed.contains(entry.path.at)),
{
}

/// What a file or a directory of a listing is shown as.
pub open spec fn is_row_of(row: EntryView, listed: ListedView) -> bool {
    &&& row.name == crate::text::lossy_text(listed.name)
    &&& row.path == crate::util::without_unc_prefix(listed.path)
    &&& !row.is_parent
    &&& match listed.kind {
        ListedKind::Dir => row.is_dir && row.file_size == 0,
        ListedKind::File { blocks: Some(blocks) } => !row.is_dir && row.file_size == blocks
            * 512,
        ListedKind::File { blocks: None } => !row.is_dir && row.file_size == 0,
        _ => false,
    }
}

/// Whether a row leads up from a directory.
pub open spec fn is_way_up(row: EntryView, dir: SpelledView) -> bool {
    &&& row.is_parent
    &&& row.is_dir
    &&& row.name == ".."@
    &&& row.file_size == 0
    &&& dir.parent() == Some(row.path)
}

proof fn lemma_rows_of(list: Seq<ListedView>)
    requires
        crate::app::listing_fits(Some(list)),
    ensures
        ({
            let rows = crate::app::rows_of(list);
            &&& forall|i: int|
                0 <= i < list.len() && ((#[trigger] list[i]).kind is Dir || list[i].kind is File)
                    ==> exists|k: int|
                    0 <= k < rows.len() && is_row_of(#[trigger] rows[k], list[i])
            &&& forall|k: int|
                0 <= k < rows.len() ==> exists|i: int|
                    0 <= i < list.len() && is_row_of(#[trigger] rows[k], #[trigger] list[i])
            &&& rows.len() == list.filter(
                |e: ListedView| e.kind is Dir || e.kind is File,
            ).len()
        }),
    decreases list.len(),
{
    reveal(Seq::filter);
    let rows = crate::app::rows_of(list);
    if list.len() > 0 {
        let rest = list.drop_last();
        assert forall|i: int| 0 <= i < rest.len() implies crate::app::listed_size(
            (#[trigger] rest[i]).kind,
        ) <= u64::MAX by {
            assert(rest[i] == list[i]);
        }
        lemma_rows_of(rest);
        let before = crate::app::rows_of(rest);
        let last = list[list.len() - 1];
        assert(crate::app::listed_size(last.kind) <= u64::MAX);
        if crate::app::is_shown(last.kind) {
            assert(is_row_of(rows[before.len() as int], last));
        }
        assert forall|i: int|
            0 <= i < list.len() && ((#[trigger] list[i]).kind is Dir || list[i].kind
                is File) implies exists|k: int|
            0 <= k < rows.len() && is_row_of(#[trigger] rows[k], list[i]) by {
            if i < rest.len() {
                assert(rest[i] == list[i]);
                let k = choose|k: int|
                    0 <= k < before.len() && is_row_of(#[trigger] before[k], rest[i]);
                assert(rows[k] == before[k]);
            } else {
                assert(is_row_of(rows[before.len() as int], last));
            }
        }
        assert forall|k: int| 0 <= k < rows.len() implies exists|i: int|
            0 <= i < list.len() && is_row_of(#[trigger] rows[k], #[trigger] list[i]) by {
            if k < before.len() {
                assert(rows[k] == before[k]);
                let i = choose|i: int|
                    0 <= i < rest.len() && is_row_of(before[k], #[trigger] rest[i]);
                assert(rest[i] == list[i]);
            } else {
                assert(is_row_of(rows[k], list[list.len() - 1]));
            }
        }
    }
}

/// A listing shows each file and each directory that was read, by name, with
/// 512 bytes for each block of a file, nothing else that was read, and the way
/// up from the directory if there is one.
#[verifier::spinoff_prover]
pub proof fn law_listing_shows_what_was_read(app: AppView, list: Seq<ListedView>, after: AppView)
    requires
        crate::app::listing_fits(Some(list)),
        app.loads_to(Some(list), after),
    ensures
        forall|i: int|
            0 <= i < list.len() && ((#[trigger] list[i]).kind is Dir || list[i].kind is File)
                ==> exists|k: int|
                0 <= k < after.entries.len() && is_row_of(#[trigger] after.entries[k], list[i]),
        forall|k: int|
            0 <= k < after.entries.len() ==> is_way_up(#[trigger] after.entries[k], app.current_dir)
                || exists|i: int|
                0 <= i < list.len() && is_row_of(after.entries[k], #[trigger] list[i]),
        app.current_dir.parent() is Some ==> after.entries.len() > 0 && is_way_up(
            after.entries[0],
            app.current_dir,
        ),
        after.entries.len() == list.filter(
            |e: ListedView| e.kind is Dir || e.kind is File,
        ).len() + if app.current_dir.parent() is Some {
            1int
        } else {
            0int
        },
        after == (AppView { entries: after.entries, entry_source: after.entries, ..app }),
{
    lemma_rows_of(list);
    let first = crate::app::parent_rows(app.current_dir);
    let rows = crate::app::rows_of(list);
    let before = first + rows;
    let rank = crate::app::entry_rank(app.sort_by_size, app.scan);
    let ranks = before.map_values(rank);
    let order = choose|order: Seq<int>| #[trigger]
        crate::order::is_stable_order(ranks, order) && after.entries == crate::order::picked(
            before,
            order,
        );
    assert forall|i: int|
        0 <= i < list.len() && ((#[trigger] list[i]).kind is Dir || list[i].kind
            is File) implies exists|k: int|
        0 <= k < after.entries.len() && is_row_of(#[trigger] after.entries[k], list[i]) by {
        let m = choose|m: int| 0 <= m < rows.len() && is_row_of(#[trigger] rows[m], list[i]);
        let p = first.len() as int + m;
        assert(before[p] == rows[m]);
        crate::order::lemma_order_names_every_place(ranks, order, p);
        let k = choose|k: int| 0 <= k < order.len() && order[k] == p;
        assert(after.entries[k] == before[p]);
    }
    assert forall|k: int| 0 <= k < after.entries.len() implies is_way_up(
        #[trigger] after.entries[k],
        app.current_dir,
    ) || exists|i: int| 0 <= i < list.len() && is_row_of(after.entries[k], #[trigger] list[i]) by {
        let p = order[k];
        assert(0 <= p < before.len());
        assert(after.entries[k] == before[p]);
        if p >= first.len() {
            let m = p - first.len();
            assert(before[p] == rows[m]);
            let i = choose|i: int|
                0 <= i < list.len() && is_row_of(rows[m], #[trigger] list[i]);
            assert(is_row_of(after.entries[k], list[i]));
        }
    }
    if app.current_dir.parent() is Some {
        crate::order::lemma_order_names_every_place(ranks, order, 0);
        let k = choose|k: int| 0 <= k < order.len() && order[k] == 0;
        assert(before[0] == first[0]);
        assert(after.entries[k] == before[0]);
        assert(is_way_up(after.entries[k], app.current_dir));
        crate::order::law_sorted_rows_are_in_order(before, after.entries, rank);
        if k > 0 {
            assert(!rank(after.entries[k]).before(rank(after.entries[0])));
            assert(is_way_up(after.entries[0], app.current_dir) || exists|i: int|
                0 <= i < list.len() && is_row_of(after.entries[0], #[trigger] list[i]));
            assert(after.entries[0].is_parent);
        }
    }
}

/// A directory that could not be read shows the way up and nothing else.
pub proof fn law_unread_listing_is_empty(app: AppView, after: AppView)
    requires
        app.loads_to(None, after),
    ensures
        after == (AppView { entries: after.entries, entry_source: after.entries, ..app }),
        app.current_dir.parent() is None ==> after.entries.len() == 0,
        app.current_dir.parent() is Some ==> after.entries.len() == 1 && is_way_up(
            after.entries[0],
            app.current_dir,
        ),
{
}

/// The rows of a listing are in order: the row that leads to the parent first,
/// and then none has more bytes than one above it, or none comes before one
/// above it by the lowercase of its name.
#[verifier::spinoff_prover]
pub proof fn law_listing_is_in_order(app: AppView, after: AppView, i: int, j: int)
    requires
        app.sorts_to(after),
        0 <= i < j < after.entries.len(),
    ensures
        ({
            let above = after.entries[i];
            let below = after.entries[j];
            let sizes = app.scan.dir_sizes;
            &&& below.is_parent ==> above.is_parent
            &&& app.sort_by_size && !above.is_parent && !below.is_parent && !above.is_dir
                && !below.is_dir ==> below.file_size <= above.file_size
            &&& app.sort_by_size && !above.is_parent && !below.is_parent && above.is_dir
                && below.is_dir && sizes.contains_key(below.path.at) ==> sizes.contains_key(
                above.path.at,
            ) && sizes[below.path.at] <= sizes[above.path.at] || sizes[below.path.at] == 0
            &&& app.sort_by_size && !above.is_parent && !below.is_parent && above.is_dir
                && !below.is_dir ==> sizes.contains_key(above.path.at) && below.file_size
                <= sizes[above.path.at] || below.file_size == 0
            &&& app.sort_by_size && !above.is_parent && !below.is_parent && !above.is_dir
                && below.is_dir && sizes.contains_key(below.path.at) ==> sizes[below.path.at]
                <= above.file_size
            &&& !app.sort_by_size && above.is_parent == below.is_parent ==> !comes_before(
                vstd::utf8::encode_utf8(crate::text::lowercase_text(below.name)),
                vstd::utf8::encode_utf8(crate::text::lowercase_text(above.name)),
            )
        }),
        after == (AppView { entries: after.entries, entry_source: after.entries, ..app }),
        after.entries.to_multiset() == app.entries.to_multiset(),
{
    let rank = crate::app::entry_rank(app.sort_by_size, app.scan);
    crate::order::law_sorted_rows_are_in_order(app.entries, after.entries, rank);
    crate::order::law_sorting_permutes(app.entries, after.entries, rank);
    assert(!rank(after.entries[j]).before(rank(after.entries[i])));
    law_texts_are_in_byte_order(
        vstd::utf8::encode_utf8(crate::text::lowercase_text(after.entries[j].name)),
        vstd::utf8::encode_utf8(crate::text::lowercase_text(after.entries[i].name)),
    );
}

/// A row is found by its path: the first that has it, if any has.
pub proof fn law_row_is_found_by_path(entries: Seq<EntryView>, path: PathView)
    ensures
        match crate::app::row_at(entries, path) {
            Some(i) => {
                &&& 0 <= i < entries.len()
                &&& entries[i].path.at == path
                &&& forall|k: int| 0 <= k < i ==> (#[trigger] entries[k]).path.at != path
            },
            None => forall|k: int|
                0 <= k < entries.len() ==> (#[trigger] entries[k]).path.at != path,
        },
    decreases entries.len(),
{
    if entries.len() > 0 {
        let rest = entries.drop_last();
        law_row_is_found_by_path(rest, path);
        assert forall|k: int| 0 <= k < rest.len() implies rest[k] == entries[k] by {}
    }
}

/// A listing can be shown unless a file has more bytes than 64 bits can hold.
pub proof fn law_listing_finds_room(list: Seq<ListedView>)
    requires
        forall|i: int|
            0 <= i < list.len() ==> match (#[trigger] list[i]).kind {
                ListedKind::File { blocks: Some(blocks) } => blocks * 512 <= u64::MAX,
                _ => true,
            },
    ensures
        crate::app::listing_fits(Some(list)),
        crate::app::listing_fits(None),
{
}

/// A row as a tuple is name, path, whether it is a directory, whether it leads
/// to the parent, and file size, in this order.
pub proof fn law_row_as_a_tuple(row: (String, FsPath, bool, bool, u64))
    ensures
        crate::snapshot::source_view(row).name == row.0@,
        crate::snapshot::source_view(row).path.at == row.1@,
        crate::snapshot::source_view(row).path.bytes == row.1.spelling(),
        crate::snapshot::source_view(row).is_dir == row.2,
        crate::snapshot::source_view(row).is_parent == row.3,
        crate::snapshot::source_view(row).file_size == row.4,
{
}

} // verus!
