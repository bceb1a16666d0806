//! The drives and mount points to choose from.
use vstd::prelude::*;
use vstd::string::StringExecFns;

use crate::path::FsPath;
use crate::path::PathView;
use crate::path::SpelledView;
use crate::text::lossy;

verus! {

/// A drive or mount point.
#[verifier::ext_equal]
pub struct MountView {
    pub path: SpelledView,
    pub label: Seq<char>,
}

/// A drive or mount point.
#[derive(Debug)]
pub struct MountPoint {
    pub path: FsPath,
    pub label: String,
}

impl View for MountPoint {
    type V = MountView;

    open spec fn view(&self) -> MountView {
        MountView { path: self.path.named(), label: self.label@ }
    }
}

impl Clone for MountPoint {
    fn clone(&self) -> (r: MountPoint)
        ensures
            r@ == self@,
    {
        MountPoint { path: self.path.clone(), label: self.label.clone() }
    }
}

/// The views of a list of mount points.
pub open spec fn mount_views(list: Seq<MountPoint>) -> Seq<MountView> {
    Seq::new(list.len(), |i: int| list[i]@)
}

/// Whether a character is white space.
pub open spec fn is_space(c: char) -> bool {
    let n = c as u32;
    ||| 9 <= n <= 13
    ||| n == 0x20
    ||| n == 0x85
    ||| n == 0xa0
    ||| n == 0x1680
    ||| 0x2000 <= n <= 0x200a
    ||| n == 0x2028
    ||| n == 0x2029
    ||| n == 0x202f
    ||| n == 0x205f
    ||| n == 0x3000
}

/// The pieces between line feeds.
pub open spec fn lines_of(text: Seq<char>) -> Seq<Seq<char>>
    decreases text.len(),
{
    if text.len() == 0 {
        seq![Seq::empty()]
    } else {
        let before = lines_of(text.drop_last());
        if text.last() == '\n' {
            before.push(Seq::empty())
        } else {
            before.drop_last().push(before.last().push(text.last()))
        }
    }
}

/// The longest runs of characters that are not white space.
pub open spec fn words_of(line: Seq<char>) -> Seq<Seq<char>>
    decreases line.len(),
{
    if line.len() == 0 {
        Seq::empty()
    } else {
        let before = words_of(line.drop_last());
        if is_space(line.last()) {
            before
        } else if line.len() == 1 || is_space(line[line.len() - 2]) {
            before.push(seq![line.last()])
        } else {
            before.drop_last().push(before.last().push(line.last()))
        }
    }
}

/// Whether a mount path is the root or lies with the virtual file systems.
pub open spec fn is_passed_over(path: Seq<char>) -> bool {
    ||| path == "/"@
    ||| "/proc"@.is_prefix_of(path)
    ||| "/sys"@.is_prefix_of(path)
    ||| "/dev"@.is_prefix_of(path)
    ||| "/run"@.is_prefix_of(path)
    ||| "/snap"@.is_prefix_of(path)
}

/// Whether a line of a mount table names a mount point to offer: it has a
/// device and a path, and the path is not one that is passed over.
pub open spec fn names_mount(line: Seq<char>) -> bool {
    words_of(line).len() >= 2 && !is_passed_over(words_of(line)[1])
}

/// The mount point that a line names: its path, labelled with path and device.
pub open spec fn mount_of(line: Seq<char>) -> MountView {
    let device = words_of(line)[0];
    let path = words_of(line)[1];
    MountView {
        path: crate::path::spelled(vstd::utf8::encode_utf8(path)),
        label: path + " ("@ + device + ")"@,
    }
}

/// The mount points that lines name.
pub open spec fn mounts_in(lines: Seq<Seq<char>>) -> Seq<MountView>
    decreases lines.len(),
{
    if lines.len() == 0 {
        Seq::empty()
    } else if names_mount(lines.last()) {
        mounts_in(lines.drop_last()).push(mount_of(lines.last()))
    } else {
        mounts_in(lines.drop_last())
    }
}

/// The first table that could be read.
pub open spec fn first_table(tables: Seq<Option<String>>) -> Option<Seq<char>>
    decreases tables.len(),
{
    if tables.len() == 0 {
        None
    } else {
        match tables[0] {
            Some(table) => Some(table@),
            None => first_table(tables.drop_first()),
        }
    }
}

/// Those of a list that are present.
pub open spec fn present_ones(list: Seq<MountView>, present: Seq<bool>) -> Seq<MountView>
    decreases list.len(),
{
    if list.len() == 0 {
        Seq::empty()
    } else {
        let before = present_ones(list.drop_last(), present);
        if present[list.len() - 1] {
            before.push(list.last())
        } else {
            before
        }
    }
}

/// Whether a path is in a list.
pub open spec fn has_path(list: Seq<MountView>, path: PathView) -> bool {
    exists|i: int| 0 <= i < list.len() && (#[trigger] list[i]).path.at == path
}

/// The list with volumes added whose paths are not in it yet.
pub open spec fn with_volumes(
    list: Seq<MountView>,
    volumes: Seq<(SpelledView, Seq<u8>)>,
) -> Seq<MountView>
    decreases volumes.len(),
{
    if volumes.len() == 0 {
        list
    } else {
        let before = with_volumes(list, volumes.drop_last());
        let (path, name) = volumes.last();
        if has_path(before, path.at) {
            before
        } else {
            before.push(
                MountView { path, label: "/Volumes/"@ + crate::text::lossy_text(name) },
            )
        }
    }
}

/// The root of the file system.
pub open spec fn root_mount() -> MountView {
    MountView { path: crate::path::spelled(vstd::utf8::encode_utf8("/"@)), label: "/"@ }
}

/// The views of a list of volumes.
pub open spec fn volume_views(volumes: Seq<(FsPath, Vec<u8>)>) -> Seq<(SpelledView, Seq<u8>)> {
    Seq::new(volumes.len(), |i: int| (volumes[i].0.named(), volumes[i].1@))
}

fn space_char(c: char) -> (r: bool)
    ensures
        r == is_space(c),
{
    let n: u32 = c as u32;
    (9 <= n && n <= 13) || n == 0x20 || n == 0x85 || n == 0xa0 || n == 0x1680 || (0x2000 <= n && n
        <= 0x200a) || n == 0x2028 || n == 0x2029 || n == 0x202f || n == 0x205f || n == 0x3000
}

/// The views of a list of pieces of text.
pub open spec fn piece_views(pieces: Seq<Vec<char>>) -> Seq<Seq<char>> {
    Seq::new(pieces.len(), |i: int| pieces[i]@)
}

fn split_lines(text: &Vec<char>) -> (r: Vec<Vec<char>>)
    ensures
        piece_views(r@) == lines_of(text@),
{
    let mut out: Vec<Vec<char>> = Vec::new();
    out.push(Vec::new());
    assert(piece_views(out@) =~= lines_of(text@.take(0)));
    let mut i: usize = 0;
    while i < text.len()
        invariant
            i <= text@.len(),
            out@.len() > 0,
            piece_views(out@) == lines_of(text@.take(i as int)),
        decreases text@.len() - i,
    {
        assert(text@.take(i + 1).drop_last() =~= text@.take(i as int));
        let ghost before = out@;
        let c: char = text[i];
        if c == '\n' {
            out.push(Vec::new());
            assert(piece_views(out@) =~= piece_views(before).push(Seq::empty()));
        } else {
            let last: usize = out.len() - 1;
            out[last].push(c);
            assert(piece_views(out@) =~= piece_views(before).drop_last().push(
                piece_views(before).last().push(c),
            ));
        }
        i += 1;
    }
    assert(text@.take(text@.len() as int) =~= text@);
    out
}

fn split_words(line: &Vec<char>) -> (r: Vec<Vec<char>>)
    ensures
        piece_views(r@) == words_of(line@),
{
    let mut out: Vec<Vec<char>> = Vec::new();
    assert(piece_views(out@) =~= words_of(line@.take(0)));
    let mut i: usize = 0;
    while i < line.len()
        invariant
            i <= line@.len(),
            i > 0 && !is_space(line@[i - 1]) ==> out@.len() > 0,
            piece_views(out@) == words_of(line@.take(i as int)),
        decreases line@.len() - i,
    {
        assert(line@.take(i + 1).drop_last() =~= line@.take(i as int));
        assert(i > 0 ==> line@.take(i + 1)[i - 1] == line@[i - 1]);
        let ghost before = out@;
        let c: char = line[i];
        if !space_char(c) {
            if i == 0 || space_char(line[i - 1]) {
                let mut word: Vec<char> = Vec::new();
                word.push(c);
                assert(word@ =~= seq![c]);
                out.push(word);
                assert(piece_views(out@) =~= piece_views(before).push(seq![c]));
            } else {
                let last: usize = out.len() - 1;
                out[last].push(c);
                assert(piece_views(out@) =~= piece_views(before).drop_last().push(
                    piece_views(before).last().push(c),
                ));
            }
        }
        i += 1;
    }
    assert(line@.take(line@.len() as int) =~= line@);
    out
}

fn has_prefix(text: &Vec<char>, prefix: &str) -> (r: bool)
    ensures
        r == prefix@.is_prefix_of(text@),
{
    let letters = crate::text::chars_of(prefix);
    if letters.len() > text.len() {
        return false;
    }
    let mut i: usize = 0;
    while i < letters.len()
        invariant
            letters@ == prefix@,
            i <= letters@.len() <= text@.len(),
            forall|k: int| 0 <= k < i ==> letters@[k] == text@[k],
        decreases letters@.len() - i,
    {
        if letters[i] != text[i] {
            assert(text@.subrange(0, letters@.len() as int)[i as int] == text@[i as int]);
            return false;
        }
        i += 1;
    }
    assert(letters@ =~= text@.subrange(0, letters@.len() as int));
    true
}

fn passed_over(path: &Vec<char>) -> (r: bool)
    ensures
        r == is_passed_over(path@),
{
    proof {
        reveal_strlit("/");
        assert(path@.len() == 1 && "/"@.is_prefix_of(path@) ==> path@ =~= "/"@);
    }
    (path.len() == 1 && has_prefix(path, "/")) || has_prefix(path, "/proc") || has_prefix(
        path,
        "/sys",
    ) || has_prefix(path, "/dev") || has_prefix(path, "/run") || has_prefix(path, "/snap")
}

/// The mount points that the first readable mount table offers; whether each
/// is there is still to be asked.
pub fn mount_candidates(tables: &Vec<Option<String>>) -> (r: Vec<MountPoint>)
    ensures
        mount_views(r@) == match first_table(tables@) {
            Some(table) => mounts_in(lines_of(table)),
            None => Seq::empty(),
        },
{
    let mut t: usize = 0;
    assert(tables@.skip(0) =~= tables@);
    while t < tables.len()
        invariant
            t <= tables@.len(),
            first_table(tables@.skip(t as int)) == first_table(tables@),
        decreases tables@.len() - t,
    {
        assert(tables@.skip(t as int)[0] == tables@[t as int]);
        assert(tables@.skip(t as int).drop_first() =~= tables@.skip(t + 1));
        match &tables[t] {
            Some(table) => {
                return table_mounts(table.as_str());
            },
            None => {},
        }
        t += 1;
    }
    let none: Vec<MountPoint> = Vec::new();
    assert(mount_views(none@) =~= Seq::<MountView>::empty());
    none
}

fn table_mounts(table: &str) -> (r: Vec<MountPoint>)
    ensures
        mount_views(r@) == mounts_in(lines_of(table@)),
{
    let chars = crate::text::chars_of(table);
    let lines = split_lines(&chars);
    let ghost views = piece_views(lines@);
    let mut out: Vec<MountPoint> = Vec::new();
    let mut i: usize = 0;
    assert(mount_views(out@) =~= mounts_in(views.take(0)));
    while i < lines.len()
        invariant
            i <= lines@.len(),
            views == piece_views(lines@),
            mount_views(out@) == mounts_in(views.take(i as int)),
        decreases lines@.len() - i,
    {
        assert(views.take(i + 1).drop_last() =~= views.take(i as int));
        assert(views.take(i + 1).last() == lines@[i as int]@);
        let words = split_words(&lines[i]);
        let ghost parts = piece_views(words@);
        if words.len() >= 2 {
            assert(parts[0] == words@[0]@ && parts[1] == words@[1]@);
            if !passed_over(&words[1]) {
                let place = crate::text::text_of(&words[1]);
                let device = crate::text::text_of(&words[0]);
                let path = FsPath::from_bytes(&crate::text::bytes_of(place.as_str()));
                let label = place.concat(" (").concat(device.as_str()).concat(")");
                let mount = MountPoint { path, label };
                let ghost before = out@;
                assert(mount@ =~= mount_of(lines@[i as int]@));
                out.push(mount);
                assert(mount_views(out@) =~= mount_views(before).push(mount@));
            }
        }
        i += 1;
    }
    assert(views.take(views.len() as int) =~= views);
    out
}

/// The mount points to choose from: the root, those of `candidates` that are
/// `present`, and the volumes that are not among them.
pub fn list_mounts(
    candidates: &Vec<MountPoint>,
    present: &Vec<bool>,
    volumes: &Vec<(FsPath, Vec<u8>)>,
) -> (r: Vec<MountPoint>)
    requires
        candidates@.len() == present@.len(),
    ensures
        mount_views(r@) == with_volumes(
            seq![root_mount()] + present_ones(mount_views(candidates@), present@),
            volume_views(volumes@),
        ),
{
    let mut out: Vec<MountPoint> = Vec::new();
    let ghost listed = mount_views(candidates@);
    out.push(
        MountPoint {
            path: FsPath::from_bytes(&crate::text::bytes_of("/")),
            label: String::from_str("/"),
        },
    );
    let mut i: usize = 0;
    assert(mount_views(out@) =~= seq![root_mount()] + present_ones(listed.take(0), present@));
    while i < candidates.len()
        invariant
            i <= candidates@.len(),
            candidates@.len() == present@.len(),
            listed == mount_views(candidates@),
            mount_views(out@) == seq![root_mount()] + present_ones(
                listed.take(i as int),
                present@,
            ),
        decreases candidates@.len() - i,
    {
        assert(listed.take(i + 1).drop_last() =~= listed.take(i as int));
        assert(listed.take(i + 1).last() == candidates@[i as int]@);
        if present[i] {
            let ghost before = out@;
            let mount = candidates[i].clone();
            out.push(mount);
            assert(mount_views(out@) =~= mount_views(before).push(mount@));
            assert((seq![root_mount()] + present_ones(listed.take(i as int), present@)).push(mount@)
                =~= seq![root_mount()] + present_ones(listed.take(i as int), present@).push(
                mount@,
            ));
        }
        i += 1;
    }
    assert(listed.take(listed.len() as int) =~= listed);
    let ghost base = mount_views(out@);
    let ghost more = volume_views(volumes@);
    let mut j: usize = 0;
    assert(more.take(0) =~= Seq::<(SpelledView, Seq<u8>)>::empty());
    while j < volumes.len()
        invariant
            j <= volumes@.len(),
            more == volume_views(volumes@),
            mount_views(out@) == with_volumes(base, more.take(j as int)),
        decreases volumes@.len() - j,
    {
        assert(more.take(j + 1).drop_last() =~= more.take(j as int));
        assert(more.take(j + 1).last() == (volumes@[j as int].0.named(), volumes@[j as int].1@));
        if !lists_path(&out, &volumes[j].0) {
            let ghost before = out@;
            let name = lossy(&volumes[j].1);
            let mount = MountPoint {
                path: volumes[j].0.clone(),
                label: String::from_str("/Volumes/").concat(name.as_str()),
            };
            out.push(mount);
            assert(mount_views(out@) =~= mount_views(before).push(mount@));
        }
        j += 1;
    }
    assert(more.take(more.len() as int) =~= more);
    out
}

fn lists_path(list: &Vec<MountPoint>, path: &FsPath) -> (r: bool)
    ensures
        r == has_path(mount_views(list@), path@),
{
    let mut i: usize = 0;
    while i < list.len()
        invariant
            i <= list@.len(),
            forall|k: int| 0 <= k < i ==> (#[trigger] list@[k])@.path.at != path@,
        decreases list@.len() - i,
    {
        if list[i].path.same(path) {
            assert(mount_views(list@)[i as int].path.at == path@);
            return true;
        }
        i += 1;
    }
    assert(!has_path(mount_views(list@), path@)) by {
        if has_path(mount_views(list@), path@) {
            let k = choose|k: int|
                0 <= k < list@.len() && (#[trigger] mount_views(list@)[k]).path.at == path@;
            assert(list@[k]@.path.at == path@);
        }
    }
    false
}

/// The path that a drive letter stands for, which is also its label.
pub open spec fn drive_text(letter: int) -> Seq<char> {
    seq![('A' as u32 + letter) as char, ':', '\\']
}

/// The drives among the first `n` letters that are present.
pub open spec fn drives_present(n: nat, present: Seq<bool>) -> Seq<MountView>
    decreases n,
{
    if n == 0 {
        Seq::empty()
    } else {
        let before = drives_present((n - 1) as nat, present);
        let text = drive_text(n - 1);
        if present[n - 1] {
            before.push(
                MountView {
                    path: crate::path::spelled(vstd::utf8::encode_utf8(text)),
                    label: text,
                },
            )
        } else {
            before
        }
    }
}

/// How many drive letters there are.
pub const DRIVES: usize = 26;

/// The drives to choose from on Windows: the letters whose drive is `present`.
pub fn list_mounts_windows(present: &Vec<bool>) -> (r: Vec<MountPoint>)
    requires
        present@.len() == DRIVES,
    ensures
        mount_views(r@) == drives_present(DRIVES as nat, present@),
{
    let letters = crate::text::chars_of("ABCDEFGHIJKLMNOPQRSTUVWXYZ");
    proof {
        reveal_strlit("ABCDEFGHIJKLMNOPQRSTUVWXYZ");
    }
    let mut out: Vec<MountPoint> = Vec::new();
    let mut i: usize = 0;
    assert(mount_views(out@) =~= drives_present(0, present@));
    while i < DRIVES
        invariant
            i <= DRIVES,
            present@.len() == DRIVES,
            letters@.len() == DRIVES,
            forall|k: int| 0 <= k < DRIVES ==> #[trigger] letters@[k] == ('A' as u32 + k) as char,
            mount_views(out@) == drives_present(i as nat, present@),
        decreases DRIVES - i,
    {
        if present[i] {
            let mut text: Vec<char> = Vec::new();
            text.push(letters[i]);
            text.push(':');
            text.push('\\');
            assert(text@ =~= drive_text(i as int));
            let label = crate::text::text_of(&text);
            let mount = MountPoint {
                path: FsPath::from_bytes(&crate::text::bytes_of(label.as_str())),
                label,
            };
            let ghost before = out@;
            out.push(mount);
            assert(mount_views(out@) =~= mount_views(before).push(mount@));
        }
        i += 1;
    }
    out
}

proof fn lemma_lines_nonempty(text: Seq<char>)
    ensures
        lines_of(text).len() > 0,
    decreases text.len(),
{
    if text.len() > 0 {
        lemma_lines_nonempty(text.drop_last());
    }
}

/// A line feed parts two texts into their own lines, and without one a text is
/// one line.
pub proof fn law_lines_are_between_line_feeds(a: Seq<char>, b: Seq<char>)
    ensures
        lines_of(a.push('\n') + b) == lines_of(a) + lines_of(b),
        !a.contains('\n') ==> lines_of(a) == seq![a],
    decreases a.len() + b.len(),
{
    lemma_lines_nonempty(a);
    lemma_lines_nonempty(b);
    if b.len() == 0 {
        assert(a.push('\n') + b =~= a.push('\n'));
        assert(a.push('\n').drop_last() =~= a);
        assert(lines_of(a).push(Seq::empty()) =~= lines_of(a) + lines_of(b));
        if a.len() > 0 {
            let rest = a.drop_last();
            law_lines_are_between_line_feeds(rest, b);
            if !a.contains('\n') {
                assert(a.last() != '\n') by {
                    assert(a[a.len() - 1] == a.last());
                }
                assert(!rest.contains('\n')) by {
                    if rest.contains('\n') {
                        let k = choose|k: int| 0 <= k < rest.len() && rest[k] == '\n';
                        assert(a[k] == '\n');
                    }
                }
                assert(rest.push(a.last()) =~= a);
                assert(lines_of(a) =~= seq![a]);
            }
        } else {
            assert(a =~= Seq::<char>::empty());
            assert(lines_of(a) =~= seq![a]);
        }
    } else {
        let rest = b.drop_last();
        law_lines_are_between_line_feeds(a, rest);
        lemma_lines_nonempty(rest);
        let whole = a.push('\n') + b;
        assert(whole.drop_last() =~= a.push('\n') + rest);
        assert(lines_of(whole) =~= lines_of(a) + lines_of(b));
    }
}

proof fn lemma_words_nonempty(line: Seq<char>)
    ensures
        line.len() > 0 && !is_space(line.last()) ==> words_of(line).len() > 0,
    decreases line.len(),
{
    if line.len() > 1 {
        lemma_words_nonempty(line.drop_last());
    }
}

/// White space parts two texts into their own words, and without any a text is
/// one word, or none if it is empty.
#[verifier::spinoff_prover]
pub proof fn law_words_are_between_spaces(a: Seq<char>, space: char, b: Seq<char>)
    requires
        is_space(space),
    ensures
        words_of(a.push(space) + b) == words_of(a) + words_of(b),
        a.len() > 0 && (forall|k: int| 0 <= k < a.len() ==> !is_space(#[trigger] a[k]))
            ==> words_of(a) == seq![a],
        words_of(Seq::<char>::empty()).len() == 0,
    decreases a.len() + b.len(),
{
    lemma_words_nonempty(b);
    if b.len() == 0 {
        assert(a.push(space) + b =~= a.push(space));
        assert(a.push(space).drop_last() =~= a);
        assert(words_of(a) =~= words_of(a) + words_of(b));
        if a.len() > 0 && (forall|k: int| 0 <= k < a.len() ==> !is_space(#[trigger] a[k])) {
            let rest = a.drop_last();
            law_words_are_between_spaces(rest, space, b);
            assert(!is_space(a[a.len() - 1]));
            if a.len() > 1 {
                assert(!is_space(a[a.len() - 2]));
                assert forall|k: int| 0 <= k < rest.len() implies !is_space(#[trigger] rest[k]) by {
                    assert(rest[k] == a[k]);
                }
                assert(rest.push(a.last()) =~= a);
                assert(words_of(a) =~= seq![a]);
            } else {
                assert(seq![a.last()] =~= a);
                assert(words_of(a) =~= seq![a]);
            }
        }
    } else {
        let rest = b.drop_last();
        law_words_are_between_spaces(a, space, rest);
        lemma_words_nonempty(rest);
        let whole = a.push(space) + b;
        assert(whole.drop_last() =~= a.push(space) + rest);
        if !is_space(b.last()) {
            if b.len() == 1 {
                assert(whole[whole.len() - 2] == space);
            } else {
                assert(whole[whole.len() - 2] == b[b.len() - 2]);
                assert(rest.last() == b[b.len() - 2]);
            }
        }
        assert(words_of(whole) =~= words_of(a) + words_of(b));
        if a.len() > 0 {
            law_words_are_between_spaces(a, space, Seq::empty());
        }
    }
}

/// Blanks, tabs and line ends are white space; what can be seen of ASCII is
/// not.
pub proof fn law_white_space(c: char)
    ensures
        c == ' ' || c == '\t' || c == '\n' || c == '\r' ==> is_space(c),
        33 <= c as u32 <= 126 ==> !is_space(c),
{
}

/// The mount points of two tables in a row are those of the first and those of
/// the second. A line with a device and a path, whatever follows, names the
/// path, unless that is the root or begins as the virtual file systems do; a
/// line with fewer words names none.
pub proof fn law_each_line_names_its_mount(a: Seq<Seq<char>>, b: Seq<Seq<char>>, line: Seq<char>)
    ensures
        mounts_in(a + b) == mounts_in(a) + mounts_in(b),
        words_of(line).len() < 2 ==> mounts_in(seq![line]).len() == 0,
        words_of(line).len() >= 2 ==> ({
            let path = words_of(line)[1];
            let device = words_of(line)[0];
            let named = mounts_in(seq![line]);
            if path == "/"@ || "/proc"@.is_prefix_of(path) || "/sys"@.is_prefix_of(path)
                || "/dev"@.is_prefix_of(path) || "/run"@.is_prefix_of(path)
                || "/snap"@.is_prefix_of(path) {
                named.len() == 0
            } else {
                &&& named.len() == 1
                &&& named[0].path.bytes == vstd::utf8::encode_utf8(path)
                &&& named[0].path.at == crate::path::path_of(vstd::utf8::encode_utf8(path))
                &&& named[0].label == path + " ("@ + device + ")"@
            }
        }),
    decreases b.len(),
{
    let one = seq![line];
    assert(one.drop_last() =~= Seq::<Seq<char>>::empty());
    assert(mounts_in(one.drop_last()) =~= Seq::<MountView>::empty());
    if b.len() == 0 {
        assert(a + b =~= a);
        assert(mounts_in(a) + mounts_in(b) =~= mounts_in(a));
    } else {
        law_each_line_names_its_mount(a, b.drop_last(), line);
        assert((a + b).drop_last() =~= a + b.drop_last());
        assert((a + b).last() == b.last());
        assert(mounts_in(a + b) =~= mounts_in(a) + mounts_in(b));
    }
}

/// The table is the first that could be read.
pub proof fn law_table_is_the_first_read(tables: Seq<Option<String>>)
    ensures
        first_table(tables) is None <==> forall|k: int|
            0 <= k < tables.len() ==> (#[trigger] tables[k]) is None,
        first_table(tables) is Some ==> exists|i: int|
            0 <= i < tables.len() && (#[trigger] tables[i]) is Some && first_table(tables)->0
                == tables[i]->0@ && forall|k: int|
                0 <= k < i ==> (#[trigger] tables[k]) is None,
    decreases tables.len(),
{
    if tables.len() > 0 && tables[0] is None {
        let rest = tables.drop_first();
        law_table_is_the_first_read(rest);
        assert forall|k: int| 0 < k < tables.len() implies tables[k] == rest[k - 1] by {}
        if first_table(tables) is Some {
            let i = choose|i: int|
                0 <= i < rest.len() && (#[trigger] rest[i]) is Some && first_table(rest)->0
                    == rest[i]->0@ && forall|k: int| 0 <= k < i ==> (#[trigger] rest[k]) is None;
            assert(tables[i + 1] == rest[i]);
            assert forall|k: int| 0 <= k < i + 1 implies (#[trigger] tables[k]) is None by {
                if k > 0 {
                    assert(rest[k - 1] is None);
                }
            }
        } else {
            assert forall|k: int| 0 <= k < tables.len() implies (#[trigger] tables[k]) is None by {
                if k > 0 {
                    assert(rest[k - 1] is None);
                }
            }
        }
        if forall|k: int| 0 <= k < tables.len() ==> (#[trigger] tables[k]) is None {
            assert forall|k: int| 0 <= k < rest.len() implies (#[trigger] rest[k]) is None by {
                assert(tables[k + 1] is None);
            }
        }
    } else if tables.len() > 0 {
        assert(tables[0] is Some);
    }
}

/// Each mount point stands or falls by itself: it is kept if it is present.
pub proof fn law_present_ones_are_kept(
    a: Seq<MountView>,
    some: Seq<bool>,
    b: Seq<MountView>,
    more: Seq<bool>,
    one: MountView,
)
    requires
        a.len() == some.len(),
        b.len() == more.len(),
    ensures
        present_ones(a + b, some + more) == present_ones(a, some) + present_ones(b, more),
        present_ones(seq![one], seq![true]) == seq![one],
        present_ones(seq![one], seq![false]).len() == 0,
    decreases b.len(),
{
    assert(seq![one].drop_last() =~= Seq::<MountView>::empty());
    assert(present_ones(seq![one].drop_last(), seq![true]) =~= Seq::<MountView>::empty());
    assert(present_ones(seq![one].drop_last(), seq![false]) =~= Seq::<MountView>::empty());
    assert(present_ones(seq![one], seq![true]) =~= seq![one]);
    if b.len() == 0 {
        assert(a + b =~= a);
        assert(some + more =~= some);
        assert(present_ones(a, some) + present_ones(b, more) =~= present_ones(a, some));
    } else {
        let rest = b.drop_last();
        let flags = more.drop_last();
        law_present_ones_are_kept(a, some, rest, flags, one);
        let whole = a + b;
        assert(whole.drop_last() =~= a + rest);
        lemma_present_looks_at_its_own(a + rest, some + flags, some + more);
        lemma_present_looks_at_its_own(rest, flags, more);
        assert((some + more)[whole.len() - 1] == more[b.len() - 1]);
        assert(present_ones(whole, some + more) =~= present_ones(a, some) + present_ones(
            b,
            more,
        ));
    }
}

proof fn lemma_present_looks_at_its_own(list: Seq<MountView>, one: Seq<bool>, two: Seq<bool>)
    requires
        list.len() <= one.len(),
        list.len() <= two.len(),
        forall|k: int| 0 <= k < list.len() ==> one[k] == two[k],
    ensures
        present_ones(list, one) == present_ones(list, two),
    decreases list.len(),
{
    if list.len() > 0 {
        lemma_present_looks_at_its_own(list.drop_last(), one, two);
    }
}

/// The list with volumes begins as it was. Each volume is in it once by its
/// path; what was added are volumes that were not in it, each labelled with its
/// name below `/Volumes/`.
#[verifier::spinoff_prover]
pub proof fn law_volumes_are_added_once(
    list: Seq<MountView>,
    volumes: Seq<(SpelledView, Seq<u8>)>,
)
    ensures
        ({
            let all = with_volumes(list, volumes);
            &&& list.len() <= all.len()
            &&& forall|k: int| 0 <= k < list.len() ==> all[k] == #[trigger] list[k]
            &&& forall|v: int|
                0 <= v < volumes.len() ==> exists|k: int|
                    0 <= k < all.len() && (#[trigger] all[k]).path.at == (
                    #[trigger] volumes[v]).0.at
            &&& forall|k: int|
                list.len() <= k < all.len() ==> exists|v: int|
                    0 <= v < volumes.len() && (#[trigger] all[k]).path == (
                    #[trigger] volumes[v]).0 && all[k].label == "/Volumes/"@
                        + crate::text::lossy_text(volumes[v].1)
            &&& forall|k: int, m: int|
                list.len() <= k < all.len() && 0 <= m < k ==> (#[trigger] all[k]).path.at != (
                #[trigger] all[m]).path.at
        }),
    decreases volumes.len(),
{
    if volumes.len() > 0 {
        let rest = volumes.drop_last();
        law_volumes_are_added_once(list, rest);
        let before = with_volumes(list, rest);
        let all = with_volumes(list, volumes);
        let last = volumes[volumes.len() - 1];
        assert forall|v: int| 0 <= v < volumes.len() implies exists|k: int|
            0 <= k < all.len() && (#[trigger] all[k]).path.at == (#[trigger] volumes[v]).0.at by {
            if v < rest.len() {
                assert(rest[v] == volumes[v]);
                let k = choose|k: int|
                    0 <= k < before.len() && (#[trigger] before[k]).path.at == rest[v].0.at;
                assert(all[k] == before[k]);
            } else if has_path(before, last.0.at) {
                let k = choose|k: int|
                    0 <= k < before.len() && (#[trigger] before[k]).path.at == last.0.at;
                assert(all[k] == before[k]);
            } else {
                assert(all[before.len() as int].path.at == last.0.at);
            }
        }
        assert forall|k: int| list.len() <= k < all.len() implies exists|v: int|
            0 <= v < volumes.len() && (#[trigger] all[k]).path == (#[trigger] volumes[v]).0
                && all[k].label == "/Volumes/"@ + crate::text::lossy_text(volumes[v].1) by {
            if k < before.len() {
                assert(all[k] == before[k]);
                let v = choose|v: int|
                    0 <= v < rest.len() && before[k].path == (#[trigger] rest[v]).0
                        && before[k].label == "/Volumes/"@ + crate::text::lossy_text(rest[v].1);
                assert(rest[v] == volumes[v]);
            } else {
                assert(all[k].path == volumes[volumes.len() - 1].0);
            }
        }
        assert forall|k: int, m: int|
            list.len() <= k < all.len() && 0 <= m < k implies (#[trigger] all[k]).path.at != (
        #[trigger] all[m]).path.at by {
            assert(all[m] == before[m]);
            if k < before.len() {
                assert(all[k] == before[k]);
            }
        }
    }
}

/// The mount point of a drive letter, as the list has it.
spec fn drive_at(i: int) -> MountView {
    MountView {
        path: crate::path::spelled(vstd::utf8::encode_utf8(drive_text(i))),
        label: drive_text(i),
    }
}

proof fn lemma_drive_at(i: int)
    requires
        0 <= i < 26,
    ensures
        is_drive(drive_at(i), i),
{
}

proof fn lemma_drives_present(n: nat, present: Seq<bool>) -> (at: Seq<int>)
    ensures
        at.len() == drives_present(n, present).len(),
        forall|k: int|
            0 <= k < at.len() ==> 0 <= #[trigger] at[k] < n && present[at[k]] && drives_present(
                n,
                present,
            )[k] == drive_at(at[k]),
        forall|k: int, m: int| 0 <= k < m < at.len() ==> #[trigger] at[k] < #[trigger] at[m],
        forall|i: int| 0 <= i < n && #[trigger] present[i] ==> at.contains(i),
    decreases n,
{
    if n == 0 {
        Seq::empty()
    } else {
        let before = lemma_drives_present((n - 1) as nat, present);
        if present[n - 1] {
            let at = before.push(n - 1);
            assert forall|i: int| 0 <= i < n && #[trigger] present[i] implies at.contains(i) by {
                if i < n - 1 {
                    let k = choose|k: int| 0 <= k < before.len() && before[k] == i;
                    assert(at[k] == i);
                } else {
                    assert(at[at.len() - 1] == i);
                }
            }
            at
        } else {
            before
        }
    }
}

/// The drives are the letters that are present, from A on, each with a colon
/// and a backslash for its path and its label.
pub proof fn law_drives_are_letters(present: Seq<bool>) -> (at: Seq<int>)
    requires
        present.len() == 26,
    ensures
        ({
            let all = drives_present(26, present);
            &&& at.len() == all.len()
            &&& forall|k: int|
                0 <= k < at.len() ==> 0 <= #[trigger] at[k] < 26 && present[at[k]] && is_drive(
                    all[k],
                    at[k],
                )
            &&& forall|k: int, m: int|
                0 <= k < m < at.len() ==> #[trigger] at[k] < #[trigger] at[m]
            &&& forall|i: int| 0 <= i < 26 && #[trigger] present[i] ==> at.contains(i)
        }),
{
    let at = lemma_drives_present(26, present);
    assert forall|k: int| 0 <= k < at.len() implies 0 <= #[trigger] at[k] < 26 && present[at[k]]
        && is_drive(drives_present(26, present)[k], at[k]) by {
        lemma_drive_at(at[k]);
    }
    at
}

/// Whether a mount point is the drive with the letter at place `i`.
pub open spec fn is_drive(mount: MountView, i: int) -> bool {
    &&& mount.label.len() == 3
    &&& mount.label[0] as u32 == 65 + i
    &&& mount.label[1] == ':'
    &&& mount.label[2] == '\\'
    &&& mount.path.bytes == vstd::utf8::encode_utf8(mount.label)
    &&& mount.path.at == crate::path::path_of(mount.path.bytes)
}

/// The first mount point is the root.
pub proof fn law_root_is_first(candidates: Seq<MountView>, present: Seq<bool>, volumes: Seq<
    (SpelledView, Seq<u8>),
>)
    ensures
        ({
            let all = with_volumes(seq![root_mount()] + present_ones(candidates, present), volumes);
            &&& all.len() > 0
            &&& all[0].label == "/"@
            &&& all[0].path.bytes == vstd::utf8::encode_utf8("/"@)
        }),
{
    let list = seq![root_mount()] + present_ones(candidates, present);
    law_volumes_are_added_once(list, volumes);
    assert(list[0] == root_mount());
}

} // verus!
