//! Paths as sequences of name components, with their spelling.
//!
//! A path is parsed from its raw bytes once; from then on equality, parent
//! and prefix tests work on components, so two spellings of one path (a
//! doubled or trailing slash, a `.` in the middle) are equal. The bytes stay
//! beside the components, and are what is shown and handed out.
use vstd::prelude::*;

use crate::keymap::hash_bytes;
use crate::keymap::SLOTS;

verus! {

/// The byte that separates components.
pub const SLASH: u8 = 47;

/// The byte of a `.`.
pub const DOT: u8 = 46;

/// What a path is: whether it starts at the root, and its components.
#[verifier::ext_equal]
pub struct PathView {
    pub absolute: bool,
    pub parts: Seq<Seq<u8>>,
}

/// Whether a byte string is the single dot that names the current directory.
pub open spec fn is_dot(part: Seq<u8>) -> bool {
    part.len() == 1 && part[0] == DOT
}

/// Whether a byte string is the double dot that names the parent directory.
pub open spec fn is_dot_dot(part: Seq<u8>) -> bool {
    part.len() == 2 && part[0] == DOT && part[1] == DOT
}

/// The pieces of a byte string between its slashes; there is always one more
/// piece than slashes.
pub open spec fn split_slash(bytes: Seq<u8>) -> Seq<Seq<u8>>
    decreases bytes.len(),
{
    if bytes.len() == 0 {
        seq![Seq::<u8>::empty()]
    } else {
        let before = split_slash(bytes.drop_last());
        if bytes.last() == SLASH {
            before.push(Seq::<u8>::empty())
        } else {
            before.drop_last().push(before.last().push(bytes.last()))
        }
    }
}

/// Whether the piece at `index` is a component: empty pieces are not, and a
/// single dot is one only at the start of a relative path.
pub open spec fn keeps_piece(piece: Seq<u8>, index: int, absolute: bool) -> bool {
    piece.len() > 0 && (!is_dot(piece) || (index == 0 && !absolute))
}

/// The pieces that are components, in order.
pub open spec fn kept_pieces(pieces: Seq<Seq<u8>>, absolute: bool) -> Seq<Seq<u8>>
    decreases pieces.len(),
{
    if pieces.len() == 0 {
        Seq::empty()
    } else {
        let before = kept_pieces(pieces.drop_last(), absolute);
        if keeps_piece(pieces.last(), pieces.len() - 1, absolute) {
            before.push(pieces.last())
        } else {
            before
        }
    }
}

/// Whether a byte string spells a path from the root.
pub open spec fn starts_at_root(bytes: Seq<u8>) -> bool {
    bytes.len() > 0 && bytes[0] == SLASH
}

/// The path that a byte string spells.
pub open spec fn path_of(bytes: Seq<u8>) -> PathView {
    PathView {
        absolute: starts_at_root(bytes),
        parts: kept_pieces(split_slash(bytes), starts_at_root(bytes)),
    }
}

/// Whether a byte string can be the component at `index`.
pub open spec fn valid_part(part: Seq<u8>, index: int, absolute: bool) -> bool {
    keeps_piece(part, index, absolute) && !part.contains(SLASH)
}

impl PathView {
    /// Every component is one that parsing can give.
    pub open spec fn valid(self) -> bool {
        forall|i: int|
            0 <= i < self.parts.len() ==> valid_part(#[trigger] self.parts[i], i, self.absolute)
    }

    /// The path without its last component, if it has one.
    pub open spec fn parent(self) -> Option<PathView> {
        if self.parts.len() == 0 {
            None
        } else {
            Some(PathView { absolute: self.absolute, parts: self.parts.drop_last() })
        }
    }

    /// Whether this path lies under `base` or is `base`. The empty relative
    /// path is a prefix of every path.
    pub open spec fn starts_with(self, base: PathView) -> bool {
        &&& base.parts.is_prefix_of(self.parts)
        &&& base.absolute == self.absolute || (!base.absolute && base.parts.len() == 0)
    }

    /// Whether `dir` is this path with one or more components taken off.
    pub open spec fn strictly_under(self, dir: PathView) -> bool {
        &&& dir.absolute == self.absolute
        &&& dir.parts.len() < self.parts.len()
        &&& dir.parts.is_prefix_of(self.parts)
    }

    /// The name of the file or directory that the path ends in: its last
    /// component, unless that is `.` or `..`.
    pub open spec fn file_name(self) -> Option<Seq<u8>> {
        if self.parts.len() == 0 || is_dot(self.parts.last()) || is_dot_dot(self.parts.last()) {
            None
        } else {
            Some(self.parts.last())
        }
    }
}

/// Whether the first `n` bytes of a byte string name a path, and no fewer do.
pub open spec fn names_first(bytes: Seq<u8>, n: int, path: PathView) -> bool {
    &&& 0 <= n <= bytes.len()
    &&& path_of(bytes.take(n)) == path
    &&& forall|m: int| 0 <= m < n ==> path_of(#[trigger] bytes.take(m)) != path
}

/// How many bytes of a byte string, at least `from`, it takes to name a path.
pub open spec fn first_naming(bytes: Seq<u8>, path: PathView, from: int) -> int
    decreases bytes.len() - from,
{
    if from >= bytes.len() || path_of(bytes.take(from)) == path {
        from
    } else {
        first_naming(bytes, path, from + 1)
    }
}

/// The spelling of the parent of what a byte string spells: the shortest
/// beginning of it that names the parent.
pub open spec fn parent_bytes(bytes: Seq<u8>) -> Seq<u8> {
    bytes.take(first_naming(bytes, path_of(bytes).parent()->0, 0))
}

/// A path with its spelling.
#[verifier::ext_equal]
pub struct SpelledView {
    pub at: PathView,
    pub bytes: Seq<u8>,
}

/// The path that a byte string spells, with the spelling.
pub open spec fn spelled(bytes: Seq<u8>) -> SpelledView {
    SpelledView { at: path_of(bytes), bytes }
}

impl SpelledView {
    /// The path without its last component, if it has one.
    pub open spec fn parent(self) -> Option<SpelledView> {
        match self.at.parent() {
            Some(at) => Some(SpelledView { at, bytes: parent_bytes(self.bytes) }),
            None => None,
        }
    }

    /// The path at `dir` on the way up from this one.
    pub open spec fn up_to(self, dir: PathView) -> SpelledView
        decreases self.at.parts.len(),
    {
        match self.parent() {
            Some(up) if self.at != dir => up.up_to(dir),
            _ => self,
        }
    }
}

/// The index of the last dot of a file name, or -1.
pub open spec fn last_dot(name: Seq<u8>) -> int
    decreases name.len(),
{
    if name.len() == 0 {
        -1
    } else if name.last() == DOT {
        name.len() - 1
    } else {
        last_dot(name.drop_last())
    }
}

/// The part of a file name after its last dot. A name without a dot, and one
/// whose only dot is its first byte, has no extension.
pub open spec fn extension_of(name: Seq<u8>) -> Option<Seq<u8>> {
    if last_dot(name) <= 0 {
        None
    } else {
        Some(name.skip(last_dot(name) + 1))
    }
}

/// Whether two byte strings are equal.
pub fn bytes_equal(a: &Vec<u8>, b: &Vec<u8>) -> (r: bool)
    ensures
        r == (a@ == b@),
{
    if a.len() != b.len() {
        return false;
    }
    let mut i: usize = 0;
    while i < a.len()
        invariant
            i <= a.len(),
            a.len() == b.len(),
            forall|j: int| 0 <= j < i ==> a@[j] == b@[j],
        decreases a.len() - i,
    {
        if a[i] != b[i] {
            return false;
        }
        i += 1;
    }
    assert(a@ =~= b@);
    true
}

/// A copy of a byte string.
pub fn bytes_copy(a: &Vec<u8>) -> (r: Vec<u8>)
    ensures
        r@ == a@,
{
    let mut out: Vec<u8> = Vec::new();
    let mut i: usize = 0;
    while i < a.len()
        invariant
            i <= a.len(),
            out@ == a@.take(i as int),
        decreases a.len() - i,
    {
        out.push(a[i]);
        i += 1;
        assert(a@.take(i as int) =~= a@.take(i - 1).push(a@[i - 1]));
    }
    assert(a@.take(a@.len() as int) =~= a@);
    out
}

/// The views of a vector of byte strings.
pub open spec fn part_views(parts: Seq<Vec<u8>>) -> Seq<Seq<u8>> {
    Seq::new(parts.len(), |i: int| parts[i]@)
}

/// A file-system path: its spelling, and its components, each with the place
/// in the spelling where it ends.
#[derive(Debug)]
pub struct FsPath {
    raw: Vec<u8>,
    absolute: bool,
    parts: Vec<Vec<u8>>,
    ends: Vec<usize>,
}

impl View for FsPath {
    type V = PathView;

    closed spec fn view(&self) -> PathView {
        PathView { absolute: self.absolute, parts: part_views(self.parts@) }
    }
}

/// A piece is kept exactly where the two conditions on it hold.
fn piece_is_kept(piece: &Vec<u8>, first: bool, absolute: bool) -> (r: bool)
    ensures
        r == (piece@.len() > 0 && (!is_dot(piece@) || (first && !absolute))),
{
    if piece.len() == 0 {
        return false;
    }
    if piece.len() == 1 && piece[0] == DOT {
        first && !absolute
    } else {
        true
    }
}

proof fn lemma_split_is_nonempty(bytes: Seq<u8>)
    ensures
        split_slash(bytes).len() > 0,
    decreases bytes.len(),
{
    if bytes.len() > 0 {
        lemma_split_is_nonempty(bytes.drop_last());
    }
}

proof fn lemma_split_has_no_slash(bytes: Seq<u8>)
    ensures
        forall|i: int|
            0 <= i < split_slash(bytes).len() ==> !(#[trigger] split_slash(bytes)[i]).contains(SLASH),
    decreases bytes.len(),
{
    lemma_split_is_nonempty(bytes);
    if bytes.len() > 0 {
        lemma_split_has_no_slash(bytes.drop_last());
        lemma_split_is_nonempty(bytes.drop_last());
        let before = split_slash(bytes.drop_last());
        assert forall|i: int| 0 <= i < split_slash(bytes).len() implies !(
        #[trigger] split_slash(bytes)[i]).contains(SLASH) by {
            if bytes.last() == SLASH {
                if i < before.len() {
                    assert(split_slash(bytes)[i] == before[i]);
                }
            } else if i < before.len() - 1 {
                assert(split_slash(bytes)[i] == before[i]);
            } else {
                let grown = before.last().push(bytes.last());
                assert(split_slash(bytes)[i] == grown);
                assert(!before[before.len() - 1].contains(SLASH));
                if grown.contains(SLASH) {
                    let k = choose|k: int| 0 <= k < grown.len() && grown[k] == SLASH;
                    assert(before.last()[k] == SLASH);
                }
            }
        }
    }
}

/// What is kept of slash-free pieces is valid, and keeps its place only if
/// nothing before it was dropped, so a leading dot stays first.
proof fn lemma_kept_is_valid(pieces: Seq<Seq<u8>>, absolute: bool)
    requires
        forall|i: int| 0 <= i < pieces.len() ==> !(#[trigger] pieces[i]).contains(SLASH),
    ensures
        forall|i: int|
            0 <= i < kept_pieces(pieces, absolute).len() ==> valid_part(
                #[trigger] kept_pieces(pieces, absolute)[i],
                i,
                absolute,
            ),
        kept_pieces(pieces, absolute).len() <= pieces.len(),
    decreases pieces.len(),
{
    if pieces.len() > 0 {
        assert forall|i: int| 0 <= i < pieces.drop_last().len() implies !(
        #[trigger] pieces.drop_last()[i]).contains(SLASH) by {
            assert(pieces.drop_last()[i] == pieces[i]);
        }
        lemma_kept_is_valid(pieces.drop_last(), absolute);
        assert(!pieces[pieces.len() - 1].contains(SLASH));
    }
}

impl PartialEq for FsPath {
    /// Paths are equal if their components are, however they are spelled.
    fn eq(&self, other: &FsPath) -> (r: bool) {
        self.same(other)
    }
}

impl vstd::std_specs::cmp::PartialEqSpecImpl for FsPath {
    open spec fn obeys_eq_spec() -> bool {
        true
    }

    open spec fn eq_spec(&self, other: &FsPath) -> bool {
        self@ == other@
    }
}

impl Eq for FsPath {

}

/// How much of a byte string its components take, which grows with it.
spec fn weight(parts: Seq<Seq<u8>>) -> nat
    decreases parts.len(),
{
    if parts.len() == 0 {
        0
    } else {
        weight(parts.drop_last()) + parts.last().len() + 1
    }
}

/// Whether the last piece of a byte string is a component.
spec fn ends_in_part(bytes: Seq<u8>) -> bool {
    let pieces = split_slash(bytes);
    keeps_piece(pieces.last(), pieces.len() - 1, starts_at_root(bytes))
}

proof fn lemma_weight_step(bytes: Seq<u8>)
    requires
        bytes.len() > 0,
    ensures
        weight(path_of(bytes.drop_last()).parts) <= weight(path_of(bytes).parts),
        ends_in_part(bytes) ==> weight(path_of(bytes.drop_last()).parts) < weight(
            path_of(bytes).parts,
        ),
{
    let shorter = bytes.drop_last();
    let before = split_slash(shorter);
    let after = split_slash(bytes);
    let absolute = starts_at_root(bytes);
    lemma_split_is_nonempty(shorter);
    let head = before.drop_last();
    if bytes.len() == 1 {
        assert(shorter =~= Seq::<u8>::empty());
        assert(before.drop_last() =~= Seq::<Seq<u8>>::empty());
        assert(kept_pieces(before.drop_last(), false) =~= Seq::<Seq<u8>>::empty());
        assert(kept_pieces(before, false) =~= Seq::<Seq<u8>>::empty());
    } else {
        assert(starts_at_root(shorter) == absolute);
    }
    let kept = kept_pieces(after.drop_last(), absolute);
    if ends_in_part(bytes) {
        assert(kept.push(after.last()).drop_last() =~= kept);
    }
    if bytes.last() == SLASH {
        assert(after.drop_last() =~= before);
    } else {
        assert(after.drop_last() =~= head);
        if keeps_piece(before.last(), before.len() - 1, absolute) {
            assert(kept_pieces(head, absolute).push(before.last()).drop_last() =~= kept_pieces(
                head,
                absolute,
            ));
        }
    }
}

proof fn lemma_weight_grows(bytes: Seq<u8>, m: int)
    requires
        0 <= m <= bytes.len(),
    ensures
        weight(path_of(bytes.take(m)).parts) <= weight(path_of(bytes).parts),
    decreases bytes.len(),
{
    if m == bytes.len() {
        assert(bytes.take(m) =~= bytes);
    } else {
        lemma_weight_step(bytes);
        lemma_weight_grows(bytes.drop_last(), m);
        assert(bytes.drop_last().take(m) =~= bytes.take(m));
    }
}

/// Bytes that end in a component name their path, and no fewer do.
proof fn lemma_names_first(bytes: Seq<u8>, n: int)
    requires
        0 < n <= bytes.len(),
        ends_in_part(bytes.take(n)),
    ensures
        names_first(bytes, n, path_of(bytes.take(n))),
{
    let whole = bytes.take(n);
    lemma_weight_step(whole);
    assert forall|m: int| 0 <= m < n implies path_of(#[trigger] bytes.take(m)) != path_of(
        whole,
    ) by {
        lemma_weight_grows(whole.drop_last(), m);
        assert(whole.drop_last().take(m) =~= bytes.take(m));
    }
}

proof fn lemma_first_naming(bytes: Seq<u8>, path: PathView, n: int, from: int)
    requires
        names_first(bytes, n, path),
        0 <= from <= n,
    ensures
        first_naming(bytes, path, from) == n,
    decreases n - from,
{
    if from < n {
        assert(path_of(bytes.take(from)) != path);
        lemma_first_naming(bytes, path, n, from + 1);
    }
}

/// Without a component, only whether a path starts at the root is to be named.
proof fn lemma_names_no_part(bytes: Seq<u8>)
    ensures
        names_first(
            bytes,
            if starts_at_root(bytes) {
                1
            } else {
                0
            },
            PathView { absolute: starts_at_root(bytes), parts: Seq::empty() },
        ),
{
    let none = Seq::<u8>::empty();
    assert(bytes.take(0) =~= none);
    assert(split_slash(none).drop_last() =~= Seq::<Seq<u8>>::empty());
    assert(kept_pieces(split_slash(none).drop_last(), false) =~= Seq::<Seq<u8>>::empty());
    assert(kept_pieces(split_slash(none), false) =~= Seq::<Seq<u8>>::empty());
    if starts_at_root(bytes) {
        let one = bytes.take(1);
        assert(one.drop_last() =~= none);
        let pieces = split_slash(one);
        assert(pieces.drop_last() =~= split_slash(none));
        assert(kept_pieces(split_slash(none).drop_last(), true) =~= Seq::<Seq<u8>>::empty());
        assert(kept_pieces(split_slash(none), true) =~= Seq::<Seq<u8>>::empty());
        assert(kept_pieces(pieces, true) =~= Seq::<Seq<u8>>::empty());
    }
}

/// Whether `ends` are the places where the components of a spelling end.
spec fn are_ends(raw: Seq<u8>, path: PathView, ends: Seq<usize>) -> bool {
    &&& ends.len() == path.parts.len()
    &&& forall|k: int|
        0 <= k < ends.len() ==> names_first(
            raw,
            #[trigger] ends[k] as int,
            PathView { absolute: path.absolute, parts: path.parts.take(k + 1) },
        )
    &&& forall|j: int, k: int| 0 <= j <= k < ends.len() ==> #[trigger] ends[j] <= #[trigger] ends[k]
}

impl FsPath {
    #[verifier::type_invariant]
    spec fn inv(self) -> bool {
        &&& self@.valid()
        &&& path_of(self.raw@) == self@
        &&& are_ends(self.raw@, self@, self.ends@)
    }

    /// The bytes that spell the path.
    pub closed spec fn spelling(&self) -> Seq<u8> {
        self.raw@
    }

    /// The path with its spelling.
    pub open spec fn named(&self) -> SpelledView {
        SpelledView { at: self@, bytes: self.spelling() }
    }

    /// The empty relative path.
    pub fn empty() -> (r: FsPath)
        ensures
            r.named() == spelled(Seq::empty()),
            !r@.absolute,
            r@.parts == Seq::<Seq<u8>>::empty(),
    {
        let raw: Vec<u8> = Vec::new();
        proof {
            lemma_names_no_part(raw@);
            assert(raw@.take(0) =~= raw@);
            assert(raw@ =~= Seq::<u8>::empty());
        }
        let parts: Vec<Vec<u8>> = Vec::new();
        assert(part_views(parts@) =~= Seq::<Seq<u8>>::empty());
        FsPath { raw, absolute: false, parts, ends: Vec::new() }
    }

    /// The path that `bytes` spells.
    pub fn from_bytes(bytes: &Vec<u8>) -> (r: FsPath)
        ensures
            r.named() == spelled(bytes@),
    {
        let absolute: bool = bytes.len() > 0 && bytes[0] == SLASH;
        let mut parts: Vec<Vec<u8>> = Vec::new();
        let mut ends: Vec<usize> = Vec::new();
        let mut piece: Vec<u8> = Vec::new();
        let mut first: bool = true;
        let mut i: usize = 0;
        assert(split_slash(bytes@.take(0)) =~= seq![Seq::<u8>::empty()]);
        assert(split_slash(bytes@.take(0)).drop_last() =~= Seq::<Seq<u8>>::empty());
        assert(part_views(parts@) =~= Seq::<Seq<u8>>::empty());
        while i < bytes.len()
            invariant
                i <= bytes.len(),
                absolute == starts_at_root(bytes@),
                split_slash(bytes@.take(i as int)).len() > 0,
                split_slash(bytes@.take(i as int)).last() == piece@,
                first == (split_slash(bytes@.take(i as int)).len() == 1),
                part_views(parts@) == kept_pieces(
                    split_slash(bytes@.take(i as int)).drop_last(),
                    absolute,
                ),
                are_ends(
                    bytes@,
                    PathView { absolute, parts: part_views(parts@) },
                    ends@,
                ),
                forall|k: int| 0 <= k < ends@.len() ==> #[trigger] ends@[k] <= i,
            decreases bytes.len() - i,
        {
            let ghost before = split_slash(bytes@.take(i as int));
            let byte: u8 = bytes[i];
            assert(bytes@.take(i + 1).drop_last() =~= bytes@.take(i as int));
            assert(bytes@.take(i + 1).last() == byte);
            let ghost after = split_slash(bytes@.take(i + 1));
            if byte == SLASH {
                assert(after == before.push(Seq::<u8>::empty()));
                assert(after.drop_last() =~= before);
                let keep: bool = piece_is_kept(&piece, first, absolute);
                let mut done: Vec<u8> = Vec::new();
                std::mem::swap(&mut done, &mut piece);
                if keep {
                    let ghost earlier = parts@;
                    let ghost earlier_ends = ends@;
                    parts.push(done);
                    ends.push(i);
                    assert(part_views(parts@) =~= part_views(earlier).push(done@));
                    proof {
                        lemma_one_more_end(
                            bytes@,
                            PathView { absolute, parts: part_views(earlier) },
                            earlier_ends,
                            i,
                            done@,
                        );
                    }
                }
                first = false;
            } else {
                piece.push(byte);
                assert(after == before.drop_last().push(before.last().push(byte)));
                assert(after.drop_last() =~= before.drop_last());
            }
            i += 1;
        }
        assert(bytes@.take(bytes@.len() as int) =~= bytes@);
        if piece_is_kept(&piece, first, absolute) {
            let ghost earlier = parts@;
            let ghost earlier_ends = ends@;
            parts.push(piece);
            ends.push(i);
            assert(part_views(parts@) =~= part_views(earlier).push(piece@));
            proof {
                lemma_one_more_end(
                    bytes@,
                    PathView { absolute, parts: part_views(earlier) },
                    earlier_ends,
                    i,
                    piece@,
                );
            }
        }
        proof {
            lemma_split_has_no_slash(bytes@);
            lemma_kept_is_valid(split_slash(bytes@), absolute);
        }
        FsPath { raw: bytes_copy(bytes), absolute, parts, ends }
    }

    /// Whether the path starts at the root.
    pub fn is_absolute(&self) -> (r: bool)
        ensures
            r == self@.absolute,
    {
        self.absolute
    }

    /// How many components the path has.
    pub fn len(&self) -> (r: usize)
        ensures
            r == self@.parts.len(),
    {
        self.parts.len()
    }

    /// The hash slot of the path, which its components fix.
    pub(crate) fn hash_slot(&self) -> (r: usize)
        ensures
            r == crate::keymap::parts_slot(self@.parts),
    {
        let mut h: usize = 0;
        let mut i: usize = 0;
        assert(self@.parts.take(0) =~= Seq::<Seq<u8>>::empty());
        while i < self.parts.len()
            invariant
                i <= self.parts.len(),
                h < SLOTS,
                h == crate::keymap::parts_slot(self@.parts.take(i as int)),
            decreases self.parts.len() - i,
        {
            assert(self@.parts.take(i + 1).drop_last() =~= self@.parts.take(i as int));
            assert(self@.parts.take(i + 1).last() == self.parts@[i as int]@);
            h = hash_bytes(self.parts[i].as_slice(), h);
            i += 1;
        }
        assert(self@.parts.take(self@.parts.len() as int) =~= self@.parts);
        h
    }

    /// Whether the two are the same path.
    pub fn same(&self, other: &FsPath) -> (r: bool)
        ensures
            r == (self@ == other@),
            self.named() == spelled(self.spelling()),
    {
        proof {
            use_type_invariant(self);
        }
        assert(self@.parts.len() == self.parts.len() && other@.parts.len() == other.parts.len());
        if self.absolute != other.absolute || self.parts.len() != other.parts.len() {
            return false;
        }
        let mut i: usize = 0;
        while i < self.parts.len()
            invariant
                i <= self.parts.len(),
                self.parts.len() == other.parts.len(),
                self.absolute == other.absolute,
                self.named() == spelled(self.spelling()),
                forall|j: int| 0 <= j < i ==> self@.parts[j] == other@.parts[j],
            decreases self.parts.len() - i,
        {
            if !bytes_equal(&self.parts[i], &other.parts[i]) {
                assert(self@.parts[i as int] != other@.parts[i as int]);
                return false;
            }
            i += 1;
        }
        assert(self@.parts =~= other@.parts);
        true
    }

    /// The path without its last component, if it has one.
    pub fn parent(&self) -> (r: Option<FsPath>)
        ensures
            match r {
                Some(p) => self.named().parent() == Some(p.named()),
                None => self.named().parent() is None,
            },
    {
        proof {
            use_type_invariant(self);
        }
        let n: usize = self.parts.len();
        if n == 0 {
            return None;
        }
        let end: usize = if n > 1 {
            self.ends[n - 2]
        } else if self.absolute {
            1
        } else {
            0
        };
        let parts = copy_parts(&self.parts, n - 1);
        assert(part_views(parts@) =~= self@.parts.drop_last());
        let ghost shorter = PathView { absolute: self.absolute, parts: part_views(parts@) };
        proof {
            lemma_names_no_part(self.raw@);
            assert(self@.parts.drop_last() =~= self@.parts.take(n - 1));
            assert(n == 1 ==> shorter.parts =~= Seq::<Seq<u8>>::empty());
            assert(names_first(self.raw@, end as int, shorter));
            lemma_first_naming(self.raw@, shorter, end as int, 0);
        }
        assert forall|i: int| 0 <= i < shorter.parts.len() implies valid_part(
            #[trigger] shorter.parts[i],
            i,
            shorter.absolute,
        ) by {
            assert(shorter.parts[i] == self@.parts[i]);
        }
        let raw = bytes_front(&self.raw, end);
        let mut ends: Vec<usize> = Vec::new();
        let mut k: usize = 0;
        while k < n - 1
            invariant
                k <= n - 1,
                n == self.ends@.len(),
                ends@ == self.ends@.take(k as int),
            decreases n - k,
        {
            ends.push(self.ends[k]);
            assert(self.ends@.take(k + 1) =~= self.ends@.take(k as int).push(
                self.ends@[k as int],
            ));
            k += 1;
        }
        proof {
            lemma_ends_of_beginning(self.raw@, self@, self.ends@, end as int);
        }
        Some(FsPath { raw, absolute: self.absolute, parts, ends })
    }

    /// Whether this path lies under `base` or is `base`.
    pub fn starts_with(&self, base: &FsPath) -> (r: bool)
        ensures
            r == self@.starts_with(base@),
    {
        if base.parts.len() > self.parts.len() {
            return false;
        }
        if base.absolute != self.absolute && (base.absolute || base.parts.len() > 0) {
            return false;
        }
        let mut i: usize = 0;
        while i < base.parts.len()
            invariant
                i <= base.parts.len() <= self.parts.len(),
                forall|j: int| 0 <= j < i ==> self@.parts[j] == base@.parts[j],
            decreases base.parts.len() - i,
        {
            if !bytes_equal(&self.parts[i], &base.parts[i]) {
                assert(self@.parts.take(base@.parts.len() as int)[i as int] != base@.parts[i as int]);
                return false;
            }
            i += 1;
        }
        assert(self@.parts.take(base@.parts.len() as int) =~= base@.parts);
        true
    }

    /// The name of the file or directory that the path ends in.
    pub fn file_name(&self) -> (r: Option<Vec<u8>>)
        ensures
            match r {
                Some(name) => self@.file_name() == Some(name@),
                None => self@.file_name() is None,
            },
    {
        if self.parts.len() == 0 {
            return None;
        }
        let last: &Vec<u8> = &self.parts[self.parts.len() - 1];
        assert(last@ == self@.parts.last());
        if last.len() == 1 && last[0] == DOT {
            return None;
        }
        if last.len() == 2 && last[0] == DOT && last[1] == DOT {
            return None;
        }
        Some(bytes_copy(last))
    }

    /// The extension of the file name, if it has one.
    pub fn extension(&self) -> (r: Option<Vec<u8>>)
        ensures
            match self@.file_name() {
                None => r is None,
                Some(name) => match r {
                    Some(ext) => extension_of(name) == Some(ext@),
                    None => extension_of(name) is None,
                },
            },
    {
        match self.file_name() {
            None => None,
            Some(name) => extension_in(&name),
        }
    }

    /// The spelling of the path.
    pub fn to_bytes(&self) -> (r: Vec<u8>)
        ensures
            r@ == self.spelling(),
            path_of(r@) == self@,
    {
        proof {
            use_type_invariant(self);
        }
        bytes_copy(&self.raw)
    }

    /// This path and the paths above it, from the top down, without the empty
    /// relative path.
    pub fn trail(&self) -> (r: Vec<FsPath>)
        ensures
            named_views(r@) == trail_of(self.named()),
        decreases self@.parts.len(),
    {
        let mut out: Vec<FsPath> = match self.parent() {
            None => Vec::new(),
            Some(up) => up.trail(),
        };
        let ghost above = out@;
        assert(self@.parent() is None ==> named_views(above) =~= Seq::<SpelledView>::empty());
        if self.absolute || self.parts.len() > 0 {
            out.push(self.clone());
            assert(named_views(out@) =~= named_views(above).push(self.named()));
        }
        out
    }
}

impl Clone for FsPath {
    fn clone(&self) -> (r: FsPath)
        ensures
            r.named() == self.named(),
            r.named() == spelled(r.spelling()),
    {
        proof {
            use_type_invariant(self);
        }
        let parts = copy_parts(&self.parts, self.parts.len());
        assert(part_views(parts@) =~= self@.parts);
        FsPath {
            raw: bytes_copy(&self.raw),
            absolute: self.absolute,
            parts,
            ends: self.ends.clone(),
        }
    }
}

/// The views of a list of paths.
pub open spec fn path_views(paths: Seq<FsPath>) -> Seq<PathView> {
    Seq::new(paths.len(), |i: int| paths[i]@)
}

/// The paths of a sequence of spelled paths.
pub open spec fn places(paths: Seq<SpelledView>) -> Seq<PathView> {
    Seq::new(paths.len(), |i: int| paths[i].at)
}

/// Whether every path of a sequence is what its spelling spells.
pub open spec fn are_spelled(paths: Seq<SpelledView>) -> bool {
    forall|i: int| 0 <= i < paths.len() ==> #[trigger] paths[i] == spelled(paths[i].bytes)
}

/// On the way up, what is above a directory is spelled as its parent.
pub proof fn lemma_up_to(path: SpelledView, dir: PathView, up: PathView)
    requires
        path.at == dir || path.at.strictly_under(dir),
        dir.parent() == Some(up),
    ensures
        path.up_to(dir).at == dir,
        path.up_to(dir).parent() == Some(path.up_to(up)),
    decreases path.at.parts.len(),
{
    if path.at == dir {
        let above = path.parent()->0;
        assert(above.up_to(up) == above);
    } else {
        let above = path.parent()->0;
        assert(above.at == dir || above.at.strictly_under(dir)) by {
            if above.at.parts.len() == dir.parts.len() {
                assert(above.at.parts =~= dir.parts);
            } else {
                assert(dir.parts.is_prefix_of(above.at.parts)) by {
                    assert(above.at.parts.subrange(0, dir.parts.len() as int)
                        =~= path.at.parts.subrange(0, dir.parts.len() as int));
                }
            }
        }
        lemma_up_to(above, dir, up);
    }
}

/// The views of a list of paths with their spellings.
pub open spec fn named_views(paths: Seq<FsPath>) -> Seq<SpelledView> {
    Seq::new(paths.len(), |i: int| paths[i].named())
}

/// A path and all paths above it, from the top down, without the empty
/// relative path.
pub open spec fn trail_of(path: SpelledView) -> Seq<SpelledView>
    decreases path.at.parts.len(),
{
    let above = match path.parent() {
        None => Seq::empty(),
        Some(up) => trail_of(up),
    };
    if path.at.absolute || path.at.parts.len() > 0 {
        above.push(path)
    } else {
        above
    }
}

proof fn lemma_one_more_end(
    raw: Seq<u8>,
    path: PathView,
    ends: Seq<usize>,
    i: usize,
    piece: Seq<u8>,
)
    requires
        i <= raw.len(),
        path.absolute == starts_at_root(raw),
        are_ends(raw, path, ends),
        forall|k: int| 0 <= k < ends.len() ==> #[trigger] ends[k] <= i,
        split_slash(raw.take(i as int)).len() > 0,
        split_slash(raw.take(i as int)).last() == piece,
        path.parts == kept_pieces(split_slash(raw.take(i as int)).drop_last(), path.absolute),
        keeps_piece(piece, split_slash(raw.take(i as int)).len() - 1, path.absolute),
    ensures
        are_ends(
            raw,
            PathView { absolute: path.absolute, parts: path.parts.push(piece) },
            ends.push(i),
        ),
{
    let whole = raw.take(i as int);
    let grown = PathView { absolute: path.absolute, parts: path.parts.push(piece) };
    if i == 0 {
        assert(whole =~= Seq::<u8>::empty());
    }
    assert(starts_at_root(whole) == path.absolute);
    assert(path_of(whole) == grown);
    lemma_names_first(raw, i as int);
    let more = ends.push(i);
    assert forall|k: int| 0 <= k < more.len() implies names_first(
        raw,
        #[trigger] more[k] as int,
        PathView { absolute: grown.absolute, parts: grown.parts.take(k + 1) },
    ) by {
        if k < ends.len() {
            assert(more[k] == ends[k]);
            assert(grown.parts.take(k + 1) =~= path.parts.take(k + 1));
        } else {
            assert(grown.parts.take(k + 1) =~= grown.parts);
        }
    }
    assert forall|j: int, k: int| 0 <= j <= k < more.len() implies #[trigger] more[j]
        <= #[trigger] more[k] by {
        if k < ends.len() {
            assert(ends[j] <= ends[k]);
        } else if j < ends.len() {
            assert(ends[j] <= i);
        }
    }
}

proof fn lemma_ends_of_beginning(raw: Seq<u8>, path: PathView, ends: Seq<usize>, end: int)
    requires
        are_ends(raw, path, ends),
        path.parts.len() > 0,
        0 <= end <= raw.len(),
        path.parts.len() > 1 ==> end == ends[path.parts.len() - 2],
    ensures
        are_ends(
            raw.take(end),
            PathView { absolute: path.absolute, parts: path.parts.drop_last() },
            ends.drop_last(),
        ),
{
    let fewer = ends.drop_last();
    let up = PathView { absolute: path.absolute, parts: path.parts.drop_last() };
    let front = raw.take(end);
    assert forall|k: int| 0 <= k < fewer.len() implies names_first(
        front,
        #[trigger] fewer[k] as int,
        PathView { absolute: up.absolute, parts: up.parts.take(k + 1) },
    ) by {
        let n = ends[k] as int;
        assert(ends[k] <= ends[path.parts.len() - 2]);
        assert(up.parts.take(k + 1) =~= path.parts.take(k + 1));
        assert(front.take(n) =~= raw.take(n));
        assert forall|m: int| 0 <= m < n implies path_of(#[trigger] front.take(m)) != (PathView {
            absolute: up.absolute,
            parts: up.parts.take(k + 1),
        }) by {
            assert(front.take(m) =~= raw.take(m));
        }
    }
    assert forall|j: int, k: int| 0 <= j <= k < fewer.len() implies #[trigger] fewer[j]
        <= #[trigger] fewer[k] by {
        assert(ends[j] <= ends[k]);
    }
}

/// The first `n` bytes of a byte string.
fn bytes_front(a: &Vec<u8>, n: usize) -> (r: Vec<u8>)
    requires
        n <= a@.len(),
    ensures
        r@ == a@.take(n as int),
{
    let mut out: Vec<u8> = Vec::new();
    let mut i: usize = 0;
    while i < n
        invariant
            i <= n <= a@.len(),
            out@ == a@.take(i as int),
        decreases n - i,
    {
        out.push(a[i]);
        i += 1;
        assert(a@.take(i as int) =~= a@.take(i - 1).push(a@[i - 1]));
    }
    out
}

/// A copy of the first `n` components.
fn copy_parts(parts: &Vec<Vec<u8>>, n: usize) -> (r: Vec<Vec<u8>>)
    requires
        n <= parts.len(),
    ensures
        part_views(r@) == part_views(parts@).take(n as int),
{
    let mut out: Vec<Vec<u8>> = Vec::new();
    let mut i: usize = 0;
    assert(part_views(out@) =~= part_views(parts@).take(0));
    while i < n
        invariant
            i <= n <= parts.len(),
            part_views(out@) == part_views(parts@).take(i as int),
        decreases n - i,
    {
        let ghost earlier = out@;
        let part = bytes_copy(&parts[i]);
        out.push(part);
        assert(part_views(out@) =~= part_views(earlier).push(part@));
        assert(part_views(parts@).take(i + 1) =~= part_views(parts@).take(i as int).push(
            parts@[i as int]@,
        ));
        i += 1;
    }
    out
}

/// The part of a file name after its last dot, where that dot is not its
/// first byte.
fn extension_in(name: &Vec<u8>) -> (r: Option<Vec<u8>>)
    ensures
        match r {
            Some(ext) => extension_of(name@) == Some(ext@),
            None => extension_of(name@) is None,
        },
{
    let mut n: usize = name.len();
    assert(name@.take(n as int) =~= name@);
    while n > 0 && name[n - 1] != DOT
        invariant
            n <= name.len(),
            last_dot(name@.take(n as int)) == last_dot(name@),
        decreases n,
    {
        assert(name@.take(n as int).drop_last() =~= name@.take(n - 1));
        n -= 1;
    }
    assert(n > 0 ==> name@.take(n as int).last() == DOT);
    assert(last_dot(name@) == n - 1);
    if n <= 1 {
        return None;
    }
    let mut out: Vec<u8> = Vec::new();
    let mut i: usize = n;
    while i < name.len()
        invariant
            n <= i <= name.len(),
            out@ == name@.subrange(n as int, i as int),
        decreases name.len() - i,
    {
        out.push(name[i]);
        assert(name@.subrange(n as int, i + 1) =~= name@.subrange(n as int, i as int).push(
            name@[i as int],
        ));
        i += 1;
    }
    assert(name@.subrange(n as int, name@.len() as int) =~= name@.skip(n as int));
    Some(out)
}

/// The parent's spelling names the parent, and no shorter beginning of the
/// path's spelling does.
pub proof fn law_parent_spelling(bytes: Seq<u8>)
    requires
        path_of(bytes).parent() is Some,
    ensures
        path_of(parent_bytes(bytes)) == path_of(bytes).parent()->0,
        parent_bytes(bytes).is_prefix_of(bytes),
        forall|m: int|
            0 <= m < parent_bytes(bytes).len() ==> path_of(#[trigger] bytes.take(m))
                != path_of(bytes).parent()->0,
{
    let up = path_of(bytes).parent()->0;
    let n = lemma_some_beginning_names(bytes, up.parts.len());
    assert(path_of(bytes).parts.take(up.parts.len() as int) =~= up.parts);
    lemma_first_naming(bytes, up, n, 0);
}

/// Some beginning of a byte string names what its first `k` components make.
proof fn lemma_some_beginning_names(bytes: Seq<u8>, k: nat) -> (n: int)
    requires
        k <= path_of(bytes).parts.len(),
    ensures
        names_first(
            bytes,
            n,
            PathView {
                absolute: starts_at_root(bytes),
                parts: path_of(bytes).parts.take(k as int),
            },
        ),
    decreases bytes.len(),
{
    let parts = path_of(bytes).parts;
    let goal = PathView { absolute: starts_at_root(bytes), parts: parts.take(k as int) };
    if k == 0 {
        lemma_names_no_part(bytes);
        assert(parts.take(0) =~= Seq::<Seq<u8>>::empty());
        if starts_at_root(bytes) {
            1
        } else {
            0
        }
    } else {
        let shorter = bytes.drop_last();
        if bytes.len() == 0 {
            lemma_names_no_part(bytes);
            assert(bytes.take(0) =~= bytes);
        }
        lemma_split_is_nonempty(shorter);
        let before = split_slash(shorter);
        let after = split_slash(bytes);
        if k == parts.len() && ends_in_part(bytes) {
            assert(bytes.take(bytes.len() as int) =~= bytes);
            lemma_names_first(bytes, bytes.len() as int);
            assert(parts.take(k as int) =~= parts);
            bytes.len() as int
        } else {
            let absolute = starts_at_root(bytes);
            let head = kept_pieces(after.drop_last(), absolute);
            assert(parts == if ends_in_part(bytes) {
                head.push(after.last())
            } else {
                head
            });
            assert(k <= head.len());
            if bytes.last() == SLASH {
                assert(after.drop_last() =~= before);
            } else {
                assert(after.drop_last() =~= before.drop_last());
            }
            if bytes.len() == 1 {
                assert(shorter =~= Seq::<u8>::empty());
                assert(before.drop_last() =~= Seq::<Seq<u8>>::empty());
                assert(kept_pieces(before.drop_last(), absolute) =~= Seq::<Seq<u8>>::empty());
                assert(kept_pieces(before, absolute) =~= Seq::<Seq<u8>>::empty());
            }
            assert(starts_at_root(shorter) == absolute);
            let small = path_of(shorter).parts;
            assert(parts.take(k as int) =~= head.take(k as int));
            assert(small.take(k as int) =~= head.take(k as int));
            let n = lemma_some_beginning_names(shorter, k);
            assert(shorter.take(n) =~= bytes.take(n));
            assert forall|m: int| 0 <= m < n implies path_of(#[trigger] bytes.take(m))
                != goal by {
                assert(shorter.take(m) =~= bytes.take(m));
            }
            n
        }
    }
}

/// The parent of a valid path is valid.
pub proof fn law_parent_is_valid(path: PathView)
    requires
        path.valid(),
        path.parent() is Some,
    ensures
        path.parent()->0.valid(),
{
    let up = path.parent()->0;
    assert forall|i: int| 0 <= i < up.parts.len() implies valid_part(
        #[trigger] up.parts[i],
        i,
        up.absolute,
    ) by {
        assert(up.parts[i] == path.parts[i]);
    }
}

/// Whatever the bytes, what they spell is a valid path.
pub proof fn law_parsed_is_valid(bytes: Seq<u8>)
    ensures
        path_of(bytes).valid(),
{
    lemma_split_has_no_slash(bytes);
    lemma_kept_is_valid(split_slash(bytes), starts_at_root(bytes));
}

/// The trail of a path leads down to it: each path on it is the parent of the
/// next, and the last is the path itself.
pub proof fn law_trail_leads_down(path: SpelledView)
    requires
        path.at.absolute || path.at.parts.len() > 0,
    ensures
        trail_of(path).len() > 0,
        trail_of(path).last() == path,
        forall|i: int, j: int|
            #![trigger trail_of(path)[i], trail_of(path)[j]]
            0 <= i && j == i + 1 && j < trail_of(path).len() ==> trail_of(path)[j].parent()
                == Some(trail_of(path)[i]),
    decreases path.at.parts.len(),
{
    if path.at.parts.len() > 0 {
        let up = path.parent()->0;
        let above = trail_of(up);
        assert(trail_of(path) == above.push(path));
        if up.at.absolute || up.at.parts.len() > 0 {
            law_trail_leads_down(up);
        } else {
            assert(up.parent() is None);
            assert(above.len() == 0);
        }
        assert forall|i: int, j: int|
            #![trigger trail_of(path)[i], trail_of(path)[j]]
            0 <= i && j == i + 1 && j < trail_of(path).len() implies trail_of(path)[j].parent()
            == Some(trail_of(path)[i]) by {
            if j < above.len() {
                assert(above[j].parent() == Some(above[i]));
            }
        }
    }
}

/// A slash adds one piece more to those before it.
proof fn lemma_split_joined(bytes: Seq<u8>, name: Seq<u8>)
    requires
        !name.contains(47),
    ensures
        split_slash(bytes.push(47) + name) == split_slash(bytes).push(name),
        split_slash(name) == seq![name],
    decreases name.len(),
{
    lemma_split_is_nonempty(bytes);
    let whole = bytes.push(47) + name;
    if name.len() == 0 {
        assert(whole =~= bytes.push(47));
        assert(bytes.push(47).drop_last() =~= bytes);
        assert(name =~= Seq::<u8>::empty());
        assert(split_slash(name) =~= seq![name]);
    } else {
        let rest = name.drop_last();
        assert(name[name.len() - 1] != 47);
        assert(!rest.contains(47)) by {
            if rest.contains(47) {
                let k = choose|k: int| 0 <= k < rest.len() && rest[k] == 47;
                assert(name[k] == 47);
            }
        }
        lemma_split_joined(bytes, rest);
        assert(whole.drop_last() =~= bytes.push(47) + rest);
        assert(rest.push(name.last()) =~= name);
        assert(split_slash(whole) =~= split_slash(bytes).push(name));
        assert(split_slash(name) =~= seq![name]);
    }
}

/// A name behind a slash goes one down from the path before the slash; the
/// parent leads back up, and the name is the file's. A single dot, or nothing,
/// behind a slash leaves the path as it is.
pub proof fn law_joined_name_goes_one_down(bytes: Seq<u8>, name: Seq<u8>)
    requires
        bytes.len() > 0,
        !name.contains(47),
    ensures
        ({
            let joined = path_of(bytes.push(47) + name);
            &&& name.len() == 0 || name == seq![46u8] ==> joined == path_of(bytes)
            &&& name.len() > 0 && name != seq![46u8] ==> {
                &&& joined.absolute == path_of(bytes).absolute
                &&& joined.parts == path_of(bytes).parts.push(name)
                &&& joined.parent() == Some(path_of(bytes))
                &&& name != seq![46u8, 46u8] ==> joined.file_name() == Some(name)
                &&& name == seq![46u8, 46u8] ==> joined.file_name() is None
            }
        }),
{
    let whole = bytes.push(47) + name;
    lemma_split_joined(bytes, name);
    lemma_split_is_nonempty(bytes);
    assert(whole[0] == bytes[0]);
    let pieces = split_slash(bytes);
    assert(pieces.push(name).drop_last() =~= pieces);
    assert(is_dot(name) <==> name == seq![46u8]) by {
        if is_dot(name) {
            assert(name =~= seq![46u8]);
        }
    }
    assert(is_dot_dot(name) <==> name == seq![46u8, 46u8]) by {
        if is_dot_dot(name) {
            assert(name =~= seq![46u8, 46u8]);
        }
    }
    let parts = path_of(bytes).parts;
    assert(parts.push(name).drop_last() =~= parts);
}

/// A path starts at the root exactly if it is spelled with a slash first. A
/// slash alone is the root, which has no parent and no name; nothing is the
/// empty path; a name alone is a path of one component.
pub proof fn law_paths_begin(bytes: Seq<u8>, name: Seq<u8>)
    requires
        name.len() > 0,
        !name.contains(47),
    ensures
        path_of(bytes).absolute <==> bytes.len() > 0 && bytes[0] == 47,
        path_of(seq![47u8]) == (PathView { absolute: true, parts: Seq::empty() }),
        path_of(Seq::empty()) == (PathView { absolute: false, parts: Seq::empty() }),
        path_of(name) == (PathView { absolute: false, parts: seq![name] }),
        path_of(seq![47u8] + name) == (PathView {
            absolute: true,
            parts: if name == seq![46u8] {
                Seq::empty()
            } else {
                seq![name]
            },
        }),
        path_of(bytes).parent() is None <==> path_of(bytes).parts.len() == 0,
        path_of(bytes).parts.len() == 0 ==> path_of(bytes).file_name() is None,
{
    let none = Seq::<u8>::empty();
    let no_part = Seq::<Seq<u8>>::empty();
    lemma_split_joined(none, none);
    lemma_split_joined(none, name);
    assert(none.push(47) + none =~= seq![47u8]);
    assert(none.push(47) + name =~= seq![47u8] + name);
    assert(seq![none].drop_last() =~= no_part);
    assert(seq![none].push(none).drop_last() =~= seq![none]);
    assert(seq![none].push(name).drop_last() =~= seq![none]);
    assert(seq![name].drop_last() =~= no_part);
    assert(kept_pieces(no_part, true) =~= no_part);
    assert(kept_pieces(no_part, false) =~= no_part);
    assert(kept_pieces(seq![none], true) =~= no_part);
    assert(kept_pieces(seq![none], false) =~= no_part);
    assert(kept_pieces(seq![none].push(none), true) =~= no_part);
    assert(kept_pieces(seq![name], false) =~= seq![name]);
    assert(name[0] != 47);
    assert(is_dot(name) <==> name == seq![46u8]) by {
        if is_dot(name) {
            assert(name =~= seq![46u8]);
        }
    }
    assert(path_of(none).parts =~= no_part);
    assert(path_of(seq![47u8] + name).parts =~= if name == seq![46u8] {
        no_part
    } else {
        seq![name]
    });
}

/// On the way up from a path lies every directory above it, spelled as the
/// beginning of the path is.
pub proof fn law_way_up_passes_each_directory(path: SpelledView, dir: PathView)
    requires
        path.at == path_of(path.bytes),
        path.at.absolute == dir.absolute,
        dir.parts.is_prefix_of(path.at.parts),
    ensures
        path.up_to(dir).at == dir,
        path.up_to(dir).bytes.is_prefix_of(path.bytes),
        path_of(path.up_to(dir).bytes) == dir,
    decreases path.at.parts.len(),
{
    if path.at != dir {
        if path.at.parts.len() == dir.parts.len() {
            assert(path.at.parts =~= dir.parts);
        }
        assert(dir.parts.len() < path.at.parts.len());
        let up = path.parent()->0;
        law_parent_spelling(path.bytes);
        assert(up.at.parts == path.at.parts.drop_last());
        assert(dir.parts =~= up.at.parts.subrange(0, dir.parts.len() as int));
        law_way_up_passes_each_directory(up, dir);
        let end = path.up_to(dir).bytes;
        assert(end =~= path.bytes.subrange(0, end.len() as int)) by {
            assert(end =~= up.bytes.subrange(0, end.len() as int));
            assert(up.bytes =~= path.bytes.subrange(0, up.bytes.len() as int));
        }
    } else {
        assert(path.bytes =~= path.bytes.subrange(0, path.bytes.len() as int));
    }
}

/// The trail of a path begins at the root, or with the first component of a
/// path that does not start there, and has one path for each component more.
pub proof fn law_trail_begins_at_the_top(path: SpelledView)
    ensures
        trail_of(path).len() == path.at.parts.len() + if path.at.absolute {
            1nat
        } else {
            0nat
        },
        forall|i: int|
            0 <= i < trail_of(path).len() ==> (#[trigger] trail_of(path)[i]).at.parts.len() == i
                + if path.at.absolute {
                0int
            } else {
                1int
            },
    decreases path.at.parts.len(),
{
    if path.at.parts.len() > 0 {
        law_trail_begins_at_the_top(path.parent()->0);
    }
}

} // verus!
