//! Text building: numbers, padding, lowercase and lossy decoding.
use vstd::prelude::*;
use vstd::string::StringExecFns;

verus! {

/// The lowercase form of a text, as the Unicode tables give it.
pub uninterp spec fn lowercase_text(text: Seq<char>) -> Seq<char>;

/// Wraps `str::to_lowercase`, which maps a text to its Unicode lowercase form
/// without regard to a locale. The contract names that form and says nothing
/// more of it.
#[verifier::external_body]
pub(crate) fn lowercase(text: &str) -> (r: String)
    ensures
        r@ == lowercase_text(text@),
{
    text.to_lowercase()
}

/// The text that bytes decode to when what is not UTF-8 is replaced.
pub uninterp spec fn lossy_text(bytes: Seq<u8>) -> Seq<char>;

/// Wraps `String::from_utf8_lossy`, which decodes bytes as UTF-8 and puts a
/// replacement character for what is not. The contract names the result and
/// says that valid UTF-8 is decoded as it stands.
#[verifier::external_body]
pub(crate) fn lossy(bytes: &Vec<u8>) -> (r: String)
    ensures
        r@ == lossy_text(bytes@),
        vstd::utf8::valid_utf8(bytes@) ==> r@ == vstd::utf8::decode_utf8(bytes@),
{
    String::from_utf8_lossy(bytes).into_owned()
}

/// The decimal digit of `d`.
pub open spec fn digit_char(d: nat) -> char {
    ('0' as u32 + d) as char
}

/// A number in decimal, without leading zeros.
pub open spec fn decimal_text(n: nat) -> Seq<char>
    decreases n,
{
    if n < 10 {
        seq![digit_char(n)]
    } else {
        decimal_text(n / 10).push(digit_char(n % 10))
    }
}

/// The last `width` decimal digits of a number, with leading zeros.
pub open spec fn padded_digits(n: nat, width: nat) -> Seq<char>
    decreases width,
{
    if width == 0 {
        Seq::empty()
    } else {
        padded_digits(n / 10, (width - 1) as nat).push(digit_char(n % 10))
    }
}

/// `n` spaces.
pub open spec fn spaces(n: int) -> Seq<char> {
    Seq::new(
        if n < 0 {
            0
        } else {
            n as nat
        },
        |i: int| ' ',
    )
}

/// A text moved right until it fills `width` characters.
pub open spec fn right_aligned(text: Seq<char>, width: nat) -> Seq<char> {
    spaces(width - text.len()) + text
}

/// A text filled up with spaces to `width` characters.
pub open spec fn left_aligned(text: Seq<char>, width: nat) -> Seq<char> {
    text + spaces(width - text.len())
}

/// The text of one digit.
fn digit(d: u64) -> (r: &'static str)
    requires
        d < 10,
    ensures
        r@ == seq![digit_char(d as nat)],
{
    proof {
        reveal_strlit("0");
        reveal_strlit("1");
        reveal_strlit("2");
        reveal_strlit("3");
        reveal_strlit("4");
        reveal_strlit("5");
        reveal_strlit("6");
        reveal_strlit("7");
        reveal_strlit("8");
        reveal_strlit("9");
    }
    let r: &'static str = if d == 0 {
        "0"
    } else if d == 1 {
        "1"
    } else if d == 2 {
        "2"
    } else if d == 3 {
        "3"
    } else if d == 4 {
        "4"
    } else if d == 5 {
        "5"
    } else if d == 6 {
        "6"
    } else if d == 7 {
        "7"
    } else if d == 8 {
        "8"
    } else {
        "9"
    };
    assert(r@ =~= seq![digit_char(d as nat)]);
    r
}

/// A number in decimal.
pub fn decimal(n: u64) -> (r: String)
    ensures
        r@ == decimal_text(n as nat),
    decreases n,
{
    if n < 10 {
        digit(n).to_owned()
    } else {
        let mut r = decimal(n / 10);
        r.append(digit(n % 10));
        assert(r@ =~= decimal_text(n as nat));
        r
    }
}

/// The last `width` decimal digits of a number.
pub fn low_digits(n: u64, width: u32) -> (r: String)
    ensures
        r@ == padded_digits(n as nat, width as nat),
    decreases width,
{
    if width == 0 {
        let r = String::new();
        assert(r@ =~= padded_digits(n as nat, 0));
        r
    } else {
        let mut r = low_digits(n / 10, width - 1);
        r.append(digit(n % 10));
        assert(r@ =~= padded_digits(n as nat, width as nat));
        r
    }
}

/// Appends `n` spaces.
pub fn append_spaces(out: &mut String, n: usize)
    ensures
        final(out)@ == old(out)@ + spaces(n as int),
{
    let ghost start = out@;
    let mut i: usize = 0;
    assert(out@ =~= start + spaces(0));
    while i < n
        invariant
            i <= n,
            out@ == start + spaces(i as int),
        decreases n - i,
    {
        proof {
            reveal_strlit(" ");
        }
        out.append(" ");
        assert(" "@ =~= seq![' ']);
        assert(out@ =~= start + spaces(i + 1));
        i += 1;
    }
}

/// A text moved right until it fills `width` characters.
pub fn align_right(text: &str, width: usize) -> (r: String)
    ensures
        r@ == right_aligned(text@, width as nat),
{
    let n: usize = text.unicode_len();
    let mut r = String::new();
    if n < width {
        append_spaces(&mut r, width - n);
    }
    r.append(text);
    assert(r@ =~= right_aligned(text@, width as nat));
    r
}

/// A text filled up with spaces to `width` characters.
pub fn align_left(text: &str, width: usize) -> (r: String)
    ensures
        r@ == left_aligned(text@, width as nat),
{
    let n: usize = text.unicode_len();
    let mut r = text.to_owned();
    if n < width {
        append_spaces(&mut r, width - n);
    }
    assert(r@ =~= left_aligned(text@, width as nat));
    r
}

/// Wraps `String::push`, which appends a character.
#[verifier::external_body]
pub(crate) fn push_char(text: &mut String, c: char)
    ensures
        final(text)@ == old(text)@.push(c),
{
    text.push(c)
}

/// The bytes of a text.
pub fn bytes_of(text: &str) -> (r: Vec<u8>)
    ensures
        r@ == vstd::utf8::encode_utf8(text@),
{
    let bytes = text.as_bytes();
    let mut out: Vec<u8> = Vec::new();
    let mut i: usize = 0;
    while i < bytes.len()
        invariant
            i <= bytes@.len(),
            out@ == bytes@.take(i as int),
        decreases bytes@.len() - i,
    {
        out.push(bytes[i]);
        assert(bytes@.take(i + 1) =~= bytes@.take(i as int).push(bytes@[i as int]));
        i += 1;
    }
    assert(bytes@.take(bytes@.len() as int) =~= bytes@);
    out
}

/// The characters of a text.
pub fn chars_of(text: &str) -> (r: Vec<char>)
    ensures
        r@ == text@,
{
    let mut out: Vec<char> = Vec::new();
    for c in it: text.chars()
        invariant
            it.seq() == text@,
            out@ == text@.take(it.index() as int),
    {
        let ghost i = out@.len() as int;
        out.push(c);
        assert(text@.take(i + 1) =~= text@.take(i).push(text@[i]));
    }
    assert(text@.take(text@.len() as int) =~= text@);
    out
}

/// The text of some characters.
pub fn text_of(chars: &Vec<char>) -> (r: String)
    ensures
        r@ == chars@,
{
    let mut out = String::from_str("");
    let mut i: usize = 0;
    proof {
        reveal_strlit("");
        assert(out@ =~= chars@.take(0));
    }
    while i < chars.len()
        invariant
            i <= chars@.len(),
            out@ == chars@.take(i as int),
        decreases chars@.len() - i,
    {
        push_char(&mut out, chars[i]);
        assert(chars@.take(i + 1) =~= chars@.take(i as int).push(chars@[i as int]));
        i += 1;
    }
    assert(chars@.take(chars@.len() as int) =~= chars@);
    out
}

/// The bytes by which a text is ordered when case does not matter.
pub open spec fn sort_bytes(text: Seq<char>) -> Seq<u8> {
    vstd::utf8::encode_utf8(lowercase_text(text))
}

/// Computes [`sort_bytes`].
pub fn sort_key(text: &str) -> (r: Vec<u8>)
    ensures
        r@ == sort_bytes(text@),
{
    let lower = lowercase(text);
    bytes_of(lower.as_str())
}

/// How many bytes a text takes.
pub open spec fn byte_len(text: Seq<char>) -> nat {
    vstd::utf8::encode_utf8(text).len()
}

/// Whether a text can be cut after `n` bytes: no character stands across.
pub open spec fn cuts_at(text: Seq<char>, n: int) -> bool {
    vstd::utf8::is_char_boundary(vstd::utf8::encode_utf8(text), n)
}

/// The first `n` bytes of a text.
pub open spec fn head_bytes(text: Seq<char>, n: int) -> Seq<char> {
    vstd::utf8::decode_utf8(vstd::utf8::encode_utf8(text).subrange(0, n))
}

/// A text without its first `n` bytes.
pub open spec fn tail_bytes(text: Seq<char>, n: int) -> Seq<char> {
    vstd::utf8::decode_utf8(
        vstd::utf8::encode_utf8(text).subrange(
            n,
            vstd::utf8::encode_utf8(text).len() as int,
        ),
    )
}

/// A text of more than `width` bytes cut short, with dots that stand for the
/// rest.
pub open spec fn shortened(text: Seq<char>, width: nat) -> Seq<char> {
    if byte_len(text) > width {
        head_bytes(text, cut_place(width)) + "..."@
    } else {
        text
    }
}

/// Where a text is cut to be shortened.
pub open spec fn cut_place(width: nat) -> int {
    if width < 3 {
        0
    } else {
        width - 3
    }
}

/// Whether a text can be shortened to `width` bytes: no character stands
/// across the place where it is cut.
pub open spec fn can_shorten(text: Seq<char>, width: nat) -> bool {
    byte_len(text) > width ==> cuts_at(text, cut_place(width))
}

/// The last `width` bytes of a longer text, after dots that stand for the rest.
pub open spec fn ending(text: Seq<char>, width: nat) -> Seq<char> {
    if byte_len(text) > width {
        "..."@ + tail_bytes(text, byte_len(text) - width)
    } else {
        text
    }
}

/// Whether only the last `width` bytes of a text can be kept.
pub open spec fn can_end(text: Seq<char>, width: nat) -> bool {
    byte_len(text) > width ==> cuts_at(text, byte_len(text) - width)
}

/// The two parts of a text before and after its first `n` bytes.
fn cut(text: &str, n: usize) -> (r: (String, String))
    requires
        cuts_at(text@, n as int),
    ensures
        r.0@ == head_bytes(text@, n as int),
        r.1@ == tail_bytes(text@, n as int),
{
    let (a, b) = text.split_at(n);
    proof {
        vstd::utf8::encode_utf8_decode_utf8(a@);
        vstd::utf8::encode_utf8_decode_utf8(b@);
    }
    (a.to_owned(), b.to_owned())
}

/// Computes [`can_shorten`].
pub fn shortens(text: &str, width: usize) -> (r: bool)
    ensures
        r == can_shorten(text@, width as nat),
{
    if text.as_bytes().len() <= width {
        return true;
    }
    text.is_char_boundary(width.saturating_sub(3))
}

/// Computes [`shortened`].
pub fn shorten(text: &str, width: usize) -> (r: String)
    requires
        can_shorten(text@, width as nat),
    ensures
        r@ == shortened(text@, width as nat),
{
    if text.as_bytes().len() <= width {
        return text.to_owned();
    }
    let (head, _) = cut(text, width.saturating_sub(3));
    head.concat("...")
}

/// Computes [`can_end`].
pub fn ends(text: &str, width: usize) -> (r: bool)
    ensures
        r == can_end(text@, width as nat),
{
    let n: usize = text.as_bytes().len();
    if n <= width {
        return true;
    }
    text.is_char_boundary(n - width)
}

/// Computes [`ending`].
pub fn end_of(text: &str, width: usize) -> (r: String)
    requires
        can_end(text@, width as nat),
    ensures
        r@ == ending(text@, width as nat),
{
    let n: usize = text.as_bytes().len();
    if n <= width {
        return text.to_owned();
    }
    let (_, tail) = cut(text, n - width);
    String::from_str("...").concat(tail.as_str())
}

/// A character `n` times.
pub open spec fn repeated(c: char, n: nat) -> Seq<char> {
    Seq::new(n, |i: int| c)
}

/// The block that stands for what is used.
pub const FULL_BLOCK: char = '\u{2588}';

/// The block that stands for what is free.
pub const LIGHT_BLOCK: char = '\u{2591}';

/// A bar of `width` blocks of which `fill` are full. A larger `fill` makes the
/// bar longer.
pub open spec fn bar_text(fill: nat, width: nat) -> Seq<char> {
    repeated(FULL_BLOCK, fill) + repeated(
        LIGHT_BLOCK,
        if width > fill {
            (width - fill) as nat
        } else {
            0
        },
    )
}

fn append_repeated(out: &mut String, c: char, n: usize)
    ensures
        final(out)@ == old(out)@ + repeated(c, n as nat),
{
    let ghost start = out@;
    let mut i: usize = 0;
    assert(out@ =~= start + repeated(c, 0));
    while i < n
        invariant
            i <= n,
            out@ == start + repeated(c, i as nat),
        decreases n - i,
    {
        push_char(out, c);
        assert(out@ =~= start + repeated(c, (i + 1) as nat));
        i += 1;
    }
}

/// Computes [`bar_text`].
pub fn bar(fill: usize, width: usize) -> (r: String)
    ensures
        r@ == bar_text(fill as nat, width as nat),
{
    let mut r = String::new();
    append_repeated(&mut r, FULL_BLOCK, fill);
    append_repeated(&mut r, LIGHT_BLOCK, width.saturating_sub(fill));
    assert(r@ =~= bar_text(fill as nat, width as nat));
    r
}

/// Whether a text is made of decimal digits.
pub open spec fn is_number(text: Seq<char>) -> bool {
    forall|k: int| 0 <= k < text.len() ==> 48 <= (#[trigger] text[k]) as u32 <= 57
}

/// The number that decimal digits stand for.
pub open spec fn number_in(text: Seq<char>) -> nat
    decreases text.len(),
{
    if text.len() == 0 {
        0
    } else {
        (number_in(text.drop_last()) * 10 + (text.last() as u32 - 48)) as nat
    }
}

/// A number in decimal reads as that number, and has no leading zero.
pub proof fn law_decimal_reads_back(n: nat)
    ensures
        is_number(decimal_text(n)),
        number_in(decimal_text(n)) == n,
        decimal_text(n).len() > 0,
        n > 0 ==> decimal_text(n)[0] != '0',
        n < 10 ==> decimal_text(n).len() == 1,
    decreases n,
{
    let text = decimal_text(n);
    if n < 10 {
        assert(text.drop_last() =~= Seq::<char>::empty());
        assert(number_in(text.drop_last()) == 0);
    } else {
        law_decimal_reads_back(n / 10);
        let before = decimal_text(n / 10);
        assert(text.drop_last() =~= before);
        assert(text[0] == before[0]);
        assert forall|k: int| 0 <= k < text.len() implies 48 <= (
        #[trigger] text[k]) as u32 <= 57 by {
            if k < before.len() {
                assert(text[k] == before[k]);
            }
        }
    }
}

/// The last digits of a number read as its rest by a power of ten, and are as
/// many as was asked for.
pub proof fn law_last_digits_read_back(n: nat, width: nat)
    ensures
        is_number(padded_digits(n, width)),
        padded_digits(n, width).len() == width,
        width == 1 ==> number_in(padded_digits(n, width)) == n % 10,
        width == 2 ==> number_in(padded_digits(n, width)) == n % 100,
    decreases width,
{
    let text = padded_digits(n, width);
    if width > 0 {
        let before = padded_digits(n / 10, (width - 1) as nat);
        law_last_digits_read_back(n / 10, (width - 1) as nat);
        assert(text.drop_last() =~= before);
        assert forall|k: int| 0 <= k < text.len() implies 48 <= (
        #[trigger] text[k]) as u32 <= 57 by {
            if k < before.len() {
                assert(text[k] == before[k]);
            }
        }
        if width == 1 {
            assert(number_in(before) == 0);
        }
    }
}

/// An aligned text is as wide as was asked for, or as it was if that is wider;
/// it has the text at its right or at its left, and spaces for the rest.
pub proof fn law_aligned_text_is_filled(text: Seq<char>, width: nat)
    ensures
        ({
            let right = right_aligned(text, width);
            let left = left_aligned(text, width);
            &&& text.len() >= width ==> right == text && left == text
            &&& text.len() < width ==> {
                &&& right.len() == width
                &&& left.len() == width
                &&& right.skip(width - text.len()) == text
                &&& left.take(text.len() as int) == text
                &&& forall|k: int| 0 <= k < width - text.len() ==> #[trigger] right[k] == ' '
                &&& forall|k: int| text.len() <= k < width ==> #[trigger] left[k] == ' '
            }
        }),
{
    let right = right_aligned(text, width);
    let left = left_aligned(text, width);
    if text.len() >= width {
        assert(right =~= text);
        assert(left =~= text);
    } else {
        assert(right.skip(width - text.len()) =~= text);
        assert(left.take(text.len() as int) =~= text);
    }
}

/// A text that fits is not shortened. A longer one keeps its beginning and ends
/// in three dots, together as wide as was asked for.
pub proof fn law_shortened_text_fits(text: Seq<char>, width: nat)
    requires
        can_shorten(text, width),
    ensures
        vstd::utf8::encode_utf8(text).len() <= width ==> shortened(text, width) == text,
        vstd::utf8::encode_utf8(text).len() > width >= 3 ==> exists|head: Seq<char>|
            {
                &&& shortened(text, width) == #[trigger] (head + "..."@)
                &&& vstd::utf8::encode_utf8(head) == vstd::utf8::encode_utf8(text).take(width - 3)
            },
        vstd::utf8::encode_utf8(text).len() > width && width < 3 ==> shortened(text, width)
            == "..."@,
{
    let bytes = vstd::utf8::encode_utf8(text);
    vstd::utf8::encode_utf8_valid_utf8(text);
    if bytes.len() > width {
        let n = cut_place(width);
        let head = head_bytes(text, n);
        vstd::utf8::valid_utf8_split(bytes, n);
        vstd::utf8::decode_utf8_encode_utf8(bytes.subrange(0, n));
        assert(bytes.subrange(0, n) =~= bytes.take(n));
        assert(shortened(text, width) == head + "..."@);
        if width < 3 {
            assert(vstd::utf8::encode_utf8(head).len() == 0);
            assert(bytes.subrange(0, n) =~= Seq::<u8>::empty());
            assert(head =~= Seq::<char>::empty()) by {
                reveal_with_fuel(vstd::utf8::decode_utf8, 2);
            }
            assert(head + "..."@ =~= "..."@);
        }
    }
}

/// A text that fits keeps all of itself. Of a longer one the last bytes stand,
/// as many as was asked for, after three dots.
pub proof fn law_text_keeps_its_end(text: Seq<char>, width: nat)
    requires
        can_end(text, width),
    ensures
        vstd::utf8::encode_utf8(text).len() <= width ==> ending(text, width) == text,
        vstd::utf8::encode_utf8(text).len() > width ==> exists|tail: Seq<char>|
            {
                &&& ending(text, width) == #[trigger] ("..."@ + tail)
                &&& vstd::utf8::encode_utf8(tail) == vstd::utf8::encode_utf8(text).skip(
                    vstd::utf8::encode_utf8(text).len() - width,
                )
            },
{
    let bytes = vstd::utf8::encode_utf8(text);
    vstd::utf8::encode_utf8_valid_utf8(text);
    if bytes.len() > width {
        let n = bytes.len() - width;
        let tail = tail_bytes(text, n);
        vstd::utf8::valid_utf8_split(bytes, n);
        vstd::utf8::decode_utf8_encode_utf8(bytes.subrange(n, bytes.len() as int));
        assert(bytes.subrange(n, bytes.len() as int) =~= bytes.skip(n));
        assert(ending(text, width) == "..."@ + tail);
    }
}

/// A bar is as wide as was asked for, or as what is filled of it if that is
/// wider, and is filled from its left.
pub proof fn law_bar_is_filled_from_the_left(fill: nat, width: nat)
    ensures
        ({
            let text = bar_text(fill, width);
            &&& text.len() == if fill > width {
                fill
            } else {
                width
            }
            &&& forall|k: int| 0 <= k < fill ==> #[trigger] text[k] == '\u{2588}'
            &&& forall|k: int| fill <= k < width ==> #[trigger] text[k] == '\u{2591}'
        }),
{
}

} // verus!
