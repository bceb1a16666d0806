//! Sizes as text, sizes on disk, and the Windows verbatim prefix.
use vstd::prelude::*;
use vstd::string::StringExecFns;

use crate::path::FsPath;
use crate::path::SpelledView;
use crate::text::decimal;
use crate::text::lossy;
use crate::text::low_digits;

verus! {

/// Bytes in a kilobyte.
pub const KB: u64 = 1024;

/// Bytes in a megabyte.
pub const MB: u64 = 1048576;

/// Bytes in a gigabyte.
pub const GB: u64 = 1073741824;

/// Bytes in a terabyte.
pub const TB: u64 = 1099511627776;

/// Two to the fifty-third: below it a double holds every integer.
pub const DOUBLE_EXACT: u64 = 9007199254740992;

/// Bytes in a block of a file's allocation.
pub const BLOCK: u64 = 512;

/// The power of two that integers of the size of `n` are rounded to in a
/// double.
pub open spec fn double_step(n: nat) -> nat
    decreases n,
{
    if n < DOUBLE_EXACT {
        1
    } else {
        2 * double_step(n / 2)
    }
}

/// `n / d` rounded to the nearest integer, halfway cases to the even one.
pub open spec fn rounded_quotient(n: nat, d: nat) -> nat {
    let q = n / d;
    let r = n % d;
    if 2 * r > d || (2 * r == d && q % 2 == 1) {
        q + 1
    } else {
        q
    }
}

/// The value of the double nearest to `n`.
pub open spec fn as_double(n: nat) -> nat {
    rounded_quotient(n, double_step(n)) * double_step(n)
}

/// Ten to the power `n`.
pub open spec fn power_of_ten(n: nat) -> nat
    decreases n,
{
    if n == 0 {
        1
    } else {
        10 * power_of_ten((n - 1) as nat)
    }
}

/// A byte count as a fraction of `unit` with `places` decimals, rounded from
/// the double nearest to the count.
pub open spec fn fixed_text(bytes: nat, unit: nat, places: nat) -> Seq<char> {
    let scaled = rounded_quotient(as_double(bytes) * power_of_ten(places), unit);
    crate::text::decimal_text(scaled / power_of_ten(places)) + seq!['.']
        + crate::text::padded_digits(scaled, places)
}

/// The text of a byte count in the largest unit that it reaches.
pub open spec fn size_text(bytes: nat) -> Seq<char> {
    if bytes >= TB {
        fixed_text(bytes, TB as nat, 1) + " TB"@
    } else if bytes >= GB {
        fixed_text(bytes, GB as nat, 1) + " GB"@
    } else if bytes >= MB {
        fixed_text(bytes, MB as nat, 1) + " MB"@
    } else if bytes >= KB {
        fixed_text(bytes, KB as nat, 1) + " KB"@
    } else {
        crate::text::decimal_text(bytes) + " B"@
    }
}

proof fn lemma_double_step_bounds(n: nat)
    requires
        n <= u64::MAX,
    ensures
        1 <= double_step(n) <= 4096,
        n < DOUBLE_EXACT * double_step(n),
    decreases n,
{
    if n >= DOUBLE_EXACT {
        lemma_double_step_scaled(n, 1, n);
        lemma_double_step_bounds(n / 2);
        let h = double_step(n / 2);
        assert(double_step(n) == 2 * h);
        assert(n < DOUBLE_EXACT * (2 * h)) by (nonlinear_arith)
            requires
                n / 2 < DOUBLE_EXACT * h,
        ;
        lemma_step_is_tight(n);
        assert(h <= 2048);
    }
}

/// Below the next smaller step the count would not fit.
proof fn lemma_step_is_tight(n: nat)
    requires
        n >= DOUBLE_EXACT,
    ensures
        DOUBLE_EXACT * double_step(n / 2) <= n,
    decreases n,
{
    if n / 2 >= DOUBLE_EXACT {
        lemma_step_is_tight(n / 2);
        let h = double_step(n / 2 / 2);
        assert(DOUBLE_EXACT * (2 * h) <= n) by (nonlinear_arith)
            requires
                DOUBLE_EXACT * h <= n / 2,
        ;
    }
}

proof fn lemma_double_step_scaled(n: nat, unit: nat, m: nat)
    requires
        unit * double_step(m) == double_step(n),
        m >= DOUBLE_EXACT,
    ensures
        (2 * unit) * double_step(m / 2) == double_step(n),
{
    assert((2 * unit) * double_step(m / 2) == unit * (2 * double_step(m / 2))) by (nonlinear_arith);
}

/// Computes [`double_step`].
fn step_of(n: u64) -> (r: u64)
    ensures
        r == double_step(n as nat),
        1 <= r <= 4096,
{
    let mut m: u64 = n;
    let mut unit: u64 = 1;
    proof {
        lemma_double_step_bounds(n as nat);
    }
    while m >= DOUBLE_EXACT
        invariant
            unit * double_step(m as nat) == double_step(n as nat),
            1 <= unit <= 4096,
            double_step(n as nat) <= 4096,
        decreases m,
    {
        proof {
            lemma_double_step_scaled(n as nat, unit as nat, m as nat);
            lemma_double_step_bounds((m / 2) as nat);
            assert(2 * unit <= 4096) by (nonlinear_arith)
                requires
                    (2 * unit) * double_step((m / 2) as nat) <= 4096,
                    double_step((m / 2) as nat) >= 1,
            ;
        }
        m = m / 2;
        unit = unit * 2;
    }
    assert(unit * double_step(m as nat) == unit) by (nonlinear_arith)
        requires
            double_step(m as nat) == 1,
    ;
    unit
}

/// Computes [`rounded_quotient`].
fn round_half_even(n: u128, d: u128) -> (r: u128)
    requires
        0 < d <= u64::MAX,
        n <= 0xffff_ffff_ffff_ffff_ffff_ffff,
    ensures
        r == rounded_quotient(n as nat, d as nat),
        r <= n + 1,
{
    let q: u128 = n / d;
    let rest: u128 = n % d;
    assert(q <= n) by (nonlinear_arith)
        requires
            d > 0,
            q == n / d,
    ;
    if 2 * rest > d || (2 * rest == d && q % 2 == 1) {
        q + 1
    } else {
        q
    }
}

/// Computes [`as_double`].
fn nearest_double(bytes: u64) -> (r: u128)
    ensures
        r == as_double(bytes as nat),
        r <= 0x2_0000_0000_0000_0000,
{
    let step: u64 = step_of(bytes);
    let q: u128 = round_half_even(bytes as u128, step as u128);
    proof {
        lemma_double_step_bounds(bytes as nat);
        let b = bytes as int;
        let s = step as int;
        assert(b / s <= DOUBLE_EXACT - 1) by (nonlinear_arith)
            requires
                b < DOUBLE_EXACT * s,
                b >= 0,
                s > 0,
        ;
        assert(q <= DOUBLE_EXACT);
        assert(q * step <= DOUBLE_EXACT * 4096) by (nonlinear_arith)
            requires
                q <= DOUBLE_EXACT,
                step <= 4096,
        ;
        assert(DOUBLE_EXACT * 4096 == 0x2_0000_0000_0000_0000);
    }
    q * (step as u128)
}

/// A byte count as a fraction of `unit` with one or two decimals.
pub fn format_fixed(bytes: u64, unit: u64, places: u32) -> (r: String)
    requires
        unit >= KB,
        1 <= places <= 2,
    ensures
        r@ == fixed_text(bytes as nat, unit as nat, places as nat),
{
    let value: u128 = nearest_double(bytes);
    let scale: u64 = if places == 1 {
        10
    } else {
        100
    };
    proof {
        reveal_with_fuel(power_of_ten, 3);
        assert(scale == power_of_ten(places as nat));
    }
    let scaled: u128 = round_half_even(value * (scale as u128), unit as u128);
    proof {
        let n = value * scale;
        assert(n / unit as int <= 0x2_0000_0000_0000_0000 * 100 / 1024) by (nonlinear_arith)
            requires
                0 <= n <= 0x2_0000_0000_0000_0000 * 100,
                unit >= 1024,
        ;
        assert(scaled <= u64::MAX);
    }
    let t: u64 = scaled as u64;
    let mut r = decimal(t / scale);
    proof {
        reveal_strlit(".");
        assert("."@ =~= seq!['.']);
    }
    r.append(".");
    let fraction = low_digits(t, places);
    r.append(fraction.as_str());
    assert(r@ =~= fixed_text(bytes as nat, unit as nat, places as nat));
    r
}

/// A byte count as text, in the largest unit that it reaches, with one decimal
/// from a kilobyte up.
pub fn format_size(bytes: u64) -> (r: String)
    ensures
        r@ == size_text(bytes as nat),
{
    if bytes >= TB {
        format_fixed(bytes, TB, 1).concat(" TB")
    } else if bytes >= GB {
        format_fixed(bytes, GB, 1).concat(" GB")
    } else if bytes >= MB {
        format_fixed(bytes, MB, 1).concat(" MB")
    } else if bytes >= KB {
        format_fixed(bytes, KB, 1).concat(" KB")
    } else {
        decimal(bytes).concat(" B")
    }
}

/// The size that a file takes on disk, from the number of its blocks.
pub fn allocated_size(blocks: u64) -> (r: u64)
    requires
        blocks * BLOCK <= u64::MAX,
    ensures
        r == blocks * BLOCK,
{
    blocks * BLOCK
}

/// Whether bytes start with the Windows verbatim prefix.
pub open spec fn has_unc_prefix(bytes: Seq<u8>) -> bool {
    bytes.len() >= 4 && bytes[0] == 92 && bytes[1] == 92 && bytes[2] == 63 && bytes[3] == 92
}

/// The spelling of a path, decoded as text, in bytes again.
pub open spec fn readable_bytes(path: SpelledView) -> Seq<u8> {
    vstd::utf8::encode_utf8(crate::text::lossy_text(path.bytes))
}

/// A path without the Windows verbatim prefix; one that has no such prefix is
/// unchanged.
pub open spec fn without_unc_prefix(path: SpelledView) -> SpelledView {
    if has_unc_prefix(readable_bytes(path)) {
        crate::path::spelled(readable_bytes(path).skip(4))
    } else {
        path
    }
}

/// The path that bytes spell after the prefix, if they have it.
pub fn path_after_unc_prefix(bytes: &[u8]) -> (r: Option<FsPath>)
    ensures
        match r {
            Some(p) => has_unc_prefix(bytes@) && p.named() == crate::path::spelled(
                bytes@.skip(4),
            ),
            None => !has_unc_prefix(bytes@),
        },
{
    if bytes.len() < 4 || bytes[0] != 92 || bytes[1] != 92 || bytes[2] != 63 || bytes[3] != 92 {
        return None;
    }
    let mut rest: Vec<u8> = Vec::new();
    let mut i: usize = 4;
    while i < bytes.len()
        invariant
            4 <= i <= bytes.len(),
            rest@ == bytes@.subrange(4, i as int),
        decreases bytes.len() - i,
    {
        rest.push(bytes[i]);
        assert(bytes@.subrange(4, i + 1) =~= bytes@.subrange(4, i as int).push(bytes@[i as int]));
        i += 1;
    }
    assert(bytes@.subrange(4, bytes@.len() as int) =~= bytes@.skip(4));
    Some(FsPath::from_bytes(&rest))
}

/// Takes the Windows verbatim prefix off a path, if it has one. The path is
/// read as text first; where its bytes are UTF-8 that changes nothing.
pub fn strip_unc_prefix(path: FsPath) -> (r: FsPath)
    ensures
        r.named() == without_unc_prefix(path.named()),
        vstd::utf8::valid_utf8(path.spelling()) ==> r.named() == (if has_unc_prefix(
            path.spelling(),
        ) {
            crate::path::spelled(path.spelling().skip(4))
        } else {
            path.named()
        }),
{
    let spelling = path.to_bytes();
    let readable = lossy(&spelling);
    proof {
        if vstd::utf8::valid_utf8(spelling@) {
            vstd::utf8::decode_utf8_encode_utf8(spelling@);
        }
    }
    match path_after_unc_prefix(readable.as_str().as_bytes()) {
        Some(stripped) => stripped,
        None => path,
    }
}

/// Whether a text gives a number of units with one decimal: the tenths of a
/// unit that it reads as are those nearest to `bytes`, of two as near the even
/// ones, up to what a double leaves out.
pub open spec fn reads_as(text: Seq<char>, bytes: nat, unit: nat, name: Seq<char>) -> bool {
    exists|whole: Seq<char>, tenth: Seq<char>|
        {
            let tenths = (10 * crate::text::number_in(whole) + crate::text::number_in(
                tenth,
            )) as int;
            &&& text == #[trigger] (whole + seq!['.'] + tenth) + name
            &&& crate::text::is_number(whole)
            &&& crate::text::is_number(tenth)
            &&& whole.len() > 0
            &&& tenth.len() == 1
            &&& 2 * (tenths * unit - 10 * bytes) <= unit + if bytes < 9007199254740992 {
                0int
            } else {
                10 * 4096int
            }
            &&& 2 * (10 * bytes - tenths * unit) <= unit + if bytes < 9007199254740992 {
                0int
            } else {
                10 * 4096int
            }
            &&& bytes < 9007199254740992 && (2 * (tenths * unit - 10 * bytes) == unit || 2 * (10
                * bytes - tenths * unit) == unit) ==> tenths % 2 == 0
        }
}

pub proof fn lemma_rounded(n: nat, d: nat)
    requires
        d > 0,
    ensures
        2 * (rounded_quotient(n, d) * d - n) <= d,
        2 * (n - rounded_quotient(n, d) * d) <= d,
        2 * (rounded_quotient(n, d) * d - n) == d || 2 * (n - rounded_quotient(n, d) * d) == d
            ==> rounded_quotient(n, d) % 2 == 0,
{
    let q = n / d;
    let r = n % d;
    vstd::arithmetic::div_mod::lemma_fundamental_div_mod(n as int, d as int);
    assert(d * q == q * d) by (nonlinear_arith);
    assert((q + 1) * d == q * d + d) by (nonlinear_arith);
}

pub proof fn lemma_as_double(n: nat)
    requires
        n <= u64::MAX,
    ensures
        n < 9007199254740992 ==> as_double(n) == n,
        2 * (as_double(n) - n) <= 4096,
        2 * (n - as_double(n)) <= 4096,
{
    lemma_double_step_bounds(n);
    lemma_rounded(n, double_step(n));
    if n < 9007199254740992 {
        assert(double_step(n) == 1);
        assert(rounded_quotient(n, 1) * 1 == n) by {
            vstd::arithmetic::div_mod::lemma_fundamental_div_mod(n as int, 1);
        }
    }
}

proof fn lemma_fixed_text_reads(bytes: nat, unit: nat, name: Seq<char>)
    requires
        bytes <= u64::MAX,
        unit > 0,
    ensures
        reads_as(fixed_text(bytes, unit, 1) + name, bytes, unit, name),
{
    lemma_as_double(bytes);
    reveal_with_fuel(power_of_ten, 2);
    let scaled = rounded_quotient(as_double(bytes) * 10, unit);
    lemma_rounded(as_double(bytes) * 10, unit);
    let whole = crate::text::decimal_text(scaled / 10);
    let tenth = crate::text::padded_digits(scaled, 1);
    crate::text::law_decimal_reads_back(scaled / 10);
    crate::text::law_last_digits_read_back(scaled, 1);
    assert(fixed_text(bytes, unit, 1) == whole + seq!['.'] + tenth);
    let tenths = (10 * crate::text::number_in(whole) + crate::text::number_in(tenth)) as int;
    assert(tenths == scaled);
}

/// A size is given in the largest of bytes, kilobytes, megabytes, gigabytes and
/// terabytes that it reaches; bytes as they are, the rest with one decimal that
/// is the nearest.
pub proof fn law_size_is_given_in_its_unit(bytes: nat)
    requires
        bytes <= u64::MAX,
    ensures
        bytes < 1024 ==> exists|digits: Seq<char>|
            size_text(bytes) == #[trigger] (digits + " B"@) && crate::text::is_number(digits)
                && crate::text::number_in(digits) == bytes,
        1024 <= bytes < 1048576 ==> reads_as(size_text(bytes), bytes, 1024, " KB"@),
        1048576 <= bytes < 1073741824 ==> reads_as(size_text(bytes), bytes, 1048576, " MB"@),
        1073741824 <= bytes < 1099511627776 ==> reads_as(
            size_text(bytes),
            bytes,
            1073741824,
            " GB"@,
        ),
        1099511627776 <= bytes ==> reads_as(size_text(bytes), bytes, 1099511627776, " TB"@),
{
    if bytes < 1024 {
        let digits = crate::text::decimal_text(bytes);
        crate::text::law_decimal_reads_back(bytes);
        assert(size_text(bytes) == digits + " B"@);
    } else if bytes < 1048576 {
        lemma_fixed_text_reads(bytes, 1024, " KB"@);
    } else if bytes < 1073741824 {
        lemma_fixed_text_reads(bytes, 1048576, " MB"@);
    } else if bytes < 1099511627776 {
        lemma_fixed_text_reads(bytes, 1073741824, " GB"@);
    } else {
        lemma_fixed_text_reads(bytes, 1099511627776, " TB"@);
    }
}

/// A path that begins with two backslashes, a question mark and a backslash
/// loses these four and nothing else; any other that can be read as text is
/// left as it is.
pub proof fn law_prefix_is_taken_off(path: SpelledView, rest: Seq<u8>)
    requires
        vstd::utf8::encode_utf8(crate::text::lossy_text(path.bytes)) == path.bytes,
    ensures
        path.bytes == seq![92u8, 92u8, 63u8, 92u8] + rest ==> without_unc_prefix(path)
            == crate::path::spelled(rest),
        !seq![92u8, 92u8, 63u8, 92u8].is_prefix_of(path.bytes) ==> without_unc_prefix(path) == path,
{
    let prefix = seq![92u8, 92u8, 63u8, 92u8];
    let bytes = path.bytes;
    if bytes == prefix + rest {
        assert(bytes[0] == 92 && bytes[1] == 92 && bytes[2] == 63 && bytes[3] == 92);
        assert(bytes.skip(4) =~= rest);
    }
    if has_unc_prefix(bytes) {
        assert(bytes.subrange(0, 4) =~= prefix);
    }
}

/// A file takes 512 bytes for each of its blocks.
pub proof fn law_block_has_512_bytes()
    ensures
        BLOCK == 512,
{
}

} // verus!
