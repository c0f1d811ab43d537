//! Text building blocks: decimal rendering of integers and fixed-point
//! percentages, substring search, Unicode whitespace trimming, and the
//! Unicode lowercasing that std performs.

use vstd::prelude::*;

verus! {

/// The ASCII digit for `d` (`0 <= d < 10`).
pub open spec fn digit_char(d: nat) -> char {
    if d == 0 { '0' }
    else if d == 1 { '1' }
    else if d == 2 { '2' }
    else if d == 3 { '3' }
    else if d == 4 { '4' }
    else if d == 5 { '5' }
    else if d == 6 { '6' }
    else if d == 7 { '7' }
    else if d == 8 { '8' }
    else { '9' }
}

/// The decimal rendering of a natural number, without leading zeros.
pub open spec fn decimal(n: nat) -> Seq<char>
    decreases n,
{
    if n < 10 {
        seq![digit_char(n)]
    } else {
        decimal(n / 10).push(digit_char(n % 10))
    }
}

/// The decimal rendering of an integer, with a leading `-` when negative.
pub open spec fn signed_decimal(i: int) -> Seq<char> {
    if i < 0 {
        seq!['-'] + decimal((-i) as nat)
    } else {
        decimal(i as nat)
    }
}

/// A fixed-point quantity given in tenths, rendered with exactly one
/// fractional digit (`123` renders as `12.3`, `-5` as `-0.5`).
pub open spec fn tenths_text(t: int) -> Seq<char> {
    let mag: nat = if t < 0 { (-t) as nat } else { t as nat };
    let body = decimal(mag / 10) + seq!['.', digit_char(mag % 10)];
    if t < 0 { seq!['-'] + body } else { body }
}

/// `n / d` (with `d > 0`) rounded to the nearest integer, ties to the
/// even neighbour.
pub open spec fn round_half_even(n: nat, d: nat) -> nat {
    let q = n / d;
    let r = n % d;
    if 2 * r > d || (2 * r == d && q % 2 == 1) { q + 1 } else { q }
}

/// `num / den` (with `den > 0`) rounded to the nearest tenth, expressed in
/// tenths: the magnitude is rounded, ties to even, as decimal formatting
/// of an exact value does, and the sign kept.
pub open spec fn round_tenths(num: int, den: int) -> int {
    if num >= 0 {
        round_half_even((num * 10) as nat, den as nat) as int
    } else {
        -(round_half_even(((-num) * 10) as nat, den as nat) as int)
    }
}

/// The rendering of the rational `num / den` to one decimal place; a
/// negative value keeps its sign even when it rounds to zero.
pub open spec fn ratio_text(num: int, den: int) -> Seq<char> {
    let t = round_tenths(num, den);
    if num < 0 && t == 0 {
        seq!['-'] + tenths_text(0)
    } else {
        tenths_text(t)
    }
}

/// A percentage held in hundredths of a percent, rendered to one decimal
/// place.
pub open spec fn centi_percent_text(centi: nat) -> Seq<char> {
    ratio_text(centi as int, 100)
}

/// True when `needle` occurs as a contiguous run inside `hay`.
pub open spec fn has_substring(hay: Seq<char>, needle: Seq<char>) -> bool {
    exists|i: int| 0 <= i <= hay.len() - needle.len() && #[trigger] hay.subrange(i, i + needle.len()) == needle
}

fn digit_str(d: u64) -> (s: &'static str)
    requires
        d < 10,
    ensures
        s@ == seq![digit_char(d as nat)],
{
    proof {
        reveal_strlit("0");
        reveal_strlit("1");
        reveal_strlit("2");
        reveal_strlit("3");
        reveal_strlit("4");
        reveal_strlit("5");
        reveal_strlit("6");
        reveal_strlit("7");
        reveal_strlit("8");
        reveal_strlit("9");
    }
    if d == 0 { "0" }
    else if d == 1 { "1" }
    else if d == 2 { "2" }
    else if d == 3 { "3" }
    else if d == 4 { "4" }
    else if d == 5 { "5" }
    else if d == 6 { "6" }
    else if d == 7 { "7" }
    else if d == 8 { "8" }
    else { "9" }
}

/// Appends the decimal rendering of `n` to `out`.
pub fn push_decimal(out: &mut String, n: u128)
    ensures
        final(out)@ == old(out)@ + decimal(n as nat),
    decreases n,
{
    if n >= 10 {
        push_decimal(out, n / 10);
    }
    let d = (n % 10) as u64;
    out.append(digit_str(d));
    proof {
        if n >= 10 {
            assert(decimal(n as nat) == decimal((n / 10) as nat).push(digit_char((n % 10) as nat)));
        }
    }
    assert(final(out)@ =~= old(out)@ + decimal(n as nat));
}

/// Appends the decimal rendering of the signed `i` to `out`.
pub fn push_signed(out: &mut String, i: i64)
    ensures
        final(out)@ == old(out)@ + signed_decimal(i as int),
{
    if i < 0 {
        proof { reveal_strlit("-"); }
        out.append("-");
        let mag = (0i128 - i as i128) as u128;
        push_decimal(out, mag);
        assert(final(out)@ =~= old(out)@ + signed_decimal(i as int));
    } else {
        push_decimal(out, i as u128);
    }
}

/// Appends the rendering of a value held in tenths.
pub fn push_tenths(out: &mut String, t: i128)
    requires
        t > i128::MIN,
    ensures
        final(out)@ == old(out)@ + tenths_text(t as int),
{
    let ghost start = out@;
    let mag: u128 = if t < 0 { (0 - t) as u128 } else { t as u128 };
    if t < 0 {
        proof { reveal_strlit("-"); }
        out.append("-");
    }
    push_decimal(out, mag / 10);
    proof { reveal_strlit("."); }
    out.append(".");
    out.append(digit_str((mag % 10) as u64));
    assert(final(out)@ =~= start + tenths_text(t as int));
}

/// `n / d` rounded, ties to even (see `round_half_even`).
fn rounded_half_even(n: u128, d: u128) -> (q: u128)
    requires
        d > 0,
        n < 0x1_0000_0000_0000_0000_0000_0000_0000,
    ensures
        q == round_half_even(n as nat, d as nat),
        q <= n / d + 1,
{
    let q = n / d;
    let r = n % d;
    if r > d - r || (r == d - r && q % 2 == 1) {
        q + 1
    } else {
        q
    }
}

/// Appends `num / den` rounded to one decimal place (see `ratio_text`).
pub fn push_ratio(out: &mut String, num: i128, den: i128)
    requires
        den > 0,
        -0x1_0000_0000_0000_0000_0000_0000 < num < 0x1_0000_0000_0000_0000_0000_0000,
        den < 0x1_0000_0000_0000_0000_0000_0000,
    ensures
        final(out)@ == old(out)@ + ratio_text(num as int, den as int),
{
    let mag: u128 = if num >= 0 { num as u128 } else { (0 - num) as u128 };
    let q = rounded_half_even(mag * 10, den as u128);
    let ghost n: int = mag as int * 10;
    let ghost d: int = den as int;
    assert(n / d <= n) by (nonlinear_arith)
        requires n >= 0, d >= 1;
    assert(q <= mag * 10 + 1);
    let t: i128 = if num >= 0 { q as i128 } else { 0 - q as i128 };
    assert(t == round_tenths(num as int, den as int));
    if num < 0 && t == 0 {
        proof { reveal_strlit("-"); }
        out.append("-");
        push_tenths(out, 0);
        assert(final(out)@ =~= old(out)@ + ratio_text(num as int, den as int));
    } else {
        push_tenths(out, t);
    }
}

/// Appends a hundredths-of-a-percent quantity rendered to one decimal.
pub fn push_centi_percent(out: &mut String, centi: u64)
    ensures
        final(out)@ == old(out)@ + centi_percent_text(centi as nat),
{
    push_ratio(out, centi as i128, 100);
}

/// The characters of `s`, in order.
pub fn chars_of(s: &str) -> (v: Vec<char>)
    ensures
        v@ == s@,
{
    let mut it = s.chars();
    let mut v: Vec<char> = Vec::new();
    loop
        invariant
            v@ + vstd::std_specs::iter::IteratorSpec::remaining(&it) == s@,
            vstd::std_specs::iter::IteratorSpec::obeys_prophetic_iter_laws(&it),
            vstd::std_specs::iter::IteratorSpec::decrease(&it) is Some,
        decreases vstd::std_specs::iter::IteratorSpec::decrease(&it)->0,
    {
        let ghost before = vstd::std_specs::iter::IteratorSpec::remaining(&it);
        match it.next() {
            Some(c) => {
                v.push(c);
                assert(v@ + vstd::std_specs::iter::IteratorSpec::remaining(&it) =~= s@) by {
                    assert(before =~= seq![c] + vstd::std_specs::iter::IteratorSpec::remaining(&it));
                }
            },
            None => {
                assert(v@ =~= s@);
                return v;
            },
        }
    }
}

/// Whether `needle` occurs inside `hay` at position `i`.
fn occurs_at(hay: &Vec<char>, needle: &Vec<char>, i: usize) -> (b: bool)
    requires
        i + needle@.len() <= hay@.len(),
    ensures
        b == (hay@.subrange(i as int, i + needle@.len()) == needle@),
{
    let mut j: usize = 0;
    while j < needle.len()
        invariant
            j <= needle@.len(),
            i + needle@.len() <= hay@.len(),
            forall|k: int| 0 <= k < j ==> hay@[i + k] == needle@[k],
        decreases needle@.len() - j,
    {
        assert(i + j < hay@.len());
        assert(hay@.len() == hay.len());
        if hay[i + j] != needle[j] {
            assert(hay@.subrange(i as int, i + needle@.len())[j as int] != needle@[j as int]);
            return false;
        }
        j += 1;
    }
    assert(hay@.subrange(i as int, i + needle@.len()) =~= needle@);
    true
}

/// Substring search over character sequences.
pub fn contains_chars(hay: &Vec<char>, needle: &Vec<char>) -> (b: bool)
    ensures
        b == has_substring(hay@, needle@),
{
    if needle.len() > hay.len() {
        return false;
    }
    let last = hay.len() - needle.len();
    let mut i: usize = 0;
    while i <= last
        invariant
            last == hay@.len() - needle@.len(),
            needle@.len() <= hay@.len(),
            forall|k: int| 0 <= k < i ==> #[trigger] hay@.subrange(k, k + needle@.len()) != needle@,
        decreases last + 1 - i,
    {
        if occurs_at(hay, needle, i) {
            return true;
        }
        if i == last {
            assert forall|k: int| 0 <= k <= hay@.len() - needle@.len() implies #[trigger] hay@.subrange(k, k + needle@.len()) != needle@ by {
                if k == i as int {
                } else {
                    assert(k < i);
                }
            }
            return false;
        }
        i += 1;
    }
    false
}

/// Whether `needle` occurs as a substring of `hay` (`str::contains`).
pub fn str_contains(hay: &str, needle: &str) -> (b: bool)
    ensures
        b == has_substring(hay@, needle@),
{
    let h = chars_of(hay);
    let n = chars_of(needle);
    contains_chars(&h, &n)
}

/// The result of std's Unicode lowercase mapping (`str::to_lowercase`) on
/// a character sequence.
pub uninterp spec fn lowercase_of(s: Seq<char>) -> Seq<char>;

/// Calls `str::to_lowercase`. The contract names the result: it is a
/// function of the characters of `s` alone (std's Unicode case tables);
/// nothing more about it is claimed here.
#[verifier::external_body]
pub(crate) fn to_lowercase(s: &str) -> (r: String)
    ensures
        r@ == lowercase_of(s@),
{
    s.to_lowercase()
}

/// Whether `c` has the Unicode `White_Space` property, the whitespace that
/// `str::trim` removes.
pub open spec fn is_white_space(c: char) -> bool {
    let u = c as u32;
    ||| 0x9 <= u <= 0xD
    ||| u == 0x20 || u == 0x85 || u == 0xA0 || u == 0x1680
    ||| 0x2000 <= u <= 0x200A
    ||| u == 0x2028 || u == 0x2029 || u == 0x202F || u == 0x205F || u == 0x3000
}

fn white_space(c: char) -> (b: bool)
    ensures
        b == is_white_space(c),
{
    let u = c as u32;
    (0x9 <= u && u <= 0xD) || u == 0x20 || u == 0x85 || u == 0xA0 || u == 0x1680
        || (0x2000 <= u && u <= 0x200A) || u == 0x2028 || u == 0x2029 || u == 0x202F || u == 0x205F
        || u == 0x3000
}

/// The first position at or after `i` that does not hold whitespace (the
/// end of `s` when there is none).
pub open spec fn skip_white_from(s: Seq<char>, i: int) -> int
    decreases s.len() - i,
{
    if 0 <= i < s.len() && is_white_space(s[i]) { skip_white_from(s, i + 1) } else { i }
}

/// The end of `s[..j]` once trailing whitespace is removed, never before `lo`.
pub open spec fn skip_white_back(s: Seq<char>, lo: int, j: int) -> int
    decreases j - lo,
{
    if lo < j && j <= s.len() && is_white_space(s[j - 1]) { skip_white_back(s, lo, j - 1) } else { j }
}

/// `s` without its leading and trailing whitespace.
pub open spec fn trimmed(s: Seq<char>) -> Seq<char> {
    let lo = skip_white_from(s, 0);
    s.subrange(lo, skip_white_back(s, lo, s.len() as int))
}

/// `s` without its leading and trailing whitespace, as `str::trim` gives it.
pub fn trim(s: &str) -> (r: &str)
    ensures
        r@ == trimmed(s@),
{
    let cs = chars_of(s);
    let n = cs.len();
    let mut i: usize = 0;
    while i < n && white_space(cs[i])
        invariant
            i <= n,
            n == s@.len(),
            cs@ == s@,
            skip_white_from(s@, i as int) == skip_white_from(s@, 0),
        decreases n - i,
    {
        i += 1;
    }
    assert(skip_white_from(s@, i as int) == i);
    let mut j: usize = n;
    while j > i && white_space(cs[j - 1])
        invariant
            i <= j <= n,
            n == s@.len(),
            cs@ == s@,
            skip_white_back(s@, i as int, j as int) == skip_white_back(s@, i as int, n as int),
        decreases j - i,
    {
        j -= 1;
    }
    assert(skip_white_back(s@, i as int, j as int) == j);
    s.substring_char(i, j)
}

} // verus!
