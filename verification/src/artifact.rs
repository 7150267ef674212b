//! Names of the per-band render artifacts and the band number a name carries.
//!
//! A band is handed from its worker to the stitcher as a file whose name
//! holds the band's number in decimal, without padding. The stitcher finds the
//! number again by keeping the digits of the name and reading them as one
//! decimal number.

use vstd::prelude::*;

verus! {

/// Whether `c` is one of the ten ASCII digits.
pub open spec fn is_digit(c: char) -> bool {
    '0' <= c <= '9'
}

/// The number that the ASCII digit `c` stands for.
pub open spec fn digit_value(c: char) -> nat {
    (c as u32 - '0' as u32) as nat
}

/// The ASCII digit that stands for `d`, for `d` below ten.
pub open spec fn digit_char(d: nat) -> char {
    if d == 0 {
        '0'
    } else if d == 1 {
        '1'
    } else if d == 2 {
        '2'
    } else if d == 3 {
        '3'
    } else if d == 4 {
        '4'
    } else if d == 5 {
        '5'
    } else if d == 6 {
        '6'
    } else if d == 7 {
        '7'
    } else if d == 8 {
        '8'
    } else {
        '9'
    }
}

/// The decimal notation of `n`, without padding.
pub open spec fn decimal(n: nat) -> Seq<char>
    decreases n,
{
    if n < 10 {
        seq![digit_char(n)]
    } else {
        decimal(n / 10).push(digit_char(n % 10))
    }
}

/// The file name, without its extension, of the artifact of band `index`.
pub open spec fn artifact_stem_of(index: nat) -> Seq<char> {
    "stitch_"@ + decimal(index)
}

/// The path of the artifact of band `index`, inside the artifact directory.
pub open spec fn artifact_path_of(index: nat) -> Seq<char> {
    "stitch/"@ + artifact_stem_of(index) + ".png"@
}

/// The digits of `name`, in the order in which they occur.
pub open spec fn digits_of(name: Seq<char>) -> Seq<char> {
    name.filter(|c: char| is_digit(c))
}

/// The number that a sequence of digits denotes in decimal; leading zeros do
/// not count, and no digits denote zero.
pub open spec fn decimal_value(digits: Seq<char>) -> nat
    decreases digits.len(),
{
    if digits.len() == 0 {
        0
    } else {
        decimal_value(digits.drop_last()) * 10 + digit_value(digits.last())
    }
}

/// The band number that the stitcher reads from `name`: the number its
/// digits denote, or `u32::MAX` where the name holds no digit or the number
/// does not fit.
pub open spec fn band_key_of(name: Seq<char>) -> u32 {
    if digits_of(name).len() == 0 || decimal_value(digits_of(name)) > u32::MAX {
        u32::MAX
    } else {
        decimal_value(digits_of(name)) as u32
    }
}

/// Reads the band number from the name of an artifact.
pub fn band_key(name: &str) -> (key: u32)
    ensures
        key == band_key_of(name@),
{
    let mut seen: bool = false;
    let mut fits: bool = true;
    let mut value: u32 = 0;
    let ghost mut read: Seq<char> = Seq::empty();
    proof {
        reveal(Seq::filter);
    }
    for c in it: name.chars()
        invariant
            it.seq() == name@,
            read == name@.take(it.index()),
            seen == (digits_of(read).len() > 0),
            fits ==> value == decimal_value(digits_of(read)),
            !fits ==> decimal_value(digits_of(read)) > u32::MAX,
    {
        proof {
            let next = name@.take(it.index() + 1);
            assert(next =~= read.push(c));
            read.lemma_filter_push(c, |c: char| is_digit(c));
            if is_digit(c) {
                assert(digits_of(next).drop_last() =~= digits_of(read));
            }
            read = next;
        }
        if '0' <= c && c <= '9' {
            let digit: u32 = c as u32 - '0' as u32;
            seen = true;
            if fits && value <= (u32::MAX - digit) / 10 {
                value = value * 10 + digit;
            } else {
                fits = false;
            }
        }
    }
    assert(read =~= name@);
    if seen && fits {
        value
    } else {
        u32::MAX
    }
}

/// The directory that holds the artifacts of a render.
pub const ARTIFACT_DIR: &'static str = "stitch";

/// The one-character string of the digit `d`.
fn digit_str(d: usize) -> (text: &'static str)
    requires
        d < 10,
    ensures
        text@ == seq![digit_char(d as nat)],
{
    proof {
        reveal_strlit("0");
        reveal_strlit("1");
        reveal_strlit("2");
        reveal_strlit("3");
        reveal_strlit("4");
        reveal_strlit("5");
        reveal_strlit("6");
        reveal_strlit("7");
        reveal_strlit("8");
        reveal_strlit("9");
    }
    let text = if d == 0 {
        "0"
    } else if d == 1 {
        "1"
    } else if d == 2 {
        "2"
    } else if d == 3 {
        "3"
    } else if d == 4 {
        "4"
    } else if d == 5 {
        "5"
    } else if d == 6 {
        "6"
    } else if d == 7 {
        "7"
    } else if d == 8 {
        "8"
    } else {
        "9"
    };
    assert(text@ =~= seq![digit_char(d as nat)]);
    text
}

/// Appends the decimal notation of `n` to `text`.
fn push_decimal(text: &mut String, n: usize)
    ensures
        final(text)@ == old(text)@ + decimal(n as nat),
    decreases n,
{
    if n >= 10 {
        push_decimal(text, n / 10);
    }
    text.append(digit_str(n % 10));
    assert(text@ =~= old(text)@ + decimal(n as nat));
}

/// The file name, without its extension, under which band `index` is stored.
pub fn artifact_stem(index: usize) -> (stem: String)
    ensures
        stem@ == artifact_stem_of(index as nat),
{
    let mut stem = String::from_str("stitch_");
    push_decimal(&mut stem, index);
    stem
}

/// The path under which band `index` is stored.
pub fn artifact_path(index: usize) -> (path: String)
    ensures
        path@ == artifact_path_of(index as nat),
{
    let mut path = String::from_str("stitch/");
    path.append("stitch_");
    push_decimal(&mut path, index);
    path.append(".png");
    assert(path@ =~= artifact_path_of(index as nat));
    path
}

/// A text without digits contributes nothing to a band number.
proof fn lemma_no_digits(text: Seq<char>)
    requires
        forall|i: int| 0 <= i < text.len() ==> !is_digit(#[trigger] text[i]),
    ensures
        digits_of(text) == Seq::<char>::empty(),
    decreases text.len(),
{
    reveal(Seq::filter);
    if text.len() > 0 {
        lemma_no_digits(text.drop_last());
    }
}

/// Decimal notation is made of digits and denotes the number it was made
/// from.
pub proof fn lemma_decimal(n: nat)
    ensures
        decimal(n).len() >= 1,
        forall|i: int| 0 <= i < decimal(n).len() ==> is_digit(#[trigger] decimal(n)[i]),
        digits_of(decimal(n)) == decimal(n),
        decimal_value(decimal(n)) == n,
    decreases n,
{
    if n < 10 {
        let text = seq![digit_char(n)];
        assert(text.drop_last() =~= Seq::<char>::empty());
        assert(text =~= Seq::<char>::empty().push(digit_char(n)));
        Seq::<char>::empty().lemma_filter_push(digit_char(n), |c: char| is_digit(c));
        lemma_no_digits(Seq::<char>::empty());
        assert(decimal_value(text.drop_last()) == 0);
    } else {
        lemma_decimal(n / 10);
        let head = decimal(n / 10);
        let last = digit_char(n % 10);
        head.lemma_filter_push(last, |c: char| is_digit(c));
        assert(head.push(last).drop_last() =~= head);
    }
}

/// The name of an artifact carries its band number: the stitcher reads from
/// the stem, and from the whole path, of the artifact of band `index` the
/// number `index` itself, as long as that is below `u32::MAX`, and `u32::MAX`
/// for any larger one.
pub proof fn lemma_key_of_artifact(index: nat)
    ensures
        band_key_of(artifact_stem_of(index)) == (if index < u32::MAX {
            index as u32
        } else {
            u32::MAX
        }),
        band_key_of(artifact_path_of(index)) == band_key_of(artifact_stem_of(index)),
{
    reveal_strlit("stitch_");
    reveal_strlit("stitch/");
    reveal_strlit(".png");
    lemma_decimal(index);
    lemma_no_digits("stitch_"@);
    lemma_no_digits("stitch/"@);
    lemma_no_digits(".png"@);
    let pred = |c: char| is_digit(c);
    Seq::filter_distributes_over_add("stitch_"@, decimal(index), pred);
    Seq::filter_distributes_over_add("stitch/"@, artifact_stem_of(index), pred);
    Seq::filter_distributes_over_add("stitch/"@ + artifact_stem_of(index), ".png"@, pred);
    assert(digits_of(artifact_stem_of(index)) =~= decimal(index));
    assert(digits_of(artifact_path_of(index)) =~= decimal(index));
}

/// Band numbers order artifacts by value, not by spelling: of two bands, the
/// one with the smaller number has the smaller key, whatever the lengths of
/// the two numbers.
pub proof fn lemma_keys_order_bands(first: nat, second: nat)
    requires
        first < second,
        first < u32::MAX,
    ensures
        band_key_of(artifact_stem_of(first)) < band_key_of(artifact_stem_of(second)),
{
    lemma_key_of_artifact(first);
    lemma_key_of_artifact(second);
}

} // verus!
