//! Text: decimal numbers, padding, and searching a list of names.

use vstd::prelude::*;

verus! {

/// `String::push` of std: the character is appended to the end of the string.
pub assume_specification[ String::push ](string: &mut String, ch: char)
    ensures
        final(string)@ == old(string)@.push(ch),
;

/// What each string of a list reads.
pub open spec fn texts(list: Seq<String>) -> Seq<Seq<char>> {
    list.map_values(|s: String| s@)
}

/// The decimal digit of a number below ten.
pub open spec fn digit(d: nat) -> char {
    (d + '0' as nat) as char
}

/// A number in decimal, without leading zeros.
pub open spec fn decimal(n: nat) -> Seq<char>
    decreases n,
{
    if n < 10 {
        seq![digit(n)]
    } else {
        decimal(n / 10).push(digit(n % 10))
    }
}

/// The text, with spaces in front of it up to a width in characters.
pub open spec fn right_aligned(text: Seq<char>, width: nat) -> Seq<char> {
    if text.len() >= width {
        text
    } else {
        Seq::new((width - text.len()) as nat, |i: int| ' ') + text
    }
}

/// Appends a number in decimal.
pub fn push_decimal(out: &mut String, n: usize)
    ensures
        final(out)@ == old(out)@ + decimal(n as nat),
    decreases n,
{
    if n >= 10 {
        push_decimal(out, n / 10);
    }
    let last: u8 = (n % 10) as u8;
    out.push((48u8 + last) as char);
    assert(out@ =~= old(out)@ + decimal(n as nat));
}

/// Appends a number in decimal, right-aligned in a field of the given width.
pub fn push_decimal_aligned(out: &mut String, n: usize, width: usize)
    ensures
        final(out)@ == old(out)@ + right_aligned(decimal(n as nat), width as nat),
{
    let mut number = String::new();
    push_decimal(&mut number, n);
    assert(number@ =~= decimal(n as nat));
    let length: usize = number.as_str().unicode_len();
    let mut at: usize = length;
    while at < width
        invariant
            length <= at,
            at <= width || at == length,
            out@ == old(out)@ + Seq::new((at - length) as nat, |i: int| ' '),
        decreases width - at,
    {
        out.push(' ');
        at = at + 1;
        assert(out@ =~= old(out)@ + Seq::new((at - length) as nat, |i: int| ' '));
    }
    out.append(number.as_str());
    assert(out@ =~= old(out)@ + right_aligned(decimal(n as nat), width as nat));
}

/// Whether a name is in a list.
pub fn contains(list: &Vec<String>, name: &String) -> (found: bool)
    ensures
        found == texts(list@).contains(name@),
{
    let mut i: usize = 0;
    while i < list.len()
        invariant
            i <= list.len(),
            forall|j: int| 0 <= j < i ==> texts(list@)[j] != name@,
        decreases list.len() - i,
    {
        if list[i] == *name {
            assert(texts(list@)[i as int] == name@);
            return true;
        }
        i = i + 1;
    }
    false
}

/// A list that reads the same.
pub fn copy_texts(list: &Vec<String>) -> (copy: Vec<String>)
    ensures
        texts(copy@) == texts(list@),
{
    let copy = list.clone();
    assert(texts(copy@) =~= texts(list@));
    copy
}

/// A list of strings reads as its strings, one for one and in order.
pub proof fn law_strings_are_read(list: Seq<String>)
    ensures
        texts(list).len() == list.len(),
        forall|k: int| 0 <= k < list.len() ==> #[trigger] texts(list)[k] == list[k]@,
{
}

/// A number below ten is written as one digit. A digit behind a number that is
/// not zero is written behind what that number is written as.
pub proof fn law_decimal(n: nat, d: nat)
    requires
        d < 10,
    ensures
        decimal(d).len() == 1,
        decimal(d)[0] as int == 48 + d,
        n > 0 ==> decimal(10 * n + d).len() == decimal(n).len() + 1,
        n > 0 ==> decimal(10 * n + d).drop_last() == decimal(n),
        n > 0 ==> decimal(10 * n + d).last() as int == 48 + d,
{
    if n > 0 {
        let m = 10 * n + d;
        assert(m / 10 == n && m % 10 == d);
        assert(decimal(m) == decimal(n).push(digit(d)));
        assert(decimal(m).drop_last() =~= decimal(n));
    }
}

/// A text that is aligned to the right still stands at the end, behind nothing
/// but spaces, and is as wide as asked for unless it was wider before.
pub proof fn law_right_aligned(text: Seq<char>, width: nat)
    ensures
        ({
            let whole = right_aligned(text, width);
            &&& whole.len() == if text.len() < width {
                width
            } else {
                text.len()
            }
            &&& whole.skip(whole.len() - text.len()) == text
            &&& forall|i: int| 0 <= i < whole.len() - text.len() ==> #[trigger] whole[i] == ' '
        }),
{
    let whole = right_aligned(text, width);
    assert(whole.skip(whole.len() - text.len()) =~= text);
}

} // verus!
