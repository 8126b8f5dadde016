use vstd::prelude::*;

verus! {

/// The character of a decimal digit.
pub open spec fn digit(d: int) -> char {
    if d == 0 {
        '0'
    } else if d == 1 {
        '1'
    } else if d == 2 {
        '2'
    } else if d == 3 {
        '3'
    } else if d == 4 {
        '4'
    } else if d == 5 {
        '5'
    } else if d == 6 {
        '6'
    } else if d == 7 {
        '7'
    } else if d == 8 {
        '8'
    } else {
        '9'
    }
}

/// The decimal notation of a natural number, without leading zeros.
pub open spec fn decimal(n: nat) -> Seq<char>
    decreases n,
{
    if n < 10 {
        seq![digit(n as int)]
    } else {
        decimal(n / 10).push(digit((n % 10) as int))
    }
}

/// The decimal digit for `d`.
fn digit_char(d: usize) -> (res: char)
    requires
        d < 10,
    ensures
        res == digit(d as int),
{
    if d == 0 {
        '0'
    } else if d == 1 {
        '1'
    } else if d == 2 {
        '2'
    } else if d == 3 {
        '3'
    } else if d == 4 {
        '4'
    } else if d == 5 {
        '5'
    } else if d == 6 {
        '6'
    } else if d == 7 {
        '7'
    } else if d == 8 {
        '8'
    } else {
        '9'
    }
}

/// Appends the decimal digits of `n` to the text.
fn write_decimal(s: &mut String, n: usize)
    ensures
        final(s)@ == old(s)@ + decimal(n as nat),
    decreases n,
{
    if n >= 10 {
        write_decimal(s, n / 10);
    }
    push_char(s, digit_char(n % 10));
    proof {
        if n >= 10 {
            assert(decimal(n as nat) == decimal((n / 10) as nat).push(digit((n % 10) as int)));
        } else {
            assert(decimal(n as nat) == seq![digit(n as int)]);
        }
    }
    assert(s@ =~= old(s)@ + decimal(n as nat));
}

/// The decimal digits of `n`, as `to_string` writes them.
pub(crate) fn usize_to_string(n: usize) -> (res: String)
    ensures
        res@ == decimal(n as nat),
{
    let mut s = String::new();
    write_decimal(&mut s, n);
    assert(s@ =~= decimal(n as nat));
    s
}

/// The first `len` characters of the text, or all of it when it is shorter.
pub open spec fn prefix(s: Seq<char>, len: int) -> Seq<char> {
    if len < s.len() {
        s.take(len)
    } else {
        s
    }
}

/// `format!("{:.len$}", s)`: the precision of a string argument is the greatest number of
/// characters written, so the text is cut after `len` characters.
#[verifier::external_body]
pub(crate) fn truncated(s: &str, len: usize) -> (res: String)
    ensures
        res@ == prefix(s@, len as int),
{
    format!("{:.len$}", s)
}

/// The text `needle` occurs in `hay` at some position.
pub open spec fn occurs_in(hay: Seq<char>, needle: Seq<char>) -> bool {
    exists|i: int| 0 <= i <= hay.len() - needle.len() && #[trigger] hay.subrange(i, i + needle.len()) == needle
}

/// `str::contains` with a `&str` pattern: whether the pattern occurs in the text.
#[verifier::external_body]
pub(crate) fn contains_text(hay: &str, needle: &str) -> (res: bool)
    ensures
        res == occurs_in(hay@, needle@),
{
    hay.contains(needle)
}

/// What `str::to_lowercase` gives for a text: its Unicode lowercase mapping, which maps
/// most characters on their own and a final sigma by its context.
pub uninterp spec fn lowercase(s: Seq<char>) -> Seq<char>;

/// `str::to_lowercase`. The Unicode case tables are not written out here, so its result is
/// named: it depends on the text alone.
#[verifier::external_body]
pub(crate) fn to_lowercase(s: &str) -> (res: String)
    ensures
        res@ == lowercase(s@),
{
    s.to_lowercase()
}

/// `char::is_uppercase`: whether the character has the Unicode `Uppercase` property.
pub uninterp spec fn uppercase(c: char) -> bool;

/// `char::is_uppercase`. The Unicode property tables are not written out here, so its result
/// is named: it depends on the character alone.
#[verifier::external_body]
pub(crate) fn is_uppercase(c: char) -> (res: bool)
    ensures
        res == uppercase(c),
{
    c.is_uppercase()
}

/// `String::push`: appends the character at the end of the text.
#[verifier::external_body]
pub(crate) fn push_char(s: &mut String, c: char)
    ensures
        final(s)@ == old(s)@.push(c),
{
    s.push(c)
}

/// Whether every character of the text is an ASCII decimal digit.
pub open spec fn all_digits(s: Seq<char>) -> bool {
    forall|i: int| 0 <= i < s.len() ==> '0' <= #[trigger] s[i] <= '9'
}

/// The number that decimal digits write.
pub open spec fn digits_value(s: Seq<char>) -> int
    decreases s.len(),
{
    if s.len() == 0 {
        0
    } else {
        digits_value(s.drop_last()) * 10 + (s.last() as int - '0' as int)
    }
}

/// What `str::parse::<usize>` gives for a text: an optional `+` followed by at least one
/// decimal digit and nothing else, writing a number that fits; anything else is refused.
pub open spec fn parsed(s: Seq<char>) -> Option<usize> {
    let d = if s.len() > 0 && s[0] == '+' {
        s.drop_first()
    } else {
        s
    };
    if d.len() > 0 && all_digits(d) && digits_value(d) <= usize::MAX {
        Some(digits_value(d) as usize)
    } else {
        None
    }
}

/// The decimal notation of a number is all digits and writes that number.
proof fn lemma_decimal_digits(n: nat)
    ensures
        decimal(n).len() > 0,
        all_digits(decimal(n)),
        digits_value(decimal(n)) == n,
    decreases n,
{
    let d = (n % 10) as int;
    assert(digit(d) as int == d + '0' as int);
    if n >= 10 {
        lemma_decimal_digits(n / 10);
        let s = decimal(n);
        assert(s.drop_last() =~= decimal(n / 10));
        assert(forall|i: int| 0 <= i < s.len() - 1 ==> s[i] == decimal(n / 10)[i]);
        assert(s.last() == digit(d));
        assert(digits_value(s.drop_last()) == n / 10);
        assert(digits_value(s) == digits_value(s.drop_last()) * 10 + d);
        assert((n / 10) * 10 + d == n);
    } else {
        let s = decimal(n);
        assert(s.drop_last() =~= Seq::<char>::empty());
        assert(digits_value(s.drop_last()) == 0);
        assert(s.last() == digit(d));
        assert(digits_value(s) == d);
    }
}

/// Reading back the decimal notation of an id gives the id: what is written with
/// `usize_to_string` is read by `parse_id` as the same number.
pub proof fn law_parse_undoes_decimal(n: usize)
    ensures
        parsed(decimal(n as nat)) == Some(n),
{
    lemma_decimal_digits(n as nat);
    let s = decimal(n as nat);
    assert('0' <= s[0] <= '9');
}

/// `str::parse::<usize>`, with the error dropped. Its documentation: the text is an optional
/// sign followed by only digits (a `-` is refused for an unsigned type), and a number that does
/// not fit is an error.
#[verifier::external_body]
pub(crate) fn parse_id(s: &str) -> (res: Option<usize>)
    ensures
        res == parsed(s@),
{
    s.parse::<usize>().ok()
}

} // verus!
