use vstd::prelude::*;
use vstd::string::StrSliceExecFns;

verus! {

/// Relies on String::push: appends the given character to the end of the string.
#[verifier::external_body]
pub(crate) fn push_char(s: &mut String, c: char)
    ensures
        final(s)@ == old(s)@.push(c),
{
    s.push(c);
}

/// True when the character occurs somewhere in the string.
pub(crate) fn str_contains_char(s: &str, c: char) -> (r: bool)
    ensures
        r == s@.contains(c),
{
    let n = s.unicode_len();
    let mut i: usize = 0;
    while i < n
        invariant
            i <= n,
            n == s@.len(),
            forall|j: int| 0 <= j < i ==> s@[j] != c,
        decreases n - i,
    {
        if s.get_char(i) == c {
            assert(s@[i as int] == c);
            return true;
        }
        i += 1;
    }
    false
}

/// The decimal rendering of a natural number, most significant digit first.
pub open spec fn spec_decimal(n: nat) -> Seq<char>
    decreases n,
{
    if n < 10 {
        seq![spec_digit_char(n as int)]
    } else {
        spec_decimal(n / 10).push(spec_digit_char((n % 10) as int))
    }
}

/// The character for a single decimal digit.
pub open spec fn spec_digit_char(d: int) -> char {
    ((d + 48) as u8) as char
}

/// Appends the decimal rendering of `n` to the string.
pub(crate) fn push_decimal(s: &mut String, n: usize)
    ensures
        final(s)@ == old(s)@ + spec_decimal(n as nat),
    decreases n,
{
    if n < 10 {
        let c = ((n as u8) + 48) as char;
        assert(c == spec_digit_char(n as int));
        push_char(s, c);
        assert(s@ =~= old(s)@ + spec_decimal(n as nat));
    } else {
        push_decimal(s, n / 10);
        let d = (n % 10) as u8;
        let c = (d + 48) as char;
        assert(c == spec_digit_char((n % 10) as int));
        push_char(s, c);
        assert(s@ =~= old(s)@ + spec_decimal(n as nat));
    }
}

/// The number of newline characters in a rendering; each newline ends one
/// line, so this counts lines.
pub open spec fn spec_newline_count(s: Seq<char>) -> nat
    decreases s.len(),
{
    if s.len() == 0 {
        0
    } else {
        spec_newline_count(s.drop_last()) + (if s.last() == '\n' {
            1nat
        } else {
            0nat
        })
    }
}

/// Newline counts add up over concatenation.
pub(crate) proof fn lemma_newline_count_add(a: Seq<char>, b: Seq<char>)
    ensures
        spec_newline_count(a + b) == spec_newline_count(a) + spec_newline_count(b),
    decreases b.len(),
{
    if b.len() == 0 {
        assert(a + b =~= a);
    } else {
        lemma_newline_count_add(a, b.drop_last());
        assert((a + b).drop_last() =~= a + b.drop_last());
        assert((a + b).last() == b.last());
    }
}

/// A rendering without newline characters counts zero lines.
pub(crate) proof fn lemma_newline_count_none(s: Seq<char>)
    requires
        forall|i: int| 0 <= i < s.len() ==> s[i] != '\n',
    ensures
        spec_newline_count(s) == 0,
    decreases s.len(),
{
    if s.len() > 0 {
        assert(forall|i: int| 0 <= i < s.drop_last().len() ==> s.drop_last()[i] == s[i]);
        lemma_newline_count_none(s.drop_last());
        assert(s.last() != '\n');
    }
}

/// A decimal rendering holds no newline: all its characters are digits.
pub(crate) proof fn lemma_decimal_newline_free(n: nat)
    ensures
        forall|i: int| 0 <= i < spec_decimal(n).len() ==> #[trigger] spec_decimal(n)[i] != '\n',
{
    lemma_decimal_digits(n);
    assert forall|i: int|
        0 <= i < spec_decimal(n).len() implies #[trigger] spec_decimal(n)[i] != '\n' by {
        assert(spec_is_digit(spec_decimal(n)[i]));
        assert('\n' as u32 == 10);
    }
}

/// True of the ten decimal digit characters.
pub open spec fn spec_is_digit(c: char) -> bool {
    48 <= c as u32 <= 57
}

/// Every character of a decimal rendering is a digit.
pub(crate) proof fn lemma_decimal_digits(n: nat)
    ensures
        forall|i: int| 0 <= i < spec_decimal(n).len() ==> spec_is_digit(#[trigger] spec_decimal(n)[i]),
    decreases n,
{
    if n < 10 {
        assert(spec_decimal(n)[0] == spec_digit_char(n as int));
        assert(spec_is_digit(spec_digit_char(n as int)));
    } else {
        lemma_decimal_digits(n / 10);
        assert forall|i: int|
            0 <= i < spec_decimal(n).len() implies spec_is_digit(
            #[trigger] spec_decimal(n)[i],
        ) by {
            if i < spec_decimal(n / 10).len() {
                assert(spec_decimal(n)[i] == spec_decimal(n / 10)[i]);
            } else {
                assert(spec_decimal(n)[i] == spec_digit_char((n % 10) as int));
                assert(spec_is_digit(spec_digit_char((n % 10) as int)));
            }
        }
    }
}

} // verus!
