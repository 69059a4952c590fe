//! The shapes of the scalar fragments: the three literals, the quoted
//! string form, and standard decimal/exponent numeric syntax.
use vstd::prelude::*;
use vstd::string::StrSliceExecFns;

verus! {

/// The characters of the null literal.
pub open spec fn lit_null() -> Seq<char> {
    seq!['n', 'u', 'l', 'l']
}

/// The characters of the true literal.
pub open spec fn lit_true() -> Seq<char> {
    seq!['t', 'r', 'u', 'e']
}

/// The characters of the false literal.
pub open spec fn lit_false() -> Seq<char> {
    seq!['f', 'a', 'l', 's', 'e']
}

/// A string fragment: at least two characters, the first and the last a
/// quote.
pub open spec fn is_string_text(s: Seq<char>) -> bool {
    s.len() >= 2 && s.first() == '"' && s.last() == '"'
}

/// `s` with every quote character removed — the delimiters and, by the
/// same stroke, every interior quote: the recognizer does not tell an
/// escaped quote from a delimiter.
pub open spec fn without_quotes(s: Seq<char>) -> Seq<char>
    decreases s.len(),
{
    if s.len() == 0 {
        Seq::empty()
    } else {
        let rest = without_quotes(s.drop_last());
        if s.last() == '"' {
            rest
        } else {
            rest.push(s.last())
        }
    }
}

/// A decimal digit.
pub open spec fn is_digit(c: char) -> bool {
    '0' <= c && c <= '9'
}

/// Every character of `s` is a decimal digit.
pub open spec fn all_digits(s: Seq<char>) -> bool {
    forall|i: int| 0 <= i < s.len() ==> is_digit(#[trigger] s[i])
}

/// The digit part of a number: digits with at most one decimal point among
/// them, and at least one digit somewhere.
pub open spec fn is_mantissa(s: Seq<char>) -> bool {
    ||| (s.len() >= 1 && all_digits(s))
    ||| (s.len() >= 2 && exists|i: int|
        #![trigger s[i]]
        {
            &&& 0 <= i < s.len()
            &&& s[i] == '.'
            &&& all_digits(s.take(i))
            &&& all_digits(s.skip(i + 1))
        })
}

/// An exponent part: `e` or `E`, an optional sign, and at least one digit.
pub open spec fn is_exponent(s: Seq<char>) -> bool {
    s.len() >= 2 && (s[0] == 'e' || s[0] == 'E') && {
        let d = if s[1] == '+' || s[1] == '-' {
            s.skip(2)
        } else {
            s.skip(1)
        };
        d.len() >= 1 && all_digits(d)
    }
}

/// `s` without its optional leading sign.
pub open spec fn strip_sign(s: Seq<char>) -> Seq<char> {
    if s.len() >= 1 && (s[0] == '+' || s[0] == '-') {
        s.drop_first()
    } else {
        s
    }
}

/// Standard decimal/exponent numeric syntax: an optional sign, a mantissa,
/// and an optional exponent part.
pub open spec fn is_number_text(s: Seq<char>) -> bool {
    let t = strip_sign(s);
    ||| is_mantissa(t)
    ||| (exists|i: int|
        #![trigger t[i]]
        {
            &&& 0 <= i < t.len()
            &&& (t[i] == 'e' || t[i] == 'E')
            &&& is_mantissa(t.take(i))
            &&& is_exponent(t.skip(i))
        })
}

/// A mantissa holds nothing but digits and the decimal point.
pub proof fn lemma_mantissa_chars(s: Seq<char>, j: int)
    requires
        is_mantissa(s),
        0 <= j < s.len(),
    ensures
        is_digit(s[j]) || s[j] == '.',
{
    if s.len() >= 1 && all_digits(s) {
    } else {
        let i = choose|i: int|
            #![trigger s[i]]
            {
                &&& 0 <= i < s.len()
                &&& s[i] == '.'
                &&& all_digits(s.take(i))
                &&& all_digits(s.skip(i + 1))
            };
        if j < i {
            assert(is_digit(s.take(i)[j]));
        } else if j > i {
            assert(is_digit(s.skip(i + 1)[j - i - 1]));
        }
    }
}

/// The characters of `s`, one by one, as an owned vector.
pub fn chars_of(s: &str) -> (r: Vec<char>)
    ensures
        r@ == s@,
{
    let n: usize = s.unicode_len();
    let mut out: Vec<char> = Vec::new();
    for i in 0..n
        invariant
            n == s@.len(),
            out@ == s@.take(i as int),
    {
        proof {
            assert(s@.take(i + 1 as int).drop_last() =~= s@.take(i as int));
        }
        out.push(s.get_char(i));
    }
    proof {
        assert(s@.take(n as int) =~= s@);
    }
    out
}

/// Character-for-character equality of two owned strings.
pub fn chars_eq(a: &Vec<char>, b: &Vec<char>) -> (r: bool)
    ensures
        r == (a@ == b@),
{
    if a.len() != b.len() {
        return false;
    }
    let n: usize = a.len();
    for i in 0..n
        invariant
            n == a@.len() == b@.len(),
            forall|j: int| 0 <= j < i ==> a@[j] == b@[j],
    {
        if a[i] != b[i] {
            return false;
        }
    }
    proof {
        assert(a@ =~= b@);
    }
    true
}

} // verus!
