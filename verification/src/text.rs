//! Numbers as text.
use vstd::prelude::*;

verus! {

/// The character for a digit below ten.
pub open spec fn digit_char(d: int) -> char {
    seq!['0', '1', '2', '3', '4', '5', '6', '7', '8', '9'][d]
}

/// The decimal digits of `n`, without leading zeros.
pub open spec fn digits(n: nat) -> Seq<char>
    decreases n,
{
    if n < 10 {
        seq![digit_char(n as int)]
    } else {
        digits(n / 10).push(digit_char((n % 10) as int))
    }
}

fn digit_str(d: u64) -> (res: &'static str)
    requires
        d < 10,
    ensures
        res@ == seq![digit_char(d as int)],
{
    proof {
        reveal_strlit("0");
        reveal_strlit("1");
        reveal_strlit("2");
        reveal_strlit("3");
        reveal_strlit("4");
        reveal_strlit("5");
        reveal_strlit("6");
        reveal_strlit("7");
        reveal_strlit("8");
        reveal_strlit("9");
    }
    let res = if d == 0 {
        "0"
    } else if d == 1 {
        "1"
    } else if d == 2 {
        "2"
    } else if d == 3 {
        "3"
    } else if d == 4 {
        "4"
    } else if d == 5 {
        "5"
    } else if d == 6 {
        "6"
    } else if d == 7 {
        "7"
    } else if d == 8 {
        "8"
    } else {
        "9"
    };
    assert(res@ =~= seq![digit_char(d as int)]);
    res
}

/// `n` in decimal.
pub fn decimal(n: u64) -> (res: String)
    ensures
        res@ == digits(n as nat),
    decreases n,
{
    if n < 10 {
        digit_str(n).to_owned()
    } else {
        let mut s = decimal(n / 10);
        s.append(digit_str(n % 10));
        assert(s@ =~= digits(n as nat));
        s
    }
}

/// Two texts, one behind the other.
pub fn joined(a: &str, b: &str) -> (res: String)
    ensures
        res@ == a@ + b@,
{
    let mut s = a.to_owned();
    s.append(b);
    s
}

/// The value of a decimal digit.
pub open spec fn digit_value(c: char) -> Option<int> {
    if '0' <= c <= '9' {
        Some(c as u32 - '0' as u32)
    } else {
        None
    }
}

/// The number that the characters from `from` to `n - 1` write in decimal; `None` where one of
/// them is no digit.
pub open spec fn digits_value(s: Seq<char>, from: int, n: int) -> Option<int>
    decreases n - from,
{
    if n <= from {
        Some(0)
    } else {
        match (digits_value(s, from, n - 1), digit_value(s[n - 1])) {
            (Some(v), Some(d)) => Some(10 * v + d),
            _ => None,
        }
    }
}

/// The number that a text writes: digits, with a sign before them if any.
pub open spec fn number_of(s: Seq<char>) -> Option<int> {
    let n = s.len() as int;
    if n == 0 {
        None
    } else if s[0] == '+' || s[0] == '-' {
        match digits_value(s, 1, n) {
            Some(v) => if n == 1 {
                None
            } else if s[0] == '-' {
                Some(-v)
            } else {
                Some(v)
            },
            None => None,
        }
    } else {
        digits_value(s, 0, n)
    }
}

/// The number of a text where it is a 32 bit signed integer.
pub open spec fn signed_of(s: Seq<char>) -> Option<i32> {
    match number_of(s) {
        Some(v) => if i32::MIN <= v <= i32::MAX {
            Some(v as i32)
        } else {
            None
        },
        None => None,
    }
}

/// The number of a text where it is a 32 bit unsigned integer, written without a minus.
pub open spec fn unsigned_of(s: Seq<char>) -> Option<u32> {
    match number_of(s) {
        Some(v) => if s[0] != '-' && v <= u32::MAX {
            Some(v as u32)
        } else {
            None
        },
        None => None,
    }
}

proof fn lemma_digits_grow(s: Seq<char>, from: int, m: int, n: int)
    requires
        from <= m <= n,
        digits_value(s, from, n) is Some,
    ensures
        digits_value(s, from, m) is Some,
        0 <= digits_value(s, from, m)->0 <= digits_value(s, from, n)->0,
    decreases n - from,
{
    if m < n {
        lemma_digits_grow(s, from, m, n - 1);
    } else if from < n {
        lemma_digits_grow(s, from, n - 1, n - 1);
    }
}

/// The number that the characters from `from` on write, where it fits into 32 bits.
fn read_digits(s: &str, from: usize) -> (res: Option<u32>)
    requires
        from <= s@.len(),
    ensures
        res == match digits_value(s@, from as int, s@.len() as int) {
            Some(v) => if v <= u32::MAX {
                Some(v as u32)
            } else {
                None
            },
            None => None,
        },
{
    let n: usize = s.unicode_len();
    let mut acc: u64 = 0;
    let mut i: usize = from;
    while i < n
        invariant
            from <= i <= n,
            n == s@.len(),
            acc <= u32::MAX,
            digits_value(s@, from as int, i as int) == Some(acc as int),
        decreases n - i,
    {
        let c: char = s.get_char(i);
        if !('0' <= c && c <= '9') {
            proof {
                if digits_value(s@, from as int, n as int) is Some {
                    lemma_digits_grow(s@, from as int, i as int + 1, n as int);
                }
            }
            return None;
        }
        acc = 10 * acc + (c as u32 - '0' as u32) as u64;
        i += 1;
        if acc > u32::MAX as u64 {
            proof {
                if digits_value(s@, from as int, n as int) is Some {
                    lemma_digits_grow(s@, from as int, i as int, n as int);
                }
            }
            return None;
        }
    }
    Some(acc as u32)
}

/// Reads a 32 bit signed integer.
pub fn parse_signed(s: &str) -> (res: Option<i32>)
    ensures
        res == signed_of(s@),
{
    let n: usize = s.unicode_len();
    if n == 0 {
        return None;
    }
    let first: char = s.get_char(0);
    let signed: bool = first == '+' || first == '-';
    if signed && n == 1 {
        return None;
    }
    let from: usize = if signed { 1 } else { 0 };
    proof {
        if digits_value(s@, from as int, n as int) is Some {
            lemma_digits_grow(s@, from as int, from as int, n as int);
        }
    }
    match read_digits(s, from) {
        Some(v) => {
            let value: i64 = if first == '-' { -(v as i64) } else { v as i64 };
            if value < i32::MIN as i64 || value > i32::MAX as i64 {
                None
            } else {
                Some(value as i32)
            }
        },
        None => None,
    }
}

/// Reads a 32 bit unsigned integer.
pub fn parse_unsigned(s: &str) -> (res: Option<u32>)
    ensures
        res == unsigned_of(s@),
{
    let n: usize = s.unicode_len();
    if n == 0 {
        return None;
    }
    let first: char = s.get_char(0);
    if first == '-' {
        return None;
    }
    if first == '+' && n == 1 {
        return None;
    }
    let from: usize = if first == '+' { 1 } else { 0 };
    proof {
        if digits_value(s@, from as int, n as int) is Some {
            lemma_digits_grow(s@, from as int, from as int, n as int);
        }
    }
    read_digits(s, from)
}

/// The text is a word, each letter of which may be upper or lower case.
pub open spec fn is_word(s: Seq<char>, upper: Seq<char>, lower: Seq<char>) -> bool {
    &&& s.len() == upper.len()
    &&& s.len() == lower.len()
    &&& forall|i: int| 0 <= i < s.len() ==> (#[trigger] s[i] == upper[i] || s[i] == lower[i])
}

pub fn same_word(s: &str, upper: &str, lower: &str) -> (res: bool)
    ensures
        res == is_word(s@, upper@, lower@),
{
    let n: usize = s.unicode_len();
    if n != upper.unicode_len() || n != lower.unicode_len() {
        return false;
    }
    let mut i: usize = 0;
    while i < n
        invariant
            i <= n,
            n == s@.len(),
            n == upper@.len(),
            n == lower@.len(),
            forall|k: int| 0 <= k < i ==> (#[trigger] s@[k] == upper@[k] || s@[k] == lower@[k]),
        decreases n - i,
    {
        let c: char = s.get_char(i);
        if c != upper.get_char(i) && c != lower.get_char(i) {
            assert(s@[i as int] == c);
            return false;
        }
        i += 1;
    }
    true
}

proof fn lemma_digit(d: int)
    requires
        0 <= d < 10,
    ensures
        digit_value(digit_char(d)) == Some(d),
        digit_char(d) != '+',
        digit_char(d) != '-',
{
}

proof fn lemma_digits_prefix(s: Seq<char>, c: char, n: int)
    requires
        0 <= n <= s.len(),
    ensures
        digits_value(s.push(c), 0, n) == digits_value(s, 0, n),
    decreases n,
{
    if n > 0 {
        lemma_digits_prefix(s, c, n - 1);
    }
}

proof fn lemma_digits_value(n: nat)
    ensures
        digits(n).len() > 0,
        digits(n)[0] != '+',
        digits(n)[0] != '-',
        digits_value(digits(n), 0, digits(n).len() as int) == Some(n as int),
    decreases n,
{
    let s = digits(n);
    if n < 10 {
        lemma_digit(n as int);
        assert(digits_value(s, 0, 0) == Some(0int));
        assert(s[0] == digit_char(n as int));
    } else {
        let rest = digits(n / 10);
        lemma_digits_value(n / 10);
        lemma_digit((n % 10) as int);
        lemma_digits_prefix(rest, digit_char((n % 10) as int), rest.len() as int);
        assert(s[0] == rest[0]);
        assert(s[s.len() - 1] == digit_char((n % 10) as int));
    }
}

/// The decimal digits of a number are read back as that number.
pub proof fn law_digits_are_read_back(n: nat)
    ensures
        number_of(digits(n)) == Some(n as int),
        n <= u32::MAX ==> unsigned_of(digits(n)) == Some(n as u32),
        n > u32::MAX ==> unsigned_of(digits(n)) is None,
        n <= i32::MAX ==> signed_of(digits(n)) == Some(n as i32),
        n > i32::MAX ==> signed_of(digits(n)) is None,
{
    lemma_digits_value(n);
}

proof fn lemma_value_of_digits_only(s: Seq<char>, from: int, n: int, k: int)
    requires
        0 <= from <= k < n <= s.len(),
        digit_value(s[k]) is None,
    ensures
        digits_value(s, from, n) is None,
    decreases n,
{
    if k < n - 1 {
        lemma_value_of_digits_only(s, from, n - 1, k);
    }
}

/// A text with a point in it is not that of an integer.
pub(crate) proof fn lemma_dot_is_no_digit(s: Seq<char>)
    requires
        s.contains('.'),
    ensures
        number_of(s) is None,
        signed_of(s) is None,
        unsigned_of(s) is None,
{
    let k = choose|k: int| 0 <= k < s.len() && s[k] == '.';
    assert(digit_value('.') is None);
    lemma_value_of_digits_only(s, 0, s.len() as int, k);
    if k > 0 {
        lemma_value_of_digits_only(s, 1, s.len() as int, k);
    }
}

} // verus!
