//! Reading an unsigned 32-bit decimal number the way `str::parse::<u32>` does.
use vstd::prelude::*;

verus! {

/// Why a piece of text is not an unsigned 32-bit number.
#[derive(Debug, Clone, Copy, PartialEq, Eq, Structural)]
pub enum IntErrorKind {
    /// The text is empty.
    Empty,
    /// The text holds a character that is not a decimal digit where a digit
    /// belongs (a lone sign counts as one).
    InvalidDigit,
    /// The number is larger than `u32::MAX`.
    PosOverflow,
}

impl IntErrorKind {
    /// The message that describes the error.
    pub fn message(&self) -> (text: String)
        ensures
            text@ == self.spec_message(),
    {
        match self {
            IntErrorKind::Empty => {
                let t = String::from_str("cannot parse integer from empty string");
                proof {
                    reveal_strlit("cannot parse integer from empty string");
                }
                t
            },
            IntErrorKind::InvalidDigit => {
                let t = String::from_str("invalid digit found in string");
                proof {
                    reveal_strlit("invalid digit found in string");
                }
                t
            },
            IntErrorKind::PosOverflow => {
                let t = String::from_str("number too large to fit in target type");
                proof {
                    reveal_strlit("number too large to fit in target type");
                }
                t
            },
        }
    }

    /// The message of each kind of error, as text.
    pub open spec fn spec_message(self) -> Seq<char> {
        match self {
            IntErrorKind::Empty => "cannot parse integer from empty string"@,
            IntErrorKind::InvalidDigit => "invalid digit found in string"@,
            IntErrorKind::PosOverflow => "number too large to fit in target type"@,
        }
    }
}

/// An ASCII decimal digit.
pub open spec fn is_digit(c: char) -> bool {
    '0' <= c && c <= '9'
}

/// The value of an ASCII decimal digit.
pub open spec fn digit_value(c: char) -> int {
    c as int - '0' as int
}

/// Reads the digits `d` from left to right after the value `acc` read so far:
/// the first character that is not a digit gives `InvalidDigit`, the first
/// digit after which the value exceeds `u32::MAX` gives `PosOverflow`,
/// whichever comes first.
pub open spec fn read_digits(d: Seq<char>, acc: int) -> Result<u32, IntErrorKind>
    decreases d.len(),
{
    if d.len() == 0 {
        Ok(acc as u32)
    } else if !is_digit(d[0]) {
        Err(IntErrorKind::InvalidDigit)
    } else if acc * 10 + digit_value(d[0]) > u32::MAX {
        Err(IntErrorKind::PosOverflow)
    } else {
        read_digits(d.drop_first(), acc * 10 + digit_value(d[0]))
    }
}

/// The result of reading `w` as an unsigned 32-bit number: empty text is
/// `Empty`, a lone `+` or `-` is `InvalidDigit`, one leading `+` is allowed,
/// and the rest must be decimal digits whose value fits in a `u32`.
pub open spec fn spec_parse_u32(w: Seq<char>) -> Result<u32, IntErrorKind> {
    if w.len() == 0 {
        Err(IntErrorKind::Empty)
    } else if (w[0] == '+' || w[0] == '-') && w.len() == 1 {
        Err(IntErrorKind::InvalidDigit)
    } else if w[0] == '+' {
        read_digits(w.drop_first(), 0)
    } else {
        read_digits(w, 0)
    }
}

/// Reads `chars[from..to]` as an unsigned 32-bit number.
pub fn parse_u32_in(chars: &Vec<char>, from: usize, to: usize) -> (r: Result<u32, IntErrorKind>)
    requires
        from <= to <= chars@.len(),
    ensures
        r == spec_parse_u32(chars@.subrange(from as int, to as int)),
{
    let ghost w = chars@.subrange(from as int, to as int);
    if from == to {
        return Err(IntErrorKind::Empty);
    }
    let first = chars[from];
    if (first == '+' || first == '-') && to - from == 1 {
        return Err(IntErrorKind::InvalidDigit);
    }
    let mut i: usize = from;
    if first == '+' {
        i = from + 1;
        assert(w.drop_first() =~= chars@.subrange(i as int, to as int));
    } else {
        assert(w =~= chars@.subrange(i as int, to as int));
    }
    let ghost start = chars@.subrange(i as int, to as int);
    let mut acc: u64 = 0;
    while i < to
        invariant
            from <= i <= to,
            to <= chars@.len(),
            acc <= u32::MAX,
            w == chars@.subrange(from as int, to as int),
            spec_parse_u32(w) == read_digits(start, 0),
            read_digits(start, 0) == read_digits(chars@.subrange(i as int, to as int), acc as int),
        decreases to - i,
    {
        let ghost rest = chars@.subrange(i as int, to as int);
        let c = chars[i];
        assert(rest[0] == c);
        if !(c >= '0' && c <= '9') {
            assert(!is_digit(rest[0]));
            return Err(IntErrorKind::InvalidDigit);
        }
        let d: u64 = (c as u32 - '0' as u32) as u64;
        assert(d == digit_value(rest[0]));
        let next: u64 = acc * 10 + d;
        if next > u32::MAX as u64 {
            return Err(IntErrorKind::PosOverflow);
        }
        assert(rest.drop_first() =~= chars@.subrange(i + 1, to as int));
        acc = next;
        i = i + 1;
    }
    assert(chars@.subrange(i as int, to as int).len() == 0);
    Ok(acc as u32)
}

/// The characters of `s`, in order.
pub fn chars_of(s: &str) -> (v: Vec<char>)
    ensures
        v@ == s@,
{
    let mut v: Vec<char> = Vec::new();
    for c in it: s.chars()
        invariant
            v@ == it.seq().take(it.index() as int),
    {
        v.push(c);
    }
    v
}

/// Reads `s` as an unsigned 32-bit number, as `s.parse::<u32>()` does.
pub fn parse_u32(s: &str) -> (r: Result<u32, IntErrorKind>)
    ensures
        r == spec_parse_u32(s@),
{
    let chars = chars_of(s);
    let r = parse_u32_in(&chars, 0, chars.len());
    assert(chars@.subrange(0, chars@.len() as int) =~= s@);
    r
}

/// The decimal digits of `n`, most significant first, without leading zeros.
pub open spec fn decimal(n: nat) -> Seq<char>
    decreases n,
{
    if n < 10 {
        seq![digit_char(n)]
    } else {
        decimal(n / 10).push(digit_char(n % 10))
    }
}

/// The character of a decimal digit.
pub open spec fn digit_char(d: nat) -> char {
    if d == 0 {
        '0'
    } else if d == 1 {
        '1'
    } else if d == 2 {
        '2'
    } else if d == 3 {
        '3'
    } else if d == 4 {
        '4'
    } else if d == 5 {
        '5'
    } else if d == 6 {
        '6'
    } else if d == 7 {
        '7'
    } else if d == 8 {
        '8'
    } else {
        '9'
    }
}

/// Appends the character of the decimal digit `d` to `text`.
fn append_digit(text: &mut String, d: u32)
    requires
        d < 10,
    ensures
        final(text)@ == old(text)@.push(digit_char(d as nat)),
{
    let s: &str = if d == 0 {
        "0"
    } else if d == 1 {
        "1"
    } else if d == 2 {
        "2"
    } else if d == 3 {
        "3"
    } else if d == 4 {
        "4"
    } else if d == 5 {
        "5"
    } else if d == 6 {
        "6"
    } else if d == 7 {
        "7"
    } else if d == 8 {
        "8"
    } else {
        "9"
    };
    proof {
        reveal_strlit("0");
        reveal_strlit("1");
        reveal_strlit("2");
        reveal_strlit("3");
        reveal_strlit("4");
        reveal_strlit("5");
        reveal_strlit("6");
        reveal_strlit("7");
        reveal_strlit("8");
        reveal_strlit("9");
    }
    text.append(s);
    assert(s@ =~= seq![digit_char(d as nat)]);
}

/// `n` written in decimal, as `n.to_string()` writes it.
pub fn decimal_string(n: u32) -> (text: String)
    ensures
        text@ == decimal(n as nat),
{
    let mut digits: Vec<u32> = Vec::new();
    let mut m: u32 = n;
    while m >= 10
        invariant
            decimal(n as nat) == decimal(m as nat) + Seq::new(
                digits@.len(),
                |i: int| digit_char(digits@[digits@.len() - 1 - i] as nat),
            ),
            forall|i: int| 0 <= i < digits@.len() ==> #[trigger] digits@[i] < 10,
        decreases m,
    {
        let ghost before = digits@;
        digits.push(m % 10);
        proof {
            let tail_old = Seq::new(
                before.len(),
                |i: int| digit_char(before[before.len() - 1 - i] as nat),
            );
            let tail_new = Seq::new(
                digits@.len(),
                |i: int| digit_char(digits@[digits@.len() - 1 - i] as nat),
            );
            assert(tail_new =~= seq![digit_char((m % 10) as nat)] + tail_old);
            assert(decimal(m as nat) == decimal((m / 10) as nat).push(digit_char((m % 10) as nat)));
            assert(decimal((m / 10) as nat) + tail_new =~= decimal(m as nat) + tail_old);
        }
        m = m / 10;
    }
    let mut text = String::new();
    append_digit(&mut text, m);
    assert(text@ =~= decimal(m as nat));
    let mut k: usize = digits.len();
    while k > 0
        invariant
            k <= digits@.len(),
            forall|i: int| 0 <= i < digits@.len() ==> #[trigger] digits@[i] < 10,
            decimal(n as nat) == text@ + Seq::new(
                k as nat,
                |i: int| digit_char(digits@[k - 1 - i] as nat),
            ),
        decreases k,
    {
        let ghost before = text@;
        append_digit(&mut text, digits[k - 1]);
        proof {
            let rest_old = Seq::new(k as nat, |i: int| digit_char(digits@[k - 1 - i] as nat));
            let rest_new = Seq::new((k - 1) as nat, |i: int| digit_char(digits@[k - 2 - i] as nat));
            assert(rest_old =~= seq![digit_char(digits@[k - 1] as nat)] + rest_new);
            assert(before + rest_old =~= text@ + rest_new);
        }
        k = k - 1;
    }
    assert(text@ + Seq::new(0, |i: int| digit_char(digits@[0 - 1 - i] as nat)) =~= text@);
    text
}


proof fn lemma_read_digits_push(d: Seq<char>, c: char, acc: int)
    requires
        0 <= acc <= u32::MAX,
    ensures
        read_digits(d.push(c), acc) == match read_digits(d, acc) {
            Err(e) => Err(e),
            Ok(v) => read_digits(seq![c], v as int),
        },
    decreases d.len(),
{
    if d.len() == 0 {
        assert(d.push(c) =~= seq![c]);
    } else {
        assert(d.push(c).drop_first() =~= d.drop_first().push(c));
        assert(d.push(c)[0] == d[0]);
        if is_digit(d[0]) && acc * 10 + digit_value(d[0]) <= u32::MAX {
            lemma_read_digits_push(d.drop_first(), c, acc * 10 + digit_value(d[0]));
        }
    }
}

/// The decimal writing of a number is nonempty, made of digits only, and
/// reads back as the number.
pub proof fn lemma_decimal_reads_back(x: nat)
    requires
        x <= u32::MAX,
    ensures
        decimal(x).len() > 0,
        forall|i: int| 0 <= i < decimal(x).len() ==> is_digit(#[trigger] decimal(x)[i]),
        read_digits(decimal(x), 0) == Ok::<u32, IntErrorKind>(x as u32),
        spec_parse_u32(decimal(x)) == Ok::<u32, IntErrorKind>(x as u32),
        x < 10 ==> decimal(x).len() == 1,
        x >= 10 ==> decimal(x)[0] != '0',
    decreases x,
{
    if x < 10 {
        assert(digit_value(digit_char(x)) == x);
        assert(is_digit(digit_char(x)));
        assert(seq![digit_char(x)].drop_first() =~= Seq::<char>::empty());
        assert(decimal(x) == seq![digit_char(x)]);
        assert(read_digits(Seq::<char>::empty(), x as int) == Ok::<u32, IntErrorKind>(x as u32));
        assert(read_digits(decimal(x), 0) == Ok::<u32, IntErrorKind>(x as u32));
    } else {
        lemma_decimal_reads_back(x / 10);
        assert(decimal(x)[0] == decimal(x / 10)[0]);
        if x / 10 < 10 {
            assert(x / 10 >= 1);
            assert(decimal(x / 10) == seq![digit_char(x / 10)]);
        }
        let c = digit_char(x % 10);
        assert(digit_value(c) == x % 10);
        lemma_read_digits_push(decimal(x / 10), c, 0);
        assert(seq![c].drop_first() =~= Seq::<char>::empty());
        assert((x / 10) * 10 + x % 10 == x);
        assert(is_digit(c));
        assert(read_digits(seq![c], (x / 10) as int) == read_digits(Seq::<char>::empty(), x as int));
        assert(read_digits(decimal(x), 0) == Ok::<u32, IntErrorKind>(x as u32));
        assert forall|i: int| 0 <= i < decimal(x).len() implies is_digit(#[trigger] decimal(x)[i]) by {
            if i < decimal(x / 10).len() {
                assert(decimal(x)[i] == decimal(x / 10)[i]);
            }
        }
    }
    assert(decimal(x)[0] != '+' && decimal(x)[0] != '-') by {
        assert(is_digit(decimal(x)[0]));
    }
}


proof fn lemma_read_digits_non_digit(d: Seq<char>, acc: int, i: int)
    requires
        0 <= i < d.len(),
        !is_digit(d[i]),
    ensures
        read_digits(d, acc) is Err,
    decreases i,
{
    if i > 0 && is_digit(d[0]) && acc * 10 + digit_value(d[0]) <= u32::MAX {
        lemma_read_digits_non_digit(d.drop_first(), acc * 10 + digit_value(d[0]), i - 1);
    }
}

/// Text that holds a character other than a decimal digit anywhere after
/// an optional leading `+` is never read as a number; in particular text
/// with a `-` never is.
pub proof fn lemma_non_digit_never_parses(w: Seq<char>, i: int)
    requires
        0 <= i < w.len(),
        !is_digit(w[i]),
        !(i == 0 && w[0] == '+'),
    ensures
        spec_parse_u32(w) is Err,
{
    if w[0] == '+' && w.len() > 1 {
        lemma_read_digits_non_digit(w.drop_first(), 0, i - 1);
    } else if !((w[0] == '+' || w[0] == '-') && w.len() == 1) {
        lemma_read_digits_non_digit(w, 0, i);
    }
}

/// Text made of decimal digits only, not too many for a `u32`, reads as
/// the number those digits write: `read_digits` gives the usual value.
pub proof fn lemma_digits_value(d: Seq<char>, acc: int)
    requires
        0 <= acc <= u32::MAX,
        forall|i: int| 0 <= i < d.len() ==> is_digit(#[trigger] d[i]),
    ensures
        read_digits(d, acc) is Ok ==> read_digits(d, acc)->Ok_0 == digits_value(d, acc),
        digits_value(d, acc) <= u32::MAX ==> read_digits(d, acc) is Ok,
        read_digits(d, acc) is Err ==> read_digits(d, acc) == Err::<u32, IntErrorKind>(
            IntErrorKind::PosOverflow,
        ),
        digits_value(d, acc) >= acc,
    decreases d.len(),
{
    if d.len() > 0 {
        let next = acc * 10 + digit_value(d[0]);
        if next <= u32::MAX {
            assert forall|i: int| 0 <= i < d.drop_first().len() implies is_digit(
                #[trigger] d.drop_first()[i],
            ) by {
                assert(d.drop_first()[i] == d[i + 1]);
            }
            lemma_digits_value(d.drop_first(), next);
        } else {
            assert forall|i: int| 0 <= i < d.drop_first().len() implies is_digit(
                #[trigger] d.drop_first()[i],
            ) by {
                assert(d.drop_first()[i] == d[i + 1]);
            }
            assert(is_digit(d[0]));
            lemma_digits_value_grows(d.drop_first(), next);
        }
    }
}

proof fn lemma_digits_value_grows(d: Seq<char>, acc: int)
    requires
        acc >= 0,
        forall|i: int| 0 <= i < d.len() ==> is_digit(#[trigger] d[i]),
    ensures
        digits_value(d, acc) >= acc,
    decreases d.len(),
{
    if d.len() > 0 {
        assert forall|i: int| 0 <= i < d.drop_first().len() implies is_digit(
            #[trigger] d.drop_first()[i],
        ) by {
            assert(d.drop_first()[i] == d[i + 1]);
        }
        assert(is_digit(d[0]));
        lemma_digits_value_grows(d.drop_first(), acc * 10 + digit_value(d[0]));
    }
}

/// Nonempty text of decimal digits reads as the base-10 value they write
/// when it fits in a `u32`, and as `PosOverflow` when it does not.
pub proof fn lemma_parse_digits(w: Seq<char>)
    requires
        w.len() > 0,
        forall|i: int| 0 <= i < w.len() ==> is_digit(#[trigger] w[i]),
    ensures
        spec_parse_u32(w) == if digits_value(w, 0) <= u32::MAX {
            Ok::<u32, IntErrorKind>(digits_value(w, 0) as u32)
        } else {
            Err::<u32, IntErrorKind>(IntErrorKind::PosOverflow)
        },
        spec_parse_u32(seq!['+'] + w) == spec_parse_u32(w),
{
    lemma_digits_value(w, 0);
    assert(is_digit(w[0]));
    assert((seq!['+'] + w).drop_first() =~= w);
}

/// Empty text reads as `Empty`, and a lone sign as `InvalidDigit`.
pub proof fn lemma_parse_no_digits()
    ensures
        spec_parse_u32(Seq::empty()) == Err::<u32, IntErrorKind>(IntErrorKind::Empty),
        spec_parse_u32(seq!['+']) == Err::<u32, IntErrorKind>(IntErrorKind::InvalidDigit),
        spec_parse_u32(seq!['-']) == Err::<u32, IntErrorKind>(IntErrorKind::InvalidDigit),
{
}

/// The value that the digits `d` write after the value `acc`, in base 10,
/// without a bound.
pub open spec fn digits_value(d: Seq<char>, acc: int) -> int
    decreases d.len(),
{
    if d.len() == 0 {
        acc
    } else {
        digits_value(d.drop_first(), acc * 10 + digit_value(d[0]))
    }
}

} // verus!
