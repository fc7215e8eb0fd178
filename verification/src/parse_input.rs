//! Reading the allowed amounts of balls per move from a line of text such as
//! `"1 3 5-8"`: whitespace-separated words, each either a number or a range
//! `lower-upper` that stands for `lower, lower + 1, .., upper - 1`.
use vstd::prelude::*;
use crate::number::{
    IntErrorKind,
    spec_parse_u32,
    parse_u32_in,
    chars_of,
    decimal,
    is_digit,
    lemma_decimal_reads_back,
    lemma_non_digit_never_parses,
};

verus! {

/// A character with the Unicode `White_Space` property, the characters that
/// `char::is_whitespace` accepts.
pub open spec fn is_whitespace(c: char) -> bool {
    ||| '\u{9}' <= c && c <= '\u{d}'
    ||| c == ' '
    ||| c == '\u{85}'
    ||| c == '\u{a0}'
    ||| c == '\u{1680}'
    ||| '\u{2000}' <= c && c <= '\u{200a}'
    ||| c == '\u{2028}'
    ||| c == '\u{2029}'
    ||| c == '\u{202f}'
    ||| c == '\u{205f}'
    ||| c == '\u{3000}'
}

/// Whether `c` is a whitespace character.
pub fn char_is_whitespace(c: char) -> (b: bool)
    ensures
        b == is_whitespace(c),
{
    ('\u{9}' <= c && c <= '\u{d}') || c == ' ' || c == '\u{85}' || c == '\u{a0}' || c == '\u{1680}'
        || ('\u{2000}' <= c && c <= '\u{200a}') || c == '\u{2028}' || c == '\u{2029}' || c
        == '\u{202f}' || c == '\u{205f}' || c == '\u{3000}'
}

/// The number of characters before the first whitespace of `s` (all of `s`
/// when it has none).
pub open spec fn word_len(s: Seq<char>) -> nat
    decreases s.len(),
{
    if s.len() == 0 || is_whitespace(s[0]) {
        0
    } else {
        1 + word_len(s.drop_first())
    }
}

/// A word is never longer than the text, and a text that starts with a
/// character other than whitespace starts with a nonempty word.
pub proof fn lemma_word_len_bound(s: Seq<char>)
    ensures
        word_len(s) <= s.len(),
        s.len() > 0 && !is_whitespace(s[0]) ==> word_len(s) >= 1,
    decreases s.len(),
{
    if s.len() > 0 && !is_whitespace(s[0]) {
        lemma_word_len_bound(s.drop_first());
    }
}

/// The words of `s`: its maximal runs of characters that are not
/// whitespace, in order.
pub open spec fn words(s: Seq<char>) -> Seq<Seq<char>>
    decreases s.len(),
{
    if s.len() == 0 {
        Seq::empty()
    } else if is_whitespace(s[0]) {
        words(s.drop_first())
    } else {
        proof {
            lemma_word_len_bound(s);
        }
        seq![s.take(word_len(s) as int)] + words(s.skip(word_len(s) as int))
    }
}

/// Why a selection of allowed amounts could not be read, as a value of the
/// specification.
pub enum SpecSelectionError {
    /// A word holds more than one `-`.
    InvalidRange(Seq<char>),
    /// A number could not be read.
    Number(IntErrorKind),
    /// A range whose lower bound is above its upper bound.
    ReverseRange,
}

impl SpecSelectionError {
    /// The message that describes the error.
    pub open spec fn spec_message(self) -> Seq<char> {
        match self {
            SpecSelectionError::InvalidRange(w) => "Invalid range: "@ + w,
            SpecSelectionError::Number(e) => e.spec_message(),
            SpecSelectionError::ReverseRange => "Reverse range is not allowed"@,
        }
    }
}

/// Why a selection of allowed amounts could not be read.
#[derive(Debug)]
pub enum SelectionError {
    /// A word holds more than one `-`; the word is given.
    InvalidRange(String),
    /// A number could not be read.
    Number(IntErrorKind),
    /// A range whose lower bound is above its upper bound.
    ReverseRange,
}

impl View for SelectionError {
    type V = SpecSelectionError;

    open spec fn view(&self) -> SpecSelectionError {
        match self {
            SelectionError::InvalidRange(w) => SpecSelectionError::InvalidRange(w@),
            SelectionError::Number(e) => SpecSelectionError::Number(*e),
            SelectionError::ReverseRange => SpecSelectionError::ReverseRange,
        }
    }
}

impl SelectionError {
    /// The message that describes the error.
    pub fn message(&self) -> (text: String)
        ensures
            text@ == self@.spec_message(),
    {
        match self {
            SelectionError::InvalidRange(w) => {
                let mut t = String::from_str("Invalid range: ");
                t.append(w.as_str());
                proof {
                    reveal_strlit("Invalid range: ");
                }
                t
            },
            SelectionError::Number(e) => e.message(),
            SelectionError::ReverseRange => {
                let t = String::from_str("Reverse range is not allowed");
                proof {
                    reveal_strlit("Reverse range is not allowed");
                }
                t
            },
        }
    }
}

/// `k` is the position of the only `-` in `w`.
pub open spec fn single_dash_at(w: Seq<char>, k: int) -> bool {
    &&& 0 <= k < w.len()
    &&& w[k] == '-'
    &&& forall|q: int| 0 <= q < w.len() && q != k ==> w[q] != '-'
}

/// A number read from `w` as a one-element list, or why it could not be.
pub open spec fn single_value(w: Seq<char>) -> Result<Seq<u32>, SpecSelectionError> {
    match spec_parse_u32(w) {
        Ok(v) => Ok(seq![v]),
        Err(e) => Err(SpecSelectionError::Number(e)),
    }
}

/// The amounts that the word `w` stands for. Without a `-` it is one number.
/// With more than one `-` it is an invalid range. Otherwise it is
/// `lower-upper` with two numbers: equal bounds are read as the whole word
/// (which, holding a `-`, is never a number), a lower bound above the upper
/// is refused, and otherwise the word stands for `lower..upper`, the upper
/// bound left out.
pub open spec fn range_values(w: Seq<char>) -> Result<Seq<u32>, SpecSelectionError> {
    if !w.contains('-') {
        single_value(w)
    } else if !exists|k: int| single_dash_at(w, k) {
        Err(SpecSelectionError::InvalidRange(w))
    } else {
        let k: int = choose|k: int| single_dash_at(w, k);
        match spec_parse_u32(w.take(k)) {
            Err(e) => Err(SpecSelectionError::Number(e)),
            Ok(lower) => match spec_parse_u32(w.skip(k + 1)) {
                Err(e) => Err(SpecSelectionError::Number(e)),
                Ok(upper) => if lower == upper {
                    single_value(w)
                } else if lower > upper {
                    Err(SpecSelectionError::ReverseRange)
                } else {
                    Ok(Seq::new((upper - lower) as nat, |t: int| (lower + t) as u32))
                },
            },
        }
    }
}

/// `values` followed by the amounts of `rest`, or the error of `rest`.
pub open spec fn prepend(values: Seq<u32>, rest: Result<Seq<u32>, SpecSelectionError>) -> Result<
    Seq<u32>,
    SpecSelectionError,
> {
    match rest {
        Ok(r) => Ok(values + r),
        Err(e) => Err(e),
    }
}

/// The amounts of the words `ws` in order, or the error of the first word
/// that has one.
pub open spec fn collect_values(ws: Seq<Seq<char>>) -> Result<Seq<u32>, SpecSelectionError>
    decreases ws.len(),
{
    if ws.len() == 0 {
        Ok(Seq::empty())
    } else {
        match range_values(ws[0]) {
            Err(e) => Err(e),
            Ok(v) => prepend(v, collect_values(ws.drop_first())),
        }
    }
}

/// The amounts that the text `s` lists, before sorting, or why it cannot be
/// read.
pub open spec fn selection_values(s: Seq<char>) -> Result<Seq<u32>, SpecSelectionError> {
    collect_values(words(s))
}

/// Each element is smaller than the next.
pub open spec fn strictly_increasing(s: Seq<u32>) -> bool {
    forall|p: int, q: int| 0 <= p < q < s.len() ==> s[p] < s[q]
}

/// Each element is at most the next.
pub open spec fn nondecreasing(s: Seq<u32>) -> bool {
    forall|p: int, q: int| 0 <= p <= q < s.len() ==> s[p] <= s[q]
}

proof fn lemma_words_skip_whitespace(s: Seq<char>, i: int)
    requires
        0 <= i < s.len(),
        is_whitespace(s[i]),
    ensures
        words(s.skip(i)) == words(s.skip(i + 1)),
{
    assert(s.skip(i).drop_first() =~= s.skip(i + 1));
}

proof fn lemma_word_len_at(s: Seq<char>, i: int, j: int)
    requires
        0 <= i <= j <= s.len(),
        forall|p: int| i <= p < j ==> !is_whitespace(#[trigger] s[p]),
        j == s.len() || is_whitespace(s[j]),
    ensures
        word_len(s.skip(i)) == j - i,
    decreases j - i,
{
    if i < j {
        lemma_word_len_at(s, i + 1, j);
        assert(s.skip(i).drop_first() =~= s.skip(i + 1));
    }
}

proof fn lemma_words_at_word(s: Seq<char>, i: int, j: int)
    requires
        0 <= i < j <= s.len(),
        forall|p: int| i <= p < j ==> !is_whitespace(#[trigger] s[p]),
        j == s.len() || is_whitespace(s[j]),
    ensures
        words(s.skip(i)) == seq![s.subrange(i, j)] + words(s.skip(j)),
{
    lemma_word_len_at(s, i, j);
    assert(s.skip(i).take(j - i) =~= s.subrange(i, j));
    assert(s.skip(i).skip(j - i) =~= s.skip(j));
}

proof fn lemma_collect_first(w: Seq<char>, rest: Seq<Seq<char>>)
    ensures
        collect_values(seq![w] + rest) == match range_values(w) {
            Err(e) => Err(e),
            Ok(v) => prepend(v, collect_values(rest)),
        },
{
    assert((seq![w] + rest).drop_first() =~= rest);
    assert((seq![w] + rest)[0] == w);
}

/// Appends to `vals` the amounts that the word `chars[from..to]` stands for,
/// or gives the word's error.
fn push_word_values(
    chars: &Vec<char>,
    text: &str,
    from: usize,
    to: usize,
    vals: &mut Vec<u32>,
) -> (r: Result<(), SelectionError>)
    requires
        chars@ == text@,
        from < to <= chars@.len(),
    ensures
        match range_values(chars@.subrange(from as int, to as int)) {
            Ok(v) => r is Ok && final(vals)@ == old(vals)@ + v,
            Err(e) => r matches Err(x) && x@ == e,
        },
{
    let ghost w = chars@.subrange(from as int, to as int);
    let mut first: usize = to;
    let mut more = false;
    let mut p: usize = from;
    while p < to
        invariant_except_break
            !more,
        invariant
            from <= p <= to,
            to <= chars@.len(),
            w == chars@.subrange(from as int, to as int),
            first == to ==> forall|q: int| from <= q < p ==> chars@[q] != '-',
            first != to ==> from <= first < p && chars@[first as int] == '-' && (forall|q: int|
                from <= q < p && q != first ==> chars@[q] != '-'),
            more ==> first != to && from <= p < to && p != first && chars@[p as int] == '-',
        ensures
            !more ==> p == to,
        decreases to - p,
    {
        if chars[p] == '-' {
            if first == to {
                first = p;
            } else {
                more = true;
                break;
            }
        }
        p = p + 1;
    }
    if first == to {
        assert(!w.contains('-')) by {
            if w.contains('-') {
                let q: int = choose|q: int| 0 <= q < w.len() && w[q] == '-';
                assert(chars@[from + q] == '-');
            }
        }
        return match parse_u32_in(chars, from, to) {
            Ok(v) => {
                vals.push(v);
                Ok(())
            },
            Err(e) => Err(SelectionError::Number(e)),
        };
    }
    assert(w[first - from] == '-');
    assert(w.contains('-'));
    if more {
        assert(!exists|k: int| single_dash_at(w, k)) by {
            if exists|k: int| single_dash_at(w, k) {
                let k: int = choose|k: int| single_dash_at(w, k);
                assert(w[first - from] == '-');
                assert(w[p - from] == '-');
            }
        }
        let word = text.substring_char(from, to);
        return Err(SelectionError::InvalidRange(String::from_str(word)));
    }
    let ghost k = first - from;
    assert(single_dash_at(w, k));
    assert((choose|k: int| single_dash_at(w, k)) == k);
    assert(w.take(k) =~= chars@.subrange(from as int, first as int));
    assert(w.skip(k + 1) =~= chars@.subrange(first + 1, to as int));
    let lower: u32 = match parse_u32_in(chars, from, first) {
        Ok(v) => v,
        Err(e) => {
            return Err(SelectionError::Number(e));
        },
    };
    let upper: u32 = match parse_u32_in(chars, first + 1, to) {
        Ok(v) => v,
        Err(e) => {
            return Err(SelectionError::Number(e));
        },
    };
    if lower == upper {
        return match parse_u32_in(chars, from, to) {
            Ok(v) => {
                vals.push(v);
                Ok(())
            },
            Err(e) => Err(SelectionError::Number(e)),
        };
    }
    if lower > upper {
        return Err(SelectionError::ReverseRange);
    }
    let ghost start = vals@;
    let mut v: u32 = lower;
    while v < upper
        invariant
            lower <= v <= upper,
            vals@ == start + Seq::new((v - lower) as nat, |t: int| (lower + t) as u32),
        decreases upper - v,
    {
        vals.push(v);
        v = v + 1;
        assert(vals@ =~= start + Seq::new((v - lower) as nat, |t: int| (lower + t) as u32));
    }
    Ok(())
}

/// Sorts the amounts from smallest to largest with std's `slice::sort`.
/// Trusted, not proved: as std documents, the call leaves the same elements,
/// each as often as before (the same multiset), in nondecreasing order.
#[verifier::external_body]
fn sort_values(vals: &mut Vec<u32>)
    ensures
        final(vals)@.to_multiset() == old(vals)@.to_multiset(),
        nondecreasing(final(vals)@),
{
    vals.sort();
}

/// The distinct amounts of a sorted list, in order.
fn dedup_sorted(vals: &Vec<u32>) -> (out: Vec<u32>)
    requires
        nondecreasing(vals@),
    ensures
        strictly_increasing(out@),
        forall|x: u32| out@.contains(x) <==> vals@.contains(x),
{
    let mut out: Vec<u32> = Vec::new();
    let mut i: usize = 0;
    while i < vals.len()
        invariant
            i <= vals@.len(),
            nondecreasing(vals@),
            strictly_increasing(out@),
            forall|x: u32| out@.contains(x) <==> vals@.take(i as int).contains(x),
            i > 0 ==> out@.len() > 0 && out@[out@.len() - 1] == vals@[i - 1],
            i == 0 ==> out@.len() == 0,
        decreases vals@.len() - i,
    {
        let x: u32 = vals[i];
        let ghost before = out@;
        if out.len() == 0 || out[out.len() - 1] != x {
            out.push(x);
            assert(forall|y: u32| before.contains(y) ==> y <= vals@[i - 1]) by {
                if i > 0 {
                    assert forall|y: u32| before.contains(y) implies y <= vals@[i - 1] by {
                        let q: int = choose|q: int| 0 <= q < before.len() && before[q] == y;
                        assert(q == before.len() - 1 || before[q] < before[before.len() - 1]);
                    }
                }
            }
        }
        assert(vals@.take(i + 1) =~= vals@.take(i as int).push(x));
        assert forall|y: u32| out@.contains(y) <==> vals@.take(i + 1).contains(y) by {
            if out@.contains(y) && y != x {
                let q: int = choose|q: int| 0 <= q < out@.len() && out@[q] == y;
                assert(before.contains(y)) by {
                    assert(before[q] == y);
                }
            }
            if vals@.take(i + 1).contains(y) && y != x {
                let t = vals@.take(i + 1);
                let q: int = choose|q: int| 0 <= q < t.len() && t[q] == y;
                assert(vals@.take(i as int)[q] == y);
                assert(before.contains(y));
                let q2 = choose|q2: int| 0 <= q2 < before.len() && before[q2] == y;
                assert(out@[q2] == y);
            }
            if y == x {
                assert(vals@.take(i + 1)[i as int] == x);
                assert(out@[out@.len() - 1] == x);
            }
        }
        i = i + 1;
    }
    assert(vals@.take(vals@.len() as int) =~= vals@);
    out
}

/// Reads the allowed amounts from `select`: the whitespace-separated words,
/// each a number or a range `lower-upper` (standing for `lower..upper`), with
/// the amounts of all words sorted from smallest to largest and each listed
/// once. The first word that cannot be read gives the error.
pub fn parse_number_selection(select: &String) -> (r: Result<Vec<u32>, SelectionError>)
    ensures
        match r {
            Ok(v) => selection_values(select@) is Ok && strictly_increasing(v@) && (forall|x: u32|
                v@.contains(x) <==> selection_values(select@)->Ok_0.contains(x)) && (forall|x: u32|
                v@.contains(x) <==> exists|i: int|
                    0 <= i < words(select@).len() && #[trigger] word_holds(words(select@)[i], x)),
            Err(e) => selection_values(select@) == Err::<Seq<u32>, SpecSelectionError>(e@),
        },
{
    let text = select.as_str();
    let chars = chars_of(text);
    let n: usize = chars.len();
    let mut vals: Vec<u32> = Vec::new();
    let mut i: usize = 0;
    assert(chars@.skip(0) =~= chars@);
    while i < n
        invariant
            i <= n,
            n == chars@.len(),
            chars@ == text@,
            text@ == select@,
            selection_values(select@) == prepend(vals@, collect_values(words(chars@.skip(i as int)))),
        decreases n - i,
    {
        if char_is_whitespace(chars[i]) {
            proof {
                lemma_words_skip_whitespace(chars@, i as int);
            }
            i = i + 1;
        } else {
            let mut j: usize = i + 1;
            while j < n && !char_is_whitespace(chars[j])
                invariant
                    i < j <= n,
                    n == chars@.len(),
                    forall|p: int| i <= p < j ==> !is_whitespace(#[trigger] chars@[p]),
                decreases n - j,
            {
                j = j + 1;
            }
            proof {
                lemma_words_at_word(chars@, i as int, j as int);
                lemma_collect_first(chars@.subrange(i as int, j as int), words(chars@.skip(j as int)));
            }
            let ghost before = vals@;
            let ghost rest = collect_values(words(chars@.skip(j as int)));
            match push_word_values(&chars, text, i, j, &mut vals) {
                Ok(()) => {
                    let ghost v = range_values(chars@.subrange(i as int, j as int))->Ok_0;
                    assert(prepend(before, prepend(v, rest)) == prepend(vals@, rest)) by {
                        if rest is Ok {
                            assert(before + (v + rest->Ok_0) =~= vals@ + rest->Ok_0);
                        }
                    }
                },
                Err(e) => {
                    return Err(e);
                },
            }
            i = j;
        }
    }
    assert(chars@.skip(n as int) =~= Seq::<char>::empty());
    assert(words(chars@.skip(n as int)) == Seq::<Seq<char>>::empty());
    assert(collect_values(words(chars@.skip(n as int))) == Ok::<Seq<u32>, SpecSelectionError>(Seq::empty()));
    assert(vals@ + Seq::<u32>::empty() =~= vals@);
    assert(selection_values(select@) == Ok::<Seq<u32>, SpecSelectionError>(vals@));
    let ghost collected = vals@;
    sort_values(&mut vals);
    proof {
        vals@.to_multiset_ensures();
        collected.to_multiset_ensures();
    }
    let out = dedup_sorted(&vals);
    assert forall|x: u32| out@.contains(x) <==> collected.contains(x) by {
        assert(vals@.contains(x) <==> vals@.to_multiset().count(x) > 0);
        assert(collected.contains(x) <==> collected.to_multiset().count(x) > 0);
    }
    proof {
        lemma_collect_values_by_words(words(select@));
        assert(collect_values(words(select@))->Ok_0 == collected);
    }
    assert forall|x: u32| out@.contains(x) <==> exists|i: int|
        0 <= i < words(select@).len() && #[trigger] word_holds(words(select@)[i], x) by {
        assert(collected.contains(x) <==> collect_values(words(select@))->Ok_0.contains(x));
    }
    Ok(out)
}


/// The amounts written in decimal, separated by single spaces, as
/// `join(" ")` over their `to_string` writes them.
pub open spec fn render_selection(v: Seq<u32>) -> Seq<char>
    decreases v.len(),
{
    if v.len() == 0 {
        Seq::empty()
    } else if v.len() == 1 {
        decimal(v[0] as nat)
    } else {
        decimal(v[0] as nat) + seq![' '] + render_selection(v.drop_first())
    }
}

proof fn lemma_render_words(v: Seq<u32>)
    requires
        v.len() > 0,
    ensures
        words(render_selection(v)) == seq![decimal(v[0] as nat)] + words(
            render_selection(v.drop_first()),
        ),
{
    let w = decimal(v[0] as nat);
    lemma_decimal_reads_back(v[0] as nat);
    if v.len() == 1 {
        lemma_words_at_word(w, 0, w.len() as int);
        assert(w.skip(0) =~= w);
        assert(w.subrange(0, w.len() as int) =~= w);
        assert(w.skip(w.len() as int) =~= Seq::<char>::empty());
        assert(v.drop_first().len() == 0);
    } else {
        let r = render_selection(v.drop_first());
        let s = w + seq![' '] + r;
        assert(s == render_selection(v));
        assert forall|p: int| 0 <= p < w.len() implies !is_whitespace(#[trigger] s[p]) by {
            assert(s[p] == w[p]);
            assert(is_digit(w[p]));
        }
        assert(s[w.len() as int] == ' ');
        lemma_words_at_word(s, 0, w.len() as int);
        lemma_words_skip_whitespace(s, w.len() as int);
        assert(s.skip(0) =~= s);
        assert(s.subrange(0, w.len() as int) =~= w);
        assert(s.skip(w.len() + 1int) =~= r);
    }
}

/// Writing amounts in decimal with single spaces between them and reading
/// the text back gives the same amounts, in the same order.
pub proof fn lemma_rendered_selection_reads_back(v: Seq<u32>)
    ensures
        selection_values(render_selection(v)) == Ok::<Seq<u32>, SpecSelectionError>(v),
    decreases v.len(),
{
    if v.len() == 0 {
        assert(words(render_selection(v)) == Seq::<Seq<char>>::empty());
        assert(v =~= Seq::<u32>::empty());
    } else {
        let w = decimal(v[0] as nat);
        lemma_decimal_reads_back(v[0] as nat);
        lemma_render_words(v);
        lemma_rendered_selection_reads_back(v.drop_first());
        lemma_collect_first(w, words(render_selection(v.drop_first())));
        assert(!w.contains('-')) by {
            if w.contains('-') {
                let q: int = choose|q: int| 0 <= q < w.len() && w[q] == '-';
                assert(is_digit(w[q]));
            }
        }
        assert(range_values(w) == Ok::<Seq<u32>, SpecSelectionError>(seq![v[0]]));
        assert(seq![v[0]] + v.drop_first() =~= v);
    }
}

/// Two lists, each in strictly increasing order, that hold the same
/// elements are equal.
pub proof fn lemma_increasing_same_elements(a: Seq<u32>, b: Seq<u32>)
    requires
        strictly_increasing(a),
        strictly_increasing(b),
        forall|x: u32| a.contains(x) <==> b.contains(x),
    ensures
        a == b,
    decreases a.len(),
{
    if a.len() == 0 {
        if b.len() > 0 {
            assert(b.contains(b[0]));
        }
        assert(a =~= b);
    } else {
        assert(a.contains(a[0]));
        let i: int = choose|i: int| 0 <= i < b.len() && b[i] == a[0];
        assert(b.contains(b[0]));
        let k: int = choose|k: int| 0 <= k < a.len() && a[k] == b[0];
        assert(a[0] <= a[k]);
        assert(b[0] <= b[i]);
        assert(a[0] == b[0]);
        let a1 = a.drop_first();
        let b1 = b.drop_first();
        assert forall|x: u32| a1.contains(x) <==> b1.contains(x) by {
            if a1.contains(x) {
                let q: int = choose|q: int| 0 <= q < a1.len() && a1[q] == x;
                assert(a[q + 1] == x);
                assert(a.contains(x));
                let r: int = choose|r: int| 0 <= r < b.len() && b[r] == x;
                assert(r != 0);
                assert(b1[r - 1] == x);
            }
            if b1.contains(x) {
                let q: int = choose|q: int| 0 <= q < b1.len() && b1[q] == x;
                assert(b[q + 1] == x);
                assert(b.contains(x));
                let r: int = choose|r: int| 0 <= r < a.len() && a[r] == x;
                assert(r != 0);
                assert(a1[r - 1] == x);
            }
        }
        lemma_increasing_same_elements(a1, b1);
        assert(a =~= b) by {
            assert forall|i: int| 0 <= i < a.len() implies a[i] == b[i] by {
                if i > 0 {
                    assert(a[i] == a1[i - 1]);
                    assert(b[i] == b1[i - 1]);
                }
            }
        }
    }
}

/// A selection read back from its own decimal writing: for amounts `v` in
/// strictly increasing order (as `parse_number_selection` returns them),
/// reading `render_selection(v)` succeeds, and any strictly increasing list
/// with the elements it reads (what `parse_number_selection` returns for
/// that text) is `v` itself.
pub proof fn lemma_selection_round_trip(v: Seq<u32>, w: Seq<u32>)
    requires
        strictly_increasing(v),
        strictly_increasing(w),
        forall|x: u32|
            w.contains(x) <==> selection_values(render_selection(v))->Ok_0.contains(x),
    ensures
        selection_values(render_selection(v)) is Ok,
        w == v,
{
    lemma_rendered_selection_reads_back(v);
    lemma_increasing_same_elements(w, v);
}


/// The word `w` can be read.
pub open spec fn word_reads(w: Seq<char>) -> bool {
    range_values(w) is Ok
}

/// The word `w` can be read and stands for the amount `x`, among others.
pub open spec fn word_holds(w: Seq<char>, x: u32) -> bool {
    range_values(w) is Ok && range_values(w)->Ok_0.contains(x)
}

/// Reading a list of words succeeds exactly when every word can be read, and
/// then gives the amounts that some word stands for.
pub proof fn lemma_collect_values_by_words(ws: Seq<Seq<char>>)
    ensures
        (collect_values(ws) is Ok) == (forall|i: int| 0 <= i < ws.len() ==> #[trigger] word_reads(ws[i])),
        collect_values(ws) is Ok ==> forall|x: u32|
            collect_values(ws)->Ok_0.contains(x) <==> exists|i: int|
                0 <= i < ws.len() && #[trigger] word_holds(ws[i], x),
    decreases ws.len(),
{
    if ws.len() > 0 {
        let rest = ws.drop_first();
        lemma_collect_values_by_words(rest);
        assert forall|i: int| 0 <= i < rest.len() implies rest[i] == ws[i + 1] by {}
        if !word_reads(ws[0]) {
            assert(!(collect_values(ws) is Ok));
        } else {
            let v = range_values(ws[0])->Ok_0;
            if collect_values(rest) is Ok {
                let r = collect_values(rest)->Ok_0;
                assert(collect_values(ws) == Ok::<Seq<u32>, SpecSelectionError>(v + r));
                assert forall|i: int| 0 <= i < ws.len() implies #[trigger] word_reads(ws[i]) by {
                    if i > 0 {
                        assert(word_reads(rest[i - 1]));
                    }
                }
                assert forall|x: u32| (v + r).contains(x) <==> exists|i: int|
                    0 <= i < ws.len() && #[trigger] word_holds(ws[i], x) by {
                    if (v + r).contains(x) {
                        let q: int = choose|q: int| 0 <= q < (v + r).len() && (v + r)[q] == x;
                        if q < v.len() {
                            assert(v[q] == x);
                            assert(word_holds(ws[0], x));
                        } else {
                            assert(r[q - v.len()] == x);
                            assert(r.contains(x));
                            let i: int = choose|i: int| 0 <= i < rest.len() && #[trigger] word_holds(rest[i], x);
                            assert(word_holds(ws[i + 1], x));
                        }
                    }
                    if exists|i: int| 0 <= i < ws.len() && #[trigger] word_holds(ws[i], x) {
                        let i: int = choose|i: int| 0 <= i < ws.len() && #[trigger] word_holds(ws[i], x);
                        if i == 0 {
                            let q: int = choose|q: int| 0 <= q < v.len() && v[q] == x;
                            assert((v + r)[q] == x);
                        } else {
                            assert(word_holds(rest[i - 1], x));
                            assert(r.contains(x));
                            let q: int = choose|q: int| 0 <= q < r.len() && r[q] == x;
                            assert((v + r)[v.len() + q] == x);
                        }
                    }
                }
            } else {
                let i: int = choose|i: int| 0 <= i < rest.len() && !#[trigger] word_reads(rest[i]);
                assert(!word_reads(ws[i + 1]));
            }
        }
    }
}

/// Word order, repeated words and spacing do not matter: two texts with the
/// same words can both be read or both not, and then give the same amounts.
pub proof fn lemma_selection_ignores_word_order(s1: Seq<char>, s2: Seq<char>)
    requires
        forall|w: Seq<char>| words(s1).contains(w) <==> words(s2).contains(w),
    ensures
        (selection_values(s1) is Ok) == (selection_values(s2) is Ok),
        selection_values(s1) is Ok ==> forall|x: u32|
            selection_values(s1)->Ok_0.contains(x) <==> selection_values(s2)->Ok_0.contains(x),
{
    let ws1 = words(s1);
    let ws2 = words(s2);
    lemma_collect_values_by_words(ws1);
    lemma_collect_values_by_words(ws2);
    if forall|i: int| 0 <= i < ws1.len() ==> #[trigger] word_reads(ws1[i]) {
        assert forall|j: int| 0 <= j < ws2.len() implies #[trigger] word_reads(ws2[j]) by {
            assert(ws2.contains(ws2[j]));
            let i: int = choose|i: int| 0 <= i < ws1.len() && ws1[i] == ws2[j];
            assert(word_reads(ws1[i]));
        }
    }
    if forall|j: int| 0 <= j < ws2.len() ==> #[trigger] word_reads(ws2[j]) {
        assert forall|i: int| 0 <= i < ws1.len() implies #[trigger] word_reads(ws1[i]) by {
            assert(ws1.contains(ws1[i]));
            let j: int = choose|j: int| 0 <= j < ws2.len() && ws2[j] == ws1[i];
            assert(word_reads(ws2[j]));
        }
    }
    if selection_values(s1) is Ok {
        assert forall|x: u32| #[trigger] selection_values(s1)->Ok_0.contains(x)
            <==> selection_values(s2)->Ok_0.contains(x) by {
            if exists|i: int| 0 <= i < ws1.len() && #[trigger] word_holds(ws1[i], x) {
                let i: int = choose|i: int| 0 <= i < ws1.len() && #[trigger] word_holds(ws1[i], x);
                assert(ws1.contains(ws1[i]));
                let j: int = choose|j: int| 0 <= j < ws2.len() && ws2[j] == ws1[i];
                assert(word_holds(ws2[j], x));
            }
            if exists|j: int| 0 <= j < ws2.len() && #[trigger] word_holds(ws2[j], x) {
                let j: int = choose|j: int| 0 <= j < ws2.len() && #[trigger] word_holds(ws2[j], x);
                assert(ws2.contains(ws2[j]));
                let i: int = choose|i: int| 0 <= i < ws1.len() && ws1[i] == ws2[j];
                assert(word_holds(ws1[i], x));
            }
        }
    }
}

/// Two texts with the same words give the same selection: for strictly
/// increasing lists `v1` and `v2` holding the amounts read from `s1` and
/// `s2` (what `parse_number_selection` returns for them), `v1 == v2`.
pub proof fn lemma_same_words_same_selection(
    s1: Seq<char>,
    s2: Seq<char>,
    v1: Seq<u32>,
    v2: Seq<u32>,
)
    requires
        forall|w: Seq<char>| words(s1).contains(w) <==> words(s2).contains(w),
        selection_values(s1) is Ok,
        strictly_increasing(v1),
        strictly_increasing(v2),
        forall|x: u32| v1.contains(x) <==> selection_values(s1)->Ok_0.contains(x),
        forall|x: u32| v2.contains(x) <==> selection_values(s2)->Ok_0.contains(x),
    ensures
        selection_values(s2) is Ok,
        v1 == v2,
{
    lemma_selection_ignores_word_order(s1, s2);
    lemma_increasing_same_elements(v1, v2);
}


/// What a word `lower-upper` (one `-`, at position `k`, with both bounds
/// read as numbers) stands for: for `lower < upper`, exactly the amounts `x`
/// with `lower <= x < upper`, in increasing order, so `upper` itself is left
/// out; for `lower > upper`, the error `ReverseRange`; for equal bounds, an
/// error.
pub proof fn lemma_range_word(w: Seq<char>, k: int, lower: u32, upper: u32)
    requires
        single_dash_at(w, k),
        spec_parse_u32(w.take(k)) == Ok::<u32, IntErrorKind>(lower),
        spec_parse_u32(w.skip(k + 1)) == Ok::<u32, IntErrorKind>(upper),
    ensures
        lower < upper ==> {
            &&& range_values(w) is Ok
            &&& range_values(w)->Ok_0.len() == upper - lower
            &&& strictly_increasing(range_values(w)->Ok_0)
            &&& forall|x: u32| #[trigger]
                range_values(w)->Ok_0.contains(x) <==> lower <= x < upper
        },
        lower > upper ==> range_values(w) == Err::<Seq<u32>, SpecSelectionError>(
            SpecSelectionError::ReverseRange,
        ),
        lower == upper ==> range_values(w) is Err,
{
    assert(w.contains('-')) by {
        assert(w[k] == '-');
    }
    let c = choose|c: int| single_dash_at(w, c);
    assert(c == k);
    if lower < upper {
        let v = range_values(w)->Ok_0;
        assert forall|x: u32| #[trigger] v.contains(x) <==> lower <= x < upper by {
            if lower <= x < upper {
                assert(v[x - lower] == x);
            }
        }
    }
    if lower == upper {
        assert(!is_digit(w[k]));
        if k == 0 {
            assert(w[0] != '+');
        }
        lemma_non_digit_never_parses(w, k);
    }
}

/// A word without `-` that reads as the number `n` stands for `n` alone.
pub proof fn lemma_number_word(w: Seq<char>, n: u32)
    requires
        !w.contains('-'),
        spec_parse_u32(w) == Ok::<u32, IntErrorKind>(n),
    ensures
        range_values(w) is Ok,
        forall|x: u32| #[trigger] range_values(w)->Ok_0.contains(x) <==> x == n,
{
    assert(range_values(w)->Ok_0 == seq![n]);
    assert forall|x: u32| #[trigger] seq![n].contains(x) <==> x == n by {
        assert(seq![n][0] == n);
    }
}

/// A word with more than one `-` is refused as an invalid range, whatever
/// else it holds.
pub proof fn lemma_two_dashes_word(w: Seq<char>, i: int, j: int)
    requires
        0 <= i < j < w.len(),
        w[i] == '-',
        w[j] == '-',
    ensures
        range_values(w) == Err::<Seq<u32>, SpecSelectionError>(SpecSelectionError::InvalidRange(w)),
{
    assert(w.contains('-'));
    if exists|k: int| single_dash_at(w, k) {
        let k = choose|k: int| single_dash_at(w, k);
        assert(w[i] == '-' && w[j] == '-');
    }
}


/// Each word is a nonempty run of characters none of which is whitespace.
pub proof fn lemma_words_are_runs(s: Seq<char>)
    ensures
        forall|i: int| 0 <= i < words(s).len() ==> #[trigger] words(s)[i].len() > 0,
        forall|i: int, j: int|
            0 <= i < words(s).len() && 0 <= j < words(s)[i].len() ==> !is_whitespace(
                #[trigger] words(s)[i][j],
            ),
    decreases s.len(),
{
    if s.len() > 0 {
        if is_whitespace(s[0]) {
            lemma_words_are_runs(s.drop_first());
            assert(words(s) == words(s.drop_first()));
        } else {
            lemma_word_len_bound(s);
            let n = word_len(s) as int;
            assert(words(s) == seq![s.take(n)] + words(s.skip(n)));
            lemma_words_are_runs(s.skip(n));
            lemma_word_is_run(s);
            let ws = words(s);
            assert forall|i: int, j: int|
                0 <= i < ws.len() && 0 <= j < ws[i].len() implies !is_whitespace(
                #[trigger] ws[i][j],
            ) by {
                if i > 0 {
                    assert(ws[i] == words(s.skip(n))[i - 1]);
                } else {
                    assert(ws[0] == s.take(n));
                }
            }
            assert forall|i: int| 0 <= i < ws.len() implies #[trigger] ws[i].len() > 0 by {
                if i > 0 {
                    assert(ws[i] == words(s.skip(n))[i - 1]);
                }
            }
        }
    }
}

proof fn lemma_word_is_run(s: Seq<char>)
    ensures
        forall|j: int| 0 <= j < word_len(s) ==> !is_whitespace(#[trigger] s[j]),
    decreases s.len(),
{
    if s.len() > 0 && !is_whitespace(s[0]) {
        lemma_word_is_run(s.drop_first());
        lemma_word_len_bound(s);
        assert forall|j: int| 0 <= j < word_len(s) implies !is_whitespace(#[trigger] s[j]) by {
            if j > 0 {
                assert(s[j] == s.drop_first()[j - 1]);
            }
        }
    }
}

/// Text without whitespace is one word, or none when it is empty; text of
/// whitespace only has no words.
pub proof fn lemma_words_without_whitespace(s: Seq<char>)
    ensures
        s.len() > 0 && (forall|i: int| 0 <= i < s.len() ==> !is_whitespace(#[trigger] s[i]))
            ==> words(s) == seq![s],
        (forall|i: int| 0 <= i < s.len() ==> is_whitespace(#[trigger] s[i])) ==> words(s)
            == Seq::<Seq<char>>::empty(),
    decreases s.len(),
{
    if s.len() > 0 {
        if forall|i: int| 0 <= i < s.len() ==> !is_whitespace(#[trigger] s[i]) {
            lemma_words_at_word(s, 0, s.len() as int);
            assert(s.skip(0) =~= s);
            assert(s.subrange(0, s.len() as int) =~= s);
            assert(s.skip(s.len() as int) =~= Seq::<char>::empty());
        }
        if forall|i: int| 0 <= i < s.len() ==> is_whitespace(#[trigger] s[i]) {
            assert(is_whitespace(s[0]));
            assert forall|i: int| 0 <= i < s.drop_first().len() implies is_whitespace(
                #[trigger] s.drop_first()[i],
            ) by {
                assert(s.drop_first()[i] == s[i + 1]);
            }
            lemma_words_without_whitespace(s.drop_first());
        }
    }
}

} // verus!
