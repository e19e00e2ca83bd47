//! The text form of edges.
//!
//! An edge is written as its two vertices in decimal, in round brackets and
//! separated by a comma and a space: `(12, 7)`. Reading is more liberal than
//! writing. The text is trimmed of white space and cut into fields at every
//! round bracket, comma and space; the second field and the last but one are
//! read as numbers, whatever the other fields hold.

use vstd::pervasive::unreached;
use vstd::prelude::*;
use crate::graph::Edge;

verus! {

/// `c` has the Unicode property White_Space.
pub open spec fn is_white_space(c: char) -> bool {
    let code = c as u32;
    ||| 0x09 <= code <= 0x0d
    ||| code == 0x20
    ||| code == 0x85
    ||| code == 0xa0
    ||| code == 0x1680
    ||| 0x2000 <= code <= 0x200a
    ||| code == 0x2028
    ||| code == 0x2029
    ||| code == 0x202f
    ||| code == 0x205f
    ||| code == 0x3000
}

/// `c` ends a field: a round bracket, a comma or a space.
pub open spec fn is_delimiter(c: char) -> bool {
    c == '(' || c == ',' || c == ' ' || c == ')'
}

/// `c` is one of the digits `0` to `9`.
pub open spec fn is_digit(c: char) -> bool {
    0x30 <= c as u32 <= 0x39
}

/// The number that the digit `c` stands for.
pub open spec fn digit_value(c: char) -> nat {
    (c as u32 - 0x30) as nat
}

/// The number of white space characters at the start of `s`.
pub open spec fn leading_space(s: Seq<char>) -> nat
    decreases s.len(),
{
    if s.len() > 0 && is_white_space(s[0]) {
        1 + leading_space(s.drop_first())
    } else {
        0
    }
}

/// The number of white space characters at the end of `s`.
pub open spec fn trailing_space(s: Seq<char>) -> nat
    decreases s.len(),
{
    if s.len() > 0 && is_white_space(s.last()) {
        1 + trailing_space(s.drop_last())
    } else {
        0
    }
}

/// `s` without the white space at its start and at its end.
pub open spec fn trimmed(s: Seq<char>) -> Seq<char> {
    let rest = s.skip(leading_space(s) as int);
    rest.take(rest.len() - trailing_space(rest))
}

/// The pieces into which the delimiters cut `s`: one more than there are
/// delimiters, empty where two delimiters meet or one stands at an end.
pub open spec fn fields(s: Seq<char>) -> Seq<Seq<char>>
    decreases s.len(),
{
    if s.len() == 0 {
        seq![Seq::empty()]
    } else {
        let before = fields(s.drop_last());
        if is_delimiter(s.last()) {
            before.push(Seq::empty())
        } else {
            before.update(before.len() - 1, before.last().push(s.last()))
        }
    }
}

/// Every character of `s` is a digit.
pub open spec fn all_digits(s: Seq<char>) -> bool {
    forall|i: int| 0 <= i < s.len() ==> is_digit(#[trigger] s[i])
}

/// The number that the digits of `s` write in decimal.
pub open spec fn digits_value(s: Seq<char>) -> nat
    decreases s.len(),
{
    if s.len() == 0 {
        0
    } else {
        10 * digits_value(s.drop_last()) + digit_value(s.last())
    }
}

/// `s` without a plus sign at its start.
pub open spec fn unsigned_part(s: Seq<char>) -> Seq<char> {
    if s.len() > 0 && s[0] == '+' {
        s.drop_first()
    } else {
        s
    }
}

/// The number that `s` writes: one or more digits, after a plus sign or
/// without, that stay within `usize`.
pub open spec fn number_of(s: Seq<char>) -> Option<usize> {
    let digits = unsigned_part(s);
    if digits.len() > 0 && all_digits(digits) && digits_value(digits) <= usize::MAX {
        Some(digits_value(digits) as usize)
    } else {
        None
    }
}

/// The edge that `s` writes, if it writes one: there are at least two
/// fields, and the second field and the last but one are numbers.
pub open spec fn edge_of_text(s: Seq<char>) -> Option<Edge> {
    let pieces = fields(trimmed(s));
    if pieces.len() < 2 {
        None
    } else {
        match (number_of(pieces[1]), number_of(pieces[pieces.len() - 2])) {
            (Some(first), Some(second)) => Some((first, second)),
            _ => None,
        }
    }
}

/// Whether `c` is white space.
pub fn char_is_white_space(c: char) -> (r: bool)
    ensures
        r == is_white_space(c),
{
    let code: u32 = c as u32;
    (0x09 <= code && code <= 0x0d) || code == 0x20 || code == 0x85 || code == 0xa0 || code
        == 0x1680 || (0x2000 <= code && code <= 0x200a) || code == 0x2028 || code == 0x2029
        || code == 0x202f || code == 0x205f || code == 0x3000
}

/// The characters of `s`.
pub fn chars_of(s: &str) -> (chars: Vec<char>)
    ensures
        chars@ == s@,
{
    broadcast use vstd::string::group_string_axioms;

    let mut chars: Vec<char> = Vec::new();
    for c in it: s.chars()
        invariant
            it.seq() == s@,
            chars@ == s@.take(it.index()),
    {
        chars.push(c);
        proof {
            assert(s@.take(it.index() + 1) =~= s@.take(it.index()).push(c));
        }
    }
    proof {
        assert(s@.take(s@.len() as int) =~= s@);
    }
    chars
}

/// White space at position `i` counts where all before it is white space.
proof fn lemma_leading_space_step(s: Seq<char>, i: int)
    requires
        0 <= i <= s.len(),
    ensures
        i < s.len() && is_white_space(s[i]) ==> leading_space(s.skip(i)) == 1 + leading_space(
            s.skip(i + 1),
        ),
        !(i < s.len() && is_white_space(s[i])) ==> leading_space(s.skip(i)) == 0,
{
    if i < s.len() {
        assert(s.skip(i)[0] == s[i]);
        assert(s.skip(i).drop_first() =~= s.skip(i + 1));
    }
}

/// White space before position `i` counts where all from `i` on is white
/// space.
proof fn lemma_trailing_space_step(s: Seq<char>, i: int)
    requires
        0 <= i <= s.len(),
    ensures
        i > 0 && is_white_space(s[i - 1]) ==> trailing_space(s.take(i)) == 1 + trailing_space(
            s.take(i - 1),
        ),
        !(i > 0 && is_white_space(s[i - 1])) ==> trailing_space(s.take(i)) == 0,
{
    if i > 0 {
        assert(s.take(i).last() == s[i - 1]);
        assert(s.take(i).drop_last() =~= s.take(i - 1));
    }
}

/// The bounds of the trimmed text of what `chars` holds between `from` and
/// `to`.
fn trim_bounds(chars: &Vec<char>, from: usize, to: usize) -> (bounds: (usize, usize))
    requires
        from <= to <= chars@.len(),
    ensures
        from <= bounds.0 <= bounds.1 <= to,
        chars@.subrange(bounds.0 as int, bounds.1 as int) == trimmed(
            chars@.subrange(from as int, to as int),
        ),
{
    let ghost text = chars@.subrange(from as int, to as int);
    let mut lo: usize = from;
    proof {
        assert(text.skip(0) =~= text);
    }
    while lo < to && char_is_white_space(chars[lo])
        invariant
            from <= lo <= to <= chars@.len(),
            text == chars@.subrange(from as int, to as int),
            leading_space(text) == (lo - from) + leading_space(text.skip(lo - from)),
        decreases to - lo,
    {
        proof {
            lemma_leading_space_step(text, lo - from);
        }
        lo += 1;
    }
    proof {
        lemma_leading_space_step(text, lo - from);
    }
    let ghost rest = text.skip(lo - from);
    let mut hi: usize = to;
    proof {
        assert(rest.take(rest.len() as int) =~= rest);
    }
    while hi > lo && char_is_white_space(chars[hi - 1])
        invariant
            from <= lo <= hi <= to <= chars@.len(),
            text == chars@.subrange(from as int, to as int),
            rest == text.skip(lo - from),
            trailing_space(rest) == (to - hi) + trailing_space(rest.take(hi - lo)),
        decreases hi - lo,
    {
        proof {
            lemma_trailing_space_step(rest, hi - lo);
        }
        hi -= 1;
    }
    proof {
        lemma_trailing_space_step(rest, hi - lo);
        assert(chars@.subrange(lo as int, hi as int) =~= rest.take(rest.len() - trailing_space(
            rest,
        )));
    }
    (lo, hi)
}

/// The pieces of the text between `lo` and `hi`, each by its bounds.
fn field_bounds(chars: &Vec<char>, lo: usize, hi: usize) -> (bounds: Vec<(usize, usize)>)
    requires
        lo <= hi <= chars@.len(),
    ensures
        bounds@.len() == fields(chars@.subrange(lo as int, hi as int)).len(),
        forall|k: int|
            0 <= k < bounds@.len() ==> lo <= (#[trigger] bounds@[k]).0 <= bounds@[k].1 <= hi,
        forall|k: int|
            0 <= k < bounds@.len() ==> chars@.subrange(
                (#[trigger] bounds@[k]).0 as int,
                bounds@[k].1 as int,
            ) == fields(chars@.subrange(lo as int, hi as int))[k],
{
    let ghost text = chars@.subrange(lo as int, hi as int);
    let mut bounds: Vec<(usize, usize)> = Vec::new();
    let mut start: usize = lo;
    let mut i: usize = lo;
    proof {
        assert(text.take(0) =~= Seq::<char>::empty());
        assert(chars@.subrange(lo as int, lo as int) =~= Seq::<char>::empty());
    }
    while i < hi
        invariant
            lo <= start <= i <= hi <= chars@.len(),
            text == chars@.subrange(lo as int, hi as int),
            fields(text.take(i - lo)).len() == bounds@.len() + 1,
            forall|k: int|
                0 <= k < bounds@.len() ==> lo <= (#[trigger] bounds@[k]).0 <= bounds@[k].1 <= hi,
            forall|k: int|
                0 <= k < bounds@.len() ==> chars@.subrange(
                    (#[trigger] bounds@[k]).0 as int,
                    bounds@[k].1 as int,
                ) == fields(text.take(i - lo))[k],
            chars@.subrange(start as int, i as int) == fields(text.take(i - lo)).last(),
        decreases hi - i,
    {
        let c: char = chars[i];
        proof {
            let shorter = text.take(i - lo);
            let longer = text.take(i - lo + 1);
            assert(longer.drop_last() =~= shorter);
            assert(longer.last() == c);
            if !is_delimiter(c) {
                assert(chars@.subrange(start as int, i + 1) =~= chars@.subrange(
                    start as int,
                    i as int,
                ).push(c));
            } else {
                assert(chars@.subrange(i + 1, i + 1) =~= Seq::<char>::empty());
            }
        }
        if c == '(' || c == ',' || c == ' ' || c == ')' {
            bounds.push((start, i));
            start = i + 1;
        }
        i += 1;
    }
    proof {
        assert(text.take(hi - lo) =~= text);
    }
    bounds.push((start, hi));
    bounds
}

/// The value of a digit string is at least the value of each of its
/// beginnings.
proof fn lemma_digits_value_grows(s: Seq<char>, i: int)
    requires
        0 <= i <= s.len(),
    ensures
        digits_value(s.take(i)) <= digits_value(s),
    decreases s.len() - i,
{
    if i < s.len() {
        assert(s.take(i + 1).drop_last() =~= s.take(i));
        lemma_digits_value_grows(s, i + 1);
    } else {
        assert(s.take(i) =~= s);
    }
}

/// The number that `chars` writes between `lo` and `hi`.
pub(crate) fn parse_number_between(chars: &Vec<char>, lo: usize, hi: usize) -> (r: Option<usize>)
    requires
        lo <= hi <= chars@.len(),
    ensures
        r == number_of(chars@.subrange(lo as int, hi as int)),
{
    let ghost text = chars@.subrange(lo as int, hi as int);
    let from: usize = if lo < hi && chars[lo] == '+' {
        lo + 1
    } else {
        lo
    };
    let ghost digits = chars@.subrange(from as int, hi as int);
    proof {
        if lo < hi {
            assert(text[0] == chars@[lo as int]);
        }
        assert(digits =~= unsigned_part(text));
        assert(digits.take(0) =~= Seq::<char>::empty());
    }
    if from == hi {
        return None;
    }
    let mut value: usize = 0;
    let mut i: usize = from;
    while i < hi
        invariant
            from <= i <= hi <= chars@.len(),
            from < hi,
            digits == chars@.subrange(from as int, hi as int),
            digits == unsigned_part(chars@.subrange(lo as int, hi as int)),
            all_digits(digits.take(i - from)),
            value == digits_value(digits.take(i - from)),
        decreases hi - i,
    {
        let code: u32 = chars[i] as u32;
        proof {
            assert(digits[i - from] == chars@[i as int]);
            assert(digits.take(i - from + 1).drop_last() =~= digits.take(i - from));
            assert(digits.take(i - from + 1).last() == chars@[i as int]);
        }
        if code < 0x30 || code > 0x39 {
            proof {
                assert(!is_digit(digits[i - from]));
            }
            return None;
        }
        let digit: usize = (code - 0x30) as usize;
        proof {
            assert(digits_value(digits.take(i - from + 1)) == 10 * value + digit);
        }
        if value > (usize::MAX - digit) / 10 {
            proof {
                lemma_digits_value_grows(digits, i - from + 1);
            }
            return None;
        }
        value = value * 10 + digit;
        proof {
            let longer = digits.take(i - from + 1);
            assert forall|k: int| 0 <= k < longer.len() implies is_digit(#[trigger] longer[k]) by {
                if k < i - from {
                    assert(longer[k] == digits.take(i - from)[k]);
                }
            }
        }
        i += 1;
    }
    proof {
        assert(digits.take(hi - from) =~= digits);
    }
    Some(value)
}

/// The edge that `chars` writes between `from` and `to`.
pub(crate) fn parse_edge_between(chars: &Vec<char>, from: usize, to: usize) -> (r: Option<Edge>)
    requires
        from <= to <= chars@.len(),
    ensures
        r == edge_of_text(chars@.subrange(from as int, to as int)),
{
    let (lo, hi) = trim_bounds(chars, from, to);
    let bounds: Vec<(usize, usize)> = field_bounds(chars, lo, hi);
    let count: usize = bounds.len();
    if count < 2 {
        return None;
    }
    let second: (usize, usize) = bounds[1];
    let last_but_one: (usize, usize) = bounds[count - 2];
    match parse_number_between(chars, second.0, second.1) {
        Some(a) => match parse_number_between(chars, last_but_one.0, last_but_one.1) {
            Some(b) => Some((a, b)),
            None => None,
        },
        None => None,
    }
}

/// Reads an edge from its text: `None` where the text writes none.
pub fn parse_edge(input: &str) -> (r: Option<Edge>)
    ensures
        r == edge_of_text(input@),
{
    let chars: Vec<char> = chars_of(input);
    proof {
        assert(chars@.subrange(0, chars@.len() as int) =~= chars@);
    }
    parse_edge_between(&chars, 0, chars.len())
}

/// Reads an edge from a text that writes one.
pub fn to_tuple(input: String) -> (edge: Edge)
    requires
        edge_of_text(input@) is Some,
    ensures
        edge_of_text(input@) == Some(edge),
{
    match parse_edge(input.as_str()) {
        Some(edge) => edge,
        None => unreached(),
    }
}

/// The digit that stands for `d`, which is below ten.
pub open spec fn digit_char(d: nat) -> char {
    (0x30 + d) as char
}

/// `n` in decimal, without leading zeros.
pub open spec fn decimal(n: nat) -> Seq<char>
    decreases n,
{
    if n < 10 {
        seq![digit_char(n)]
    } else {
        decimal(n / 10).push(digit_char(n % 10))
    }
}

/// The text of an edge: `(u, v)`.
pub open spec fn edge_text(edge: Edge) -> Seq<char> {
    seq!['('] + decimal(edge.0 as nat) + seq![',', ' '] + decimal(edge.1 as nat) + seq![')']
}

/// `s` holds no delimiter and no plus sign.
pub open spec fn is_plain(s: Seq<char>) -> bool {
    forall|i: int| 0 <= i < s.len() ==> !is_delimiter(#[trigger] s[i]) && s[i] != '+'
}

/// A number in decimal is one or more digits that write the number.
pub proof fn lemma_decimal_is_number(n: nat)
    ensures
        decimal(n).len() >= 1,
        all_digits(decimal(n)),
        is_plain(decimal(n)),
        digits_value(decimal(n)) == n,
    decreases n,
{
    if n < 10 {
        assert(decimal(n).drop_last() =~= Seq::<char>::empty());
        assert(digits_value(decimal(n)) == 10 * digits_value(decimal(n).drop_last()) + digit_value(
            decimal(n).last(),
        ));
    } else {
        lemma_decimal_is_number(n / 10);
        let shorter = decimal(n / 10);
        assert(decimal(n).drop_last() =~= shorter);
        assert(decimal(n).last() == digit_char(n % 10));
        assert forall|i: int| 0 <= i < decimal(n).len() implies is_digit(
            #[trigger] decimal(n)[i],
        ) && !is_delimiter(decimal(n)[i]) && decimal(n)[i] != '+' by {
            if i < shorter.len() {
                assert(decimal(n)[i] == shorter[i]);
                assert(is_digit(shorter[i]));
            }
        }
    }
}

/// Reading a number that was written in decimal gives the number back.
pub proof fn lemma_number_of_decimal(n: usize)
    ensures
        number_of(decimal(n as nat)) == Some(n),
{
    lemma_decimal_is_number(n as nat);
    assert(is_digit(decimal(n as nat)[0]));
}

/// There is always a field.
pub proof fn lemma_fields_nonempty(s: Seq<char>)
    ensures
        fields(s).len() >= 1,
    decreases s.len(),
{
    if s.len() > 0 {
        lemma_fields_nonempty(s.drop_last());
    }
}

/// A delimiter at the end opens a new, empty field.
pub proof fn lemma_fields_push_delimiter(s: Seq<char>, c: char)
    requires
        is_delimiter(c),
    ensures
        fields(s.push(c)) == fields(s).push(Seq::<char>::empty()),
{
    assert(s.push(c).drop_last() =~= s);
}

/// Text without delimiters at the end lengthens the last field.
pub proof fn lemma_fields_append_plain(s: Seq<char>, plain: Seq<char>)
    requires
        is_plain(plain),
    ensures
        fields(s + plain).len() == fields(s).len(),
        fields(s + plain) == fields(s).update(fields(s).len() - 1, fields(s).last() + plain),
    decreases plain.len(),
{
    lemma_fields_nonempty(s);
    if plain.len() == 0 {
        assert(s + plain =~= s);
        assert(fields(s).last() + plain =~= fields(s).last());
        assert(fields(s).update(fields(s).len() - 1, fields(s).last()) =~= fields(s));
    } else {
        let shorter = plain.drop_last();
        assert(is_plain(shorter)) by {
            assert forall|i: int| 0 <= i < shorter.len() implies !is_delimiter(
                #[trigger] shorter[i],
            ) && shorter[i] != '+' by {
                assert(shorter[i] == plain[i]);
            }
        }
        lemma_fields_append_plain(s, shorter);
        assert((s + plain).drop_last() =~= s + shorter);
        assert((s + plain).last() == plain.last());
        assert(!is_delimiter(plain[plain.len() - 1]));
        assert((fields(s).last() + shorter).push(plain.last()) =~= fields(s).last() + plain);
        assert(fields(s + plain) =~= fields(s).update(
            fields(s).len() - 1,
            fields(s).last() + plain,
        ));
    }
}

/// Text that neither begins nor ends with white space is trimmed already.
pub proof fn lemma_trimmed_unchanged(s: Seq<char>)
    requires
        s.len() > 0,
        !is_white_space(s[0]),
        !is_white_space(s.last()),
    ensures
        trimmed(s) == s,
{
    assert(s.skip(0) =~= s);
    assert(s.take(s.len() as int) =~= s);
}

/// The fields of the text of an edge: the two numbers, each with an empty
/// field before it, and an empty field at the end.
pub proof fn lemma_fields_of_edge_text(edge: Edge)
    ensures
        fields(edge_text(edge)) == seq![
            Seq::<char>::empty(),
            decimal(edge.0 as nat),
            Seq::<char>::empty(),
            decimal(edge.1 as nat),
            Seq::<char>::empty(),
        ],
{
    let first = decimal(edge.0 as nat);
    let second = decimal(edge.1 as nat);
    let none = Seq::<char>::empty();
    lemma_decimal_is_number(edge.0 as nat);
    lemma_decimal_is_number(edge.1 as nat);
    let s0 = Seq::<char>::empty();
    let s1 = s0.push('(');
    let s2 = s1 + first;
    let s3 = s2.push(',');
    let s4 = s3.push(' ');
    let s5 = s4 + second;
    let s6 = s5.push(')');
    assert(fields(s0) =~= seq![none]);
    lemma_fields_push_delimiter(s0, '(');
    assert(fields(s1) =~= seq![none, none]);
    lemma_fields_append_plain(s1, first);
    assert(none + first =~= first);
    assert(fields(s2) =~= seq![none, first]);
    lemma_fields_push_delimiter(s2, ',');
    assert(fields(s3) =~= seq![none, first, none]);
    lemma_fields_push_delimiter(s3, ' ');
    assert(fields(s4) =~= seq![none, first, none, none]);
    lemma_fields_append_plain(s4, second);
    assert(none + second =~= second);
    assert(fields(s5) =~= seq![none, first, none, second]);
    lemma_fields_push_delimiter(s5, ')');
    assert(fields(s6) =~= seq![none, first, none, second, none]);
    assert(s6 =~= edge_text(edge));
}

/// Reading the text of an edge gives the edge back.
pub proof fn lemma_edge_text_round_trip(edge: Edge)
    ensures
        edge_of_text(edge_text(edge)) == Some(edge),
{
    let text = edge_text(edge);
    assert(text[0] == '(');
    assert(text.last() == ')');
    lemma_trimmed_unchanged(text);
    lemma_fields_of_edge_text(edge);
    lemma_number_of_decimal(edge.0);
    lemma_number_of_decimal(edge.1);
}

/// The digit `d` as text.
fn digit_str(d: usize) -> (s: &'static str)
    requires
        d < 10,
    ensures
        s@ == seq![digit_char(d as nat)],
{
    proof {
        reveal_strlit("0");
        reveal_strlit("1");
        reveal_strlit("2");
        reveal_strlit("3");
        reveal_strlit("4");
        reveal_strlit("5");
        reveal_strlit("6");
        reveal_strlit("7");
        reveal_strlit("8");
        reveal_strlit("9");
    }
    let s: &'static str = if d == 0 {
        "0"
    } else if d == 1 {
        "1"
    } else if d == 2 {
        "2"
    } else if d == 3 {
        "3"
    } else if d == 4 {
        "4"
    } else if d == 5 {
        "5"
    } else if d == 6 {
        "6"
    } else if d == 7 {
        "7"
    } else if d == 8 {
        "8"
    } else {
        "9"
    };
    assert(s@ =~= seq![digit_char(d as nat)]);
    s
}

/// The digits of the first `count` numbers of `digits`, last number first.
spec fn reversed_digits(digits: Seq<usize>, count: int) -> Seq<char>
    decreases count,
{
    if count <= 0 {
        Seq::empty()
    } else {
        seq![digit_char(digits[count - 1] as nat)] + reversed_digits(digits, count - 1)
    }
}

/// One more number leaves the digits of the numbers before it as they are
/// and puts its own digit first.
proof fn lemma_reversed_digits_push(digits: Seq<usize>, d: usize, count: int)
    requires
        0 <= count <= digits.len(),
    ensures
        reversed_digits(digits.push(d), count) == reversed_digits(digits, count),
        count == digits.len() ==> reversed_digits(digits.push(d), count + 1) == seq![
            digit_char(d as nat),
        ] + reversed_digits(digits, count),
    decreases count,
{
    if count > 0 {
        lemma_reversed_digits_push(digits, d, count - 1);
        assert(digits.push(d)[count - 1] == digits[count - 1]);
    }
    if count == digits.len() {
        assert(digits.push(d)[count] == d);
        assert(reversed_digits(digits.push(d), count + 1) == seq![
            digit_char(digits.push(d)[count + 1 - 1] as nat),
        ] + reversed_digits(digits.push(d), count + 1 - 1));
    }
}

/// Appends `n` in decimal to `out`.
pub(crate) fn push_decimal(out: &mut String, n: usize)
    ensures
        final(out)@ == old(out)@ + decimal(n as nat),
{
    let mut digits: Vec<usize> = Vec::new();
    let mut rest: usize = n;
    proof {
        assert(decimal(n as nat) =~= decimal(rest as nat) + reversed_digits(digits@, 0));
    }
    while rest >= 10
        invariant
            decimal(n as nat) == decimal(rest as nat) + reversed_digits(
                digits@,
                digits@.len() as int,
            ),
            forall|k: int| 0 <= k < digits@.len() ==> #[trigger] digits@[k] < 10,
        decreases rest,
    {
        let d: usize = rest % 10;
        proof {
            lemma_reversed_digits_push(digits@, d, digits@.len() as int);
            assert(decimal(rest as nat) == decimal((rest / 10) as nat).push(
                digit_char((rest % 10) as nat),
            ));
            assert(decimal(n as nat) =~= decimal((rest / 10) as nat) + (seq![digit_char(d as nat)]
                + reversed_digits(digits@, digits@.len() as int)));
        }
        digits.push(d);
        rest = rest / 10;
    }
    out.append(digit_str(rest));
    let mut k: usize = digits.len();
    proof {
        assert(decimal(rest as nat) =~= seq![digit_char(rest as nat)]);
    }
    while k > 0
        invariant
            0 <= k <= digits@.len(),
            forall|j: int| 0 <= j < digits@.len() ==> #[trigger] digits@[j] < 10,
            out@ + reversed_digits(digits@, k as int) == old(out)@ + decimal(n as nat),
        decreases k,
    {
        k -= 1;
        let ghost before = out@;
        out.append(digit_str(digits[k]));
        proof {
            assert((before + seq![digit_char(digits@[k as int] as nat)]) + reversed_digits(
                digits@,
                k as int,
            ) =~= before + reversed_digits(digits@, k + 1));
        }
    }
    proof {
        assert(out@ + reversed_digits(digits@, 0) =~= out@);
    }
}

/// Appends the text of `edge` to `out`.
pub(crate) fn push_edge(out: &mut String, edge: Edge)
    ensures
        final(out)@ == old(out)@ + edge_text(edge),
{
    proof {
        reveal_strlit("(");
        reveal_strlit(", ");
        reveal_strlit(")");
    }
    out.append("(");
    push_decimal(out, edge.0);
    out.append(", ");
    push_decimal(out, edge.1);
    out.append(")");
    proof {
        assert("("@ =~= seq!['(']);
        assert(", "@ =~= seq![',', ' ']);
        assert(")"@ =~= seq![')']);
        assert(out@ =~= old(out)@ + edge_text(edge));
    }
}

/// The text of `edge`.
pub fn format_edge(edge: Edge) -> (text: String)
    ensures
        text@ == edge_text(edge),
        edge_of_text(text@) == Some(edge),
{
    let mut text: String = String::new();
    push_edge(&mut text, edge);
    proof {
        assert(Seq::<char>::empty() + edge_text(edge) =~= edge_text(edge));
        lemma_edge_text_round_trip(edge);
    }
    text
}

} // verus!
