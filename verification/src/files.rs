//! Files of connectivity matrices: which files belong to a cohort, and the
//! entries of a row.
//!
//! The matrices of a cohort lie in one folder. The name of each begins with
//! the code of the cohort and holds the words `connectivity_matrix`. A row of
//! a matrix is a line of entries with white space between them.

use vstd::prelude::*;
use crate::lines::texts_between;
use crate::text::{char_is_white_space, chars_of, is_white_space};

verus! {

/// What follows the last slash of `path`; all of it where it holds none.
pub open spec fn last_component(path: Seq<char>) -> Seq<char>
    decreases path.len(),
{
    if path.len() == 0 || path.last() == '/' {
        Seq::empty()
    } else {
        last_component(path.drop_last()).push(path.last())
    }
}

/// `s` begins with `prefix`.
pub open spec fn starts_with(s: Seq<char>, prefix: Seq<char>) -> bool {
    prefix.len() <= s.len() && s.take(prefix.len() as int) == prefix
}

/// `s` holds `pattern` from position `i` on.
pub open spec fn holds_at(s: Seq<char>, pattern: Seq<char>, i: int) -> bool {
    0 <= i && i + pattern.len() <= s.len() && s.subrange(i, i + pattern.len()) == pattern
}

/// `s` holds `pattern` somewhere.
pub open spec fn holds(s: Seq<char>, pattern: Seq<char>) -> bool {
    exists|i: int| holds_at(s, pattern, i)
}

/// The words of `s`: the longest runs of characters that are no white space,
/// from left to right.
pub open spec fn words(s: Seq<char>) -> Seq<Seq<char>>
    decreases s.len(),
{
    if s.len() == 0 {
        Seq::empty()
    } else {
        let before = words(s.drop_last());
        if is_white_space(s.last()) {
            before
        } else if s.len() >= 2 && !is_white_space(s[s.len() - 2]) {
            before.update(before.len() - 1, before.last().push(s.last()))
        } else {
            before.push(seq![s.last()])
        }
    }
}

/// Whether `chars` holds `pattern` from position `i` on.
fn matches_at(chars: &Vec<char>, lo: usize, hi: usize, pattern: &Vec<char>, i: usize) -> (r: bool)
    requires
        lo <= i <= hi <= chars@.len(),
    ensures
        r == holds_at(chars@.subrange(lo as int, hi as int), pattern@, i - lo),
{
    let ghost text = chars@.subrange(lo as int, hi as int);
    if pattern.len() > hi - i {
        return false;
    }
    let mut k: usize = 0;
    while k < pattern.len()
        invariant
            lo <= i <= hi <= chars@.len(),
            pattern@.len() <= hi - i,
            text == chars@.subrange(lo as int, hi as int),
            0 <= k <= pattern@.len(),
            forall|j: int| 0 <= j < k ==> text[i - lo + j] == pattern@[j],
        decreases pattern.len() - k,
    {
        if chars[i + k] != pattern[k] {
            proof {
                assert(text.subrange(i - lo, i - lo + pattern@.len())[k as int] == text[i - lo
                    + k]);
            }
            return false;
        }
        k += 1;
    }
    proof {
        assert(text.subrange(i - lo, i - lo + pattern@.len()) =~= pattern@);
    }
    true
}

/// Whether the last component of `path` begins with `patient_code` and holds
/// the words `connectivity_matrix`.
pub fn is_cohort_matrix_file(path: &str, patient_code: &str) -> (r: bool)
    ensures
        r == (starts_with(last_component(path@), patient_code@) && holds(
            last_component(path@),
            "connectivity_matrix"@,
        )),
{
    let chars: Vec<char> = chars_of(path);
    let code: Vec<char> = chars_of(patient_code);
    let pattern: Vec<char> = chars_of("connectivity_matrix");
    let len: usize = chars.len();
    let mut lo: usize = len;
    proof {
        assert(chars@.subrange(len as int, len as int) =~= Seq::<char>::empty());
        assert(chars@.take(len as int) =~= chars@);
    }
    while lo > 0 && chars[lo - 1] != '/'
        invariant
            len == chars@.len(),
            0 <= lo <= len,
            last_component(chars@) == last_component(chars@.take(lo as int)) + chars@.subrange(
                lo as int,
                len as int,
            ),
        decreases lo,
    {
        proof {
            let shorter = chars@.take(lo as int);
            assert(shorter.last() == chars@[lo - 1]);
            assert(shorter.drop_last() =~= chars@.take(lo - 1));
            assert(last_component(chars@.take(lo - 1)).push(chars@[lo - 1]) + chars@.subrange(
                lo as int,
                len as int,
            ) =~= last_component(chars@.take(lo - 1)) + chars@.subrange(lo - 1, len as int));
        }
        lo -= 1;
    }
    let ghost name = chars@.subrange(lo as int, len as int);
    proof {
        if lo > 0 {
            assert(chars@.take(lo as int).last() == '/');
        }
        assert(last_component(chars@.take(lo as int)) =~= Seq::<char>::empty());
        assert(last_component(chars@) =~= name);
    }
    let begins: bool = matches_at(&chars, lo, len, &code, lo);
    proof {
        if code@.len() <= name.len() {
            assert(name.take(code@.len() as int) =~= name.subrange(0, 0 + code@.len() as int));
        }
    }
    if !begins {
        return false;
    }
    let mut i: usize = lo;
    loop
        invariant
            lo <= i <= len,
            len == chars@.len(),
            name == chars@.subrange(lo as int, len as int),
            name == last_component(path@),
            pattern@ == "connectivity_matrix"@,
            starts_with(name, patient_code@),
            forall|j: int| 0 <= j < i - lo ==> !holds_at(name, pattern@, j),
        decreases len - i,
    {
        if matches_at(&chars, lo, len, &pattern, i) {
            return true;
        }
        if i == len {
            return false;
        }
        i += 1;
    }
}

/// One more character ends, lengthens or begins a word.
proof fn lemma_words_step(s: Seq<char>, i: int)
    requires
        0 <= i < s.len(),
    ensures
        is_white_space(s[i]) ==> words(s.take(i + 1)) == words(s.take(i)),
        !is_white_space(s[i]) && i > 0 && !is_white_space(s[i - 1]) ==> words(s.take(i + 1))
            == words(s.take(i)).update(
            words(s.take(i)).len() - 1,
            words(s.take(i)).last().push(s[i]),
        ),
        !is_white_space(s[i]) && !(i > 0 && !is_white_space(s[i - 1])) ==> words(s.take(i + 1))
            == words(s.take(i)).push(seq![s[i]]),
{
    let longer = s.take(i + 1);
    assert(longer.drop_last() =~= s.take(i));
    assert(longer.last() == s[i]);
    if i > 0 {
        assert(longer[longer.len() - 2] == s[i - 1]);
    }
}

/// The words of a line.
pub fn split_words(line: &str) -> (texts: Vec<String>)
    ensures
        texts@.len() == words(line@).len(),
        forall|k: int| 0 <= k < texts@.len() ==> (#[trigger] texts@[k])@ == words(line@)[k],
{
    let chars: Vec<char> = chars_of(line);
    let len: usize = chars.len();
    let mut bounds: Vec<(usize, usize)> = Vec::new();
    let mut start: usize = 0;
    let mut inside: bool = false;
    let mut i: usize = 0;
    proof {
        assert(chars@.take(0) =~= Seq::<char>::empty());
        assert(texts_between(chars@, bounds@) =~= words(chars@.take(0)));
    }
    while i < len
        invariant
            len == chars@.len(),
            0 <= start <= i <= len,
            inside <==> i > 0 && !is_white_space(chars@[i - 1]),
            inside ==> start < i,
            forall|k: int|
                0 <= k < bounds@.len() ==> (#[trigger] bounds@[k]).0 <= bounds@[k].1 <= len,
            !inside ==> words(chars@.take(i as int)) == texts_between(chars@, bounds@),
            inside ==> words(chars@.take(i as int)) == texts_between(chars@, bounds@).push(
                chars@.subrange(start as int, i as int),
            ),
        decreases len - i,
    {
        let ghost closed = texts_between(chars@, bounds@);
        proof {
            lemma_words_step(chars@, i as int);
        }
        if char_is_white_space(chars[i]) {
            if inside {
                bounds.push((start, i));
                proof {
                    assert(texts_between(chars@, bounds@) =~= closed.push(
                        chars@.subrange(start as int, i as int),
                    ));
                }
                inside = false;
            }
        } else if inside {
            proof {
                let open = chars@.subrange(start as int, i as int);
                assert(open.push(chars@[i as int]) =~= chars@.subrange(start as int, i + 1));
                assert(closed.push(open).update(closed.len() as int, open.push(chars@[i as int]))
                    =~= closed.push(chars@.subrange(start as int, i + 1)));
            }
        } else {
            start = i;
            inside = true;
            proof {
                assert(seq![chars@[i as int]] =~= chars@.subrange(i as int, i + 1));
            }
        }
        i += 1;
    }
    if inside {
        let ghost closed = texts_between(chars@, bounds@);
        bounds.push((start, len));
        proof {
            assert(texts_between(chars@, bounds@) =~= closed.push(
                chars@.subrange(start as int, len as int),
            ));
        }
    }
    proof {
        assert(chars@.take(len as int) =~= chars@);
    }
    let mut texts: Vec<String> = Vec::new();
    let mut k: usize = 0;
    while k < bounds.len()
        invariant
            0 <= k <= bounds@.len(),
            chars@ == line@,
            forall|j: int|
                0 <= j < bounds@.len() ==> (#[trigger] bounds@[j]).0 <= bounds@[j].1
                    <= chars@.len(),
            texts_between(chars@, bounds@) == words(line@),
            texts@.len() == k,
            forall|j: int| 0 <= j < k ==> (#[trigger] texts@[j])@ == words(line@)[j],
        decreases bounds.len() - k,
    {
        let piece: (usize, usize) = bounds[k];
        proof {
            assert(texts_between(chars@, bounds@)[k as int] == chars@.subrange(
                piece.0 as int,
                piece.1 as int,
            ));
        }
        let mut text: String = String::new();
        text.append(line.substring_char(piece.0, piece.1));
        proof {
            assert(Seq::<char>::empty() + line@.subrange(piece.0 as int, piece.1 as int)
                =~= line@.subrange(piece.0 as int, piece.1 as int));
        }
        texts.push(text);
        k += 1;
    }
    texts
}

} // verus!
