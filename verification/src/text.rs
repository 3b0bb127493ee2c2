//! Characters and pieces of text.

use vstd::prelude::*;

verus! {

/// A character with the Unicode property `White_Space`.
pub open spec fn is_white_space(c: char) -> bool {
    let code = c as u32;
    (0x09 <= code && code <= 0x0d) || code == 0x20 || code == 0x85 || code == 0xa0 || code
        == 0x1680 || (0x2000 <= code && code <= 0x200a) || code == 0x2028 || code == 0x2029 || code
        == 0x202f || code == 0x205f || code == 0x3000
}

/// How many characters of white space `text` begins with.
pub open spec fn leading_white(text: Seq<char>) -> nat
    decreases text.len(),
{
    if text.len() == 0 || !is_white_space(text[0]) {
        0
    } else {
        1 + leading_white(text.drop_first())
    }
}

/// How many characters of white space `text` ends with.
pub open spec fn trailing_white(text: Seq<char>) -> nat
    decreases text.len(),
{
    if text.len() == 0 || !is_white_space(text.last()) {
        0
    } else {
        1 + trailing_white(text.drop_last())
    }
}

/// `text` without the white space at its two ends.
pub open spec fn trimmed(text: Seq<char>) -> Seq<char> {
    if leading_white(text) == text.len() {
        Seq::empty()
    } else {
        text.subrange(leading_white(text) as int, text.len() - trailing_white(text))
    }
}

/// Whether `text` holds a character that is no white space.
pub open spec fn has_word(text: Seq<char>) -> bool {
    exists|i: int| 0 <= i < text.len() && !is_white_space(#[trigger] text[i])
}

/// The index of the first `c` in `text`, or the length of `text` where
/// there is none.
pub open spec fn first_index(text: Seq<char>, c: char) -> int
    decreases text.len(),
{
    if text.len() == 0 || text[0] == c {
        0
    } else {
        1 + first_index(text.drop_first(), c)
    }
}

/// How often `c` occurs in `text`.
pub open spec fn count(text: Seq<char>, c: char) -> nat
    decreases text.len(),
{
    if text.len() == 0 {
        0
    } else if text.last() == c {
        1 + count(text.drop_last(), c)
    } else {
        count(text.drop_last(), c)
    }
}

/// `first_index` is the index before which no `c` stands and at which one
/// does, or the length.
pub proof fn lemma_first_index(text: Seq<char>, c: char, index: int)
    requires
        0 <= index <= text.len(),
        forall|j: int| 0 <= j < index ==> text[j] != c,
        index < text.len() ==> text[index] == c,
    ensures
        first_index(text, c) == index,
    decreases index,
{
    if index > 0 {
        let rest = text.drop_first();
        assert forall|j: int| 0 <= j < index - 1 implies rest[j] != c by {
            assert(rest[j] == text[j + 1]);
        }
        lemma_first_index(rest, c, index - 1);
    }
}

/// The leading white space ends at the first character that is none.
pub proof fn lemma_leading_white(text: Seq<char>, n: int)
    requires
        0 <= n <= text.len(),
        forall|i: int| 0 <= i < n ==> is_white_space(#[trigger] text[i]),
        n < text.len() ==> !is_white_space(text[n]),
    ensures
        leading_white(text) == n,
    decreases n,
{
    if n > 0 {
        let rest = text.drop_first();
        assert forall|i: int| 0 <= i < n - 1 implies is_white_space(#[trigger] rest[i]) by {
            assert(rest[i] == text[i + 1]);
        }
        lemma_leading_white(rest, n - 1);
    }
}

/// The trailing white space begins behind the last character that is none.
pub proof fn lemma_trailing_white(text: Seq<char>, n: int)
    requires
        0 <= n <= text.len(),
        forall|i: int| text.len() - n <= i < text.len() ==> is_white_space(#[trigger] text[i]),
        n < text.len() ==> !is_white_space(text[text.len() - n - 1]),
    ensures
        trailing_white(text) == n,
    decreases n,
{
    if n > 0 {
        let rest = text.drop_last();
        assert forall|i: int| rest.len() - (n - 1) <= i < rest.len() implies is_white_space(
            #[trigger] rest[i],
        ) by {
            assert(rest[i] == text[i]);
        }
        lemma_trailing_white(rest, n - 1);
    }
}

/// A trimmed text begins and ends with a character that is no white space,
/// and it is empty exactly where the text holds no such character.
pub proof fn lemma_trimmed_ends(text: Seq<char>)
    ensures
        trimmed(text).len() > 0 <==> has_word(text),
        trimmed(text).len() > 0 ==> !is_white_space(trimmed(text).first()) && !is_white_space(
            trimmed(text).last(),
        ),
        leading_white(text) + trimmed(text).len() + trailing_white(text) == text.len()
            || !has_word(text),
{
    lemma_white_ends(text);
}

/// What the two counts of white space say of the characters of `text`.
pub proof fn lemma_white_ends(text: Seq<char>)
    ensures
        leading_white(text) <= text.len(),
        trailing_white(text) <= text.len(),
        forall|i: int| 0 <= i < leading_white(text) ==> is_white_space(#[trigger] text[i]),
        forall|i: int|
            text.len() - trailing_white(text) <= i < text.len() ==> is_white_space(
                #[trigger] text[i],
            ),
        leading_white(text) < text.len() ==> !is_white_space(text[leading_white(text) as int]),
        trailing_white(text) < text.len() ==> !is_white_space(
            text[text.len() - trailing_white(text) - 1],
        ),
        leading_white(text) == text.len() <==> !has_word(text),
        trailing_white(text) == text.len() <==> !has_word(text),
    decreases text.len(),
{
    if text.len() > 0 {
        let front = text.drop_last();
        let back = text.drop_first();
        lemma_white_ends(front);
        lemma_white_ends(back);
        if is_white_space(text[0]) {
            assert forall|i: int| 0 <= i < leading_white(text) implies is_white_space(
                #[trigger] text[i],
            ) by {
                if i > 0 {
                    assert(text[i] == back[i - 1]);
                }
            }
            if leading_white(text) < text.len() {
                assert(text[leading_white(text) as int] == back[leading_white(back) as int]);
            }
            if has_word(back) {
                let i = choose|i: int| 0 <= i < back.len() && !is_white_space(#[trigger] back[i]);
                assert(text[i + 1] == back[i]);
            }
            if has_word(text) {
                let i = choose|i: int| 0 <= i < text.len() && !is_white_space(#[trigger] text[i]);
                assert(text[i] == back[i - 1]);
            }
        }
        if is_white_space(text.last()) {
            assert forall|i: int|
                text.len() - trailing_white(text) <= i < text.len() implies is_white_space(
                #[trigger] text[i],
            ) by {
                if i < text.len() - 1 {
                    assert(text[i] == front[i]);
                }
            }
            if trailing_white(text) < text.len() {
                assert(text[text.len() - trailing_white(text) - 1] == front[front.len()
                    - trailing_white(front) - 1]);
            }
            if has_word(front) {
                let i = choose|i: int|
                    0 <= i < front.len() && !is_white_space(#[trigger] front[i]);
                assert(text[i] == front[i]);
            }
            if has_word(text) {
                let i = choose|i: int| 0 <= i < text.len() && !is_white_space(#[trigger] text[i]);
                assert(text[i] == front[i]);
            }
        }
    }
}

/// Tells whether `c` is white space.
pub fn white_space(c: char) -> (white: bool)
    ensures
        white == is_white_space(c),
{
    let code = c as u32;
    (0x09 <= code && code <= 0x0d) || code == 0x20 || code == 0x85 || code == 0xa0 || code
        == 0x1680 || (0x2000 <= code && code <= 0x200a) || code == 0x2028 || code == 0x2029 || code
        == 0x202f || code == 0x205f || code == 0x3000
}

/// The index of the first `c` in `text`, or the length of `text` where
/// there is none.
pub fn find(text: &Vec<char>, c: char) -> (index: usize)
    ensures
        index == first_index(text@, c),
        index <= text.len(),
        index < text.len() ==> text@[index as int] == c,
        forall|j: int| 0 <= j < index ==> text@[j] != c,
{
    let mut index: usize = 0;
    while index < text.len() && text[index] != c
        invariant
            index <= text.len(),
            forall|j: int| 0 <= j < index ==> text@[j] != c,
        decreases text.len() - index,
    {
        index += 1;
    }
    proof {
        lemma_first_index(text@, c, index as int);
    }
    index
}

/// Counts how often `c` occurs in `text`.
pub fn count_of(text: &Vec<char>, c: char) -> (n: usize)
    ensures
        n == count(text@, c),
{
    let mut n: usize = 0;
    let mut i: usize = 0;
    while i < text.len()
        invariant
            i <= text.len(),
            n <= i,
            n == count(text@.subrange(0, i as int), c),
        decreases text.len() - i,
    {
        assert(text@.subrange(0, i + 1).drop_last() =~= text@.subrange(0, i as int));
        if text[i] == c {
            n += 1;
        }
        i += 1;
    }
    assert(text@.subrange(0, i as int) =~= text@);
    n
}

/// Where the trimmed text begins and ends in `text`.
pub fn trim_bounds(text: &Vec<char>) -> (bounds: (usize, usize))
    ensures
        bounds.0 <= bounds.1 <= text.len(),
        text@.subrange(bounds.0 as int, bounds.1 as int) == trimmed(text@),
        bounds.0 < bounds.1 <==> has_word(text@),
{
    let mut start: usize = 0;
    while start < text.len() && white_space(text[start])
        invariant
            start <= text.len(),
            forall|i: int| 0 <= i < start ==> is_white_space(#[trigger] text@[i]),
        decreases text.len() - start,
    {
        start += 1;
    }
    proof {
        lemma_leading_white(text@, start as int);
        lemma_white_ends(text@);
    }
    if start == text.len() {
        assert(text@.subrange(start as int, start as int) =~= Seq::<char>::empty());
        return (start, start);
    }
    let mut end: usize = text.len();
    while end > start + 1 && white_space(text[end - 1])
        invariant
            start < end <= text.len(),
            !is_white_space(text@[start as int]),
            forall|i: int| end <= i < text.len() ==> is_white_space(#[trigger] text@[i]),
        decreases end,
    {
        end -= 1;
    }
    proof {
        lemma_trailing_white(text@, text.len() - end);
    }
    (start, end)
}

/// The characters of `s`, one by one.
pub fn chars_of(s: &str) -> (chars: Vec<char>)
    ensures
        chars@ == s@,
{
    let mut chars: Vec<char> = Vec::new();
    for c in iter: s.chars()
        invariant
            chars@ == s@.subrange(0, iter.index() as int),
            iter.seq() == s@,
    {
        chars.push(c);
        assert(chars@ =~= s@.subrange(0, iter.index() + 1));
    }
    assert(chars@ =~= s@);
    chars
}

/// The characters of `text` from `start` up to `end`.
pub fn slice_of(text: &Vec<char>, start: usize, end: usize) -> (part: Vec<char>)
    requires
        start <= end <= text.len(),
    ensures
        part@ == text@.subrange(start as int, end as int),
{
    let mut part: Vec<char> = Vec::new();
    let mut i: usize = start;
    while i < end
        invariant
            start <= i <= end <= text.len(),
            part@ == text@.subrange(start as int, i as int),
        decreases end - i,
    {
        part.push(text[i]);
        assert(part@ =~= text@.subrange(start as int, i + 1));
        i += 1;
    }
    part
}

/// Tells whether two texts hold the same characters.
pub fn same_text(a: &Vec<char>, b: &Vec<char>) -> (same: bool)
    ensures
        same == (a@ == b@),
{
    if a.len() != b.len() {
        return false;
    }
    let mut i: usize = 0;
    while i < a.len()
        invariant
            i <= a.len(),
            a.len() == b.len(),
            forall|j: int| 0 <= j < i ==> a@[j] == b@[j],
        decreases a.len() - i,
    {
        if a[i] != b[i] {
            return false;
        }
        i += 1;
    }
    assert(a@ =~= b@);
    true
}

} // verus!
