//! Text as sequences of characters: whitespace, trimming, searching.

use vstd::prelude::*;

verus! {

/// `String::push` appends one character to the end of the string.
pub assume_specification[ String::push ](text: &mut String, ch: char)
    ensures
        final(text)@ == old(text)@.push(ch),
;

/// Whether `c` is white space: the code points with the Unicode property
/// `White_Space`.
pub open spec fn is_whitespace(c: char) -> bool {
    let code = c as u32;
    ||| 0x09 <= code <= 0x0D
    ||| code == 0x20
    ||| code == 0x85
    ||| code == 0xA0
    ||| code == 0x1680
    ||| 0x2000 <= code <= 0x200A
    ||| code == 0x2028
    ||| code == 0x2029
    ||| code == 0x202F
    ||| code == 0x205F
    ||| code == 0x3000
}

/// `text` without the white space at its start.
pub open spec fn trim_start(text: Seq<char>) -> Seq<char>
    decreases text.len(),
{
    if text.len() > 0 && is_whitespace(text[0]) {
        trim_start(text.skip(1))
    } else {
        text
    }
}

/// `text` without the white space at its end.
pub open spec fn trim_end(text: Seq<char>) -> Seq<char>
    decreases text.len(),
{
    if text.len() > 0 && is_whitespace(text.last()) {
        trim_end(text.drop_last())
    } else {
        text
    }
}

/// `text` without the white space at both ends.
pub open spec fn trimmed(text: Seq<char>) -> Seq<char> {
    trim_end(trim_start(text))
}

/// Trimming at the start drops exactly the leading run of white space.
pub proof fn lemma_trim_start(text: Seq<char>, k: int)
    requires
        0 <= k <= text.len(),
        forall|i: int| 0 <= i < k ==> is_whitespace(#[trigger] text[i]),
        k < text.len() ==> !is_whitespace(text[k]),
    ensures
        trim_start(text) == text.skip(k),
    decreases k,
{
    if k == 0 {
        assert(text.skip(0) =~= text);
    } else {
        assert(is_whitespace(text[0]));
        let rest = text.skip(1);
        assert forall|i: int| 0 <= i < k - 1 implies is_whitespace(#[trigger] rest[i]) by {
            assert(rest[i] == text[i + 1]);
        }
        lemma_trim_start(rest, k - 1);
        assert(rest.skip(k - 1) =~= text.skip(k));
    }
}

/// Trimming at the end drops exactly the trailing run of white space.
pub proof fn lemma_trim_end(text: Seq<char>, k: int)
    requires
        0 <= k <= text.len(),
        forall|i: int| k <= i < text.len() ==> is_whitespace(#[trigger] text[i]),
        k > 0 ==> !is_whitespace(text[k - 1]),
    ensures
        trim_end(text) == text.take(k),
    decreases text.len() - k,
{
    if k == text.len() {
        assert(text.take(k) =~= text);
    } else {
        assert(is_whitespace(text.last()));
        let rest = text.drop_last();
        lemma_trim_end(rest, k);
        assert(rest.take(k) =~= text.take(k));
    }
}

/// The position of the first `needle` in `text`: the length of `text` where
/// there is none.
pub open spec fn first_index(text: Seq<char>, needle: char) -> int
    decreases text.len(),
{
    if text.len() == 0 {
        0
    } else if text[0] == needle {
        0
    } else {
        1 + first_index(text.skip(1), needle)
    }
}

/// The first position of a character is the one before which it does not
/// occur.
pub proof fn lemma_first_index(text: Seq<char>, needle: char, k: int)
    requires
        0 <= k <= text.len(),
        forall|i: int| 0 <= i < k ==> #[trigger] text[i] != needle,
        k < text.len() ==> text[k] == needle,
    ensures
        first_index(text, needle) == k,
    decreases k,
{
    if k > 0 {
        let rest = text.skip(1);
        assert(text[0] != needle);
        assert forall|i: int| 0 <= i < k - 1 implies #[trigger] rest[i] != needle by {
            assert(rest[i] == text[i + 1]);
        }
        lemma_first_index(rest, needle, k - 1);
    }
}

/// Whether `c` is white space.
pub fn is_whitespace_char(c: char) -> (blank: bool)
    ensures
        blank == is_whitespace(c),
{
    let code: u32 = c as u32;
    (0x09 <= code && code <= 0x0D) || code == 0x20 || code == 0x85 || code == 0xA0 || code
        == 0x1680 || (0x2000 <= code && code <= 0x200A) || code == 0x2028 || code == 0x2029 || code
        == 0x202F || code == 0x205F || code == 0x3000
}

/// Returns the characters of `text`.
pub fn chars_of(text: &str) -> (chars: Vec<char>)
    ensures
        chars@ == text@,
{
    let mut chars: Vec<char> = Vec::new();
    proof {
        assert(text@.take(0) =~= Seq::<char>::empty());
    }
    for c in it: text.chars()
        invariant
            it.seq() == text@,
            chars@ == text@.take(it.index()),
    {
        chars.push(c);
        proof {
            assert(text@.take(it.index() + 1) =~= text@.take(it.index()).push(c));
        }
    }
    proof {
        assert(text@.take(text@.len() as int) =~= text@);
    }
    chars
}

/// Returns `text` without the white space at both ends.
pub fn trim(text: &str) -> (inner: &str)
    ensures
        inner@ == trimmed(text@),
{
    let length = text.unicode_len();
    let mut start: usize = 0;
    let mut end: usize = 0;
    let mut position: usize = 0;
    for c in it: text.chars()
        invariant
            it.seq() == text@,
            length == text@.len(),
            position == it.index(),
            start <= end <= position,
            forall|i: int| 0 <= i < start ==> is_whitespace(#[trigger] text@[i]),
            forall|i: int| end <= i < position ==> is_whitespace(#[trigger] text@[i]),
            start < end ==> !is_whitespace(text@[start as int]) && !is_whitespace(text@[end - 1]),
            start == end ==> start == position,
    {
        if !is_whitespace_char(c) {
            if start == end {
                start = position;
            }
            end = position + 1;
        } else if start == end {
            start = position + 1;
            end = position + 1;
        }
        position = position + 1;
    }
    proof {
        lemma_trim_start(text@, start as int);
        lemma_trim_end(text@.skip(start as int), end - start);
        assert(text@.skip(start as int).take(end - start) =~= text@.subrange(
            start as int,
            end as int,
        ));
    }
    text.substring_char(start, end)
}

/// Returns the position of the first `needle` in `text`, counted in
/// characters, and the number of characters of `text`.
pub fn find_char(text: &str, needle: char) -> (found: (Option<usize>, usize))
    ensures
        found.1 == text@.len(),
        match found.0 {
            Some(at) => at < text@.len() && at == first_index(text@, needle) && text@[at as int]
                == needle,
            None => !text@.contains(needle) && first_index(text@, needle) == text@.len(),
        },
{
    let length = text.unicode_len();
    let mut at: Option<usize> = None;
    let mut position: usize = 0;
    for c in it: text.chars()
        invariant
            it.seq() == text@,
            length == text@.len(),
            position == it.index(),
            match at {
                Some(k) => k < position && text@[k as int] == needle && forall|i: int|
                    0 <= i < k ==> #[trigger] text@[i] != needle,
                None => forall|i: int| 0 <= i < position ==> #[trigger] text@[i] != needle,
            },
    {
        if at.is_none() && c == needle {
            at = Some(position);
        }
        position = position + 1;
    }
    proof {
        match at {
            Some(k) => {
                lemma_first_index(text@, needle, k as int);
            },
            None => {
                lemma_first_index(text@, needle, text@.len() as int);
            },
        }
    }
    (at, length)
}

/// Checks if `needle` occurs in `text`.
pub fn contains_char(text: &str, needle: char) -> (found: bool)
    ensures
        found == text@.contains(needle),
{
    find_char(text, needle).0.is_some()
}

/// Checks if `text` is the one character `c`.
pub fn is_single(text: &str, c: char) -> (same: bool)
    ensures
        same == (text@ == seq![c]),
{
    let mut count: usize = 0;
    let mut same = true;
    let length = text.unicode_len();
    for d in it: text.chars()
        invariant
            it.seq() == text@,
            length == text@.len(),
            count == it.index(),
            same == (count <= 1 && (count == 1 ==> text@[0] == c)),
    {
        if count > 0 || d != c {
            same = false;
        }
        count = count + 1;
    }
    proof {
        if same && count == 1 {
            assert(text@ =~= seq![c]);
        }
        if text@ == seq![c] {
            assert(text@.len() == 1);
            assert(text@[0] == c);
        }
    }
    same && count == 1
}

} // verus!
