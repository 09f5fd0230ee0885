//! Questions about single characters and words.

use vstd::prelude::*;
use vstd::std_specs::iter::IteratorSpec;

verus! {

/// Whether the character has the Unicode property `White_Space`.
pub open spec fn is_white_char(c: char) -> bool {
    ||| 0x9 <= c as u32 <= 0xd
    ||| c as u32 == 0x20
    ||| c as u32 == 0x85
    ||| c as u32 == 0xa0
    ||| c as u32 == 0x1680
    ||| 0x2000 <= c as u32 <= 0x200a
    ||| c as u32 == 0x2028
    ||| c as u32 == 0x2029
    ||| c as u32 == 0x202f
    ||| c as u32 == 0x205f
    ||| c as u32 == 0x3000
}

/// Whether the word consists of whitespace only. A word that holds a line feed
/// is not whitespace: it ends a line.
pub open spec fn is_white(word: Seq<char>) -> bool {
    forall|i: int| 0 <= i < word.len() ==> is_white_char(#[trigger] word[i]) && word[i] != '\n'
}

/// Whether the character is alphabetic by the tables of the standard library.
pub uninterp spec fn is_alphabetic(c: char) -> bool;

/// Whether the character is numeric by the tables of the standard library.
pub uninterp spec fn is_numeric(c: char) -> bool;

/// `char::is_alphabetic` reads a fixed Unicode table: its answer depends on the
/// character alone. Which characters are alphabetic is left unsaid.
pub assume_specification[ char::is_alphabetic ](c: char) -> (b: bool)
    ensures
        b == is_alphabetic(c),
;

/// `char::is_numeric` reads a fixed Unicode table: its answer depends on the
/// character alone. Which characters are numeric is left unsaid.
pub assume_specification[ char::is_numeric ](c: char) -> (b: bool)
    ensures
        b == is_numeric(c),
;

/// Whether the character may stand behind the first one of an identifier.
pub open spec fn continues_identifier(c: char) -> bool {
    is_alphabetic(c) || is_numeric(c) || c == '_'
}

/// Whether the word is an identifier: a letter, then letters, digits and
/// underscores.
pub open spec fn is_identifier(word: Seq<char>) -> bool {
    &&& word.len() > 0
    &&& is_alphabetic(word[0])
    &&& forall|i: int| 0 < i < word.len() ==> continues_identifier(#[trigger] word[i])
}

/// An identifier is a letter, and stays one if a letter, a digit or an underscore is
/// put behind it, and only then.
pub proof fn law_identifier(word: Seq<char>, c: char)
    ensures
        !is_identifier(Seq::empty()),
        is_identifier(seq![c]) == is_alphabetic(c),
        word.len() > 0 ==> is_identifier(word.push(c)) == (is_identifier(word) && (is_alphabetic(c)
            || is_numeric(c) || c == '_')),
{
    let longer = word.push(c);
    if word.len() > 0 {
        assert(longer[0] == word[0]);
        assert(longer[longer.len() - 1] == c);
        if is_identifier(word) && continues_identifier(c) {
            assert forall|i: int| 0 < i < longer.len() implies continues_identifier(
                #[trigger] longer[i],
            ) by {
                if i < word.len() {
                    assert(longer[i] == word[i]);
                }
            }
        }
        if is_identifier(longer) {
            assert(continues_identifier(longer[longer.len() - 1]));
            assert forall|i: int| 0 < i < word.len() implies continues_identifier(
                #[trigger] word[i],
            ) by {
                assert(longer[i] == word[i]);
            }
        }
    }
}

/// Whether two underscores stand at `i`.
pub open spec fn pair_at(word: Seq<char>, i: int) -> bool {
    0 <= i && i + 1 < word.len() && word[i] == '_' && word[i + 1] == '_'
}

/// Where the leftmost two adjacent underscores stand, or the word's length if
/// there are none.
pub open spec fn first_pair(word: Seq<char>) -> int
    decreases word.len(),
{
    if word.len() == 0 || pair_at(word, 0) {
        0
    } else {
        1 + first_pair(word.drop_first())
    }
}

/// Whether the word holds two adjacent underscores.
pub open spec fn has_pair(word: Seq<char>) -> bool {
    first_pair(word) < word.len()
}

/// Whether the character has a meaning wherever it stands as a word, or ends a
/// line.
pub open spec fn is_marker_char(c: char) -> bool {
    c == '[' || c == ']' || c == '$' || c == '#' || c == '\n'
}

/// Whether the word holds no character with a meaning.
pub open spec fn is_unmarked(word: Seq<char>) -> bool {
    forall|i: int| 0 <= i < word.len() ==> !is_marker_char(#[trigger] word[i])
}

/// `first_pair` is the least position of a pair.
pub proof fn lemma_first_pair(word: Seq<char>)
    ensures
        0 <= first_pair(word) <= word.len(),
        has_pair(word) ==> pair_at(word, first_pair(word)),
        forall|i: int| 0 <= i < first_pair(word) ==> !#[trigger] pair_at(word, i),
    decreases word.len(),
{
    if word.len() > 0 && !pair_at(word, 0) {
        let rest = word.drop_first();
        lemma_first_pair(rest);
        assert forall|i: int| 0 <= i < first_pair(word) implies !#[trigger] pair_at(word, i) by {
            if i > 0 {
                assert(!pair_at(rest, i - 1));
            }
        }
    }
}

/// A position that holds a pair, with none to its left, is the first one.
pub proof fn lemma_first_pair_unique(word: Seq<char>, at: int)
    requires
        0 <= at <= word.len(),
        at < word.len() ==> pair_at(word, at),
        forall|i: int| 0 <= i < at ==> !#[trigger] pair_at(word, i),
    ensures
        first_pair(word) == at,
{
    lemma_first_pair(word);
    if first_pair(word) < at {
        assert(!pair_at(word, first_pair(word)));
    } else if at < first_pair(word) {
        assert(!pair_at(word, at));
    }
}

/// Whether the character is whitespace.
pub fn is_whitespace_char(c: char) -> (b: bool)
    ensures
        b == is_white_char(c),
{
    let n: u32 = c as u32;
    (0x9 <= n && n <= 0xd) || n == 0x20 || n == 0x85 || n == 0xa0 || n == 0x1680 || (0x2000 <= n
        && n <= 0x200a) || n == 0x2028 || n == 0x2029 || n == 0x202f || n == 0x205f || n == 0x3000
}

/// Whether the word consists of whitespace only and holds no line feed.
pub fn is_whitespace(word: &str) -> (b: bool)
    ensures
        b == is_white(word@),
{
    for c in it: word.chars()
        invariant
            it.seq() == word@,
            forall|j: int|
                0 <= j < it.index() ==> is_white_char(#[trigger] word@[j]) && word@[j] != '\n',
    {
        if !is_whitespace_char(c) || c == '\n' {
            assert(word@[it.index()] == c);
            return false;
        }
    }
    true
}

/// Whether the word is an identifier.
pub fn is_identifier_word(word: &str) -> (b: bool)
    ensures
        b == is_identifier(word@),
{
    let mut first: bool = true;
    for c in it: word.chars()
        invariant
            it.seq() == word@,
            first == (it.index() == 0),
            it.index() > 0 ==> is_alphabetic(word@[0]),
            forall|j: int| 0 < j < it.index() ==> continues_identifier(#[trigger] word@[j]),
    {
        assert(word@[it.index()] == c);
        if first {
            if !c.is_alphabetic() {
                return false;
            }
            first = false;
        } else if !c.is_alphabetic() && !c.is_numeric() && c != '_' {
            return false;
        }
    }
    !first
}

/// Whether the word is the single character `c`.
pub(crate) fn is_char(word: &str, c: char) -> (b: bool)
    ensures
        b == (word@ == seq![c]),
{
    if word.unicode_len() == 1 && word.get_char(0) == c {
        assert(word@ =~= seq![c]);
        true
    } else {
        false
    }
}

/// Whether the word is the character `c` followed by the character `d`.
pub(crate) fn is_chars(word: &str, c: char, d: char) -> (b: bool)
    ensures
        b == (word@ == seq![c, d]),
{
    if word.unicode_len() == 2 && word.get_char(0) == c && word.get_char(1) == d {
        assert(word@ =~= seq![c, d]);
        true
    } else {
        false
    }
}

/// Whether two words have the same characters.
pub(crate) fn is_same(word: &str, other: &str) -> (b: bool)
    ensures
        b == (word@ == other@),
{
    let mut left = other.chars();
    for c in it: word.chars()
        invariant
            it.seq() == word@,
            left.obeys_prophetic_iter_laws(),
            it.index() <= other@.len(),
            left.remaining() == other@.skip(it.index()),
            forall|j: int| 0 <= j < it.index() ==> word@[j] == other@[j],
    {
        assert(word@[it.index()] == c);
        match left.next() {
            Some(d) => {
                assert(d == other@[it.index()]);
                if c != d {
                    return false;
                }
                assert(other@.skip(it.index()).drop_first() =~= other@.skip(it.index() + 1));
            },
            None => {
                return false;
            },
        }
    }
    match left.next() {
        Some(_) => false,
        None => {
            assert(word@ =~= other@);
            true
        },
    }
}

/// The number of characters in front of the leftmost two adjacent underscores,
/// if there are two.
pub(crate) fn find_pair(word: &str) -> (at: Option<usize>)
    ensures
        at is Some <==> has_pair(word@),
        at is Some ==> at->0 == first_pair(word@),
{
    let total: usize = word.unicode_len();
    let mut count: usize = 0;
    let mut after_underscore: bool = false;
    for c in it: word.chars()
        invariant
            it.seq() == word@,
            total == word@.len(),
            count == it.index(),
            after_underscore == (count > 0 && word@[count - 1] == '_'),
            forall|j: int| 0 <= j < count - 1 ==> !#[trigger] pair_at(word@, j),
    {
        assert(word@[count as int] == c);
        if c == '_' {
            if after_underscore {
                proof {
                    assert(pair_at(word@, count - 1));
                    lemma_first_pair_unique(word@, count - 1);
                }
                return Some(count - 1);
            }
            after_underscore = true;
        } else {
            after_underscore = false;
        }
        count = count + 1;
    }
    proof {
        lemma_first_pair_unique(word@, word@.len() as int);
    }
    None
}

/// Whether the word begins with two underscores.
pub(crate) fn starts_with_pair(word: &str) -> (b: bool)
    ensures
        b == pair_at(word@, 0),
{
    word.unicode_len() >= 2 && word.get_char(0) == '_' && word.get_char(1) == '_'
}

}
