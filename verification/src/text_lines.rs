//! Lines and words of texts, and searching in them.
use vstd::prelude::*;

use crate::text::{chars_of, same_text, views};

verus! {

/// Characters with the Unicode property `White_Space`.
pub open spec fn is_space(c: char) -> bool {
    ||| '\u{9}' <= c <= '\u{d}'
    ||| c == ' '
    ||| c == '\u{85}'
    ||| c == '\u{a0}'
    ||| c == '\u{1680}'
    ||| '\u{2000}' <= c <= '\u{200a}'
    ||| c == '\u{2028}'
    ||| c == '\u{2029}'
    ||| c == '\u{202f}'
    ||| c == '\u{205f}'
    ||| c == '\u{3000}'
}

fn char_is_space(c: char) -> (result: bool)
    ensures
        result == is_space(c),
{
    ('\u{9}' <= c && c <= '\u{d}') || c == ' ' || c == '\u{85}' || c == '\u{a0}' || c == '\u{1680}'
        || ('\u{2000}' <= c && c <= '\u{200a}') || c == '\u{2028}' || c == '\u{2029}' || c
        == '\u{202f}' || c == '\u{205f}' || c == '\u{3000}'
}

/// Whether a text has no characters but white space.
pub open spec fn is_blank(text: Seq<char>) -> bool {
    forall|i: int| 0 <= i < text.len() ==> is_space(#[trigger] text[i])
}

pub fn text_is_blank(text: &str) -> (result: bool)
    ensures
        result == is_blank(text@),
{
    let chars = chars_of(text);
    let mut i: usize = 0;
    while i < chars.len()
        invariant
            i <= chars@.len(),
            chars@ == text@,
            forall|k: int| 0 <= k < i ==> is_space(#[trigger] text@[k]),
        decreases chars@.len() - i,
    {
        if !char_is_space(chars[i]) {
            assert(!is_space(text@[i as int]));
            return false;
        }
        i = i + 1;
    }
    true
}

/// The words of a text that follows `head`, a piece without white space.
pub open spec fn words_after(head: Seq<char>, text: Seq<char>) -> Seq<Seq<char>>
    decreases text.len(),
{
    if text.len() == 0 {
        if head.len() == 0 {
            seq![]
        } else {
            seq![head]
        }
    } else if is_space(text[0]) {
        if head.len() == 0 {
            words_after(seq![], text.drop_first())
        } else {
            seq![head] + words_after(seq![], text.drop_first())
        }
    } else {
        words_after(head.push(text[0]), text.drop_first())
    }
}

/// The pieces of a text between its white space.
pub open spec fn words(text: Seq<char>) -> Seq<Seq<char>> {
    words_after(seq![], text)
}

/// The pieces of a text between its white space.
pub fn split_words(text: &str) -> (pieces: Vec<String>)
    ensures
        views(pieces@) == words(text@),
{
    let chars = chars_of(text);
    let mut pieces: Vec<String> = Vec::new();
    let mut head = String::new();
    let mut i: usize = 0;
    proof {
        assert(chars@.skip(0) == text@);
        assert(views(pieces@) + words_after(head@, chars@.skip(0)) == words(text@));
    }
    while i < chars.len()
        invariant
            i <= chars@.len(),
            chars@ == text@,
            views(pieces@) + words_after(head@, chars@.skip(i as int)) == words(text@),
        decreases chars@.len() - i,
    {
        let c = chars[i];
        let ghost before = pieces@;
        let ghost rest = chars@.skip(i + 1);
        proof {
            assert(chars@.skip(i as int).drop_first() == rest);
            assert(chars@.skip(i as int)[0] == c);
        }
        if char_is_space(c) {
            if head.as_str().is_empty() {
                assert(head@ == Seq::<char>::empty());
            } else {
                let ghost old_head = head@;
                pieces.push(head);
                head = String::new();
                proof {
                    assert(views(pieces@) == views(before).push(old_head));
                    assert(views(pieces@) + words_after(head@, rest) == views(before) + (
                    seq![old_head] + words_after(head@, rest)));
                }
            }
        } else {
            head.push(c);
        }
        i = i + 1;
    }
    let ghost before = pieces@;
    assert(chars@.skip(i as int) == Seq::<char>::empty());
    if !head.as_str().is_empty() {
        let ghost old_head = head@;
        pieces.push(head);
        proof {
            assert(views(pieces@) == views(before).push(old_head));
            assert(views(before) + seq![old_head] == views(before).push(old_head));
        }
    } else {
        assert(views(before) + Seq::<Seq<char>>::empty() == views(before));
    }
    pieces
}

/// A line that ended with a line feed, without the carriage return before it.
pub open spec fn without_return(line: Seq<char>) -> Seq<char> {
    if line.len() > 0 && line.last() == '\r' {
        line.drop_last()
    } else {
        line
    }
}

/// The lines of a text that follows `head`, the start of a line.
pub open spec fn lines_after(head: Seq<char>, text: Seq<char>) -> Seq<Seq<char>>
    decreases text.len(),
{
    if text.len() == 0 {
        if head.len() == 0 {
            seq![]
        } else {
            seq![head]
        }
    } else if text[0] == '\n' {
        seq![without_return(head)] + lines_after(seq![], text.drop_first())
    } else {
        lines_after(head.push(text[0]), text.drop_first())
    }
}

/// The lines of a text without their line endings, `\n` or `\r\n`. The ending of
/// the last line is optional.
pub open spec fn lines(text: Seq<char>) -> Seq<Seq<char>> {
    lines_after(seq![], text)
}

fn drop_return(line: String) -> (result: String)
    ensures
        result@ == without_return(line@),
{
    let chars = chars_of(line.as_str());
    let len: usize = chars.len();
    if len > 0 && chars[len - 1] == '\r' {
        crate::text::text_of(chars.as_slice(), 0, len - 1)
    } else {
        line
    }
}

/// The lines of a text without their line endings.
pub fn split_lines(text: &str) -> (pieces: Vec<String>)
    ensures
        views(pieces@) == lines(text@),
{
    let chars = chars_of(text);
    let mut pieces: Vec<String> = Vec::new();
    let mut head = String::new();
    let mut i: usize = 0;
    proof {
        assert(chars@.skip(0) == text@);
        assert(views(pieces@) + lines_after(head@, chars@.skip(0)) == lines(text@));
    }
    while i < chars.len()
        invariant
            i <= chars@.len(),
            chars@ == text@,
            views(pieces@) + lines_after(head@, chars@.skip(i as int)) == lines(text@),
        decreases chars@.len() - i,
    {
        let c = chars[i];
        let ghost before = pieces@;
        let ghost rest = chars@.skip(i + 1);
        proof {
            assert(chars@.skip(i as int).drop_first() == rest);
            assert(chars@.skip(i as int)[0] == c);
        }
        if c == '\n' {
            let ghost line = without_return(head@);
            pieces.push(drop_return(head));
            head = String::new();
            proof {
                assert(views(pieces@) == views(before).push(line));
                assert(views(pieces@) + lines_after(head@, rest) == views(before) + (seq![line]
                    + lines_after(head@, rest)));
            }
        } else {
            head.push(c);
        }
        i = i + 1;
    }
    let ghost before = pieces@;
    assert(chars@.skip(i as int) == Seq::<char>::empty());
    if !head.as_str().is_empty() {
        let ghost old_head = head@;
        pieces.push(head);
        proof {
            assert(views(pieces@) == views(before).push(old_head));
            assert(views(before) + seq![old_head] == views(before).push(old_head));
        }
    } else {
        assert(views(before) + Seq::<Seq<char>>::empty() == views(before));
    }
    pieces
}

/// The first line of a text that is not empty is everything before the first line feed,
/// without a carriage return before that. The other lines are those of what follows.
pub proof fn law_first_line_ends_at_line_feed(text: Seq<char>) -> (line: Seq<char>)
    requires
        text.len() > 0,
    ensures
        line.len() <= text.len(),
        line == text.take(line.len() as int),
        !line.contains('\n'),
        line.len() < text.len() ==> text[line.len() as int] == '\n' && lines(text) == seq![
            without_return(line),
        ] + lines(text.skip(line.len() + 1int)),
        line.len() == text.len() ==> lines(text) == seq![line],
        lines(text).len() > 0,
        lines(text)[0] == line || lines(text)[0] == without_return(line),
{
    let line = lemma_first_line(Seq::empty(), text);
    assert(Seq::<char>::empty() + line == line);
    line
}

proof fn lemma_first_line(head: Seq<char>, text: Seq<char>) -> (line: Seq<char>)
    ensures
        line.len() <= text.len(),
        line == text.take(line.len() as int),
        !line.contains('\n'),
        line.len() < text.len() ==> text[line.len() as int] == '\n' && lines_after(head, text)
            == seq![without_return(head + line)] + lines(text.skip(line.len() + 1int)),
        line.len() == text.len() && head.len() + text.len() > 0 ==> lines_after(head, text)
            == seq![head + line],
    decreases text.len(),
{
    if text.len() == 0 {
        assert(text.take(0) == text);
        assert(head + text == head);
        text
    } else if text[0] == '\n' {
        let line = Seq::<char>::empty();
        assert(head + line == head);
        assert(text.skip(1) == text.drop_first());
        assert(line == text.take(0));
        line
    } else {
        let rest = text.drop_first();
        let inner = lemma_first_line(head.push(text[0]), rest);
        let line = seq![text[0]] + inner;
        assert(line == text.take(line.len() as int));
        assert(head.push(text[0]) + inner == head + line);
        if inner.len() < rest.len() {
            assert(rest.skip(inner.len() + 1int) == text.skip(line.len() + 1int));
        }
        assert(!line.contains('\n')) by {
            if line.contains('\n') {
                let k = choose|k: int| 0 <= k < line.len() && line[k] == '\n';
                assert(k > 0);
                assert(inner[k - 1] == '\n');
            }
        }
        line
    }
}

/// The characters of a text that are not white space.
pub open spec fn without_space(text: Seq<char>) -> Seq<char> {
    text.filter(|c: char| !is_space(c))
}

/// The characters of all words, one word after the other.
pub open spec fn joined_words(words: Seq<Seq<char>>) -> Seq<char>
    decreases words.len(),
{
    if words.len() == 0 {
        seq![]
    } else {
        words[0] + joined_words(words.drop_first())
    }
}

/// Whether a text can stand between white space.
pub open spec fn is_word(text: Seq<char>) -> bool {
    &&& text.len() > 0
    &&& forall|i: int| 0 <= i < text.len() ==> !is_space(#[trigger] text[i])
}

/// The words of a text have all its characters but white space, in the same order, and
/// none of them is empty.
pub proof fn law_words_have_all_characters(text: Seq<char>)
    ensures
        joined_words(words(text)) == without_space(text),
        forall|i: int| 0 <= i < words(text).len() ==> is_word(#[trigger] words(text)[i]),
{
    lemma_words(Seq::empty(), text);
    assert(Seq::<char>::empty() + without_space(text) == without_space(text));
}

proof fn lemma_space_front(text: Seq<char>)
    requires
        text.len() > 0,
    ensures
        without_space(text) == if is_space(text[0]) {
            without_space(text.drop_first())
        } else {
            seq![text[0]] + without_space(text.drop_first())
        },
{
    let wanted = |c: char| !is_space(c);
    let first = seq![text[0]];
    assert(text == first + text.drop_first());
    Seq::filter_distributes_over_add(first, text.drop_first(), wanted);
    reveal(Seq::filter);
    assert(first.drop_last() == Seq::<char>::empty());
    assert(first.drop_last().filter(wanted) == Seq::<char>::empty());
    assert(first.filter(wanted) == if is_space(text[0]) {
        Seq::<char>::empty()
    } else {
        first
    });
    assert(Seq::<char>::empty() + without_space(text.drop_first()) == without_space(
        text.drop_first(),
    ));
}

proof fn lemma_words(head: Seq<char>, text: Seq<char>)
    requires
        forall|i: int| 0 <= i < head.len() ==> !is_space(#[trigger] head[i]),
    ensures
        joined_words(words_after(head, text)) == head + without_space(text),
        forall|i: int|
            0 <= i < words_after(head, text).len() ==> is_word(
                #[trigger] words_after(head, text)[i],
            ),
    decreases text.len(),
{
    reveal_with_fuel(joined_words, 2);
    let none = Seq::<char>::empty();
    let pieces = words_after(head, text);
    if text.len() == 0 {
        assert(without_space(text) == none) by {
            reveal(Seq::filter);
        }
        assert(head + none == head);
        assert(seq![head].drop_first() == Seq::<Seq<char>>::empty());
        assert(is_word(head) || head.len() == 0);
        assert(pieces.len() > 0 ==> pieces == seq![head]);
        assert(pieces.len() == 0 ==> joined_words(pieces) == none && head == none);
    } else {
        lemma_space_front(text);
        let rest = text.drop_first();
        if is_space(text[0]) {
            lemma_words(none, rest);
            let others = words_after(none, rest);
            assert(none + without_space(rest) == without_space(rest));
            if head.len() == 0 {
                assert(head == none);
            } else {
                assert(pieces.drop_first() == others);
                assert(pieces[0] == head);
                assert forall|i: int| 0 <= i < pieces.len() implies is_word(#[trigger] pieces[i]) by {
                    if i > 0 {
                        assert(pieces[i] == others[i - 1]);
                    }
                }
            }
        } else {
            lemma_words(head.push(text[0]), rest);
            assert(head.push(text[0]) + without_space(rest) == head + (seq![text[0]]
                + without_space(rest)));
        }
    }
}

/// White space separates words: those of a text with white space inside are the words
/// before it and the words after it.
pub proof fn law_white_space_separates_words(a: Seq<char>, space: char, b: Seq<char>)
    requires
        is_space(space),
    ensures
        words(a.push(space) + b) == words(a) + words(b),
        is_word(a) ==> words(a) == seq![a],
{
    lemma_words_around(Seq::empty(), a, space, b);
    if is_word(a) {
        lemma_one_word(Seq::empty(), a);
        assert(Seq::<char>::empty() + a == a);
    }
}

proof fn lemma_one_word(head: Seq<char>, text: Seq<char>)
    requires
        head.len() + text.len() > 0,
        forall|i: int| 0 <= i < text.len() ==> !is_space(#[trigger] text[i]),
    ensures
        words_after(head, text) == seq![head + text],
    decreases text.len(),
{
    if text.len() == 0 {
        assert(head + text == head);
    } else {
        let rest = text.drop_first();
        assert(!is_space(text[0]));
        assert forall|i: int| 0 <= i < rest.len() implies !is_space(#[trigger] rest[i]) by {
            assert(rest[i] == text[i + 1]);
        }
        lemma_one_word(head.push(text[0]), rest);
        assert(head.push(text[0]) + rest == head + text);
    }
}

proof fn lemma_words_around(head: Seq<char>, a: Seq<char>, space: char, b: Seq<char>)
    requires
        is_space(space),
    ensures
        words_after(head, a.push(space) + b) == words_after(head, a) + words(b),
    decreases a.len(),
{
    let text = a.push(space) + b;
    if a.len() == 0 {
        assert(text[0] == space);
        assert(text.drop_first() == b);
        assert(Seq::<Seq<char>>::empty() + words(b) == words(b));
    } else {
        let rest = a.drop_first();
        assert(text[0] == a[0]);
        assert(text.drop_first() == rest.push(space) + b);
        lemma_words_around(Seq::empty(), rest, space, b);
        lemma_words_around(head.push(a[0]), rest, space, b);
        let inner = words_after(Seq::empty(), rest);
        assert(seq![head] + (inner + words(b)) == (seq![head] + inner) + words(b));
    }
}

/// Whether a text ends with another one.
pub open spec fn ends_with(text: Seq<char>, end: Seq<char>) -> bool {
    end.len() <= text.len() && text.skip(text.len() - end.len()) == end
}

/// Whether a text ends with another one.
pub fn text_ends_with(text: &str, end: &str) -> (result: bool)
    ensures
        result == ends_with(text@, end@),
{
    let all = chars_of(text);
    let wanted = chars_of(end);
    if wanted.len() > all.len() {
        return false;
    }
    chars_at(&all, all.len() - wanted.len(), &wanted)
}

/// Whether a text continues with another one after some characters.
fn chars_at(all: &Vec<char>, at: usize, wanted: &Vec<char>) -> (result: bool)
    requires
        at + wanted@.len() <= all@.len(),
    ensures
        result == (all@.subrange(at as int, at + wanted@.len()) == wanted@),
        at + wanted@.len() == all@.len() ==> result == (all@.skip(at as int) == wanted@),
{
    let ghost piece = all@.subrange(at as int, at + wanted@.len());
    proof {
        if at + wanted@.len() == all@.len() {
            assert(piece == all@.skip(at as int));
        }
    }
    let len: usize = all.len();
    let mut i: usize = 0;
    while i < wanted.len()
        invariant
            i <= wanted@.len(),
            at + wanted@.len() <= len,
            len == all@.len(),
            piece == all@.subrange(at as int, at + wanted@.len()),
            forall|k: int| 0 <= k < i ==> piece[k] == #[trigger] wanted@[k],
        decreases wanted@.len() - i,
    {
        if all[at + i] != wanted[i] {
            assert(piece[i as int] != wanted@[i as int]);
            return false;
        }
        i = i + 1;
    }
    assert(piece == wanted@);
    true
}

/// Whether a text has another one inside it.
pub open spec fn has_inside(text: Seq<char>, wanted: Seq<char>) -> bool {
    exists|i: int|
        0 <= i <= text.len() - wanted.len() && #[trigger] text.subrange(i, i + wanted.len())
            == wanted
}

/// Whether a text has another one inside it.
pub fn text_has_inside(text: &str, wanted: &str) -> (result: bool)
    ensures
        result == has_inside(text@, wanted@),
{
    let all = chars_of(text);
    let piece = chars_of(wanted);
    if piece.len() > all.len() {
        return false;
    }
    let last: usize = all.len() - piece.len();
    let mut i: usize = 0;
    loop
        invariant
            i <= last,
            last == all@.len() - piece@.len(),
            all@ == text@,
            piece@ == wanted@,
            forall|k: int|
                0 <= k < i ==> #[trigger] text@.subrange(k, k + wanted@.len()) != wanted@,
        decreases last - i,
    {
        if chars_at(&all, i, &piece) {
            return true;
        }
        if i == last {
            return false;
        }
        i = i + 1;
    }
}

/// The text in lower case, as `str::to_lowercase` gives it.
pub uninterp spec fn lowercase(text: Seq<char>) -> Seq<char>;

pub open spec fn is_ascii(text: Seq<char>) -> bool {
    forall|i: int| 0 <= i < text.len() ==> (#[trigger] text[i]) as int <= 0x7f
}

/// A character with the letters from A to Z in lower case.
pub open spec fn ascii_lower(c: char) -> char {
    if 'A' <= c <= 'Z' {
        (c as int + 0x20) as char
    } else {
        c
    }
}

/// Calls `str::to_lowercase`, which depends on the text alone. In a text of ASCII
/// characters it replaces the letters from A to Z. Which other characters are
/// replaced by which is left to the Unicode tables of that function.
#[verifier::external_body]
pub(crate) fn to_lowercase(text: &str) -> (lower: String)
    ensures
        lower@ == lowercase(text@),
        is_ascii(text@) ==> lower@ == text@.map_values(|c: char| ascii_lower(c)),
{
    text.to_lowercase()
}

} // verus!
