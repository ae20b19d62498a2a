//! Texts as sequences of characters and as UTF-8 bytes, and path segments.
use vstd::prelude::*;
use vstd::utf8::{decode_utf8, encode_utf8, is_char_boundary, valid_utf8};

use unicase::UniCase;

verus! {

/// Used when parsing paths.
pub open spec fn is_separator(c: char) -> bool {
    c == '\\' || c == '/'
}

/// Used when constructing paths.
pub const DEFAULT_PATH_SEPARATOR: char = '\\';

pub open spec fn ends_with_separator(text: Seq<char>) -> bool {
    text.len() > 0 && is_separator(text.last())
}

/// The pieces between the path separators of a text that follows `head`, a piece
/// without separators. Empty pieces are left out.
pub open spec fn segments_after(head: Seq<char>, text: Seq<char>) -> Seq<Seq<char>>
    decreases text.len(),
{
    if text.len() == 0 {
        if head.len() == 0 {
            seq![]
        } else {
            seq![head]
        }
    } else if is_separator(text[0]) {
        if head.len() == 0 {
            segments_after(seq![], text.drop_first())
        } else {
            seq![head] + segments_after(seq![], text.drop_first())
        }
    } else {
        segments_after(head.push(text[0]), text.drop_first())
    }
}

/// The pieces of a path between its separators, without empty pieces.
pub open spec fn segments(path: Seq<char>) -> Seq<Seq<char>> {
    segments_after(seq![], path)
}

/// Whether a name can stand between path separators.
pub open spec fn is_plain(name: Seq<char>) -> bool {
    &&& name.len() > 0
    &&& forall|i: int| 0 <= i < name.len() ==> !is_separator(#[trigger] name[i])
}

/// The only piece of a path without separators, or with one at its end.
proof fn lemma_only_segment(head: Seq<char>, name: Seq<char>)
    requires
        forall|i: int| 0 <= i < name.len() ==> !is_separator(#[trigger] name[i]),
        head.len() + name.len() > 0,
    ensures
        segments_after(head, name) == seq![head + name],
        segments_after(head, name.push(DEFAULT_PATH_SEPARATOR)) == seq![head + name],
    decreases name.len(),
{
    let longer = name.push(DEFAULT_PATH_SEPARATOR);
    if name.len() == 0 {
        assert(head + name == head);
        assert(longer.drop_first() == Seq::<char>::empty());
        assert(segments_after(Seq::empty(), Seq::empty()) == Seq::<Seq<char>>::empty());
        assert(seq![head] + Seq::<Seq<char>>::empty() == seq![head]);
    } else {
        let rest = name.drop_first();
        assert(!is_separator(name[0]));
        assert forall|i: int| 0 <= i < rest.len() implies !is_separator(#[trigger] rest[i]) by {
            assert(rest[i] == name[i + 1]);
        }
        lemma_only_segment(head.push(name[0]), rest);
        assert(longer[0] == name[0]);
        assert(longer.drop_first() == rest.push(DEFAULT_PATH_SEPARATOR));
        assert(head.push(name[0]) + rest == head + name);
    }
}

/// A path with one more name has one more piece.
pub proof fn lemma_one_more_segment(head: Seq<char>, path: Seq<char>, name: Seq<char>)
    requires
        is_plain(name),
        if path.len() == 0 {
            head.len() == 0
        } else {
            ends_with_separator(path)
        },
    ensures
        segments_after(head, path + name) == segments_after(head, path).push(name),
        segments_after(head, (path + name).push(DEFAULT_PATH_SEPARATOR)) == segments_after(
            head,
            path,
        ).push(name),
    decreases path.len(),
{
    let longer = (path + name).push(DEFAULT_PATH_SEPARATOR);
    if path.len() == 0 {
        lemma_only_segment(head, name);
        assert(head + name == name);
        assert(path + name == name);
        assert(Seq::<Seq<char>>::empty().push(name) == seq![name]);
    } else {
        let rest = path.drop_first();
        assert((path + name).drop_first() == rest + name);
        assert(longer.drop_first() == (rest + name).push(DEFAULT_PATH_SEPARATOR));
        assert((path + name)[0] == path[0] && longer[0] == path[0]);
        assert(rest.len() > 0 ==> rest.last() == path.last());
        if is_separator(path[0]) {
            lemma_one_more_segment(Seq::empty(), rest, name);
            let before = segments_after(Seq::empty(), rest);
            assert(seq![head] + before.push(name) == (seq![head] + before).push(name));
        } else {
            lemma_one_more_segment(head.push(path[0]), rest, name);
        }
    }
}

/// A separator at the end of a path does not change its pieces.
pub proof fn lemma_trailing_separator(head: Seq<char>, path: Seq<char>, c: char)
    requires
        is_separator(c),
    ensures
        segments_after(head, path.push(c)) == segments_after(head, path),
    decreases path.len(),
{
    let longer = path.push(c);
    if path.len() == 0 {
        assert(longer.drop_first() == Seq::<char>::empty());
        assert(segments_after(Seq::empty(), Seq::empty()) == Seq::<Seq<char>>::empty());
        assert(seq![head] + Seq::<Seq<char>>::empty() == seq![head]);
    } else {
        let rest = path.drop_first();
        assert(longer.drop_first() == rest.push(c));
        assert(longer[0] == path[0]);
        lemma_trailing_separator(Seq::empty(), rest, c);
        lemma_trailing_separator(head.push(path[0]), rest, c);
    }
}

/// A path with a separator and one more name has one more piece, the name. All separators
/// count the same, and one at the end does not matter.
pub proof fn law_one_more_name_is_one_more_piece(
    path: Seq<char>,
    separator: char,
    name: Seq<char>,
    end: char,
)
    requires
        is_plain(name),
        is_separator(separator),
        is_separator(end),
    ensures
        segments(Seq::empty()) == Seq::<Seq<char>>::empty(),
        segments(name) == seq![name],
        segments(path.push(separator) + name) == segments(path).push(name),
        segments((path.push(separator) + name).push(end)) == segments(path).push(name),
{
    lemma_only_segment(Seq::empty(), name);
    assert(Seq::<char>::empty() + name == name);
    lemma_trailing_separator(Seq::empty(), path, separator);
    assert(path.push(separator).last() == separator);
    lemma_one_more_segment(Seq::empty(), path.push(separator), name);
    lemma_trailing_separator(Seq::empty(), path.push(separator) + name, end);
}

/// The characters of all pieces of a path, one piece after the other.
pub open spec fn joined_pieces(pieces: Seq<Seq<char>>) -> Seq<char>
    decreases pieces.len(),
{
    if pieces.len() == 0 {
        seq![]
    } else {
        pieces[0] + joined_pieces(pieces.drop_first())
    }
}

/// A text without its separators.
pub open spec fn without_separators(text: Seq<char>) -> Seq<char> {
    text.filter(|c: char| !is_separator(c))
}

proof fn lemma_filter_front(text: Seq<char>)
    requires
        text.len() > 0,
    ensures
        without_separators(text) == if is_separator(text[0]) {
            without_separators(text.drop_first())
        } else {
            seq![text[0]] + without_separators(text.drop_first())
        },
{
    let wanted = |c: char| !is_separator(c);
    let first = seq![text[0]];
    assert(text == first + text.drop_first());
    Seq::filter_distributes_over_add(first, text.drop_first(), wanted);
    reveal(Seq::filter);
    assert(first.drop_last() == Seq::<char>::empty());
    assert(first.drop_last().filter(wanted) == Seq::<char>::empty());
    assert(first.filter(wanted) == if is_separator(text[0]) {
        Seq::<char>::empty()
    } else {
        first
    });
    assert(Seq::<char>::empty() + without_separators(text.drop_first()) == without_separators(
        text.drop_first(),
    ));
}

/// The pieces of a path have all its characters but the separators, in the same order,
/// and none of the pieces is empty.
pub proof fn law_pieces_have_all_characters(path: Seq<char>)
    ensures
        joined_pieces(segments(path)) == without_separators(path),
        forall|i: int| 0 <= i < segments(path).len() ==> is_plain(#[trigger] segments(path)[i]),
{
    lemma_pieces(Seq::empty(), path);
    assert(Seq::<char>::empty() + without_separators(path) == without_separators(path));
}

proof fn lemma_pieces(head: Seq<char>, text: Seq<char>)
    requires
        forall|i: int| 0 <= i < head.len() ==> !is_separator(#[trigger] head[i]),
    ensures
        joined_pieces(segments_after(head, text)) == head + without_separators(text),
        forall|i: int|
            0 <= i < segments_after(head, text).len() ==> is_plain(
                #[trigger] segments_after(head, text)[i],
            ),
    decreases text.len(),
{
    reveal_with_fuel(joined_pieces, 2);
    let none = Seq::<char>::empty();
    let pieces = segments_after(head, text);
    if text.len() == 0 {
        assert(without_separators(text) == none) by {
            reveal(Seq::filter);
        }
        assert(head + none == head);
        assert(seq![head].drop_first() == Seq::<Seq<char>>::empty());
        assert(is_plain(head) || head.len() == 0);
        assert(pieces.len() > 0 ==> pieces == seq![head]);
        assert(pieces.len() == 0 ==> joined_pieces(pieces) == none && head == none);
    } else {
        lemma_filter_front(text);
        let rest = text.drop_first();
        if is_separator(text[0]) {
            lemma_pieces(none, rest);
            let others = segments_after(none, rest);
            assert(none + without_separators(rest) == without_separators(rest));
            if head.len() == 0 {
                assert(head == none);
            } else {
                assert(pieces.drop_first() == others);
                assert(pieces[0] == head);
                assert forall|i: int| 0 <= i < pieces.len() implies is_plain(
                    #[trigger] pieces[i],
                ) by {
                    if i > 0 {
                        assert(pieces[i] == others[i - 1]);
                    }
                }
            }
        } else {
            lemma_pieces(head.push(text[0]), rest);
            assert(head.push(text[0]) + without_separators(rest) == head + (seq![text[0]]
                + without_separators(rest)));
        }
    }
}

/// The views of a list of texts.
pub open spec fn views(texts: Seq<String>) -> Seq<Seq<char>> {
    texts.map_values(|t: String| t@)
}

/// The text after the first `at` UTF-8 bytes, `None` if that would cut a
/// character or the text is too short.
pub open spec fn byte_suffix(text: Seq<char>, at: int) -> Option<Seq<char>> {
    let bytes = encode_utf8(text);
    if is_char_boundary(bytes, at) {
        Some(decode_utf8(bytes.subrange(at, bytes.len() as int)))
    } else {
        None
    }
}

/// The first `at` UTF-8 bytes of a text as text.
pub open spec fn byte_prefix(text: Seq<char>, at: int) -> Seq<char> {
    decode_utf8(encode_utf8(text).subrange(0, at))
}

/// The encoding of a concatenation is the concatenation of the encodings, and
/// the place in between is a character boundary.
pub proof fn lemma_encode_concat(a: Seq<char>, b: Seq<char>)
    ensures
        encode_utf8(a + b) == encode_utf8(a) + encode_utf8(b),
        is_char_boundary(encode_utf8(a + b), encode_utf8(a).len() as int),
    decreases a.len(),
{
    if a.len() == 0 {
        assert(a + b == b);
        vstd::utf8::encode_utf8_valid_utf8(a + b);
    } else {
        lemma_encode_concat(a.drop_first(), b);
        assert((a + b).drop_first() == a.drop_first() + b);
        assert(encode_utf8(a + b) == encode_utf8(a) + encode_utf8(b));
        vstd::utf8::encode_utf8_valid_utf8(a + b);
        vstd::utf8::encode_utf8_first_scalar(a + b);
        assert(vstd::utf8::pop_first_scalar(encode_utf8(a + b)) == encode_utf8(
            (a + b).drop_first(),
        ));
    }
}

/// Cutting a text at the end of its first part gives the two parts.
pub proof fn lemma_cut_concat(a: Seq<char>, b: Seq<char>)
    ensures
        byte_suffix(a + b, encode_utf8(a).len() as int) == Some(b),
        byte_prefix(a + b, encode_utf8(a).len() as int) == a,
{
    lemma_encode_concat(a, b);
    vstd::utf8::encode_utf8_decode_utf8(a);
    vstd::utf8::encode_utf8_decode_utf8(b);
    let bytes = encode_utf8(a + b);
    let at = encode_utf8(a).len() as int;
    assert(bytes.subrange(at, bytes.len() as int) == encode_utf8(b));
    assert(bytes.subrange(0, at) == encode_utf8(a));
}

/// Different texts have different encodings.
pub proof fn lemma_encode_injective(a: Seq<char>, b: Seq<char>)
    requires
        encode_utf8(a) == encode_utf8(b),
    ensures
        a == b,
{
    vstd::utf8::encode_utf8_decode_utf8(a);
    vstd::utf8::encode_utf8_decode_utf8(b);
}

/// Appends one character, as `String::push` documents.
pub assume_specification[ String::push ](text: &mut String, c: char)
    ensures
        final(text)@ == old(text)@.push(c),
;

/// Shortens the text to its first `len` bytes, as `String::truncate` documents. A
/// text that is not longer stays as it is.
pub assume_specification[ String::truncate ](text: &mut String, len: usize)
    requires
        len <= encode_utf8(old(text)@).len() ==> is_char_boundary(
            encode_utf8(old(text)@),
            len as int,
        ),
    ensures
        len <= encode_utf8(old(text)@).len() ==> final(text)@ == byte_prefix(
            old(text)@,
            len as int,
        ),
        len > encode_utf8(old(text)@).len() ==> final(text)@ == old(text)@,
;

/// Calls `std::str::from_utf8`, which accepts exactly the bytes that are valid
/// UTF-8 and then borrows them as text.
#[verifier::external_body]
pub(crate) fn text_of_bytes(bytes: &[u8]) -> (text: Option<&str>)
    ensures
        text is Some <==> valid_utf8(bytes@),
        text matches Some(t) ==> encode_utf8(t@) == bytes@,
{
    std::str::from_utf8(bytes).ok()
}

/// Length in UTF-8 bytes.
pub fn byte_len(text: &str) -> (len: usize)
    ensures
        len == encode_utf8(text@).len(),
{
    text.as_bytes().len()
}

/// The characters of a text.
pub fn chars_of(text: &str) -> (chars: Vec<char>)
    ensures
        chars@ == text@,
{
    let mut chars: Vec<char> = Vec::new();
    for c in it: text.chars()
        invariant
            it.seq() == text@,
            chars@ == text@.take(it.index() as int),
    {
        chars.push(c);
        assert(chars@ == text@.take(it.index() + 1));
    }
    assert(text@.take(text@.len() as int) == text@);
    chars
}

/// The text made of some of the provided characters.
pub fn text_of(chars: &[char], start: usize, end: usize) -> (text: String)
    requires
        start <= end <= chars@.len(),
    ensures
        text@ == chars@.subrange(start as int, end as int),
{
    let mut text = String::new();
    let mut i: usize = start;
    while i < end
        invariant
            start <= i <= end <= chars@.len(),
            text@ == chars@.subrange(start as int, i as int),
        decreases end - i,
    {
        text.push(chars[i]);
        assert(chars@.subrange(start as int, i + 1) == chars@.subrange(
            start as int,
            i as int,
        ).push(chars@[i as int]));
        i = i + 1;
    }
    text
}

/// Whether two texts are the same.
pub fn same_text(a: &str, b: &str) -> (same: bool)
    ensures
        same == (a@ == b@),
{
    let a_bytes = a.as_bytes();
    let b_bytes = b.as_bytes();
    if a_bytes.len() != b_bytes.len() {
        return false;
    }
    let mut i: usize = 0;
    while i < a_bytes.len()
        invariant
            i <= a_bytes@.len(),
            a_bytes@.len() == b_bytes@.len(),
            a_bytes@ == encode_utf8(a@),
            b_bytes@ == encode_utf8(b@),
            forall|j: int| 0 <= j < i ==> a_bytes@[j] == b_bytes@[j],
        decreases a_bytes@.len() - i,
    {
        if a_bytes[i] != b_bytes[i] {
            return false;
        }
        i = i + 1;
    }
    proof {
        assert(a_bytes@ == b_bytes@);
        lemma_encode_injective(a@, b@);
    }
    true
}

/// Whether a character separates path segments.
pub fn char_is_separator(c: char) -> (result: bool)
    ensures
        result == is_separator(c),
{
    c == '\\' || c == '/'
}

/// Whether a text ends with a path separator.
pub fn text_ends_with_separator(text: &str) -> (result: bool)
    ensures
        result == ends_with_separator(text@),
{
    let chars = chars_of(text);
    chars.len() > 0 && char_is_separator(chars[chars.len() - 1])
}

/// Whether a text contains a character.
pub fn text_contains(text: &str, c: char) -> (result: bool)
    ensures
        result == text@.contains(c),
{
    let chars = chars_of(text);
    let mut i: usize = 0;
    while i < chars.len()
        invariant
            i <= chars@.len(),
            chars@ == text@,
            forall|j: int| 0 <= j < i ==> chars@[j] != c,
        decreases chars@.len() - i,
    {
        if chars[i] == c {
            return true;
        }
        i = i + 1;
    }
    false
}

/// The pieces of a path between its separators, without empty pieces.
pub fn path_segments(path: &str) -> (pieces: Vec<String>)
    ensures
        views(pieces@) == segments(path@),
{
    let chars = chars_of(path);
    let mut pieces: Vec<String> = Vec::new();
    let mut head = String::new();
    let mut i: usize = 0;
    proof {
        assert(chars@.skip(0) == path@);
        assert(views(pieces@) + segments_after(head@, chars@.skip(0)) == segments(path@));
    }
    while i < chars.len()
        invariant
            i <= chars@.len(),
            chars@ == path@,
            views(pieces@) + segments_after(head@, chars@.skip(i as int)) == segments(path@),
        decreases chars@.len() - i,
    {
        let c = chars[i];
        let ghost before = pieces@;
        let ghost rest = chars@.skip(i + 1);
        proof {
            assert(chars@.skip(i as int).drop_first() == rest);
            assert(chars@.skip(i as int)[0] == c);
        }
        if char_is_separator(c) {
            if head.as_str().is_empty() {
                assert(head@ == Seq::<char>::empty());
            } else {
                let ghost old_head = head@;
                pieces.push(head);
                head = String::new();
                proof {
                    assert(views(pieces@) == views(before).push(old_head));
                    assert(views(pieces@) + segments_after(head@, rest) == views(before) + (
                    seq![old_head] + segments_after(head@, rest)));
                }
            }
        } else {
            head.push(c);
        }
        i = i + 1;
    }
    let ghost before = pieces@;
    assert(chars@.skip(i as int) == Seq::<char>::empty());
    if !head.as_str().is_empty() {
        let ghost old_head = head@;
        pieces.push(head);
        proof {
            assert(views(pieces@) == views(before).push(old_head));
            assert(views(before) + seq![old_head] == views(before).push(old_head));
        }
    } else {
        assert(views(before) + Seq::<Seq<char>>::empty() == views(before));
    }
    pieces
}

/// The text after the first `at` UTF-8 bytes, `None` if that would cut a
/// character or the text is too short.
pub fn text_after(text: &str, at: usize) -> (suffix: Option<&str>)
    ensures
        suffix is Some <==> byte_suffix(text@, at as int) is Some,
        suffix matches Some(s) ==> byte_suffix(text@, at as int) == Some(s@),
{
    if text.is_char_boundary(at) {
        let (prefix, suffix) = text.split_at(at);
        proof {
            vstd::utf8::encode_utf8_decode_utf8(suffix@);
        }
        Some(suffix)
    } else {
        None
    }
}

/// Whether a text starts with another text.
pub open spec fn starts_with(text: Seq<char>, prefix: Seq<char>) -> bool {
    prefix.len() <= text.len() && text.take(prefix.len() as int) == prefix
}

/// Whether a text starts with another text.
pub fn text_starts_with(text: &str, prefix: &str) -> (result: bool)
    ensures
        result == starts_with(text@, prefix@),
{
    let all = chars_of(text);
    let wanted = chars_of(prefix);
    if wanted.len() > all.len() {
        return false;
    }
    let mut i: usize = 0;
    while i < wanted.len()
        invariant
            i <= wanted@.len() <= all@.len(),
            all@ == text@,
            wanted@ == prefix@,
            forall|j: int| 0 <= j < i ==> all@[j] == wanted@[j],
        decreases wanted@.len() - i,
    {
        if all[i] != wanted[i] {
            assert(all@.take(wanted@.len() as int)[i as int] == all@[i as int]);
            return false;
        }
        i = i + 1;
    }
    assert(all@.take(wanted@.len() as int) == wanted@);
    true
}

/// The full case folding of a text, as `UniCase::to_folded_case` computes it.
pub uninterp spec fn case_folded(text: Seq<char>) -> Seq<char>;

/// Compares two texts as `UniCase`, which are equal exactly if their case foldings
/// are.
#[verifier::external_body]
pub(crate) fn same_ignoring_case(a: &str, b: &str) -> (same: bool)
    ensures
        same == (case_folded(a@) == case_folded(b@)),
{
    UniCase::new(a) == UniCase::new(b)
}

} // verus!
