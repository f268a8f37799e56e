//! Splitting, trimming and comparing strings, character by character.

use vstd::prelude::*;
use vstd::string::*;

verus! {

/// The characters that Unicode gives the White_Space property.
pub open spec fn is_space(c: char) -> bool {
    let n = c as u32;
    ||| 0x09 <= n <= 0x0d
    ||| n == 0x20
    ||| n == 0x85
    ||| n == 0xa0
    ||| n == 0x1680
    ||| 0x2000 <= n <= 0x200a
    ||| n == 0x2028
    ||| n == 0x2029
    ||| n == 0x202f
    ||| n == 0x205f
    ||| n == 0x3000
}

/// `c`, or its lower-case counterpart where `c` is one of the letters A to Z.
pub open spec fn ascii_lower_char(c: char) -> char {
    if 'A' <= c <= 'Z' {
        (c as u32 + 32) as char
    } else {
        c
    }
}

/// `s` with the letters A to Z made lower-case.
pub open spec fn ascii_lower(s: Seq<char>) -> Seq<char> {
    s.map_values(|c: char| ascii_lower_char(c))
}

/// `s` without the white space at its start.
pub open spec fn trim_start(s: Seq<char>) -> Seq<char>
    decreases s.len(),
{
    if s.len() > 0 && is_space(s.first()) {
        trim_start(s.drop_first())
    } else {
        s
    }
}

/// `s` without the white space at its end.
pub open spec fn trim_end(s: Seq<char>) -> Seq<char>
    decreases s.len(),
{
    if s.len() > 0 && is_space(s.last()) {
        trim_end(s.drop_last())
    } else {
        s
    }
}

/// `s` without the white space at its two ends.
pub open spec fn trimmed(s: Seq<char>) -> Seq<char> {
    trim_end(trim_start(s))
}

/// What stands in `s` before and after its first `separator`, where it has one.
pub open spec fn split_at_first(s: Seq<char>, separator: char) -> Option<(Seq<char>, Seq<char>)>
    decreases s.len(),
{
    if s.len() == 0 {
        None
    } else if s.first() == separator {
        Some((seq![], s.drop_first()))
    } else {
        match split_at_first(s.drop_first(), separator) {
            Some((before, after)) => Some((seq![s.first()] + before, after)),
            None => None,
        }
    }
}

/// The pieces of `s` between its separators, empty ones included: always one more than `s` has
/// separators.
pub open spec fn pieces(s: Seq<char>, separator: char) -> Seq<Seq<char>>
    decreases s.len(),
{
    if s.len() == 0 {
        seq![seq![]]
    } else {
        let before = pieces(s.drop_last(), separator);
        if s.last() == separator {
            before.push(seq![])
        } else {
            before.drop_last().push(before.last().push(s.last()))
        }
    }
}

/// The given pieces without the white space around them, and without those that are then empty.
pub open spec fn trimmed_nonempty(s: Seq<Seq<char>>) -> Seq<Seq<char>>
    decreases s.len(),
{
    if s.len() == 0 {
        seq![]
    } else {
        let before = trimmed_nonempty(s.drop_last());
        let piece = trimmed(s.last());
        if piece.len() == 0 {
            before
        } else {
            before.push(piece)
        }
    }
}

/// The contents of a sequence of strings.
pub open spec fn contents(s: Seq<&str>) -> Seq<Seq<char>> {
    s.map_values(|piece: &str| piece@)
}

/// The characters of `s`.
pub fn char_vec(s: &str) -> (chars: Vec<char>)
    ensures
        chars@ == s@,
{
    let mut chars: Vec<char> = Vec::new();
    for c in it: s.chars()
        invariant
            it.seq() == s@,
            chars@ == s@.take(it.index() as int),
    {
        chars.push(c);
    }
    chars
}

/// Whether `s` and `t` hold the same characters.
pub fn same(s: &str, t: &str) -> (answer: bool)
    ensures
        answer == (s@ == t@),
{
    s.to_owned() == t.to_owned()
}

/// Whether `c` is white space.
pub fn is_whitespace(c: char) -> (answer: bool)
    ensures
        answer == is_space(c),
{
    let n: u32 = c as u32;
    (0x09 <= n && n <= 0x0d) || n == 0x20 || n == 0x85 || n == 0xa0 || n == 0x1680 || (0x2000 <= n
        && n <= 0x200a) || n == 0x2028 || n == 0x2029 || n == 0x202f || n == 0x205f || n == 0x3000
}

/// The lower-case counterpart of the letters A to Z, and every other character as it is.
pub fn lower_char(c: char) -> (lower: char)
    ensures
        lower == ascii_lower_char(c),
{
    if 'A' <= c && c <= 'Z' {
        (c as u8 + 32) as char
    } else {
        c
    }
}

/// Whether `s` with the letters A to Z made lower-case is `t`.
pub fn lowercase_is(s: &str, t: &str) -> (answer: bool)
    ensures
        answer == (ascii_lower(s@) == t@),
{
    let chars: Vec<char> = char_vec(s);
    let wanted: Vec<char> = char_vec(t);
    if chars.len() != wanted.len() {
        return false;
    }
    for i in 0..chars.len()
        invariant
            chars@ == s@,
            wanted@ == t@,
            chars.len() == wanted.len(),
            forall|j: int| 0 <= j < i ==> ascii_lower(s@)[j] == t@[j],
    {
        if lower_char(chars[i]) != wanted[i] {
            assert(ascii_lower(s@)[i as int] != t@[i as int]);
            return false;
        }
    }
    assert(ascii_lower(s@) =~= t@);
    true
}

/// `s` split at its first `separator`, which is in neither part.
pub fn split_once<'a>(s: &'a str, separator: char) -> (parts: Option<(&'a str, &'a str)>)
    ensures
        match parts {
            Some((before, after)) => split_at_first(s@, separator) == Some((before@, after@)),
            None => split_at_first(s@, separator) is None,
        },
{
    let chars: Vec<char> = char_vec(s);
    proof {
        assert(s@.skip(0) =~= s@);
        assert(s@.take(0) =~= seq![]);
    }
    for i in 0..chars.len()
        invariant
            chars@ == s@,
            split_at_first(s@, separator) == prefixed(
                s@.take(i as int),
                split_at_first(s@.skip(i as int), separator),
            ),
    {
        proof {
            assert(s@.skip(i as int).first() == chars@[i as int]);
            assert(s@.skip(i as int).drop_first() =~= s@.skip(i + 1));
            assert(s@.take(i + 1) =~= s@.take(i as int) + seq![s@[i as int]]);
        }
        if chars[i] == separator {
            let before = s.substring_char(0, i);
            let after = s.substring_char(i + 1, chars.len());
            proof {
                assert(before@ =~= s@.take(i as int) + seq![]);
                assert(after@ =~= s@.skip(i + 1));
            }
            return Some((before, after));
        }
        proof {
            if let Some((before, after)) = split_at_first(s@.skip(i + 1), separator) {
                assert(s@.take(i as int) + (seq![s@[i as int]] + before) =~= s@.take(i + 1)
                    + before);
            }
        }
    }
    None
}

/// `before` put in front of the first part of a split.
spec fn prefixed(
    before: Seq<char>,
    split: Option<(Seq<char>, Seq<char>)>,
) -> Option<(Seq<char>, Seq<char>)> {
    match split {
        Some((left, right)) => Some((before + left, right)),
        None => None,
    }
}

/// `s` without the white space at its two ends.
pub fn trim<'a>(s: &'a str) -> (piece: &'a str)
    ensures
        piece@ == trimmed(s@),
{
    let chars: Vec<char> = char_vec(s);
    let mut start: usize = 0;
    assert(s@.skip(0) =~= s@);
    while start < chars.len() && is_whitespace(chars[start])
        invariant
            chars@ == s@,
            start <= chars.len(),
            trim_start(s@) == trim_start(s@.skip(start as int)),
        decreases chars.len() - start,
    {
        assert(s@.skip(start as int).drop_first() =~= s@.skip(start + 1));
        start = start + 1;
    }
    assert(trim_start(s@) == s@.skip(start as int));
    let mut end: usize = chars.len();
    assert(s@.subrange(start as int, end as int) =~= s@.skip(start as int));
    while start < end && is_whitespace(chars[end - 1])
        invariant
            chars@ == s@,
            start <= end <= chars.len(),
            trimmed(s@) == trim_end(s@.subrange(start as int, end as int)),
        decreases end,
    {
        assert(s@.subrange(start as int, end as int).drop_last() =~= s@.subrange(
            start as int,
            end - 1,
        ));
        end = end - 1;
    }
    s.substring_char(start, end)
}

/// The trimmed pieces of `s` between its separators, without the empty ones.
pub fn split_trimmed<'a>(s: &'a str, separator: char) -> (parts: Vec<&'a str>)
    ensures
        contents(parts@) == trimmed_nonempty(pieces(s@, separator)),
{
    let chars: Vec<char> = char_vec(s);
    let mut parts: Vec<&'a str> = Vec::new();
    let mut start: usize = 0;
    proof {
        assert(s@.take(0) =~= seq![]);
        assert(s@.subrange(0, 0) =~= seq![]);
        assert(pieces(s@.take(0), separator).drop_last() =~= seq![]);
        assert(contents(parts@) =~= seq![]);
    }
    for i in 0..chars.len()
        invariant
            chars@ == s@,
            start <= i,
            pieces(s@.take(i as int), separator).len() > 0,
            pieces(s@.take(i as int), separator).last() == s@.subrange(start as int, i as int),
            contents(parts@) == trimmed_nonempty(
                pieces(s@.take(i as int), separator).drop_last(),
            ),
    {
        let ghost before = pieces(s@.take(i as int), separator);
        let ghost now = pieces(s@.take(i + 1), separator);
        proof {
            assert(s@.take(i + 1).drop_last() =~= s@.take(i as int));
        }
        if chars[i] == separator {
            let piece = trim(s.substring_char(start, i));
            let ghost earlier = parts@;
            if !piece.is_empty() {
                parts.push(piece);
                assert(contents(parts@) =~= contents(earlier).push(piece@));
            }
            start = i + 1;
            assert(now.drop_last() =~= before);
            assert(s@.subrange(i + 1, i + 1) =~= seq![]);
        } else {
            assert(now.drop_last() =~= before.drop_last());
            assert(s@.subrange(start as int, i + 1) =~= s@.subrange(start as int, i as int).push(
                s@[i as int],
            ));
        }
    }
    assert(s@.take(chars.len() as int) =~= s@);
    let piece = trim(s.substring_char(start, chars.len()));
    let ghost earlier = parts@;
    if !piece.is_empty() {
        parts.push(piece);
        assert(contents(parts@) =~= contents(earlier).push(piece@));
    }
    parts
}

/// A separator with none before it is where the split happens.
pub proof fn lemma_split_at_first(before: Seq<char>, separator: char, after: Seq<char>)
    requires
        !before.contains(separator),
    ensures
        split_at_first(before + seq![separator] + after, separator) == Some((before, after)),
    decreases before.len(),
{
    let s = before + seq![separator] + after;
    if before.len() == 0 {
        assert(s.drop_first() =~= after);
        assert(before =~= seq![]);
    } else {
        let rest = before.drop_first();
        assert(before[0] == before.first());
        assert(!rest.contains(separator)) by {
            if rest.contains(separator) {
                let i = choose|i: int| 0 <= i < rest.len() && rest[i] == separator;
                assert(before[i + 1] == separator);
            }
        }
        lemma_split_at_first(rest, separator, after);
        assert(s.drop_first() =~= rest + seq![separator] + after);
        assert(seq![s.first()] + rest =~= before);
    }
}

/// The pieces of two strings joined by the separator are the pieces of the one, then those of the
/// other.
pub proof fn lemma_pieces_joined(first: Seq<char>, separator: char, second: Seq<char>)
    ensures
        pieces(first + seq![separator] + second, separator) == pieces(first, separator) + pieces(
            second,
            separator,
        ),
    decreases second.len(),
{
    let s = first + seq![separator] + second;
    lemma_some_piece(first, separator);
    if second.len() == 0 {
        assert(s.drop_last() =~= first);
        assert(pieces(s, separator) =~= pieces(first, separator) + seq![seq![]]);
    } else {
        lemma_pieces_joined(first, separator, second.drop_last());
        lemma_some_piece(second.drop_last(), separator);
        assert(s.drop_last() =~= first + seq![separator] + second.drop_last());
        assert(pieces(s, separator) =~= pieces(first, separator) + pieces(second, separator));
    }
}

/// There is always a piece.
pub proof fn lemma_some_piece(s: Seq<char>, separator: char)
    ensures
        pieces(s, separator).len() > 0,
    decreases s.len(),
{
    if s.len() > 0 {
        lemma_some_piece(s.drop_last(), separator);
    }
}

/// The separator is in no piece.
pub proof fn lemma_pieces_hold_no_separator(s: Seq<char>, separator: char)
    ensures
        forall|i: int|
            0 <= i < pieces(s, separator).len() ==> !(#[trigger] pieces(s, separator)[i]).contains(
                separator,
            ),
    decreases s.len(),
{
    if s.len() > 0 {
        lemma_pieces_hold_no_separator(s.drop_last(), separator);
        lemma_some_piece(s.drop_last(), separator);
        let before = pieces(s.drop_last(), separator);
        let now = pieces(s, separator);
        assert forall|i: int| 0 <= i < now.len() implies !(#[trigger] now[i]).contains(
            separator,
        ) by {
            if s.last() != separator && i == now.len() - 1 {
                assert(!before[i].contains(separator));
                if now[i].contains(separator) {
                    let j = choose|j: int| 0 <= j < now[i].len() && now[i][j] == separator;
                    assert(before[i][j] == separator);
                }
            } else if i < before.len() {
                assert(now[i] == before[i]);
            }
        }
    }
}

/// Trimming and dropping empty pieces goes piece by piece.
pub proof fn lemma_trimmed_nonempty_joined(first: Seq<Seq<char>>, second: Seq<Seq<char>>)
    ensures
        trimmed_nonempty(first + second) == trimmed_nonempty(first) + trimmed_nonempty(second),
    decreases second.len(),
{
    if second.len() == 0 {
        assert(first + second =~= first);
        assert(trimmed_nonempty(first) + Seq::<Seq<char>>::empty() =~= trimmed_nonempty(first));
    } else {
        lemma_trimmed_nonempty_joined(first, second.drop_last());
        assert((first + second).drop_last() =~= first + second.drop_last());
        let before = trimmed_nonempty(second.drop_last());
        let piece = trimmed(second.last());
        assert(trimmed_nonempty(first) + before.push(piece) =~= (trimmed_nonempty(first)
            + before).push(piece));
    }
}

/// A trimmed string is a part of the string that has no white space at its ends.
pub proof fn lemma_trimmed(s: Seq<char>)
    ensures
        trimmed(s).len() > 0 ==> !is_space(trimmed(s).first()) && !is_space(trimmed(s).last()),
        forall|c: char| trimmed(s).contains(c) ==> s.contains(c),
{
    lemma_trim_start(s);
    lemma_trim_end(trim_start(s));
}

/// What is left of a string starts with no white space.
proof fn lemma_trim_start(s: Seq<char>)
    ensures
        trim_start(s).len() > 0 ==> !is_space(trim_start(s).first()),
        forall|c: char| trim_start(s).contains(c) ==> s.contains(c),
    decreases s.len(),
{
    if s.len() > 0 && is_space(s.first()) {
        let rest = s.drop_first();
        lemma_trim_start(rest);
        assert forall|c: char| rest.contains(c) implies s.contains(c) by {
            let i = choose|i: int| 0 <= i < rest.len() && rest[i] == c;
            assert(s[i + 1] == c);
        }
    }
}

/// What is left of a string ends with no white space, and starts as the string does.
proof fn lemma_trim_end(s: Seq<char>)
    ensures
        trim_end(s).len() > 0 ==> !is_space(trim_end(s).last()) && trim_end(s).first()
            == s.first(),
        forall|c: char| trim_end(s).contains(c) ==> s.contains(c),
    decreases s.len(),
{
    if s.len() > 0 && is_space(s.last()) {
        let rest = s.drop_last();
        lemma_trim_end(rest);
        assert forall|c: char| rest.contains(c) implies s.contains(c) by {
            let i = choose|i: int| 0 <= i < rest.len() && rest[i] == c;
            assert(s[i] == c);
        }
    }
}

/// Pieces without the separator, once trimmed, are not empty, begin and end with no white space,
/// and do not hold the separator either.
pub proof fn lemma_trimmed_nonempty(s: Seq<Seq<char>>, separator: char)
    requires
        forall|i: int| 0 <= i < s.len() ==> !(#[trigger] s[i]).contains(separator),
    ensures
        forall|i: int|
            #![trigger trimmed_nonempty(s)[i]]
            0 <= i < trimmed_nonempty(s).len() ==> {
                let piece = trimmed_nonempty(s)[i];
                &&& piece.len() > 0
                &&& !is_space(piece.first())
                &&& !is_space(piece.last())
                &&& !piece.contains(separator)
            },
    decreases s.len(),
{
    if s.len() > 0 {
        lemma_trimmed_nonempty(s.drop_last(), separator);
        lemma_trimmed(s.last());
        assert(!s[s.len() - 1].contains(separator));
        let before = trimmed_nonempty(s.drop_last());
        assert forall|i: int|
            #![trigger trimmed_nonempty(s)[i]]
            0 <= i < trimmed_nonempty(s).len() implies {
            let piece = trimmed_nonempty(s)[i];
            &&& piece.len() > 0
            &&& !is_space(piece.first())
            &&& !is_space(piece.last())
            &&& !piece.contains(separator)
        } by {
            if i < before.len() {
                assert(trimmed_nonempty(s)[i] == before[i]);
            }
        }
    }
}

/// A string without the separator is its only piece.
pub proof fn lemma_single_piece(s: Seq<char>, separator: char)
    requires
        !s.contains(separator),
    ensures
        pieces(s, separator) == seq![s],
    decreases s.len(),
{
    if s.len() == 0 {
        assert(s =~= seq![]);
    } else {
        let rest = s.drop_last();
        assert(!rest.contains(separator)) by {
            if rest.contains(separator) {
                let i = choose|i: int| 0 <= i < rest.len() && rest[i] == separator;
                assert(s[i] == separator);
            }
        }
        lemma_single_piece(rest, separator);
        assert(s[s.len() - 1] != separator);
        assert(rest.push(s.last()) =~= s);
        assert(pieces(s, separator) =~= seq![s]);
    }
}

/// Lower case is taken letter by letter: A to Z move up by 32, everything else stays.
pub proof fn law_ascii_lower(s: Seq<char>)
    ensures
        ascii_lower(s).len() == s.len(),
        forall|i: int|
            0 <= i < s.len() ==> #[trigger] ascii_lower(s)[i] as u32 == if 'A' <= s[i] && s[i]
                <= 'Z' {
                s[i] as u32 + 32
            } else {
                s[i] as int
            },
{
}

/// A string is split exactly where its first separator stands, and not at all where it has none.
pub proof fn law_split_at_first(s: Seq<char>, separator: char)
    ensures
        split_at_first(s, separator) is Some <==> s.contains(separator),
        split_at_first(s, separator) matches Some((before, after)) ==> s == before + seq![separator]
            + after && !before.contains(separator),
    decreases s.len(),
{
    if s.len() > 0 {
        assert(s[0] == s.first());
        if s.first() == separator {
            assert(s =~= Seq::<char>::empty() + seq![separator] + s.drop_first());
        } else {
            let rest = s.drop_first();
            law_split_at_first(rest, separator);
            if rest.contains(separator) {
                let i = choose|i: int| 0 <= i < rest.len() && rest[i] == separator;
                assert(s[i + 1] == separator);
            }
            if s.contains(separator) {
                let i = choose|i: int| 0 <= i < s.len() && s[i] == separator;
                assert(rest[i - 1] == separator);
            }
            if let Some((before, after)) = split_at_first(rest, separator) {
                let longer = seq![s.first()] + before;
                assert(s =~= seq![s.first()] + rest);
                assert(seq![s.first()] + (before + seq![separator] + after) =~= longer + seq![
                    separator,
                ] + after);
                if longer.contains(separator) {
                    let i = choose|i: int| 0 <= i < longer.len() && longer[i] == separator;
                    assert(before[i - 1] == separator);
                }
            }
        }
    }
}

/// The pieces of a string are what stands between its separators: a string without one is its
/// only piece, and what stands before the first one is the first piece.
pub proof fn law_pieces(first: Seq<char>, separator: char, rest: Seq<char>)
    requires
        !first.contains(separator),
    ensures
        pieces(first, separator) == seq![first],
        pieces(first + seq![separator] + rest, separator) == seq![first] + pieces(rest, separator),
{
    lemma_single_piece(first, separator);
    lemma_pieces_joined(first, separator, rest);
}

/// White space in front is dropped.
proof fn lemma_trim_start_of(left: Seq<char>, s: Seq<char>)
    requires
        forall|i: int| 0 <= i < left.len() ==> is_space(#[trigger] left[i]),
        s.len() > 0 ==> !is_space(s.first()),
    ensures
        trim_start(left + s) == s,
    decreases left.len(),
{
    if left.len() == 0 {
        assert(left + s =~= s);
    } else {
        assert(is_space(left[0]));
        assert((left + s).drop_first() =~= left.drop_first() + s);
        lemma_trim_start_of(left.drop_first(), s);
    }
}

/// White space behind is dropped.
proof fn lemma_trim_end_of(s: Seq<char>, right: Seq<char>)
    requires
        forall|i: int| 0 <= i < right.len() ==> is_space(#[trigger] right[i]),
        s.len() > 0 ==> !is_space(s.last()),
    ensures
        trim_end(s + right) == s,
    decreases right.len(),
{
    if right.len() == 0 {
        assert(s + right =~= s);
    } else {
        assert(is_space(right[right.len() - 1]));
        assert((s + right).drop_last() =~= s + right.drop_last());
        lemma_trim_end_of(s, right.drop_last());
    }
}

/// Trimming drops the white space at the two ends, all of it and nothing else: what is left
/// begins and ends with something else, or is empty.
pub proof fn law_trimmed(left: Seq<char>, core: Seq<char>, right: Seq<char>)
    requires
        forall|i: int| 0 <= i < left.len() ==> is_space(#[trigger] left[i]),
        forall|i: int| 0 <= i < right.len() ==> is_space(#[trigger] right[i]),
        core.len() > 0 ==> !is_space(core.first()) && !is_space(core.last()),
    ensures
        trimmed(left + core + right) == core,
{
    if core.len() == 0 {
        let all = left + right;
        assert(left + core + right =~= all + seq![]);
        assert forall|i: int| 0 <= i < all.len() implies is_space(#[trigger] all[i]) by {
            if i >= left.len() {
                assert(all[i] == right[i - left.len()]);
            } else {
                assert(all[i] == left[i]);
            }
        }
        lemma_trim_start_of(all, seq![]);
        assert(core =~= seq![]);
    } else {
        assert(left + core + right =~= left + (core + right));
        assert((core + right).first() == core.first());
        lemma_trim_start_of(left, core + right);
        lemma_trim_end_of(core, right);
    }
}

/// The contents of a sequence of strings are those of each, in order.
pub proof fn law_contents(s: Seq<&str>)
    ensures
        contents(s).len() == s.len(),
        forall|i: int| 0 <= i < s.len() ==> #[trigger] contents(s)[i] == s[i]@,
{
}

/// Whether `s` is `word`, a word of lower-case letters, digits and `_`, in whatever case.
pub open spec fn reads_as(s: Seq<char>, word: Seq<char>) -> bool {
    s.len() == word.len() && forall|i: int|
        0 <= i < s.len() ==> #[trigger] s[i] == word[i] || ('a' <= word[i] && word[i] <= 'z'
            && s[i] as u32 + 32 == word[i] as u32)
}

/// Reading as a word is what lower case decides.
pub proof fn lemma_reads_as(s: Seq<char>, word: Seq<char>)
    requires
        forall|i: int|
            0 <= i < word.len() ==> !('A' <= #[trigger] word[i] && word[i] <= 'Z'),
    ensures
        reads_as(s, word) <==> ascii_lower(s) == word,
{
    let lower = ascii_lower(s);
    law_ascii_lower(s);
    if reads_as(s, word) {
        assert forall|i: int| 0 <= i < word.len() implies lower[i] == #[trigger] word[i] by {
            assert(s[i] == s[i]);
        }
        assert(lower =~= word);
    }
    if lower == word {
        assert forall|i: int| 0 <= i < s.len() implies #[trigger] s[i] == word[i] || ('a'
            <= word[i] && word[i] <= 'z' && s[i] as u32 + 32 == word[i] as u32) by {
            assert(lower[i] == word[i]);
        }
    }
}

} // verus!
