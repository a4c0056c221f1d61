//! Plain functions on text: searching, trimming and comparing.

use vstd::prelude::*;
use vstd::utf8::*;

verus! {

broadcast use vstd::utf8::group_utf8_lib;

/// Whether `c` has the Unicode property White_Space.
pub open spec fn is_white_space(c: char) -> bool {
    ||| '\u{9}' <= c <= '\u{d}'
    ||| c == '\u{20}'
    ||| c == '\u{85}'
    ||| c == '\u{a0}'
    ||| c == '\u{1680}'
    ||| '\u{2000}' <= c <= '\u{200a}'
    ||| c == '\u{2028}'
    ||| c == '\u{2029}'
    ||| c == '\u{202f}'
    ||| c == '\u{205f}'
    ||| c == '\u{3000}'
}

/// `char::is_whitespace` tells whether a character has the Unicode property
/// White_Space, which the Unicode Character Database gives to exactly the
/// characters that `is_white_space` lists.
pub assume_specification[ char::is_whitespace ](c: char) -> (b: bool)
    ensures
        b == is_white_space(c),
;

/// The part of `s` before the first `c`, or all of `s` where there is none.
pub open spec fn before_first(s: Seq<char>, c: char) -> Seq<char> {
    match s.index_of_first(c) {
        Some(i) => s.take(i),
        None => s,
    }
}

/// What stands before the first `c` is a beginning of the text, holds no `c`, and
/// reaches as far as it can: to the end of the text, or to a `c`.
pub proof fn before_first_reaches_the_first(s: Seq<char>, c: char)
    ensures
        before_first(s, c).len() <= s.len(),
        before_first(s, c) == s.take(before_first(s, c).len() as int),
        !before_first(s, c).contains(c),
        before_first(s, c).len() < s.len() ==> s[before_first(s, c).len() as int] == c,
{
    s.index_of_first_ensures(c);
    let head = before_first(s, c);
    assert(head =~= s.take(head.len() as int));
    assert forall|i: int| 0 <= i < head.len() implies head[i] != c by {
        assert(head[i] == s[i]);
    }
}

/// Whatever follows the first `c`, what stands before it is found.
pub proof fn text_before_first_is_found(head: Seq<char>, c: char, rest: Seq<char>)
    requires
        !head.contains(c),
    ensures
        before_first(head, c) == head,
        before_first(head.push(c) + rest, c) == head,
{
    head.index_of_first_ensures(c);
    let s = head.push(c) + rest;
    before_first_reaches_the_first(s, c);
    let found = before_first(s, c);
    assert(s[head.len() as int] == c);
    if found.len() < head.len() {
        assert(head[found.len() as int] == c);
    }
    if found.len() > head.len() {
        assert(found[head.len() as int] == c);
    }
    assert(found =~= head);
}

/// `s` without the white space at its end.
pub open spec fn trimmed_end(s: Seq<char>) -> Seq<char>
    decreases s.len(),
{
    if s.len() > 0 && is_white_space(s.last()) {
        trimmed_end(s.drop_last())
    } else {
        s
    }
}

/// Whether `s` holds nothing but white space.
pub open spec fn is_blank(s: Seq<char>) -> bool {
    forall|i: int| 0 <= i < s.len() ==> is_white_space(#[trigger] s[i])
}

/// Whether `part` occurs in `s` at index `i`.
pub open spec fn occurs_at(s: Seq<char>, part: Seq<char>, i: int) -> bool {
    0 <= i && i + part.len() <= s.len() && s.subrange(i, i + part.len()) == part
}

/// Whether `part` occurs anywhere in `s`.
pub open spec fn contains_part(s: Seq<char>, part: Seq<char>) -> bool {
    exists|i: int| #[trigger] occurs_at(s, part, i)
}

/// A part occurs in a text if and only if the text is something, then the part,
/// then something.
pub proof fn part_stands_between_two_others(s: Seq<char>, part: Seq<char>)
    ensures
        contains_part(s, part) <==> exists|before: Seq<char>, after: Seq<char>|
            s == #[trigger] (before + part + after),
{
    if contains_part(s, part) {
        let i = choose|i: int| #[trigger] occurs_at(s, part, i);
        let before = s.take(i);
        let after = s.skip(i + part.len());
        assert(s.subrange(i, i + part.len()) == part);
        assert(s =~= before + part + after);
    }
    if exists|before: Seq<char>, after: Seq<char>| s == #[trigger] (before + part + after) {
        let (before, after) = choose|before: Seq<char>, after: Seq<char>|
            s == #[trigger] (before + part + after);
        let i = before.len() as int;
        assert(s.subrange(i, i + part.len()) =~= part);
        assert(occurs_at(s, part, i));
    }
}

/// The UTF-8 encoding of two texts one after the other is the one encoding
/// after the other.
pub proof fn lemma_encode_concat(a: Seq<char>, b: Seq<char>)
    ensures
        encode_utf8(a + b) == encode_utf8(a) + encode_utf8(b),
    decreases a.len(),
{
    if a.len() == 0 {
        assert(a + b =~= b);
        assert(encode_utf8(a) + encode_utf8(b) =~= encode_utf8(b));
    } else {
        assert((a + b).drop_first() =~= a.drop_first() + b);
        lemma_encode_concat(a.drop_first(), b);
        assert(encode_utf8(a + b) =~= encode_utf8(a) + encode_utf8(b));
    }
}

/// Where one text ends and the next one starts is a character boundary.
pub proof fn lemma_boundary_between(a: Seq<char>, b: Seq<char>)
    ensures
        is_char_boundary(encode_utf8(a + b), encode_utf8(a).len() as int),
    decreases a.len(),
{
    lemma_encode_concat(a, b);
    let bytes = encode_utf8(a + b);
    if a.len() == 0 {
        reveal_with_fuel(is_char_boundary, 2);
    } else {
        assert((a + b).drop_first() =~= a.drop_first() + b);
        lemma_boundary_between(a.drop_first(), b);
        encode_utf8_first_scalar(a + b);
        encode_utf8_first_scalar(a);
        assert(pop_first_scalar(bytes) =~= encode_utf8(a.drop_first() + b));
    }
}

/// The characters of `text`, in order.
pub fn chars_of(text: &str) -> (chars: Vec<char>)
    ensures
        chars@ == text@,
{
    let mut chars: Vec<char> = Vec::new();
    for c in it: text.chars()
        invariant
            it.seq() == text@,
            chars@ == it.seq().take(it.index() as int),
    {
        chars.push(c);
    }
    chars
}

/// `head` followed by `tail`.
pub fn prefixed(head: &str, tail: &str) -> (whole: String)
    ensures
        whole@ == head@ + tail@,
{
    let mut whole = head.to_owned();
    whole.append(tail);
    whole
}

/// Whether two strings hold the same characters.
pub fn same_text(a: &str, b: &str) -> (same: bool)
    ensures
        same == (a@ == b@),
{
    let left = a.as_bytes();
    let right = b.as_bytes();
    proof {
        encode_utf8_decode_utf8(a@);
        encode_utf8_decode_utf8(b@);
    }
    if left.len() != right.len() {
        return false;
    }
    let mut i: usize = 0;
    while i < left.len()
        invariant
            left@ == encode_utf8(a@),
            right@ == encode_utf8(b@),
            left@.len() == right@.len(),
            forall|j: int| 0 <= j < i ==> left@[j] == right@[j],
        decreases left@.len() - i,
    {
        if left[i] != right[i] {
            return false;
        }
        i += 1;
    }
    assert(left@ =~= right@);
    true
}

/// The part of `text` before the first `wanted`, or all of `text`.
pub fn split_before(text: &str, wanted: char) -> (head: &str)
    ensures
        head@ == before_first(text@, wanted),
        head@.len() <= text@.len(),
        head@ == text@.take(head@.len() as int),
        !head@.contains(wanted),
        head@.len() < text@.len() ==> text@[head@.len() as int] == wanted,
{
    let chars = chars_of(text);
    proof {
        text@.index_of_first_ensures(wanted);
        before_first_reaches_the_first(text@, wanted);
    }
    let mut i: usize = 0;
    while i < chars.len()
        invariant
            i <= chars@.len(),
            chars@ == text@,
            forall|j: int| 0 <= j < i ==> text@[j] != wanted,
        decreases chars@.len() - i,
    {
        if chars[i] == wanted {
            proof {
                assert(text@[i as int] == wanted);
                text@.index_of_first_ensures(wanted);
            }
            return text.substring_char(0, i);
        }
        i += 1;
    }
    text
}

/// `text` without the white space at its end.
pub fn trim_end(text: &str) -> (trimmed: &str)
    ensures
        trimmed@ == trimmed_end(text@),
        trimmed@.len() <= text@.len(),
        trimmed@ == text@.take(trimmed@.len() as int),
        forall|i: int| trimmed@.len() <= i < text@.len() ==> is_white_space(#[trigger] text@[i]),
        trimmed@.len() > 0 ==> !is_white_space(trimmed@.last()),
{
    proof {
        trimmed_end_is_a_prefix(text@);
    }
    let chars = chars_of(text);
    let mut end: usize = chars.len();
    assert(text@.take(end as int) =~= text@);
    while end > 0 && chars[end - 1].is_whitespace()
        invariant
            end <= chars@.len(),
            chars@ == text@,
            trimmed_end(text@.take(end as int)) == trimmed_end(text@),
        decreases end,
    {
        end -= 1;
        assert(text@.take(end + 1).drop_last() =~= text@.take(end as int));
    }
    text.substring_char(0, end)
}

/// Whether nothing is left of `text` when the white space at both its ends
/// is taken away.
pub fn blank(text: &str) -> (b: bool)
    ensures
        b == is_blank(text@),
        b == (forall|i: int| 0 <= i < text@.len() ==> is_white_space(#[trigger] text@[i])),
{
    let chars = chars_of(text);
    let mut i: usize = 0;
    while i < chars.len()
        invariant
            i <= chars@.len(),
            chars@ == text@,
            forall|j: int| 0 <= j < i ==> is_white_space(#[trigger] text@[j]),
        decreases chars@.len() - i,
    {
        if !chars[i].is_whitespace() {
            assert(!is_white_space(text@[i as int]));
            return false;
        }
        i += 1;
    }
    true
}

/// Whether `part` stands in `chars` at index `start`.
fn matches_at(chars: &Vec<char>, part: &Vec<char>, start: usize) -> (found: bool)
    requires
        start + part@.len() <= chars@.len(),
    ensures
        found == occurs_at(chars@, part@, start as int),
{
    let count: usize = chars.len();
    let mut k: usize = 0;
    while k < part.len()
        invariant
            k <= part@.len(),
            count == chars@.len(),
            start + part@.len() <= chars@.len(),
            forall|j: int| 0 <= j < k ==> chars@[start + j] == part@[j],
        decreases part@.len() - k,
    {
        if chars[start + k] != part[k] {
            assert(chars@.subrange(start as int, start + part@.len())[k as int] != part@[k as int]);
            return false;
        }
        k += 1;
    }
    assert(chars@.subrange(start as int, start + part@.len()) =~= part@);
    true
}

/// Whether `part` occurs anywhere in `text`.
pub fn contains(text: &str, part: &str) -> (found: bool)
    ensures
        found == contains_part(text@, part@),
        found <==> exists|before: Seq<char>, after: Seq<char>|
            text@ == #[trigger] (before + part@ + after),
{
    proof {
        part_stands_between_two_others(text@, part@);
    }
    let chars = chars_of(text);
    let wanted = chars_of(part);
    if wanted.len() > chars.len() {
        return false;
    }
    let last: usize = chars.len() - wanted.len();
    let mut i: usize = 0;
    while i < last
        invariant
            i <= last,
            last == chars@.len() - wanted@.len(),
            chars@ == text@,
            wanted@ == part@,
            forall|j: int| 0 <= j < i ==> !#[trigger] occurs_at(text@, part@, j),
        decreases last - i,
    {
        if matches_at(&chars, &wanted, i) {
            proof {
                part_stands_between_two_others(text@, part@);
            }
            return true;
        }
        i += 1;
    }
    matches_at(&chars, &wanted, last)
}

/// Whether the first line break of `s` has only white space before it.
pub open spec fn leads_with_newline(s: Seq<char>) -> bool {
    exists|i: int|
        0 <= i < s.len() && #[trigger] s[i] == '\n' && forall|j: int|
            0 <= j < i ==> is_white_space(#[trigger] s[j])
}

/// Whether `text` has a line break with only white space before it.
pub fn has_leading_newline(text: &str) -> (b: bool)
    ensures
        b == leads_with_newline(text@),
        b <==> exists|i: int|
            0 <= i < text@.len() && #[trigger] text@[i] == '\n' && forall|j: int|
                0 <= j < i ==> is_white_space(#[trigger] text@[j]),
{
    let chars = chars_of(text);
    let mut i: usize = 0;
    while i < chars.len()
        invariant
            i <= chars@.len(),
            chars@ == text@,
            forall|j: int| 0 <= j < i ==> #[trigger] text@[j] != '\n' && is_white_space(text@[j]),
        decreases chars@.len() - i,
    {
        let c = chars[i];
        if c == '\n' {
            assert(text@[i as int] == '\n');
            return true;
        }
        if !c.is_whitespace() {
            assert(!is_white_space(text@[i as int]));
            return false;
        }
        i += 1;
    }
    false
}

/// A text starts with a line break where only white space stands before one,
/// and does not where another character comes first or there is none.
pub proof fn line_break_leads_after_white_space(
    white: Seq<char>,
    other: char,
    rest: Seq<char>,
)
    requires
        forall|i: int| 0 <= i < white.len() ==> is_white_space(#[trigger] white[i]),
        !is_white_space(other),
    ensures
        leads_with_newline(white.push('\n') + rest),
        !white.contains('\n') ==> !leads_with_newline(white),
        !white.contains('\n') ==> !leads_with_newline(white.push(other) + rest),
{
    let led = white.push('\n') + rest;
    let n = white.len() as int;
    assert(led[n] == '\n');
    assert forall|j: int| 0 <= j < n implies is_white_space(#[trigger] led[j]) by {
        assert(led[j] == white[j]);
    }
    let not_led = white.push(other) + rest;
    if !white.contains('\n') && leads_with_newline(not_led) {
        let i = choose|i: int|
            0 <= i < not_led.len() && #[trigger] not_led[i] == '\n' && forall|j: int|
                0 <= j < i ==> is_white_space(#[trigger] not_led[j]);
        assert(not_led[n] == other);
        if i < n {
            assert(white[i] == '\n');
        }
    }
}

/// What is kept of a completion: all of it where it starts with a line break,
/// else its first line.
pub open spec fn first_line_unless_leading_newline(s: Seq<char>) -> Seq<char> {
    if leads_with_newline(s) {
        s
    } else {
        before_first(s, '\n')
    }
}

/// `text` up to the end of its first line, or all of `text` where only white
/// space stands before its first line break.
pub fn trim_to_end_of_line_unless_leading_newline(text: &str) -> (trimmed: &str)
    ensures
        trimmed@ == first_line_unless_leading_newline(text@),
        trimmed@.len() <= text@.len(),
        trimmed@ == text@.take(trimmed@.len() as int),
        ({
            let led = exists|i: int|
                0 <= i < text@.len() && #[trigger] text@[i] == '\n' && forall|j: int|
                    0 <= j < i ==> is_white_space(#[trigger] text@[j]);
            if led {
                trimmed@ == text@
            } else {
                &&& !trimmed@.contains('\n')
                &&& trimmed@.len() < text@.len() ==> text@[trimmed@.len() as int] == '\n'
            }
        }),
{
    assert(text@.take(text@.len() as int) =~= text@);
    if has_leading_newline(text) {
        text
    } else {
        split_before(text, '\n')
    }
}

/// A text that white space and a line break start is kept whole. Of any other
/// text the first line is kept, whatever follows it.
pub proof fn first_line_is_kept(white: Seq<char>, line: Seq<char>, rest: Seq<char>)
    requires
        forall|i: int| 0 <= i < white.len() ==> is_white_space(#[trigger] white[i]),
        !line.contains('\n'),
    ensures
        first_line_unless_leading_newline(white.push('\n') + rest) == white.push('\n') + rest,
        first_line_unless_leading_newline(line) == line,
        (exists|i: int| 0 <= i < line.len() && !is_white_space(#[trigger] line[i]))
            ==> first_line_unless_leading_newline(line.push('\n') + rest) == line,
{
    line_break_leads_after_white_space(white, 'x', rest);
    text_before_first_is_found(line, '\n', rest);
    if exists|i: int| 0 <= i < line.len() && !is_white_space(#[trigger] line[i]) {
        let k = choose|i: int| 0 <= i < line.len() && !is_white_space(#[trigger] line[i]);
        let s = line.push('\n') + rest;
        assert(s[k] == line[k]);
        if leads_with_newline(s) {
            let i = choose|i: int|
                0 <= i < s.len() && #[trigger] s[i] == '\n' && forall|j: int|
                    0 <= j < i ==> is_white_space(#[trigger] s[j]);
            if i < line.len() {
                assert(line[i] == '\n');
            }
        }
    }
}

/// What of a completion is offered to the user: what is kept of it, without the
/// white space at the end.
pub open spec fn offered(completion: Seq<char>) -> Seq<char> {
    trimmed_end(first_line_unless_leading_newline(completion))
}

/// What of a completion is offered to the user.
pub fn offered_text(completion: &str) -> (shown: &str)
    ensures
        shown@ == offered(completion@),
        shown@.len() <= completion@.len(),
        shown@ == completion@.take(shown@.len() as int),
        shown@.len() > 0 ==> !is_white_space(shown@.last()),
        ({
            let led = exists|i: int|
                0 <= i < completion@.len() && #[trigger] completion@[i] == '\n' && forall|j: int|
                    0 <= j < i ==> is_white_space(#[trigger] completion@[j]);
            &&& led ==> forall|i: int|
                shown@.len() <= i < completion@.len() ==> is_white_space(#[trigger] completion@[i])
            &&& !led ==> !shown@.contains('\n')
            &&& !led ==> forall|i: int|
                shown@.len() <= i < completion@.len() && !completion@.take(i).contains('\n')
                    ==> is_white_space(#[trigger] completion@[i])
        }),
{
    proof {
        offered_is_one_line(completion@);
    }
    trim_end(trim_to_end_of_line_unless_leading_newline(completion))
}

/// Trimming the end of a text takes white space away and nothing else, and
/// leaves no white space at the end.
pub proof fn trimmed_end_is_a_prefix(s: Seq<char>)
    ensures
        trimmed_end(s).len() <= s.len(),
        trimmed_end(s) == s.take(trimmed_end(s).len() as int),
        is_blank(s.skip(trimmed_end(s).len() as int)),
        forall|i: int| trimmed_end(s).len() <= i < s.len() ==> is_white_space(#[trigger] s[i]),
        trimmed_end(s).len() > 0 ==> !is_white_space(trimmed_end(s).last()),
        is_blank(trimmed_end(s)) == (trimmed_end(s).len() == 0),
    decreases s.len(),
{
    let kept = trimmed_end(s);
    if s.len() > 0 && is_white_space(s.last()) {
        let init = s.drop_last();
        trimmed_end_is_a_prefix(init);
        assert(kept =~= s.take(kept.len() as int));
        assert forall|i: int| 0 <= i < s.len() - kept.len() implies is_white_space(
            #[trigger] s.skip(kept.len() as int)[i],
        ) by {
            if i < init.len() - kept.len() {
                assert(init.skip(kept.len() as int)[i] == s.skip(kept.len() as int)[i]);
            }
        }
        assert forall|i: int| kept.len() <= i < s.len() implies is_white_space(#[trigger] s[i]) by {
            if i < init.len() {
                assert(init[i] == s[i]);
            }
        }
    } else {
        assert(kept =~= s.take(s.len() as int));
        if s.len() > 0 {
            assert(kept[kept.len() - 1] == s.last());
        }
    }
}

/// White space at the end of a text goes, and nothing else does.
pub proof fn white_space_at_the_end_goes(kept: Seq<char>, white: Seq<char>)
    requires
        kept.len() == 0 || !is_white_space(kept.last()),
        forall|i: int| 0 <= i < white.len() ==> is_white_space(#[trigger] white[i]),
    ensures
        trimmed_end(kept + white) == kept,
{
    let s = kept + white;
    let found = trimmed_end(s);
    trimmed_end_is_a_prefix(s);
    if found.len() < kept.len() {
        assert(s[kept.len() - 1] == kept.last());
    }
    if found.len() > kept.len() {
        assert(found.last() == s[found.len() - 1]);
        assert(s[found.len() - 1] == white[found.len() - 1 - kept.len()]);
    }
    assert(found =~= kept);
}

/// Of a completion that does not start with a line break its first line is
/// offered, without the white space at the end of that line, whatever follows.
/// One that starts with a line break is offered whole, without the white space at
/// its end; and nothing is offered of one that is white space alone.
pub proof fn first_line_or_all_is_offered(
    line: Seq<char>,
    white: Seq<char>,
    rest: Seq<char>,
    indent: Seq<char>,
    block: Seq<char>,
)
    requires
        line.len() > 0 && !is_white_space(line.last()) && !line.contains('\n'),
        block.len() > 0 && !is_white_space(block.last()),
        forall|i: int| 0 <= i < white.len() ==> is_white_space(#[trigger] white[i]),
        forall|i: int| 0 <= i < indent.len() ==> is_white_space(#[trigger] indent[i]),
    ensures
        !white.contains('\n') ==> offered(line + white) == line,
        !white.contains('\n') ==> offered((line + white).push('\n') + rest) == line,
        offered(indent.push('\n') + block + white) == indent.push('\n') + block,
        offered(white).len() == 0,
{
    let first = line + white;
    white_space_at_the_end_goes(line, white);
    if !white.contains('\n') {
        assert forall|i: int| 0 <= i < first.len() implies first[i] != '\n' by {
            if i < line.len() {
                assert(first[i] == line[i]);
            } else {
                assert(first[i] == white[i - line.len()]);
            }
        }
        assert(first[line.len() - 1] == line.last());
        first_line_is_kept(Seq::empty(), first, rest);
    }
    let lines = indent.push('\n') + block;
    first_line_is_kept(indent, Seq::empty(), block + white);
    assert(lines + white =~= indent.push('\n') + (block + white));
    assert(lines.last() == block.last());
    white_space_at_the_end_goes(lines, white);
    let kept = first_line_unless_leading_newline(white);
    before_first_reaches_the_first(white, '\n');
    assert forall|i: int| 0 <= i < kept.len() implies is_white_space(#[trigger] kept[i]) by {
        assert(kept[i] == white[i]);
    }
    white_space_at_the_end_goes(Seq::empty(), kept);
    assert(Seq::<char>::empty() + kept =~= kept);
}

/// What is offered of a completion is one line, without white space at its end,
/// unless the completion starts with a line break; and it is always a prefix of
/// the completion.
pub proof fn offered_is_one_line(completion: Seq<char>)
    ensures
        offered(completion).len() <= completion.len(),
        offered(completion) == completion.take(offered(completion).len() as int),
        !leads_with_newline(completion) ==> !offered(completion).contains('\n'),
        offered(completion).len() > 0 ==> !is_white_space(offered(completion).last()),
        leads_with_newline(completion) ==> forall|i: int|
            offered(completion).len() <= i < completion.len() ==> is_white_space(
                #[trigger] completion[i],
            ),
        !leads_with_newline(completion) ==> forall|i: int|
            offered(completion).len() <= i < completion.len() && !completion.take(i).contains('\n')
                ==> is_white_space(#[trigger] completion[i]),
{
    let line = first_line_unless_leading_newline(completion);
    completion.index_of_first_ensures('\n');
    trimmed_end_is_a_prefix(line);
    assert(offered(completion) =~= completion.take(offered(completion).len() as int));
    if !leads_with_newline(completion) {
        assert forall|i: int| 0 <= i < offered(completion).len() implies offered(completion)[i]
            != '\n' by {
            assert(line[i] == completion[i]);
        }
        assert forall|i: int|
            offered(completion).len() <= i < completion.len() && !completion.take(i).contains(
                '\n',
            ) implies is_white_space(#[trigger] completion[i]) by {
            before_first_reaches_the_first(completion, '\n');
            if i < line.len() {
                assert(line[i] == completion[i]);
            } else if i > line.len() {
                assert(completion.take(i)[line.len() as int] == '\n');
            }
        }
    }
}

/// Trimming to the end of the line a second time changes nothing.
pub proof fn trimming_to_line_is_idempotent(s: Seq<char>)
    ensures
        first_line_unless_leading_newline(first_line_unless_leading_newline(s))
            == first_line_unless_leading_newline(s),
{
    let line = first_line_unless_leading_newline(s);
    s.index_of_first_ensures('\n');
    line.index_of_first_ensures('\n');
    if !leads_with_newline(s) {
        assert(!line.contains('\n')) by {
            assert forall|i: int| 0 <= i < line.len() implies line[i] != '\n' by {
                assert(line[i] == s[i]);
            }
        }
    }
}

} // verus!
