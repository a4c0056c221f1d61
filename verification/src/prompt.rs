//! The fill-in-the-middle prompt, and its hash.

use std::collections::hash_map::DefaultHasher;
use std::hash::Hash;
use std::hash::Hasher;

use vstd::prelude::*;
use vstd::std_specs::hash::*;
use vstd::utf8::*;

use crate::buffer;
use crate::text;

verus! {

broadcast use vstd::utf8::group_utf8_lib;

/// Maximum bytes for prefix context (code before cursor).
pub const MAX_PREFIX_BYTES: usize = 4096;

/// Maximum bytes for suffix context (code after cursor).
pub const MAX_SUFFIX_BYTES: usize = 1024;

/// The UTF-8 encoding of a line break.
pub const NEWLINE: u8 = 10;

/// The first character boundary of `bytes` at or after index `i`.
pub open spec fn boundary_from(bytes: Seq<u8>, i: int) -> int
    decreases bytes.len() - i,
{
    if i >= bytes.len() || is_char_boundary(bytes, i) {
        i
    } else {
        boundary_from(bytes, i + 1)
    }
}

/// The last character boundary of `bytes` at or before index `i`.
pub open spec fn boundary_up_to(bytes: Seq<u8>, i: int) -> int
    decreases i,
{
    if i <= 0 || is_char_boundary(bytes, i) {
        i
    } else {
        boundary_up_to(bytes, i - 1)
    }
}

/// The bytes before the cursor from which the prompt picks: the last
/// `MAX_PREFIX_BYTES`, less the part of a character that they may start with.
pub open spec fn prefix_tail(bytes: Seq<u8>) -> Seq<u8> {
    bytes.skip(boundary_from(bytes, bytes.len() - MAX_PREFIX_BYTES))
}

/// The bytes after the cursor from which the prompt picks: the first
/// `MAX_SUFFIX_BYTES`, less the part of a character that they may end with.
pub open spec fn suffix_head(bytes: Seq<u8>) -> Seq<u8> {
    bytes.take(boundary_up_to(bytes, MAX_SUFFIX_BYTES as int))
}

/// What the prompt shows of the bytes before the cursor: all of them, or,
/// where they are too many, the last `MAX_PREFIX_BYTES` without what precedes
/// the first line break among these.
pub open spec fn prefix_window(bytes: Seq<u8>) -> Seq<u8> {
    if bytes.len() > MAX_PREFIX_BYTES {
        match prefix_tail(bytes).index_of_first(NEWLINE) {
            Some(i) => prefix_tail(bytes).skip(i + 1),
            None => prefix_tail(bytes),
        }
    } else {
        bytes
    }
}

/// What the prompt shows of the bytes after the cursor: all of them, or,
/// where they are too many, the first `MAX_SUFFIX_BYTES` without what follows
/// the last line break among these.
pub open spec fn suffix_window(bytes: Seq<u8>) -> Seq<u8> {
    if bytes.len() > MAX_SUFFIX_BYTES {
        match suffix_head(bytes).index_of_last(NEWLINE) {
            Some(i) => suffix_head(bytes).take(i + 1),
            None => suffix_head(bytes),
        }
    } else {
        bytes
    }
}

/// The prompt for the cursor at byte `offset` of `text`.
pub open spec fn fim_prompt(text: Seq<char>, offset: int) -> Seq<char> {
    "<|fim_prefix|>"@ + decode_utf8(prefix_window(buffer::bytes_before(text, offset)))
        + "<|fim_suffix|>"@ + decode_utf8(suffix_window(buffer::bytes_after(text, offset)))
        + "<|fim_middle|>"@
}

/// A one-byte character ends where the next one starts.
proof fn lemma_boundary_after_ascii(bytes: Seq<u8>, i: int)
    requires
        valid_utf8(bytes),
        0 <= i < bytes.len(),
        bytes[i] < 0x80,
    ensures
        is_char_boundary(bytes, i),
        is_char_boundary(bytes, i + 1),
    decreases bytes.len(),
{
    let b = bytes[i];
    assert(is_leading_byte_width_1(b) && !is_continuation_byte(b)) by (bit_vector)
        requires
            b < 0x80,
    ;
    is_char_boundary_iff_not_is_continuation_byte(bytes, i);
    if i == 0 {
        reveal_with_fuel(is_char_boundary, 2);
    } else {
        let width = length_of_first_scalar(bytes);
        let rest = pop_first_scalar(bytes);
        assert(width <= i) by {
            reveal_with_fuel(is_char_boundary, 2);
        }
        assert(rest[i - width] == b);
        lemma_boundary_after_ascii(rest, i - width);
    }
}

/// The nearest boundary at or after an index is less than the length of a
/// character away.
pub proof fn lemma_boundary_from(bytes: Seq<u8>, i: int)
    requires
        valid_utf8(bytes),
        0 <= i <= bytes.len(),
    ensures
        is_char_boundary(bytes, boundary_from(bytes, i)),
        i <= boundary_from(bytes, i) <= bytes.len(),
        boundary_from(bytes, i) <= i + 3,
        forall|k: int| i <= k < boundary_from(bytes, i) ==> !#[trigger] is_char_boundary(bytes, k),
{
    let k = lemma_boundary_near(bytes, i).1;
    lemma_boundary_from_before(bytes, i, k);
}

/// The nearest boundary at or before an index is less than the length of a
/// character away.
pub proof fn lemma_boundary_up_to(bytes: Seq<u8>, i: int)
    requires
        valid_utf8(bytes),
        0 <= i <= bytes.len(),
    ensures
        is_char_boundary(bytes, boundary_up_to(bytes, i)),
        0 <= boundary_up_to(bytes, i) <= i,
        i - 3 <= boundary_up_to(bytes, i),
        forall|k: int|
            boundary_up_to(bytes, i) < k <= i ==> !#[trigger] is_char_boundary(bytes, k),
{
    let k = lemma_boundary_near(bytes, i).0;
    lemma_boundary_up_to_after(bytes, i, k);
}

/// Around every index there is a boundary before it and one after it, each at
/// most three bytes away.
proof fn lemma_boundary_near(bytes: Seq<u8>, i: int) -> (near: (int, int))
    requires
        valid_utf8(bytes),
        0 <= i <= bytes.len(),
    ensures
        i - 3 <= near.0 <= i <= near.1 <= i + 3,
        0 <= near.0,
        near.1 <= bytes.len(),
        is_char_boundary(bytes, near.0),
        is_char_boundary(bytes, near.1),
    decreases bytes.len(),
{
    if i == 0 {
        (0, 0)
    } else {
        let width = length_of_first_scalar(bytes);
        let rest = pop_first_scalar(bytes);
        assert(1 <= width <= 4);
        assert(is_char_boundary(bytes, width)) by {
            reveal_with_fuel(is_char_boundary, 2);
        }
        if i < width {
            (0, width)
        } else {
            let near = lemma_boundary_near(rest, i - width);
            assert(is_char_boundary(bytes, near.0 + width));
            assert(is_char_boundary(bytes, near.1 + width));
            (near.0 + width, near.1 + width)
        }
    }
}

/// `boundary_from` finds the first boundary, where there is one at `k`.
proof fn lemma_boundary_from_before(bytes: Seq<u8>, i: int, k: int)
    requires
        valid_utf8(bytes),
        0 <= i <= k <= bytes.len(),
        is_char_boundary(bytes, k),
    ensures
        is_char_boundary(bytes, boundary_from(bytes, i)),
        i <= boundary_from(bytes, i) <= k,
        forall|m: int| i <= m < boundary_from(bytes, i) ==> !#[trigger] is_char_boundary(bytes, m),
    decreases k - i,
{
    if i < k && !is_char_boundary(bytes, i) {
        lemma_boundary_from_before(bytes, i + 1, k);
    }
}

/// `boundary_up_to` finds the last boundary, where there is one at `k`.
proof fn lemma_boundary_up_to_after(bytes: Seq<u8>, i: int, k: int)
    requires
        valid_utf8(bytes),
        0 <= k <= i <= bytes.len(),
        is_char_boundary(bytes, k),
    ensures
        is_char_boundary(bytes, boundary_up_to(bytes, i)),
        k <= boundary_up_to(bytes, i) <= i,
        forall|m: int|
            boundary_up_to(bytes, i) < m <= i ==> !#[trigger] is_char_boundary(bytes, m),
    decreases i - k,
{
    if k < i && !is_char_boundary(bytes, i) {
        lemma_boundary_up_to_after(bytes, i - 1, k);
    }
}

/// What is shown of the text before the cursor ends at the cursor. It is all of
/// the text where that is at most 4096 bytes long. Else it starts behind the first
/// line break among the last 4096 bytes, so that every whole line behind that is
/// shown; and where there is none, at the first character that starts among them.
pub proof fn prefix_starts_behind_the_first_line_break(bytes: Seq<u8>)
    requires
        valid_utf8(bytes),
    ensures
        ({
            let window = prefix_window(bytes);
            &&& window.len() <= bytes.len()
            &&& window == bytes.skip(bytes.len() - window.len())
            &&& bytes.len() <= 4096 ==> window == bytes
            &&& bytes.len() > 4096 && (exists|m: int|
                bytes.len() - 4096 <= m < bytes.len() && #[trigger] bytes[m] == 10) ==> {
                &&& window.len() < 4096
                &&& bytes[bytes.len() - window.len() - 1] == 10
                &&& forall|m: int|
                    bytes.len() - 4096 <= m < bytes.len() - window.len() - 1 ==> #[trigger] bytes[m] != 10
            }
            &&& bytes.len() > 4096 && (forall|m: int|
                bytes.len() - 4096 <= m < bytes.len() ==> #[trigger] bytes[m] != 10) ==> {
                &&& window.len() <= 4096
                &&& is_char_boundary(bytes, bytes.len() - window.len())
                &&& forall|m: int|
                    bytes.len() - 4096 <= m < bytes.len() - window.len() ==> !#[trigger] is_char_boundary(
                        bytes,
                        m,
                    )
            }
        }),
{
    let n = bytes.len() as int;
    if n > MAX_PREFIX_BYTES {
        let start = boundary_from(bytes, n - MAX_PREFIX_BYTES);
        let tail = prefix_tail(bytes);
        lemma_boundary_from(bytes, n - MAX_PREFIX_BYTES);
        tail.index_of_first_ensures(NEWLINE);
        assert forall|m: int| n - MAX_PREFIX_BYTES <= m < start implies #[trigger] bytes[m]
            != NEWLINE by {
            if bytes[m] == NEWLINE {
                lemma_boundary_after_ascii(bytes, m);
            }
        }
        assert forall|m: int| start <= m < n implies #[trigger] bytes[m] == tail[m - start] by {
        }
        if tail.contains(NEWLINE) {
            let i = tail.index_of_first(NEWLINE)->Some_0;
            assert(bytes[start + i] == NEWLINE);
        } else {
            assert forall|m: int| n - MAX_PREFIX_BYTES <= m < n implies #[trigger] bytes[m]
                != NEWLINE by {
                if m >= start {
                    assert(bytes[m] == tail[m - start]);
                }
            }
        }
    }
    assert(prefix_window(bytes) =~= bytes.skip(n - prefix_window(bytes).len()));
}

/// What is shown of the text after the cursor starts at the cursor. It is all of
/// the text where that is at most 1024 bytes long. Else it ends with the last line
/// break among the first 1024 bytes, so that every whole line before that is
/// shown; and where there is none, with the last character that ends among them.
pub proof fn suffix_ends_with_the_last_line_break(bytes: Seq<u8>)
    requires
        valid_utf8(bytes),
    ensures
        ({
            let window = suffix_window(bytes);
            &&& window.len() <= bytes.len()
            &&& window == bytes.take(window.len() as int)
            &&& bytes.len() <= 1024 ==> window == bytes
            &&& bytes.len() > 1024 && (exists|m: int| 0 <= m < 1024 && #[trigger] bytes[m] == 10) ==> {
                &&& 0 < window.len() <= 1024
                &&& bytes[window.len() - 1] == 10
                &&& forall|m: int| window.len() <= m < 1024 ==> #[trigger] bytes[m] != 10
            }
            &&& bytes.len() > 1024 && (forall|m: int| 0 <= m < 1024 ==> #[trigger] bytes[m] != 10) ==> {
                &&& window.len() <= 1024
                &&& is_char_boundary(bytes, window.len() as int)
                &&& forall|m: int| window.len() < m <= 1024 ==> !#[trigger] is_char_boundary(bytes, m)
            }
        }),
{
    if bytes.len() > MAX_SUFFIX_BYTES {
        let end = boundary_up_to(bytes, MAX_SUFFIX_BYTES as int);
        let head = suffix_head(bytes);
        lemma_boundary_up_to(bytes, MAX_SUFFIX_BYTES as int);
        head.index_of_last_ensures(NEWLINE);
        assert forall|m: int| end <= m < MAX_SUFFIX_BYTES implies #[trigger] bytes[m]
            != NEWLINE by {
            if bytes[m] == NEWLINE {
                lemma_boundary_after_ascii(bytes, m);
            }
        }
        assert forall|m: int| 0 <= m < end implies #[trigger] bytes[m] == head[m] by {
        }
        if head.contains(NEWLINE) {
            let i = head.index_of_last(NEWLINE)->Some_0;
            assert(bytes[i] == NEWLINE);
        } else {
            assert forall|m: int| 0 <= m < MAX_SUFFIX_BYTES implies #[trigger] bytes[m]
                != NEWLINE by {
                if m < end {
                    assert(bytes[m] == head[m]);
                }
            }
        }
    }
    assert(suffix_window(bytes) =~= bytes.take(suffix_window(bytes).len() as int));
}

/// What the prompt shows of the text before the cursor.
fn clip_prefix(full: &str) -> (shown: &str)
    ensures
        encode_utf8(shown@) == prefix_window(encode_utf8(full@)),
        ({
            let bytes = encode_utf8(full@);
            let window = encode_utf8(shown@);
            &&& window.len() <= bytes.len()
            &&& window == bytes.skip(bytes.len() - window.len())
            &&& bytes.len() <= 4096 ==> window == bytes
            &&& bytes.len() > 4096 && (exists|m: int|
                bytes.len() - 4096 <= m < bytes.len() && #[trigger] bytes[m] == 10) ==> {
                &&& window.len() < 4096
                &&& bytes[bytes.len() - window.len() - 1] == 10
                &&& forall|m: int|
                    bytes.len() - 4096 <= m < bytes.len() - window.len() - 1 ==> #[trigger] bytes[m] != 10
            }
            &&& bytes.len() > 4096 && (forall|m: int|
                bytes.len() - 4096 <= m < bytes.len() ==> #[trigger] bytes[m] != 10) ==> {
                &&& window.len() <= 4096
                &&& is_char_boundary(bytes, bytes.len() - window.len())
                &&& forall|m: int|
                    bytes.len() - 4096 <= m < bytes.len() - window.len() ==> !#[trigger] is_char_boundary(
                        bytes,
                        m,
                    )
            }
        }),
{
    proof {
        prefix_starts_behind_the_first_line_break(encode_utf8(full@));
    }
    let length: usize = full.as_bytes().len();
    if length <= MAX_PREFIX_BYTES {
        return full;
    }
    let ghost whole = encode_utf8(full@);
    let mut start: usize = length - MAX_PREFIX_BYTES;
    while start < length && !full.is_char_boundary(start)
        invariant
            whole == encode_utf8(full@),
            length == whole.len(),
            start <= length,
            boundary_from(whole, start as int) == boundary_from(whole, length - MAX_PREFIX_BYTES),
        decreases length - start,
    {
        start += 1;
    }
    let (_, tail) = full.split_at(start);
    let bytes = tail.as_bytes();
    assert(bytes@ =~= prefix_tail(whole));
    proof {
        bytes@.index_of_first_ensures(NEWLINE);
    }
    let mut i: usize = 0;
    while i < bytes.len()
        invariant
            i <= bytes@.len(),
            bytes@ == encode_utf8(tail@),
            bytes@ == prefix_tail(encode_utf8(full@)),
            encode_utf8(full@).len() > MAX_PREFIX_BYTES,
            forall|j: int| 0 <= j < i ==> bytes@[j] != NEWLINE,
        decreases bytes@.len() - i,
    {
        if bytes[i] == NEWLINE {
            proof {
                assert(bytes@.contains(NEWLINE));
                bytes@.index_of_first_ensures(NEWLINE);
                lemma_boundary_after_ascii(bytes@, i as int);
                prefix_starts_behind_the_first_line_break(encode_utf8(full@));
            }
            let (_, shown) = tail.split_at(i + 1);
            return shown;
        }
        i += 1;
    }
    tail
}

/// What the prompt shows of the text after the cursor.
fn clip_suffix(full: &str) -> (shown: &str)
    ensures
        encode_utf8(shown@) == suffix_window(encode_utf8(full@)),
        ({
            let bytes = encode_utf8(full@);
            let window = encode_utf8(shown@);
            &&& window.len() <= bytes.len()
            &&& window == bytes.take(window.len() as int)
            &&& bytes.len() <= 1024 ==> window == bytes
            &&& bytes.len() > 1024 && (exists|m: int| 0 <= m < 1024 && #[trigger] bytes[m] == 10) ==> {
                &&& 0 < window.len() <= 1024
                &&& bytes[window.len() - 1] == 10
                &&& forall|m: int| window.len() <= m < 1024 ==> #[trigger] bytes[m] != 10
            }
            &&& bytes.len() > 1024 && (forall|m: int| 0 <= m < 1024 ==> #[trigger] bytes[m] != 10) ==> {
                &&& window.len() <= 1024
                &&& is_char_boundary(bytes, window.len() as int)
                &&& forall|m: int| window.len() < m <= 1024 ==> !#[trigger] is_char_boundary(bytes, m)
            }
        }),
{
    proof {
        suffix_ends_with_the_last_line_break(encode_utf8(full@));
    }
    let length: usize = full.as_bytes().len();
    if length <= MAX_SUFFIX_BYTES {
        return full;
    }
    let ghost whole = encode_utf8(full@);
    let mut end: usize = MAX_SUFFIX_BYTES;
    while end > 0 && !full.is_char_boundary(end)
        invariant
            whole == encode_utf8(full@),
            end <= MAX_SUFFIX_BYTES,
            boundary_up_to(whole, end as int) == boundary_up_to(whole, MAX_SUFFIX_BYTES as int),
        decreases end,
    {
        end -= 1;
    }
    let (head, _) = full.split_at(end);
    let bytes = head.as_bytes();
    assert(bytes@ =~= suffix_head(whole));
    proof {
        bytes@.index_of_last_ensures(NEWLINE);
    }
    let mut i: usize = bytes.len();
    while i > 0
        invariant
            i <= bytes@.len(),
            bytes@ == encode_utf8(head@),
            bytes@ == suffix_head(encode_utf8(full@)),
            encode_utf8(full@).len() > MAX_SUFFIX_BYTES,
            forall|j: int| i <= j < bytes@.len() ==> bytes@[j] != NEWLINE,
        decreases i,
    {
        if bytes[i - 1] == NEWLINE {
            proof {
                assert(bytes@.contains(NEWLINE));
                bytes@.index_of_last_ensures(NEWLINE);
                lemma_boundary_after_ascii(bytes@, i - 1);
                suffix_ends_with_the_last_line_break(encode_utf8(full@));
            }
            let (shown, _) = head.split_at(i);
            return shown;
        }
        i -= 1;
    }
    head
}

/// The prompt for the text before and the text after the cursor.
pub fn frame_fim_prompt(full_prefix: &str, full_suffix: &str) -> (prompt: String)
    ensures
        prompt@ == "<|fim_prefix|>"@ + decode_utf8(prefix_window(encode_utf8(full_prefix@)))
            + "<|fim_suffix|>"@ + decode_utf8(suffix_window(encode_utf8(full_suffix@)))
            + "<|fim_middle|>"@,
{
    let prefix = clip_prefix(full_prefix);
    let suffix = clip_suffix(full_suffix);
    proof {
        encode_utf8_decode_utf8(prefix@);
        encode_utf8_decode_utf8(suffix@);
    }
    let mut prompt = String::new();
    prompt.append("<|fim_prefix|>");
    prompt.append(prefix);
    prompt.append("<|fim_suffix|>");
    prompt.append(suffix);
    prompt.append("<|fim_middle|>");
    assert(Seq::<char>::empty() + "<|fim_prefix|>"@ =~= "<|fim_prefix|>"@);
    prompt
}

/// The prompt shows at most `MAX_PREFIX_BYTES` of the bytes before the cursor,
/// and those right before it. Where it drops any it starts at the beginning of
/// a line, unless there is no line break to start behind; then it is short of
/// the limit by no more than a part of one character, and by nothing where the
/// limit falls between two characters.
pub proof fn prefix_window_is_bounded(bytes: Seq<u8>)
    requires
        valid_utf8(bytes),
    ensures
        prefix_window(bytes).len() <= MAX_PREFIX_BYTES,
        prefix_window(bytes).len() <= bytes.len(),
        prefix_window(bytes) == bytes.skip(bytes.len() - prefix_window(bytes).len()),
        bytes.len() <= MAX_PREFIX_BYTES ==> prefix_window(bytes) == bytes,
        bytes.len() > MAX_PREFIX_BYTES && prefix_tail(bytes).contains(NEWLINE) ==> bytes[bytes.len()
            - prefix_window(bytes).len() - 1] == NEWLINE,
        bytes.len() > MAX_PREFIX_BYTES && !prefix_tail(bytes).contains(NEWLINE) ==> prefix_window(
            bytes,
        ).len() >= MAX_PREFIX_BYTES - 3,
        bytes.len() > MAX_PREFIX_BYTES && is_char_boundary(bytes, bytes.len() - MAX_PREFIX_BYTES)
            ==> prefix_tail(bytes) == bytes.skip(bytes.len() - MAX_PREFIX_BYTES),
{
    if bytes.len() > MAX_PREFIX_BYTES {
        lemma_boundary_from(bytes, bytes.len() - MAX_PREFIX_BYTES);
        prefix_tail(bytes).index_of_first_ensures(NEWLINE);
    }
    assert(prefix_window(bytes) =~= bytes.skip(bytes.len() - prefix_window(bytes).len()));
}

/// The prompt shows at most `MAX_SUFFIX_BYTES` of the bytes after the cursor,
/// and those right after it. Where it drops any it stops at the end of a line,
/// unless there is no line break to stop at; then it is short of the limit by no
/// more than a part of one character, and by nothing where the limit falls
/// between two characters.
pub proof fn suffix_window_is_bounded(bytes: Seq<u8>)
    requires
        valid_utf8(bytes),
    ensures
        suffix_window(bytes).len() <= MAX_SUFFIX_BYTES,
        suffix_window(bytes).len() <= bytes.len(),
        suffix_window(bytes) == bytes.take(suffix_window(bytes).len() as int),
        bytes.len() <= MAX_SUFFIX_BYTES ==> suffix_window(bytes) == bytes,
        bytes.len() > MAX_SUFFIX_BYTES && suffix_head(bytes).contains(NEWLINE) ==> suffix_window(
            bytes,
        ).last() == NEWLINE,
        bytes.len() > MAX_SUFFIX_BYTES && !suffix_head(bytes).contains(NEWLINE) ==> suffix_window(
            bytes,
        ).len() >= MAX_SUFFIX_BYTES - 3,
        bytes.len() > MAX_SUFFIX_BYTES && is_char_boundary(bytes, MAX_SUFFIX_BYTES as int)
            ==> suffix_head(bytes) == bytes.take(MAX_SUFFIX_BYTES as int),
{
    if bytes.len() > MAX_SUFFIX_BYTES {
        lemma_boundary_up_to(bytes, MAX_SUFFIX_BYTES as int);
        suffix_head(bytes).index_of_last_ensures(NEWLINE);
    }
    assert(suffix_window(bytes) =~= bytes.take(suffix_window(bytes).len() as int));
}

/// Both windows are whole characters.
proof fn lemma_windows_are_valid(text: Seq<char>, offset: int)
    requires
        buffer::on_boundary(text, offset),
    ensures
        valid_utf8(buffer::bytes_before(text, offset)),
        valid_utf8(buffer::bytes_after(text, offset)),
        valid_utf8(prefix_window(buffer::bytes_before(text, offset))),
        valid_utf8(suffix_window(buffer::bytes_after(text, offset))),
{
    let bytes = encode_utf8(text);
    valid_utf8_split(bytes, offset);
    let before = buffer::bytes_before(text, offset);
    let after = buffer::bytes_after(text, offset);
    if before.len() > MAX_PREFIX_BYTES {
        let cut = boundary_from(before, before.len() - MAX_PREFIX_BYTES);
        lemma_boundary_from(before, before.len() - MAX_PREFIX_BYTES);
        valid_utf8_split(before, cut);
        let tail = prefix_tail(before);
        assert(tail =~= before.subrange(cut, before.len() as int));
        tail.index_of_first_ensures(NEWLINE);
        if let Some(i) = tail.index_of_first(NEWLINE) {
            lemma_boundary_after_ascii(tail, i);
            valid_utf8_split(tail, i + 1);
            assert(tail.skip(i + 1) =~= tail.subrange(i + 1, tail.len() as int));
        }
    }
    if after.len() > MAX_SUFFIX_BYTES {
        let cut = boundary_up_to(after, MAX_SUFFIX_BYTES as int);
        lemma_boundary_up_to(after, MAX_SUFFIX_BYTES as int);
        valid_utf8_split(after, cut);
        let head = suffix_head(after);
        assert(head =~= after.subrange(0, cut));
        head.index_of_last_ensures(NEWLINE);
        if let Some(i) = head.index_of_last(NEWLINE) {
            lemma_boundary_after_ascii(head, i);
            valid_utf8_split(head, i + 1);
            assert(head.take(i + 1) =~= head.subrange(0, i + 1));
        }
    }
}

/// The prompt, as bytes, is both windows between the three markers, so that it
/// never exceeds the two limits by more than the markers.
pub proof fn prompt_shows_the_windows(text: Seq<char>, offset: int)
    requires
        buffer::on_boundary(text, offset),
    ensures
        encode_utf8(fim_prompt(text, offset)) == encode_utf8("<|fim_prefix|>"@) + prefix_window(
            buffer::bytes_before(text, offset),
        ) + encode_utf8("<|fim_suffix|>"@) + suffix_window(buffer::bytes_after(text, offset))
            + encode_utf8("<|fim_middle|>"@),
        encode_utf8(fim_prompt(text, offset)).len() <= MAX_PREFIX_BYTES + MAX_SUFFIX_BYTES
            + encode_utf8("<|fim_prefix|>"@ + "<|fim_suffix|>"@ + "<|fim_middle|>"@).len(),
{
    lemma_windows_are_valid(text, offset);
    let (a, b, c) = ("<|fim_prefix|>"@, "<|fim_suffix|>"@, "<|fim_middle|>"@);
    let before = buffer::bytes_before(text, offset);
    let after = buffer::bytes_after(text, offset);
    let prefix = decode_utf8(prefix_window(before));
    let suffix = decode_utf8(suffix_window(after));
    decode_utf8_encode_utf8(prefix_window(before));
    decode_utf8_encode_utf8(suffix_window(after));
    text::lemma_encode_concat(a, prefix);
    text::lemma_encode_concat(a + prefix, b);
    text::lemma_encode_concat(a + prefix + b, suffix);
    text::lemma_encode_concat(a + prefix + b + suffix, c);
    text::lemma_encode_concat(a, b);
    text::lemma_encode_concat(a + b, c);
    prefix_window_is_bounded(before);
    suffix_window_is_bounded(after);
}

/// The prompt for a cursor between two texts shows the end of the one and the
/// beginning of the other between the three markers. Of either it shows all that
/// is within the limit, cut at a line break where it is cut at all and there is one.
pub proof fn prompt_shows_the_lines_around_the_cursor(before: Seq<char>, after: Seq<char>) -> (shown: (
    Seq<char>,
    Seq<char>,
))
    ensures
        fim_prompt(before + after, encode_utf8(before).len() as int) == "<|fim_prefix|>"@ + shown.0
            + "<|fim_suffix|>"@ + shown.1 + "<|fim_middle|>"@,
        ({
            let bytes = encode_utf8(before);
            let window = encode_utf8(shown.0);
            &&& window.len() <= bytes.len()
            &&& window == bytes.skip(bytes.len() - window.len())
            &&& bytes.len() <= 4096 ==> window == bytes
            &&& bytes.len() > 4096 && (exists|m: int|
                bytes.len() - 4096 <= m < bytes.len() && #[trigger] bytes[m] == 10) ==> {
                &&& window.len() < 4096
                &&& bytes[bytes.len() - window.len() - 1] == 10
                &&& forall|m: int|
                    bytes.len() - 4096 <= m < bytes.len() - window.len() - 1 ==> #[trigger] bytes[m] != 10
            }
            &&& bytes.len() > 4096 && (forall|m: int|
                bytes.len() - 4096 <= m < bytes.len() ==> #[trigger] bytes[m] != 10) ==> {
                &&& window.len() <= 4096
                &&& is_char_boundary(bytes, bytes.len() - window.len())
                &&& forall|m: int|
                    bytes.len() - 4096 <= m < bytes.len() - window.len() ==> !#[trigger] is_char_boundary(
                        bytes,
                        m,
                    )
            }
        }),
        ({
            let bytes = encode_utf8(after);
            let window = encode_utf8(shown.1);
            &&& window.len() <= bytes.len()
            &&& window == bytes.take(window.len() as int)
            &&& bytes.len() <= 1024 ==> window == bytes
            &&& bytes.len() > 1024 && (exists|m: int| 0 <= m < 1024 && #[trigger] bytes[m] == 10) ==> {
                &&& 0 < window.len() <= 1024
                &&& bytes[window.len() - 1] == 10
                &&& forall|m: int| window.len() <= m < 1024 ==> #[trigger] bytes[m] != 10
            }
            &&& bytes.len() > 1024 && (forall|m: int| 0 <= m < 1024 ==> #[trigger] bytes[m] != 10) ==> {
                &&& window.len() <= 1024
                &&& is_char_boundary(bytes, window.len() as int)
                &&& forall|m: int| window.len() < m <= 1024 ==> !#[trigger] is_char_boundary(bytes, m)
            }
        }),
{
    let text = before + after;
    let offset = encode_utf8(before).len() as int;
    text::lemma_encode_concat(before, after);
    assert(buffer::bytes_before(text, offset) =~= encode_utf8(before));
    assert(buffer::bytes_after(text, offset) =~= encode_utf8(after));
    text::lemma_boundary_between(before, after);
    lemma_windows_are_valid(text, offset);
    prefix_starts_behind_the_first_line_break(encode_utf8(before));
    suffix_ends_with_the_last_line_break(encode_utf8(after));
    decode_utf8_encode_utf8(prefix_window(encode_utf8(before)));
    decode_utf8_encode_utf8(suffix_window(encode_utf8(after)));
    (
        decode_utf8(prefix_window(encode_utf8(before))),
        decode_utf8(suffix_window(encode_utf8(after))),
    )
}

/// What a string writes to a hasher when it is hashed.
pub uninterp spec fn str_hash_writes(text: Seq<char>) -> Seq<Seq<u8>>;

/// `<str as Hash>::hash` feeds the hasher with the string: what it writes
/// depends on the string alone.
#[verifier::external_body]
fn hash_text(text: &str, hasher: &mut DefaultHasher)
    ensures
        final(hasher)@ == old(hasher)@ + str_hash_writes(text@),
{
    text.hash(hasher)
}

/// The hash by which the completion of a prompt is found again.
pub open spec fn prompt_hash(prompt: Seq<char>) -> u64 {
    DefaultHasher::spec_finish(str_hash_writes(prompt))
}

/// The whole prompt is hashed: its hash is what a new hasher ends with that was
/// fed with every character of it, and nothing else. So two prompts have the same
/// hash only where the hasher does not tell them apart.
pub proof fn whole_prompt_is_hashed(prompt: Seq<char>, other: Seq<char>)
    ensures
        prompt_hash(prompt) == DefaultHasher::spec_finish(str_hash_writes(prompt)),
        prompt_hash(prompt) == prompt_hash(other) <==> DefaultHasher::spec_finish(
            str_hash_writes(prompt),
        ) == DefaultHasher::spec_finish(str_hash_writes(other)),
{
}

/// The hash of a prompt.
pub fn hash_of_prompt(prompt: &str) -> (hash: u64)
    ensures
        hash == prompt_hash(prompt@),
        hash == DefaultHasher::spec_finish(str_hash_writes(prompt@)),
{
    let mut hasher = DefaultHasher::new();
    hash_text(prompt, &mut hasher);
    assert(hasher@ =~= str_hash_writes(prompt@));
    hasher.finish()
}

} // verus!
