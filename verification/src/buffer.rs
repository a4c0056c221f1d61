//! What the provider reads of an editor's buffer.

use vstd::prelude::*;
use vstd::utf8::*;

use crate::text;

verus! {

broadcast use vstd::utf8::group_utf8_lib;

/// The identity of a buffer in the editor.
#[derive(Clone, Copy, Debug, PartialEq, Eq, Structural)]
pub struct EntityId {
    pub id: u64,
}

/// The side on which an anchor holds when text is inserted exactly there.
#[derive(Clone, Copy, Debug, PartialEq, Eq, Structural)]
pub enum Bias {
    Left,
    Right,
}

/// A position that moves along with the text around it. Two anchors are the
/// same position only if all their parts agree.
#[derive(Clone, Copy, Debug, PartialEq, Eq, Structural)]
pub struct Anchor {
    /// The insertion that the anchor belongs to.
    pub timestamp: u64,
    /// The byte offset within that insertion.
    pub offset: usize,
    pub bias: Bias,
    pub buffer_id: Option<u64>,
}

/// A cursor: its anchor, and the byte offset to which the anchor resolves in
/// the snapshot that it is handed over with.
#[derive(Clone, Copy, Debug, PartialEq, Eq, Structural)]
pub struct CursorPosition {
    pub anchor: Anchor,
    pub offset: usize,
}

/// The text of a buffer at one moment.
#[derive(Debug)]
pub struct BufferSnapshot {
    pub entity_id: EntityId,
    pub text: String,
}

/// Whether `offset` is a byte offset into `text` at which a character starts
/// or the text ends.
pub open spec fn on_boundary(text: Seq<char>, offset: int) -> bool {
    is_char_boundary(encode_utf8(text), offset)
}

/// The UTF-8 bytes of `text` before byte `offset`.
pub open spec fn bytes_before(text: Seq<char>, offset: int) -> Seq<u8> {
    encode_utf8(text).subrange(0, offset)
}

/// The UTF-8 bytes of `text` from byte `offset` on.
pub open spec fn bytes_after(text: Seq<char>, offset: int) -> Seq<u8> {
    encode_utf8(text).subrange(offset, encode_utf8(text).len() as int)
}

/// A cursor may stand wherever one text ends and another starts, and nowhere else.
/// The bytes before it are those of the one text, those after it those of the other.
pub proof fn cursor_stands_between_two_texts(before: Seq<char>, after: Seq<char>)
    ensures
        on_boundary(before + after, encode_utf8(before).len() as int),
        bytes_before(before + after, encode_utf8(before).len() as int) == encode_utf8(before),
        bytes_after(before + after, encode_utf8(before).len() as int) == encode_utf8(after),
{
    let text = before + after;
    let offset = encode_utf8(before).len() as int;
    text::lemma_boundary_between(before, after);
    text::lemma_encode_concat(before, after);
    assert(bytes_before(text, offset) =~= encode_utf8(before));
    assert(bytes_after(text, offset) =~= encode_utf8(after));
}

/// The two texts that a cursor stands between.
pub proof fn cursor_splits_the_text(text: Seq<char>, offset: int) -> (parts: (Seq<char>, Seq<char>))
    requires
        on_boundary(text, offset),
    ensures
        text == parts.0 + parts.1,
        offset == encode_utf8(parts.0).len(),
{
    let bytes = encode_utf8(text);
    valid_utf8_split(bytes, offset);
    decode_utf8_split(bytes, offset);
    let before = decode_utf8(bytes.subrange(0, offset));
    let after = decode_utf8(bytes.subrange(offset, bytes.len() as int));
    encode_utf8_decode_utf8(text);
    decode_utf8_encode_utf8(bytes.subrange(0, offset));
    assert(text == before + after);
    (before, after)
}

impl BufferSnapshot {
    /// Whether the cursor stands in this text, between two characters.
    pub open spec fn holds(&self, cursor: CursorPosition) -> bool {
        on_boundary(self.text@, cursor.offset as int)
    }
}

} // verus!
