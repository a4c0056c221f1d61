//! Turning a completion into edits of the line that the cursor stands in.

use vstd::prelude::*;
use vstd::seq_lib::*;
use vstd::utf8::*;

use unicode_segmentation::UnicodeSegmentation;

use crate::buffer;
use crate::buffer::Bias;
use crate::buffer::BufferSnapshot;
use crate::buffer::CursorPosition;
use crate::text;

verus! {

/// Text to be inserted at a byte offset of a buffer.
#[derive(Debug, PartialEq, Eq)]
pub struct Edit {
    pub offset: usize,
    pub text: String,
}

/// The model of an `Edit`.
pub struct EditView {
    pub offset: int,
    pub text: Seq<char>,
}

impl EditView {
    /// The side on which both ends of the edit are anchored: they stay behind
    /// text that others insert exactly at the offset.
    pub open spec fn bias(self) -> Bias {
        Bias::Right
    }
}

impl Edit {
    /// The side on which both ends of the edit are to be anchored.
    pub fn bias(&self) -> (bias: Bias)
        ensures
            bias == self@.bias(),
            bias == Bias::Right,
    {
        Bias::Right
    }
}

impl View for Edit {
    type V = EditView;

    open spec fn view(&self) -> EditView {
        EditView { offset: self.offset as int, text: self.text@ }
    }
}

/// The models of the edits of a vector.
pub open spec fn views(edits: Seq<Edit>) -> Seq<EditView> {
    edits.map_values(|e: Edit| e@)
}

/// The characters of each of the pieces of a text.
pub open spec fn pieces(parts: Seq<&str>) -> Seq<Seq<char>> {
    parts.map_values(|p: &str| p@)
}

/// The insertions that lead from the pieces `existing`, which start at byte
/// `offset`, towards the pieces `completion`: every existing piece is matched
/// with the next equal piece of the completion, what lies between two matches
/// is inserted between them, and what is left of the completion is inserted
/// at the end. Where an existing piece has no match the insertions stop.
pub open spec fn insertions(
    completion: Seq<Seq<char>>,
    existing: Seq<Seq<char>>,
    offset: int,
) -> Seq<EditView>
    decreases existing.len(),
{
    if existing.len() == 0 {
        insertion(completion, offset)
    } else {
        match completion.index_of_first(existing[0]) {
            Some(k) => insertion(completion.take(k), offset) + insertions(
                completion.skip(k + 1),
                existing.skip(1),
                offset + encode_utf8(existing[0]).len(),
            ),
            None => Seq::empty(),
        }
    }
}

/// The insertion of `parts` at `offset`: none where there are no parts.
pub open spec fn insertion(parts: Seq<Seq<char>>, offset: int) -> Seq<EditView> {
    if parts.len() == 0 {
        Seq::empty()
    } else {
        seq![EditView { offset, text: parts.flatten() }]
    }
}

/// The text of the pieces from `from` up to `to`.
fn join(parts: &Vec<&str>, from: usize, to: usize) -> (joined: String)
    requires
        from <= to <= parts@.len(),
    ensures
        joined@ == pieces(parts@).subrange(from as int, to as int).flatten(),
{
    let mut joined = String::new();
    let mut i: usize = from;
    assert(pieces(parts@).subrange(from as int, from as int).flatten() =~= Seq::empty());
    while i < to
        invariant
            from <= i <= to <= parts@.len(),
            joined@ == pieces(parts@).subrange(from as int, i as int).flatten(),
        decreases to - i,
    {
        joined.append(parts[i]);
        proof {
            let done = pieces(parts@).subrange(from as int, i as int);
            done.lemma_flatten_push(parts@[i as int]@);
            assert(done.push(parts@[i as int]@) =~= pieces(parts@).subrange(
                from as int,
                i + 1,
            ));
        }
        i += 1;
    }
    joined
}

/// How many pieces from `from` on differ from `wanted` before the first equal
/// one.
fn position(parts: &Vec<&str>, from: usize, wanted: &str) -> (found: Option<usize>)
    requires
        from <= parts@.len(),
    ensures
        match found {
            Some(k) => pieces(parts@).skip(from as int).index_of_first(wanted@) == Some(k as int),
            None => pieces(parts@).skip(from as int).index_of_first(wanted@) is None,
        },
{
    let ghost rest = pieces(parts@).skip(from as int);
    proof {
        rest.index_of_first_ensures(wanted@);
    }
    let mut i: usize = from;
    while i < parts.len()
        invariant
            from <= i <= parts@.len(),
            rest == pieces(parts@).skip(from as int),
            forall|j: int| 0 <= j < i - from ==> rest[j] != wanted@,
        decreases parts@.len() - i,
    {
        assert(rest[i - from] == parts@[i as int]@);
        if text::same_text(parts[i], wanted) {
            proof {
                rest.index_of_first_ensures(wanted@);
                assert(rest.contains(wanted@));
            }
            return Some(i - from);
        }
        i += 1;
    }
    None
}

/// The insertions that lead from the `existing` pieces, which start at byte
/// `offset` of the buffer, towards the pieces of the completion.
pub fn interleave(completion: &Vec<&str>, existing: &Vec<&str>, offset: usize) -> (edits: Vec<Edit>)
    requires
        offset + encode_utf8(pieces(existing@).flatten()).len() <= usize::MAX,
    ensures
        views(edits@) == insertions(pieces(completion@), pieces(existing@), offset as int),
        ({
            let expected = insertions(
                completion@.map_values(|p: &str| p@),
                existing@.map_values(|p: &str| p@),
                offset as int,
            );
            &&& edits@.len() == expected.len()
            &&& forall|i: int|
                0 <= i < expected.len() ==> (#[trigger] edits@[i]).offset == expected[i].offset
                    && edits@[i].text@ == expected[i].text
        }),
{
    let ghost wanted = pieces(completion@);
    let ghost present = pieces(existing@);
    let mut edits: Vec<Edit> = Vec::new();
    let mut at: usize = offset;
    let mut i: usize = 0;
    let mut j: usize = 0;
    proof {
        assert(wanted.skip(0) =~= wanted);
        assert(present.skip(0) =~= present);
        assert(views(edits@) =~= Seq::empty());
    }
    while i < completion.len() && j < existing.len()
        invariant
            i <= completion@.len(),
            j <= existing@.len(),
            wanted == pieces(completion@),
            present == pieces(existing@),
            at + encode_utf8(present.skip(j as int).flatten()).len() <= usize::MAX,
            insertions(wanted, present, offset as int) == views(edits@) + insertions(
                wanted.skip(i as int),
                present.skip(j as int),
                at as int,
            ),
        decreases existing@.len() - j,
    {
        let ghost before = edits@;
        let ghost rest = wanted.skip(i as int);
        let ghost left = present.skip(j as int);
        assert(left[0] == existing@[j as int]@);
        match position(completion, i, existing[j]) {
            Some(k) => {
                proof {
                    rest.index_of_first_ensures(left[0]);
                    assert(rest.take(k as int) =~= wanted.subrange(i as int, i + k));
                    assert(rest.skip(k + 1) =~= wanted.skip(i + k + 1));
                    assert(left.skip(1) =~= present.skip(j + 1));
                    assert(left.drop_first() =~= left.skip(1));
                    text::lemma_encode_concat(left[0], left.skip(1).flatten());
                }
                if k != 0 {
                    let inserted = join(completion, i, i + k);
                    edits.push(Edit { offset: at, text: inserted });
                }
                proof {
                    assert(views(edits@) =~= views(before) + insertion(
                        rest.take(k as int),
                        at as int,
                    ));
                }
                i += k + 1;
                j += 1;
                at += existing[j - 1].as_bytes().len();
            },
            None => {
                assert(views(edits@) + Seq::<EditView>::empty() =~= views(edits@));
                return edits;
            },
        }
    }
    let ghost before = edits@;
    if j == existing.len() && i < completion.len() {
        let inserted = join(completion, i, completion.len());
        assert(wanted.skip(i as int) =~= wanted.subrange(i as int, wanted.len() as int));
        edits.push(Edit { offset: at, text: inserted });
        assert(views(edits@) =~= views(before) + insertion(wanted.skip(i as int), at as int));
    } else {
        proof {
            let rest = wanted.skip(i as int);
            let left = present.skip(j as int);
            if left.len() > 0 {
                rest.index_of_first_ensures(left[0]);
            }
            assert(views(edits@) + Seq::<EditView>::empty() =~= views(edits@));
        }
    }
    edits
}

/// How many pieces of the completion, and how many existing pieces, the
/// insertions cover before they stop.
pub open spec fn covered(completion: Seq<Seq<char>>, existing: Seq<Seq<char>>) -> (int, int)
    decreases existing.len(),
{
    if existing.len() == 0 {
        (completion.len() as int, 0)
    } else {
        match completion.index_of_first(existing[0]) {
            Some(k) => {
                let rest = covered(completion.skip(k + 1), existing.skip(1));
                (k + 1 + rest.0, 1 + rest.1)
            },
            None => (0, 0),
        }
    }
}

/// What becomes of `bytes` from byte `from` on when the edits, which are in
/// ascending order of their offsets, are made.
pub open spec fn apply_from(bytes: Seq<u8>, edits: Seq<EditView>, from: int) -> Seq<u8>
    decreases edits.len(),
{
    if edits.len() == 0 {
        bytes.subrange(from, bytes.len() as int)
    } else {
        bytes.subrange(from, edits[0].offset) + encode_utf8(edits[0].text) + apply_from(
            bytes,
            edits.skip(1),
            edits[0].offset,
        )
    }
}

/// What becomes of `bytes` when the edits are made.
pub open spec fn apply_edits(bytes: Seq<u8>, edits: Seq<EditView>) -> Seq<u8> {
    apply_from(bytes, edits, 0)
}

/// Whether the pieces of `part` occur in `whole` in the same order, at the
/// indices `at`.
pub open spec fn embeds_at(part: Seq<Seq<char>>, whole: Seq<Seq<char>>, at: Seq<int>) -> bool {
    &&& at.len() == part.len()
    &&& forall|i: int| 0 <= i < at.len() ==> 0 <= #[trigger] at[i] < whole.len() && whole[at[i]] == part[i]
    &&& forall|i: int, j: int| 0 <= i < j < at.len() ==> at[i] < at[j]
}

/// Whether the pieces of `part` occur in `whole` in the same order.
pub open spec fn is_subsequence(part: Seq<Seq<char>>, whole: Seq<Seq<char>>) -> bool {
    exists|at: Seq<int>| embeds_at(part, whole, at)
}

/// The counts of `covered` are counts of pieces.
pub proof fn lemma_covered_bounds(completion: Seq<Seq<char>>, existing: Seq<Seq<char>>)
    ensures
        0 <= covered(completion, existing).0 <= completion.len(),
        0 <= covered(completion, existing).1 <= existing.len(),
    decreases existing.len(),
{
    if existing.len() > 0 {
        completion.index_of_first_ensures(existing[0]);
        if let Some(k) = completion.index_of_first(existing[0]) {
            lemma_covered_bounds(completion.skip(k + 1), existing.skip(1));
        }
    }
}

/// A subsequence whose first piece is matched with the first equal piece leaves
/// a subsequence of what follows that.
proof fn lemma_subsequence_rest(part: Seq<Seq<char>>, whole: Seq<Seq<char>>)
    requires
        is_subsequence(part, whole),
        part.len() > 0,
    ensures
        whole.index_of_first(part[0]) matches Some(k) && 0 <= k < whole.len() && whole[k] == part[0]
            && is_subsequence(part.skip(1), whole.skip(k + 1)),
{
    let at = choose|at: Seq<int>| embeds_at(part, whole, at);
    whole.index_of_first_ensures(part[0]);
    assert(whole[at[0]] == part[0]);
    let k = whole.index_of_first(part[0]).unwrap();
    let rest = whole.skip(k + 1);
    let at_rest = Seq::new((at.len() - 1) as nat, |i: int| at[i + 1] - (k + 1));
    assert(embeds_at(part.skip(1), rest, at_rest)) by {
        assert forall|i: int| 0 <= i < at_rest.len() implies 0 <= #[trigger] at_rest[i]
            < rest.len() && rest[at_rest[i]] == part.skip(1)[i] by {
            assert(at[0] < at[i + 1]);
            assert(whole[at[i + 1]] == part[i + 1]);
        }
    }
}

/// A piece in front of a subsequence makes a subsequence of everything from an
/// equal piece on.
proof fn lemma_subsequence_extended(part: Seq<Seq<char>>, whole: Seq<Seq<char>>, k: int)
    requires
        part.len() > 0,
        0 <= k < whole.len(),
        whole[k] == part[0],
        is_subsequence(part.skip(1), whole.skip(k + 1)),
    ensures
        is_subsequence(part, whole),
{
    let rest = whole.skip(k + 1);
    let at_rest = choose|at: Seq<int>| #[trigger] embeds_at(part.skip(1), rest, at);
    let at = Seq::new(
        part.len(),
        |i: int|
            if i == 0 {
                k
            } else {
                at_rest[i - 1] + k + 1
            },
    );
    assert forall|i: int| 0 <= i < at.len() implies 0 <= #[trigger] at[i] < whole.len()
        && whole[at[i]] == part[i] by {
        if i > 0 {
            assert(rest[at_rest[i - 1]] == part.skip(1)[i - 1]);
        }
    }
    assert forall|i: int, j: int| 0 <= i < j < at.len() implies at[i] < at[j] by {
        assert(0 <= at_rest[j - 1]);
        if i > 0 {
            assert(at_rest[i - 1] < at_rest[j - 1]);
        }
    }
    assert(embeds_at(part, whole, at));
}

/// Where the existing pieces occur in the completion in order, the insertions
/// cover all of both.
pub proof fn lemma_subsequence_is_covered(completion: Seq<Seq<char>>, existing: Seq<Seq<char>>)
    requires
        is_subsequence(existing, completion),
    ensures
        covered(completion, existing) == (completion.len() as int, existing.len() as int),
    decreases existing.len(),
{
    if existing.len() > 0 {
        lemma_subsequence_rest(existing, completion);
        let k = completion.index_of_first(existing[0]).unwrap();
        lemma_subsequence_is_covered(completion.skip(k + 1), existing.skip(1));
    }
}

/// The covered existing pieces are the longest beginning of the existing pieces
/// that occurs in the completion in order. Where they are not all of them, the
/// covered pieces of the completion are its shortest beginning in which they
/// occur so; else they are all of its pieces.
pub proof fn covered_is_the_longest_match(completion: Seq<Seq<char>>, existing: Seq<Seq<char>>)
    ensures
        ({
            let (i, j) = covered(completion, existing);
            &&& 0 <= i <= completion.len()
            &&& 0 <= j <= existing.len()
            &&& is_subsequence(existing.take(j), completion.take(i))
            &&& is_subsequence(existing.take(j), completion)
            &&& forall|m: int|
                0 <= m <= existing.len() && is_subsequence(#[trigger] existing.take(m), completion)
                    ==> m <= j
            &&& j < existing.len() ==> forall|m: int|
                0 <= m <= completion.len() && is_subsequence(
                    existing.take(j),
                    #[trigger] completion.take(m),
                ) ==> i <= m
            &&& j == existing.len() ==> i == completion.len()
        }),
    decreases existing.len(),
{
    let (i, j) = covered(completion, existing);
    lemma_covered_bounds(completion, existing);
    if existing.len() == 0 || completion.index_of_first(existing[0]) is None {
        assert(embeds_at(existing.take(0), completion.take(i), Seq::empty()));
        assert(embeds_at(existing.take(0), completion, Seq::empty()));
        assert forall|m: int|
            0 <= m <= existing.len() && is_subsequence(
                #[trigger] existing.take(m),
                completion,
            ) implies m <= j by {
            if m > 0 {
                lemma_subsequence_rest(existing.take(m), completion);
            }
        }
    } else {
        let k = completion.index_of_first(existing[0]).unwrap();
        completion.index_of_first_ensures(existing[0]);
        let rest = completion.skip(k + 1);
        let left = existing.skip(1);
        let (ri, rj) = covered(rest, left);
        covered_is_the_longest_match(rest, left);
        lemma_covered_bounds(rest, left);
        assert(existing.take(j).skip(1) =~= left.take(rj));
        assert(completion.take(i).skip(k + 1) =~= rest.take(ri));
        lemma_subsequence_extended(existing.take(j), completion.take(i), k);
        lemma_subsequence_extended(existing.take(j), completion, k);
        assert forall|m: int|
            0 <= m <= existing.len() && is_subsequence(
                #[trigger] existing.take(m),
                completion,
            ) implies m <= j by {
            if m > 0 {
                lemma_subsequence_rest(existing.take(m), completion);
                assert(existing.take(m).skip(1) =~= left.take(m - 1));
            }
        }
        if j < existing.len() {
            assert forall|m: int|
                0 <= m <= completion.len() && is_subsequence(
                    existing.take(j),
                    #[trigger] completion.take(m),
                ) implies i <= m by {
                let part = completion.take(m);
                lemma_subsequence_rest(existing.take(j), part);
                part.index_of_first_ensures(existing[0]);
                let n = part.index_of_first(existing[0]).unwrap();
                assert(completion[n] == existing[0]);
                assert(n == k) by {
                    if k < n {
                        assert(part[k] == existing[0]);
                    }
                }
                assert(part.skip(k + 1) =~= rest.take(m - k - 1));
            }
        }
    }
}

/// Where two parts stand in `bytes` one after the other, each stands at its place.
proof fn lemma_subrange_splits(bytes: Seq<u8>, offset: int, a: Seq<u8>, b: Seq<u8>)
    requires
        0 <= offset,
        offset + a.len() + b.len() <= bytes.len(),
        bytes.subrange(offset, offset + a.len() + b.len()) == a + b,
    ensures
        bytes.subrange(offset, offset + a.len()) == a,
        bytes.subrange(offset + a.len(), offset + a.len() + b.len()) == b,
{
    let both = bytes.subrange(offset, offset + a.len() + b.len());
    assert(both.subrange(0, a.len() as int) =~= a);
    assert(both.subrange(a.len() as int, (a.len() + b.len()) as int) =~= b);
    assert(bytes.subrange(offset, offset + a.len()) =~= both.subrange(0, a.len() as int));
    assert(bytes.subrange(offset + a.len(), offset + a.len() + b.len()) =~= both.subrange(
        a.len() as int,
        (a.len() + b.len()) as int,
    ));
}

/// The encoding of the first pieces, split around piece `k`.
proof fn lemma_encode_around(pieces: Seq<Seq<char>>, k: int, more: int)
    requires
        0 <= k < pieces.len(),
        0 <= more <= pieces.len() - k - 1,
    ensures
        encode_utf8(pieces.take(k + 1 + more).flatten()) == encode_utf8(pieces.take(k).flatten())
            + encode_utf8(pieces[k]) + encode_utf8(pieces.skip(k + 1).take(more).flatten()),
{
    let first = pieces.take(k);
    let rest = pieces.skip(k + 1).take(more);
    assert(pieces.take(k + 1 + more) =~= first + (seq![pieces[k]] + rest));
    lemma_flatten_concat(first, seq![pieces[k]] + rest);
    lemma_flatten_concat(seq![pieces[k]], rest);
    seq![pieces[k]].lemma_flatten_one_element();
    text::lemma_encode_concat(first.flatten(), pieces[k] + rest.flatten());
    text::lemma_encode_concat(pieces[k], rest.flatten());
    assert(encode_utf8(pieces.take(k + 1 + more).flatten()) =~= encode_utf8(first.flatten())
        + encode_utf8(pieces[k]) + encode_utf8(rest.flatten()));
}

/// Making the insertions turns the existing pieces into the covered pieces of
/// the completion followed by the existing pieces that are not covered, and
/// leaves every other byte as it is.
#[verifier::rlimit(30)]
pub proof fn lemma_insertions_applied(
    bytes: Seq<u8>,
    completion: Seq<Seq<char>>,
    existing: Seq<Seq<char>>,
    offset: int,
    from: int,
)
    requires
        0 <= from <= offset,
        offset + encode_utf8(existing.flatten()).len() <= bytes.len(),
        bytes.subrange(offset, offset + encode_utf8(existing.flatten()).len()) == encode_utf8(
            existing.flatten(),
        ),
    ensures
        ({
            let (i, j) = covered(completion, existing);
            apply_from(bytes, insertions(completion, existing, offset), from) == bytes.subrange(
                from,
                offset,
            ) + encode_utf8(completion.take(i).flatten()) + encode_utf8(existing.skip(j).flatten())
                + bytes.subrange(
                offset + encode_utf8(existing.flatten()).len(),
                bytes.len() as int,
            )
        }),
    decreases existing.len(),
{
    let edits = insertions(completion, existing, offset);
    let end = offset + encode_utf8(existing.flatten()).len();
    let (i, j) = covered(completion, existing);
    let goal = bytes.subrange(from, offset) + encode_utf8(completion.take(i).flatten())
        + encode_utf8(existing.skip(j).flatten()) + bytes.subrange(end, bytes.len() as int);
    if existing.len() == 0 {
        assert(completion.take(i) =~= completion);
        assert(existing.skip(0).flatten() =~= Seq::empty());
        if completion.len() == 0 {
            assert(completion.flatten() =~= Seq::empty());
            assert(apply_from(bytes, edits, from) =~= goal);
        } else {
            assert(edits.skip(1) =~= Seq::empty());
            assert(apply_from(bytes, edits.skip(1), offset) == bytes.subrange(
                offset,
                bytes.len() as int,
            ));
            assert(apply_from(bytes, edits, from) =~= goal);
        }
    } else {
        completion.index_of_first_ensures(existing[0]);
        assert(existing.drop_first() =~= existing.skip(1));
        match completion.index_of_first(existing[0]) {
            None => {
                assert(completion.take(0).flatten() =~= Seq::empty());
                assert(existing.skip(0) =~= existing);
                assert(apply_from(bytes, edits, from) =~= goal);
            },
            Some(k) => {
                let head = existing[0];
                let rest = completion.skip(k + 1);
                let left = existing.skip(1);
                let next = offset + encode_utf8(head).len();
                text::lemma_encode_concat(head, left.flatten());
                assert(existing.flatten() =~= head + left.flatten());
                lemma_subrange_splits(bytes, offset, encode_utf8(head), encode_utf8(left.flatten()));
                lemma_covered_bounds(rest, left);
                let (ri, rj) = covered(rest, left);
                assert(existing.skip(j) =~= left.skip(rj));
                let tail = encode_utf8(rest.take(ri).flatten()) + encode_utf8(
                    existing.skip(j).flatten(),
                ) + bytes.subrange(end, bytes.len() as int);
                lemma_encode_around(completion, k, ri);
                let more = insertions(rest, left, next);
                if k == 0 {
                    assert(edits =~= more);
                    lemma_insertions_applied(bytes, rest, left, next, from);
                    assert(completion.take(0).flatten() =~= Seq::empty());
                    assert(bytes.subrange(from, next) =~= bytes.subrange(from, offset)
                        + encode_utf8(head));
                    assert(apply_from(bytes, edits, from) =~= goal);
                } else {
                    assert(edits.skip(1) =~= more);
                    lemma_insertions_applied(bytes, rest, left, next, offset);
                    assert(apply_from(bytes, more, offset) =~= encode_utf8(head) + tail);
                    assert(apply_from(bytes, edits, from) =~= goal);
                }
            },
        }
    }
}

/// Every insertion lies within the existing pieces, and each but the first
/// lies behind the one before it, as long as no existing piece is empty. Where an
/// existing piece has no match every insertion lies before the end of the pieces
/// that precede it.
pub proof fn lemma_insertions_ascend(
    completion: Seq<Seq<char>>,
    existing: Seq<Seq<char>>,
    offset: int,
)
    requires
        forall|i: int| 0 <= i < existing.len() ==> #[trigger] existing[i].len() > 0,
    ensures
        forall|i: int|
            0 <= i < insertions(completion, existing, offset).len() ==> {
                &&& offset <= (#[trigger] insertions(completion, existing, offset)[i]).offset
                &&& insertions(completion, existing, offset)[i].offset <= offset + encode_utf8(
                    existing.flatten(),
                ).len()
            },
        forall|i: int, j: int|
            0 <= i < j < insertions(completion, existing, offset).len()
                ==> (#[trigger] insertions(completion, existing, offset)[i]).offset < (
            #[trigger] insertions(completion, existing, offset)[j]).offset,
        covered(completion, existing).1 < existing.len() ==> forall|i: int|
            0 <= i < insertions(completion, existing, offset).len() ==> (
            #[trigger] insertions(completion, existing, offset)[i]).offset < offset + encode_utf8(
                existing.take(covered(completion, existing).1).flatten(),
            ).len(),
    decreases existing.len(),
{
    if existing.len() > 0 {
        completion.index_of_first_ensures(existing[0]);
        if let Some(k) = completion.index_of_first(existing[0]) {
            let head = existing[0];
            let left = existing.skip(1);
            let rest = completion.skip(k + 1);
            let next = offset + encode_utf8(head).len();
            let first = insertion(completion.take(k), offset);
            let more = insertions(rest, left, next);
            let done = left.take(covered(rest, left).1);
            let end = offset + encode_utf8(
                existing.take(covered(completion, existing).1).flatten(),
            ).len();
            assert(existing.drop_first() =~= left);
            text::lemma_encode_concat(head, left.flatten());
            assert(encode_utf8(head).len() > 0);
            lemma_covered_bounds(rest, left);
            assert(end == next + encode_utf8(done.flatten()).len()) by {
                let all_done = existing.take(covered(completion, existing).1);
                assert(all_done.drop_first() =~= done);
                assert(all_done.flatten() =~= head + done.flatten());
                text::lemma_encode_concat(head, done.flatten());
            }
            lemma_insertions_ascend(rest, left, next);
            let all = insertions(completion, existing, offset);
            assert(all == first + more);
            assert forall|i: int| 0 <= i < all.len() implies offset <= (#[trigger] all[i]).offset
                && all[i].offset <= offset + encode_utf8(existing.flatten()).len() && (covered(
                completion,
                existing,
            ).1 < existing.len() ==> all[i].offset < end) by {
                if i >= first.len() {
                    assert(all[i] == more[i - first.len()]);
                }
            }
            assert forall|i: int, j: int| 0 <= i < j < all.len() implies (
            #[trigger] all[i]).offset < (#[trigger] all[j]).offset by {
                assert(all[j] == more[j - first.len()]);
                if i >= first.len() {
                    assert(all[i] == more[i - first.len()]);
                }
            }
        }
    }
}

/// Every insertion has a text, as long as no piece of the completion is empty.
pub proof fn lemma_insertions_have_text(
    completion: Seq<Seq<char>>,
    existing: Seq<Seq<char>>,
    offset: int,
)
    requires
        forall|i: int| 0 <= i < completion.len() ==> #[trigger] completion[i].len() > 0,
    ensures
        forall|i: int|
            0 <= i < insertions(completion, existing, offset).len() ==> (
            #[trigger] insertions(completion, existing, offset)[i]).text.len() > 0,
    decreases existing.len(),
{
    if existing.len() == 0 {
        if completion.len() > 0 {
            assert(completion.flatten() == completion[0] + completion.drop_first().flatten());
        }
    } else {
        completion.index_of_first_ensures(existing[0]);
        if let Some(k) = completion.index_of_first(existing[0]) {
            let between = completion.take(k);
            let rest = completion.skip(k + 1);
            let next = offset + encode_utf8(existing[0]).len();
            let first = insertion(between, offset);
            let more = insertions(rest, existing.skip(1), next);
            if k > 0 {
                assert(between[0] == completion[0]);
                assert(between.flatten() == between[0] + between.drop_first().flatten());
            }
            lemma_insertions_have_text(rest, existing.skip(1), next);
            let all = insertions(completion, existing, offset);
            assert(all == first + more);
            assert forall|i: int| 0 <= i < all.len() implies (#[trigger] all[i]).text.len() > 0 by {
                if i >= first.len() {
                    assert(all[i] == more[i - first.len()]);
                }
            }
        }
    }
}

/// Making an edit behind others puts its text between what the others make of
/// the bytes before it and the bytes behind it, which stay as they are. Making no
/// edit changes nothing.
pub proof fn edits_are_made_one_by_one(bytes: Seq<u8>, edits: Seq<EditView>, last: EditView)
    requires
        0 <= last.offset <= bytes.len(),
        forall|i: int| 0 <= i < edits.len() ==> 0 <= (#[trigger] edits[i]).offset <= last.offset,
        forall|i: int, j: int|
            0 <= i < j < edits.len() ==> (#[trigger] edits[i]).offset <= (
            #[trigger] edits[j]).offset,
    ensures
        apply_edits(bytes, Seq::empty()) == bytes,
        apply_edits(bytes, edits.push(last)) == apply_edits(bytes.take(last.offset), edits)
            + encode_utf8(last.text) + bytes.skip(last.offset),
{
    assert(bytes.subrange(0, bytes.len() as int) =~= bytes);
    lemma_last_edit(bytes, edits, last, 0);
}

/// What the last of some edits does, from byte `from` on.
proof fn lemma_last_edit(bytes: Seq<u8>, edits: Seq<EditView>, last: EditView, from: int)
    requires
        0 <= from <= last.offset <= bytes.len(),
        forall|i: int| 0 <= i < edits.len() ==> from <= (#[trigger] edits[i]).offset <= last.offset,
        forall|i: int, j: int|
            0 <= i < j < edits.len() ==> (#[trigger] edits[i]).offset <= (
            #[trigger] edits[j]).offset,
    ensures
        apply_from(bytes, edits.push(last), from) == apply_from(
            bytes.take(last.offset),
            edits,
            from,
        ) + encode_utf8(last.text) + bytes.skip(last.offset),
    decreases edits.len(),
{
    let all = edits.push(last);
    let head = bytes.take(last.offset);
    let goal = apply_from(head, edits, from) + encode_utf8(last.text) + bytes.skip(last.offset);
    if edits.len() == 0 {
        assert(all.skip(1) =~= Seq::empty());
        assert(head.subrange(from, head.len() as int) =~= bytes.subrange(from, last.offset));
        assert(bytes.subrange(last.offset, bytes.len() as int) =~= bytes.skip(last.offset));
        assert(apply_from(bytes, all.skip(1), last.offset) == bytes.skip(last.offset));
        assert(apply_from(bytes, all, from) =~= goal);
    } else {
        let first = edits[0];
        assert(all[0] == first);
        assert(all.skip(1) =~= edits.skip(1).push(last));
        lemma_last_edit(bytes, edits.skip(1), last, first.offset);
        assert(head.subrange(from, first.offset) =~= bytes.subrange(from, first.offset));
        assert(apply_from(bytes, all, from) =~= goal);
    }
}

/// The insertions fill the gaps between the matches, and nothing else. Every
/// existing piece, up to the first that has none, is matched with the next equal
/// piece of the completion behind the match before it. What the completion holds
/// in front of a match is inserted right before the matched piece; and what it
/// holds behind the last match right behind that, where every piece has a match.
///
/// The indices of the matches in the completion are handed out, and for every gap
/// its insertion, if it is not empty.
pub proof fn insertions_fill_the_gaps(
    wanted: Seq<Seq<char>>,
    present: Seq<Seq<char>>,
    offset: int,
) -> (found: (Seq<int>, Seq<Seq<EditView>>))
    ensures
        ({
            let (at, gaps) = found;
            let end = if at.len() == 0 {
                0
            } else {
                at.last() + 1
            };
            &&& at.len() <= present.len()
            &&& forall|j: int|
                0 <= j < at.len() ==> 0 <= #[trigger] at[j] < wanted.len() && wanted[at[j]]
                    == present[j]
            &&& forall|i: int, j: int| 0 <= i < j < at.len() ==> at[i] < at[j]
            &&& forall|j: int, x: int|
                0 <= j < at.len() && (j == 0 || at[j - 1] < x) && 0 <= x < #[trigger] at[j]
                    ==> #[trigger] wanted[x] != present[j]
            &&& at.len() < present.len() ==> forall|x: int|
                end <= x < wanted.len() ==> #[trigger] wanted[x] != present[at.len() as int]
            &&& insertions(wanted, present, offset) == gaps.flatten()
            &&& gaps.len() == if at.len() == present.len() {
                at.len() + 1
            } else {
                at.len()
            }
            &&& forall|j: int|
                0 <= j < gaps.len() ==> #[trigger] gaps[j] == ({
                    let from = if j == 0 {
                        0
                    } else {
                        at[j - 1] + 1
                    };
                    let to = if j < at.len() {
                        at[j]
                    } else {
                        wanted.len() as int
                    };
                    if from == to {
                        Seq::empty()
                    } else {
                        seq![
                            EditView {
                                offset: offset + encode_utf8(present.take(j).flatten()).len(),
                                text: wanted.subrange(from, to).flatten(),
                            },
                        ]
                    }
                })
        }),
    decreases present.len(),
{
    if present.len() == 0 {
        let gaps = seq![insertion(wanted, offset)];
        gaps.lemma_flatten_one_element();
        assert(present.take(0).flatten() =~= Seq::empty());
        assert(wanted.subrange(0, wanted.len() as int) =~= wanted);
        (Seq::empty(), gaps)
    } else {
        wanted.index_of_first_ensures(present[0]);
        match wanted.index_of_first(present[0]) {
            None => {
                let gaps = Seq::<Seq<EditView>>::empty();
                assert(gaps.flatten() =~= Seq::empty());
                assert forall|x: int| 0 <= x < wanted.len() implies #[trigger] wanted[x]
                    != present[0] by {
                    if wanted[x] == present[0] {
                        assert(wanted.contains(present[0]));
                    }
                }
                (Seq::empty(), gaps)
            },
            Some(k) => {
                let rest = wanted.skip(k + 1);
                let left = present.skip(1);
                let next = offset + encode_utf8(present[0]).len();
                let (at_rest, gaps_rest) = insertions_fill_the_gaps(rest, left, next);
                let at = Seq::new(
                    at_rest.len() + 1,
                    |j: int|
                        if j == 0 {
                            k
                        } else {
                            at_rest[j - 1] + k + 1
                        },
                );
                let first = insertion(wanted.take(k), offset);
                let gaps = seq![first] + gaps_rest;
                assert(gaps.drop_first() =~= gaps_rest);
                assert(gaps.flatten() =~= first + gaps_rest.flatten());
                lemma_matches_shift(wanted, present, k, at_rest, at);
                lemma_gaps_shift(wanted, present, offset, k, at_rest, gaps_rest, at, gaps);
                (at, gaps)
            },
        }
    }
}

/// What holds of the matches behind the first one holds, moved by it, of all.
proof fn lemma_matches_shift(
    wanted: Seq<Seq<char>>,
    present: Seq<Seq<char>>,
    k: int,
    at_rest: Seq<int>,
    at: Seq<int>,
)
    requires
        present.len() > 0,
        0 <= k < wanted.len(),
        wanted[k] == present[0],
        forall|x: int| 0 <= x < k ==> wanted[x] != present[0],
        at_rest.len() < present.len(),
        forall|j: int|
            0 <= j < at_rest.len() ==> 0 <= #[trigger] at_rest[j] < wanted.len() - k - 1
                && wanted[at_rest[j] + k + 1] == present[j + 1],
        forall|i: int, j: int| 0 <= i < j < at_rest.len() ==> at_rest[i] < at_rest[j],
        forall|j: int, x: int|
            0 <= j < at_rest.len() && (j == 0 || at_rest[j - 1] < x) && 0 <= x
                < #[trigger] at_rest[j] ==> #[trigger] wanted.skip(k + 1)[x] != present[j + 1],
        at_rest.len() + 1 < present.len() ==> forall|x: int|
            (at_rest.len() == 0 || at_rest.last() < x) && 0 <= x < wanted.len() - k - 1
                ==> #[trigger] wanted.skip(k + 1)[x] != present[(at_rest.len() + 1) as int],
        at.len() == at_rest.len() + 1,
        forall|j: int|
            0 <= j < at.len() ==> #[trigger] at[j] == if j == 0 {
                k
            } else {
                at_rest[j - 1] + k + 1
            },
    ensures
        forall|j: int|
            0 <= j < at.len() ==> 0 <= #[trigger] at[j] < wanted.len() && wanted[at[j]]
                == present[j],
        forall|i: int, j: int| 0 <= i < j < at.len() ==> at[i] < at[j],
        forall|j: int, x: int|
            0 <= j < at.len() && (j == 0 || at[j - 1] < x) && 0 <= x < #[trigger] at[j]
                ==> #[trigger] wanted[x] != present[j],
        at.len() < present.len() ==> forall|x: int|
            at.last() < x < wanted.len() ==> #[trigger] wanted[x] != present[at.len() as int],
{
    let rest = wanted.skip(k + 1);
    assert forall|j: int, x: int|
        0 <= j < at.len() && (j == 0 || at[j - 1] < x) && 0 <= x
            < #[trigger] at[j] implies #[trigger] wanted[x] != present[j] by {
        if j > 0 {
            assert(at[j] == at_rest[j - 1] + k + 1);
            assert(at[j - 1] >= k);
            assert(rest[x - k - 1] == wanted[x]);
            if j > 1 {
                assert(at[j - 1] == at_rest[j - 2] + k + 1);
            }
        }
    }
    if at.len() < present.len() {
        assert forall|x: int| at.last() < x < wanted.len() implies #[trigger] wanted[x]
            != present[at.len() as int] by {
            assert(at[at.len() - 1] == at.last());
            assert(rest[x - k - 1] == wanted[x]);
        }
    }
    assert forall|i: int, j: int| 0 <= i < j < at.len() implies at[i] < at[j] by {
        assert(at[j] == at_rest[j - 1] + k + 1);
        if i > 0 {
            assert(at[i] == at_rest[i - 1] + k + 1);
            assert(at_rest[i - 1] < at_rest[j - 1]);
        } else {
            assert(at[i] == k);
            assert(0 <= at_rest[j - 1]);
        }
    }
}

/// What holds of the gaps behind the first match holds, moved by it, of all.
proof fn lemma_gaps_shift(
    wanted: Seq<Seq<char>>,
    present: Seq<Seq<char>>,
    offset: int,
    k: int,
    at_rest: Seq<int>,
    gaps_rest: Seq<Seq<EditView>>,
    at: Seq<int>,
    gaps: Seq<Seq<EditView>>,
)
    requires
        present.len() > 0,
        0 <= k < wanted.len(),
        at_rest.len() < present.len(),
        forall|j: int|
            0 <= j < at_rest.len() ==> 0 <= #[trigger] at_rest[j] < wanted.len() - k - 1,
        forall|i: int, j: int| 0 <= i < j < at_rest.len() ==> at_rest[i] < at_rest[j],
        gaps_rest.len() <= at_rest.len() + 1,
        forall|j: int|
            0 <= j < gaps_rest.len() ==> #[trigger] gaps_rest[j] == ({
                let from = if j == 0 {
                    0
                } else {
                    at_rest[j - 1] + 1
                };
                let to = if j < at_rest.len() {
                    at_rest[j]
                } else {
                    wanted.len() - k - 1
                };
                if from == to {
                    Seq::empty()
                } else {
                    seq![
                        EditView {
                            offset: offset + encode_utf8(present[0]).len() + encode_utf8(
                                present.skip(1).take(j).flatten(),
                            ).len(),
                            text: wanted.skip(k + 1).subrange(from, to).flatten(),
                        },
                    ]
                }
            }),
        at.len() == at_rest.len() + 1,
        forall|j: int|
            0 <= j < at.len() ==> #[trigger] at[j] == if j == 0 {
                k
            } else {
                at_rest[j - 1] + k + 1
            },
        gaps == seq![insertion(wanted.take(k), offset)] + gaps_rest,
    ensures
        forall|j: int|
            0 <= j < gaps.len() ==> #[trigger] gaps[j] == ({
                let from = if j == 0 {
                    0
                } else {
                    at[j - 1] + 1
                };
                let to = if j < at.len() {
                    at[j]
                } else {
                    wanted.len() as int
                };
                if from == to {
                    Seq::empty()
                } else {
                    seq![
                        EditView {
                            offset: offset + encode_utf8(present.take(j).flatten()).len(),
                            text: wanted.subrange(from, to).flatten(),
                        },
                    ]
                }
            }),
{
    let rest = wanted.skip(k + 1);
    let left = present.skip(1);
    assert forall|j: int| 0 <= j < gaps.len() implies #[trigger] gaps[j] == ({
        let from = if j == 0 {
            0
        } else {
            at[j - 1] + 1
        };
        let to = if j < at.len() {
            at[j]
        } else {
            wanted.len() as int
        };
        if from == to {
            Seq::empty()
        } else {
            seq![
                EditView {
                    offset: offset + encode_utf8(present.take(j).flatten()).len(),
                    text: wanted.subrange(from, to).flatten(),
                },
            ]
        }
    }) by {
        if j == 0 {
            assert(at[0] == k);
            assert(wanted.take(k) =~= wanted.subrange(0, k));
            assert(present.take(0).flatten() =~= Seq::empty());
        } else {
            assert(gaps[j] == gaps_rest[j - 1]);
            let done = present.take(j);
            assert(done.drop_first() =~= left.take(j - 1));
            assert(done.flatten() =~= present[0] + left.take(j - 1).flatten());
            text::lemma_encode_concat(present[0], left.take(j - 1).flatten());
            let from = if j == 1 {
                0
            } else {
                at_rest[j - 2] + 1
            };
            let to = if j - 1 < at_rest.len() {
                at_rest[j - 1]
            } else {
                wanted.len() - k - 1
            };
            assert(at[j - 1] == from + k);
            assert(0 <= from <= to <= rest.len()) by {
                if j >= 2 && j - 1 < at_rest.len() {
                    assert(at_rest[j - 2] < at_rest[j - 1]);
                }
            }
            assert(wanted.subrange(from + k + 1, to + k + 1) =~= rest.subrange(from, to));
        }
    }
}

/// What `UnicodeSegmentation::graphemes` yields: the grapheme clusters of a
/// text, extended or legacy ones.
pub uninterp spec fn grapheme_clusters(text: Seq<char>, is_extended: bool) -> Seq<Seq<char>>;

/// `UnicodeSegmentation::graphemes`, collected into a vector. The clusters are
/// the consecutive slices between the boundaries that the crate finds, so that
/// together they are the text, and none of them is empty.
#[verifier::external_body]
fn graphemes(text: &str, is_extended: bool) -> (clusters: Vec<&str>)
    ensures
        pieces(clusters@) == grapheme_clusters(text@, is_extended),
        pieces(clusters@).flatten() == text@,
        forall|i: int| 0 <= i < clusters@.len() ==> #[trigger] clusters@[i]@.len() > 0,
{
    text.graphemes(is_extended).collect()
}

/// What stands in the cursor's line behind the cursor.
pub open spec fn rest_of_line(text: Seq<char>, offset: int) -> Seq<char> {
    text::before_first(decode_utf8(buffer::bytes_after(text, offset)), '\n')
}

/// The insertions that lead from the rest of the cursor's line towards the
/// completion, grapheme cluster by grapheme cluster.
pub open spec fn completion_edits(text: Seq<char>, offset: int, completion: Seq<char>) -> Seq<
    EditView,
> {
    insertions(
        grapheme_clusters(completion, true),
        grapheme_clusters(rest_of_line(text, offset), true),
        offset,
    )
}

/// What becomes of `text` where its bytes from `offset` to the end of the line
/// are replaced by those of `line`.
pub open spec fn with_rest_of_line(text: Seq<char>, offset: int, line: Seq<char>) -> Seq<u8> {
    buffer::bytes_before(text, offset) + encode_utf8(line) + buffer::bytes_after(
        text,
        offset + encode_utf8(rest_of_line(text, offset)).len(),
    )
}

/// What the rest of the cursor's line becomes where the insertions towards the
/// completion are made: the covered clusters of the completion, then the
/// clusters of the line that are not covered.
pub open spec fn predicted_line(text: Seq<char>, offset: int, completion: Seq<char>) -> Seq<char> {
    let wanted = grapheme_clusters(completion, true);
    let present = grapheme_clusters(rest_of_line(text, offset), true);
    let (i, j) = covered(wanted, present);
    wanted.take(i).flatten() + present.skip(j).flatten()
}

/// Whether the clusters of the rest of the cursor's line occur in the completion
/// in the same order.
pub open spec fn line_occurs_in(text: Seq<char>, offset: int, completion: Seq<char>) -> bool {
    is_subsequence(
        grapheme_clusters(rest_of_line(text, offset), true),
        grapheme_clusters(completion, true),
    )
}

/// Whether a text is its grapheme clusters one after the other, none of them
/// empty.
pub open spec fn splits_into_clusters(text: Seq<char>) -> bool {
    let clusters = grapheme_clusters(text, true);
    &&& clusters.flatten() == text
    &&& forall|i: int| 0 <= i < clusters.len() ==> #[trigger] clusters[i].len() > 0
}

/// Whether the edits are insertions of some text each, in ascending order,
/// between the cursor and the end of its line, anchored to the right; and all of
/// them before the end of the matched clusters, where a cluster of the line has
/// no match in the completion.
pub open spec fn well_placed(
    edits: Seq<EditView>,
    text: Seq<char>,
    offset: int,
    completion: Seq<char>,
) -> bool {
    let wanted = grapheme_clusters(completion, true);
    let present = grapheme_clusters(rest_of_line(text, offset), true);
    let matched = covered(wanted, present).1;
    &&& forall|i: int| 0 <= i < edits.len() ==> (#[trigger] edits[i]).text.len() > 0
    &&& forall|i: int| 0 <= i < edits.len() ==> (#[trigger] edits[i]).bias() == Bias::Right
    &&& forall|i: int|
        0 <= i < edits.len() ==> offset <= (#[trigger] edits[i]).offset <= offset + encode_utf8(
            rest_of_line(text, offset),
        ).len()
    &&& forall|i: int, j: int|
        0 <= i < j < edits.len() ==> (#[trigger] edits[i]).offset < (#[trigger] edits[j]).offset
    &&& matched < present.len() ==> forall|i: int|
        0 <= i < edits.len() ==> (#[trigger] edits[i]).offset < offset + encode_utf8(
            present.take(matched).flatten(),
        ).len()
}

/// The text of a buffer as it would be once the edits are made.
#[derive(Debug, PartialEq, Eq)]
pub struct EditPreview {
    pub text: String,
}

/// A prediction of the user's next edits.
#[derive(Debug, PartialEq, Eq)]
pub enum EditPrediction {
    /// Insertions into the buffer that the cursor stands in.
    Local { id: Option<String>, edits: Vec<Edit>, edit_preview: Option<EditPreview> },
}

impl View for EditPrediction {
    type V = Seq<EditView>;

    open spec fn view(&self) -> Seq<EditView> {
        match self {
            EditPrediction::Local { edits, .. } => views(edits@),
        }
    }
}

/// The rest of the cursor's line, encoded, is what the text holds from the
/// cursor on.
proof fn lemma_rest_of_line(text: Seq<char>, offset: int)
    requires
        buffer::on_boundary(text, offset),
    ensures
        ({
            let line = encode_utf8(rest_of_line(text, offset));
            let end = offset + line.len();
            &&& 0 <= offset
            &&& end <= encode_utf8(text).len()
            &&& encode_utf8(text).subrange(offset, end) == line
            &&& !rest_of_line(text, offset).contains('\n')
            &&& end < encode_utf8(text).len() ==> encode_utf8(text)[end] == 10
        }),
{
    let bytes = encode_utf8(text);
    encode_utf8_valid_utf8(text);
    valid_utf8_split(bytes, offset);
    let after = buffer::bytes_after(text, offset);
    let rest = decode_utf8(after);
    decode_utf8_encode_utf8(after);
    rest.index_of_first_ensures('\n');
    let line = rest_of_line(text, offset);
    assert(rest =~= line + rest.skip(line.len() as int));
    text::lemma_encode_concat(line, rest.skip(line.len() as int));
    assert(bytes.subrange(offset, offset + encode_utf8(line).len()) =~= after.subrange(
        0,
        encode_utf8(line).len() as int,
    ));
    assert(after.subrange(0, encode_utf8(line).len() as int) =~= encode_utf8(line));
    text::before_first_reaches_the_first(rest, '\n');
    let beyond = rest.skip(line.len() as int);
    if beyond.len() > 0 {
        assert(beyond[0] == '\n');
        assert(beyond =~= seq!['\n'] + beyond.skip(1));
        text::lemma_encode_concat(seq!['\n'], beyond.skip(1));
        is_ascii_chars_encode_utf8(seq!['\n']);
        assert(encode_utf8(seq!['\n'])[0] == 10);
        assert(encode_utf8(beyond)[0] == 10);
        assert(after[encode_utf8(line).len() as int] == 10);
    }
}

/// What a completion is matched with reaches from the cursor to the end of the
/// cursor's line: to the next line break, or to the end of the text.
pub proof fn line_reaches_to_its_end(before: Seq<char>, line: Seq<char>, beyond: Seq<char>)
    requires
        !line.contains('\n'),
        beyond.len() == 0 || beyond[0] == '\n',
    ensures
        rest_of_line(before + line + beyond, encode_utf8(before).len() as int) == line,
{
    let text = before + line + beyond;
    let offset = encode_utf8(before).len() as int;
    let after = line + beyond;
    assert(text =~= before + after);
    text::lemma_encode_concat(before, after);
    assert(buffer::bytes_after(text, offset) =~= encode_utf8(after));
    encode_utf8_decode_utf8(after);
    if beyond.len() == 0 {
        assert(after =~= line);
        text::text_before_first_is_found(line, '\n', beyond);
    } else {
        assert(after =~= line.push('\n') + beyond.skip(1));
        text::text_before_first_is_found(line, '\n', beyond.skip(1));
    }
}

/// The edits thread the clusters of the completion through those of all that
/// stands between the cursor and the end of its line, whatever stands before and
/// beyond. Lines beyond the cursor's do not matter, nor do those before it, but
/// for their length.
pub proof fn completion_is_threaded_through_the_line(
    before: Seq<char>,
    line: Seq<char>,
    beyond: Seq<char>,
    completion: Seq<char>,
)
    requires
        !line.contains('\n'),
        beyond.len() == 0 || beyond[0] == '\n',
    ensures
        completion_edits(
            before + line + beyond,
            encode_utf8(before).len() as int,
            completion,
        ) == insertions(
            grapheme_clusters(completion, true),
            grapheme_clusters(line, true),
            encode_utf8(before).len() as int,
        ),
{
    line_reaches_to_its_end(before, line, beyond);
}

/// What the edits make of the text: what stands before the cursor stays, and so
/// does everything from the end of the cursor's line on. Between them stand the
/// covered clusters of the completion, then the clusters of the line that are not
/// covered.
pub proof fn rest_of_line_is_completed(
    before: Seq<char>,
    line: Seq<char>,
    beyond: Seq<char>,
    completion: Seq<char>,
)
    requires
        !line.contains('\n'),
        beyond.len() == 0 || beyond[0] == '\n',
        grapheme_clusters(line, true).flatten() == line,
    ensures
        ({
            let text = before + line + beyond;
            let start = encode_utf8(before).len() as int;
            let wanted = grapheme_clusters(completion, true);
            let present = grapheme_clusters(line, true);
            let (i, j) = covered(wanted, present);
            let completed = wanted.take(i).flatten() + present.skip(j).flatten();
            &&& apply_edits(encode_utf8(text), completion_edits(text, start, completion))
                == encode_utf8(before + completed + beyond)
            &&& predicted_line(text, start, completion) == completed
            &&& with_rest_of_line(text, start, completed) == encode_utf8(
                before + completed + beyond,
            )
        }),
{
    let text = before + line + beyond;
    let bytes = encode_utf8(text);
    let start = encode_utf8(before).len() as int;
    let wanted = grapheme_clusters(completion, true);
    let present = grapheme_clusters(line, true);
    let (i, j) = covered(wanted, present);
    let head = wanted.take(i).flatten();
    let tail = present.skip(j).flatten();
    line_reaches_to_its_end(before, line, beyond);
    text::lemma_encode_concat(before + line, beyond);
    text::lemma_encode_concat(before, line);
    text::lemma_encode_concat(before + (head + tail), beyond);
    text::lemma_encode_concat(before, head + tail);
    text::lemma_encode_concat(head, tail);
    let end = start + encode_utf8(line).len();
    assert(bytes.subrange(start, end) =~= encode_utf8(line));
    assert(bytes.subrange(0, start) =~= encode_utf8(before));
    assert(bytes.subrange(end, bytes.len() as int) =~= encode_utf8(beyond));
    lemma_insertions_applied(bytes, wanted, present, start, 0);
    assert(apply_edits(bytes, completion_edits(text, start, completion)) =~= encode_utf8(
        before + (head + tail) + beyond,
    ));
    assert(with_rest_of_line(text, start, head + tail) =~= encode_utf8(
        before + (head + tail) + beyond,
    ));
}

/// Where the clusters between the cursor and the end of its line occur in the
/// completion in order, at the indices `at`, the completion takes their place: the
/// text becomes what stands before the cursor, the completion, and everything from
/// the end of the line on.
pub proof fn line_becomes_the_completion(
    before: Seq<char>,
    line: Seq<char>,
    beyond: Seq<char>,
    completion: Seq<char>,
    at: Seq<int>,
)
    requires
        !line.contains('\n'),
        beyond.len() == 0 || beyond[0] == '\n',
        grapheme_clusters(line, true).flatten() == line,
        grapheme_clusters(completion, true).flatten() == completion,
        at.len() == grapheme_clusters(line, true).len(),
        forall|i: int|
            0 <= i < at.len() ==> 0 <= #[trigger] at[i] < grapheme_clusters(completion, true).len()
                && grapheme_clusters(completion, true)[at[i]] == grapheme_clusters(line, true)[i],
        forall|i: int, j: int| 0 <= i < j < at.len() ==> at[i] < at[j],
    ensures
        ({
            let text = before + line + beyond;
            let start = encode_utf8(before).len() as int;
            &&& apply_edits(encode_utf8(text), completion_edits(text, start, completion))
                == encode_utf8(before + completion + beyond)
            &&& line_occurs_in(text, start, completion)
        }),
{
    let wanted = grapheme_clusters(completion, true);
    let present = grapheme_clusters(line, true);
    assert(embeds_at(present, wanted, at));
    line_reaches_to_its_end(before, line, beyond);
    rest_of_line_is_completed(before, line, beyond, completion);
    lemma_subsequence_is_covered(wanted, present);
    assert(wanted.take(wanted.len() as int) =~= wanted);
    assert(present.skip(present.len() as int).flatten() =~= Seq::empty());
    assert(completion + Seq::<char>::empty() =~= completion);
}

/// The prediction that completes the cursor's line with `completion_text`.
///
/// Where the rest of the line occurs in the completion in order, making the
/// edits replaces it by the completion; else the edits reach as far as the
/// first cluster of the rest that has no match, and leave what follows.
pub fn completion_from_text(
    snapshot: &BufferSnapshot,
    completion_text: &str,
    position: CursorPosition,
) -> (prediction: EditPrediction)
    requires
        snapshot.holds(position),
    ensures
        prediction@ == completion_edits(
            snapshot.text@,
            position.offset as int,
            completion_text@,
        ),
        apply_edits(encode_utf8(snapshot.text@), prediction@) == with_rest_of_line(
            snapshot.text@,
            position.offset as int,
            predicted_line(snapshot.text@, position.offset as int, completion_text@),
        ),
        line_occurs_in(snapshot.text@, position.offset as int, completion_text@)
            ==> predicted_line(snapshot.text@, position.offset as int, completion_text@)
            == completion_text@,
        well_placed(
            prediction@,
            snapshot.text@,
            position.offset as int,
            completion_text@,
        ),
        splits_into_clusters(completion_text@),
        splits_into_clusters(rest_of_line(snapshot.text@, position.offset as int)),
        ({
            let bytes = encode_utf8(snapshot.text@);
            let line = rest_of_line(snapshot.text@, position.offset as int);
            let end = position.offset + encode_utf8(line).len();
            &&& end <= bytes.len()
            &&& bytes.subrange(position.offset as int, end) == encode_utf8(line)
            &&& !line.contains('\n')
            &&& end < bytes.len() ==> bytes[end] == 10
        }),
        ({
            let expected = completion_edits(
                snapshot.text@,
                position.offset as int,
                completion_text@,
            );
            &&& prediction->edits@.len() == expected.len()
            &&& forall|i: int|
                0 <= i < expected.len() ==> (#[trigger] prediction->edits@[i]).offset
                    == expected[i].offset && prediction->edits@[i].text@ == expected[i].text
        }),
        prediction->id is None,
        prediction->edit_preview is None,
{
    let (_, rest) = snapshot.text.as_str().split_at(position.offset);
    let line = text::split_before(rest, '\n');
    // A slice is never longer than `usize::MAX`, so no offset overflows.
    let _length = snapshot.text.as_str().as_bytes().len();
    let ghost whole = snapshot.text@;
    let ghost offset = position.offset as int;
    proof {
        encode_utf8_decode_utf8(rest@);
        assert(rest@ == decode_utf8(buffer::bytes_after(whole, offset)));
        lemma_rest_of_line(whole, offset);
    }
    let completion_graphemes = graphemes(completion_text, true);
    let buffer_graphemes = graphemes(line, true);
    let edits = interleave(&completion_graphemes, &buffer_graphemes, position.offset);
    proof {
        let wanted = pieces(completion_graphemes@);
        let present = pieces(buffer_graphemes@);
        assert forall|i: int| 0 <= i < present.len() implies #[trigger] present[i].len() > 0 by {
            assert(buffer_graphemes@[i]@.len() > 0);
        }
        assert forall|i: int| 0 <= i < wanted.len() implies #[trigger] wanted[i].len() > 0 by {
            assert(completion_graphemes@[i]@.len() > 0);
        }
        lemma_insertions_have_text(wanted, present, offset);
        lemma_insertions_ascend(wanted, present, offset);
        lemma_insertions_applied(encode_utf8(whole), wanted, present, offset, 0);
        let (i, j) = covered(wanted, present);
        lemma_covered_bounds(wanted, present);
        text::lemma_encode_concat(wanted.take(i).flatten(), present.skip(j).flatten());
        assert(apply_edits(encode_utf8(whole), views(edits@)) =~= with_rest_of_line(
            whole,
            offset,
            wanted.take(i).flatten() + present.skip(j).flatten(),
        ));
        if is_subsequence(present, wanted) {
            lemma_subsequence_is_covered(wanted, present);
            assert(wanted.take(i) =~= wanted);
            assert(present.skip(j).flatten() =~= Seq::empty());
            assert(completion_text@ + Seq::<char>::empty() =~= completion_text@);
        }
    }
    EditPrediction::Local { id: None, edits, edit_preview: None }
}

} // verus!
