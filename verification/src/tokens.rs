//! Splitting a text into tokens: its pieces between Unicode word
//! boundaries, without the pieces that are only white space.

use vstd::prelude::*;
use unicode_segmentation::UnicodeSegmentation;
use crate::text::chars_of;

verus! {

/// The pieces that `unicode_segmentation` finds in `text` between word
/// boundaries, in order.
pub uninterp spec fn word_pieces(text: Seq<char>) -> Seq<Seq<char>>;

/// Whether `c` has the Unicode property `White_Space`, as
/// `char::is_whitespace` reports it.
pub uninterp spec fn is_whitespace(c: char) -> bool;

/// Calls `UnicodeSegmentation::split_word_bounds`. Trusted: states that the
/// pieces are a function of the text alone.
#[verifier::external_body]
fn split_word_bounds(text: &str) -> (pieces: Vec<String>)
    ensures
        pieces.deep_view() == word_pieces(text@),
{
    text.split_word_bounds().map(|piece| piece.to_string()).collect()
}

/// Calls `char::is_whitespace`. Trusted: states that the answer is a
/// function of the character alone.
#[verifier::external_body]
fn char_is_whitespace(c: char) -> (b: bool)
    ensures
        b == is_whitespace(c),
{
    c.is_whitespace()
}

/// Every character of `piece` is white space.
pub open spec fn is_blank(piece: Seq<char>) -> bool {
    forall|i: int| 0 <= i < piece.len() ==> is_whitespace(#[trigger] piece[i])
}

/// The pieces that are not blank, in order.
pub open spec fn without_blanks(pieces: Seq<Seq<char>>) -> Seq<Seq<char>>
    decreases pieces.len(),
{
    if pieces.len() == 0 {
        pieces
    } else if is_blank(pieces.last()) {
        without_blanks(pieces.drop_last())
    } else {
        without_blanks(pieces.drop_last()).push(pieces.last())
    }
}

/// The tokens of `text`.
pub open spec fn tokens_of(text: Seq<char>) -> Seq<Seq<char>> {
    without_blanks(word_pieces(text))
}

/// No token is blank, and each is one of the pieces.
pub proof fn lemma_without_blanks(pieces: Seq<Seq<char>>)
    ensures
        without_blanks(pieces).len() <= pieces.len(),
        forall|i: int|
            0 <= i < without_blanks(pieces).len() ==> !is_blank(#[trigger] without_blanks(pieces)[i])
                && pieces.contains(without_blanks(pieces)[i]),
    decreases pieces.len(),
{
    if pieces.len() > 0 {
        let front = pieces.drop_last();
        lemma_without_blanks(front);
        let kept = without_blanks(pieces);
        assert forall|i: int| 0 <= i < kept.len() implies !is_blank(#[trigger] kept[i])
            && pieces.contains(kept[i]) by {
            if i < without_blanks(front).len() {
                let j = choose|j: int| 0 <= j < front.len() && front[j] == without_blanks(front)[i];
                assert(pieces[j] == kept[i]);
            } else {
                assert(pieces[pieces.len() - 1] == kept[i]);
            }
        }
    }
}

/// Whether every character of `piece` is white space.
pub fn blank(piece: &str) -> (b: bool)
    ensures
        b == is_blank(piece@),
{
    let chars = chars_of(piece);
    let mut i: usize = 0;
    while i < chars.len()
        invariant
            i <= chars@.len(),
            chars@ == piece@,
            forall|j: int| 0 <= j < i ==> is_whitespace(#[trigger] piece@[j]),
        decreases chars@.len() - i,
    {
        if !char_is_whitespace(chars[i]) {
            return false;
        }
        i += 1;
    }
    true
}

/// Splits `text` into its tokens.
pub fn tokenize(text: &str) -> (tokens: Vec<String>)
    ensures
        tokens.deep_view() == tokens_of(text@),
{
    let pieces = split_word_bounds(text);
    let ghost all = pieces.deep_view();
    let mut tokens: Vec<String> = Vec::new();
    let mut i: usize = 0;
    assert(all.take(0) =~= Seq::<Seq<char>>::empty());
    assert(tokens.deep_view() =~= Seq::<Seq<char>>::empty());
    while i < pieces.len()
        invariant
            i <= pieces@.len(),
            all == pieces.deep_view(),
            tokens.deep_view() == without_blanks(all.take(i as int)),
        decreases pieces@.len() - i,
    {
        let ghost before = tokens.deep_view();
        proof {
            assert(all.take(i + 1).drop_last() =~= all.take(i as int));
            assert(all.take(i + 1).last() == pieces@[i as int]@);
        }
        if !blank(pieces[i].as_str()) {
            tokens.push(pieces[i].clone());
            assert(tokens.deep_view() =~= before.push(pieces@[i as int]@));
        }
        i += 1;
    }
    assert(all.take(pieces@.len() as int) =~= all);
    tokens
}

} // verus!
