//! Facts that relate several operations of the piece table.
use crate::piece::Piece;
use crate::table::PieceTable;
use crate::text::{
    all_fit, len_of, lemma_single, lemma_text_grow, lemma_text_len, lemma_text_push, piece_fits,
};
use vstd::prelude::*;

verus! {

/// A table whose only piece spans its whole original buffer (as `from_text`
/// builds it) has the original buffer as its text: projecting a table made
/// from `s` gives back `s`.
pub proof fn lemma_round_trip(t: PieceTable, s: Seq<char>)
    requires
        t.original() == s,
        t.original().len() <= usize::MAX,
        t.piece_list() == seq![t.whole_original()],
    ensures
        t@ == s,
{
    lemma_single(t.original(), t.added(), t.whole_original());
    assert(s.subrange(0, s.len() as int) =~= s);
}

/// In a well-formed table the summed length of the pieces, which `len`
/// returns, is the length of the text, which `project` returns. Every edit
/// keeps the table well-formed, so this holds after any sequence of edits.
pub proof fn lemma_length_is_text_length(t: PieceTable)
    requires
        t.wf(),
    ensures
        t.spec_len() == t@.len(),
{
    let o = t.original();
    let a = t.added();
    if t.piece_list().len() == 0 {
        assert(piece_fits(o, a, t.base_pieces()[0]));
    }
    lemma_text_len(o, a, t.base_pieces());
}

/// An undo right after an insertion at the end of the text gives back the
/// text from before the insertion, and, when the piece list was not empty,
/// the piece list from before it.
pub proof fn lemma_undo_after_append(
    before: PieceTable,
    edited: PieceTable,
    undone: PieceTable,
    text: Seq<char>,
)
    requires
        before.wf(),
        before.inserted(edited, text, before@.len() as int),
        edited.undone(undone),
    ensures
        undone@ == before@,
        before.piece_list().len() > 0 ==> undone.piece_list() == before.piece_list(),
{
    let ps = before.base_pieces();
    assert(ps.push(before.new_add_piece(text.len())).drop_last() =~= ps);
    assert(undone.piece_list() == ps);
    assert(undone.base_pieces() == ps);
    let o = before.original();
    let a = before.added();
    let grown = undone.added();
    assert(grown.take(a.len() as int) =~= a);
    if before.piece_list().len() == 0 {
        assert(piece_fits(o, a, ps[0]));
    }
    assert(all_fit(o, a, ps));
    lemma_text_grow(o, a, grown, ps);
}

/// A redo right after an undo succeeds, and gives back the piece list, the
/// undo stack and the text from before the undo.
pub proof fn lemma_redo_after_undo(t: PieceTable, undone: PieceTable, redone: PieceTable)
    requires
        t.wf(),
        t.undone(undone),
    ensures
        undone.undo_entries().last().0 <= undone.piece_list().len(),
        len_of(undone.piece_list()) + undone.undo_entries().last().1.spec_len()
            <= usize::MAX,
        undone.redone(redone) ==> {
            &&& redone.piece_list() == t.piece_list()
            &&& redone.undo_entries() == t.undo_entries()
            &&& redone@ == t@
        },
{
    let ps = t.piece_list();
    let last: Piece = ps.last();
    assert(ps =~= ps.drop_last().push(last));
    lemma_text_push(t.original(), t.added(), ps.drop_last(), last);
    if undone.redone(redone) {
        let top = undone.undo_entries().last();
        assert(top == (((ps.len() - 1) as usize), last));
        assert(ps.drop_last().insert(ps.len() - 1, last) =~= ps);
        assert(undone.undo_entries().drop_last() =~= t.undo_entries());
        assert(redone.base_pieces() == t.base_pieces());
    }
}

} // verus!
