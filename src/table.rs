//! The piece table: an original buffer, an add buffer, the piece list and the
//! undo stack.
use crate::piece::{Piece, Source};
use crate::text::{
    all_fit, buffer_of, lemma_insert_piece, lemma_replace, lemma_replace_text, lemma_single,
    lemma_split_text, lemma_take_step, lemma_text_concat, lemma_text_grow, lemma_text_len,
    lemma_text_push, len_of, piece_fits, slice_of, text_of,
};
use std::ops::Range;
use vstd::prelude::*;

verus! {

/// Why an edit, an undo or a redo was refused. A refused call changes nothing.
#[derive(Debug, Clone, Copy, PartialEq, Eq)]
pub enum EditError {
    /// An offset or a range reaches past the end of the text.
    OutOfRange,
    /// There is nothing to undo, or nothing to redo.
    NoHistory,
}

/// An editable text that never copies its content on an edit.
#[derive(Debug, PartialEq, Eq)]
pub struct PieceTable {
    original_buffer: Vec<char>,
    add_buffer: Vec<char>,
    pieces: Vec<Piece>,
    undo: Vec<(usize, Piece)>,
}

/// Relies on `String::push`: appends one character.
#[verifier::external_body]
fn push_char(s: &mut String, c: char)
    ensures
        final(s)@ == old(s)@.push(c),
{
    s.push(c);
}

/// The characters of `s`, in order.
fn chars_of(s: &str) -> (v: Vec<char>)
    ensures
        v@ == s@,
{
    let mut v: Vec<char> = Vec::new();
    for c in it: s.chars()
        invariant
            v@ == it.seq().take(it.index() as int),
    {
        v.push(c);
    }
    v
}

impl PieceTable {
    /// The text the table was made from.
    pub closed spec fn original(&self) -> Seq<char> {
        self.original_buffer@
    }

    /// Everything ever inserted, in order of insertion.
    pub closed spec fn added(&self) -> Seq<char> {
        self.add_buffer@
    }

    /// The piece list as it is stored.
    pub closed spec fn piece_list(&self) -> Seq<Piece> {
        self.pieces@
    }

    /// The undo stack: each entry is a piece taken off the end of the list,
    /// with the index it had there. The top of the stack is last.
    pub closed spec fn undo_entries(&self) -> Seq<(usize, Piece)> {
        self.undo@
    }

    /// The piece that selects the whole original buffer.
    pub open spec fn whole_original(&self) -> Piece {
        Piece {
            range: Range { start: 0usize, end: self.original().len() as usize },
            source: Source::Original,
        }
    }

    /// The pieces that the text is made of: an empty list stands for the
    /// whole original buffer.
    pub open spec fn base_pieces(&self) -> Seq<Piece> {
        if self.piece_list().len() == 0 {
            seq![self.whole_original()]
        } else {
            self.piece_list()
        }
    }

    /// Every piece, in the list and on the undo stack, selects an in-bounds
    /// range of its buffer, the text's length fits a `usize`, and a redo
    /// always finds its recorded index in range.
    pub open spec fn wf(&self) -> bool {
        &&& self.original().len() <= usize::MAX
        &&& self.piece_list().len() <= usize::MAX
        &&& all_fit(self.original(), self.added(), self.piece_list())
        &&& len_of(self.base_pieces()) <= usize::MAX
        &&& self.history_wf()
    }

    /// Every piece on the undo stack fits its buffer; the index recorded on
    /// top of the stack is at most the length of the list, and each index
    /// below it at most one more than the one above it.
    #[verifier::opaque]
    pub open spec fn history_wf(&self) -> bool {
        &&& forall|j: int|
            0 <= j < self.undo_entries().len() ==> #[trigger] piece_fits(
                self.original(),
                self.added(),
                self.undo_entries()[j].1,
            )
        &&& self.undo_entries().len() > 0 ==> self.undo_entries().last().0
            <= self.piece_list().len()
        &&& forall|j: int|
            0 <= j < self.undo_entries().len() - 1 ==> #[trigger] self.undo_entries()[j].0
                <= self.undo_entries()[j + 1].0 + 1
    }

    /// The length of the text: the summed length of the pieces' ranges.
    pub open spec fn spec_len(&self) -> nat {
        len_of(self.base_pieces())
    }

    /// The text of one piece of this table.
    pub open spec fn piece_text(&self, p: Piece) -> Seq<char> {
        slice_of(self.original(), self.added(), p)
    }
}

impl PieceTable {
    /// Under `wf`, the pieces the text is made of fit their buffers, and the
    /// text is as long as their summed ranges.
    proof fn lemma_base(&self)
        requires
            self.wf(),
        ensures
            all_fit(self.original(), self.added(), self.base_pieces()),
            self@.len() == self.spec_len(),
            self.base_pieces().len() > 0,
            self.piece_list().len() == 0 ==> self.spec_len() == self.original().len()
                && self@ == self.original(),
    {
        if self.piece_list().len() == 0 {
            assert(piece_fits(self.original(), self.added(), self.base_pieces()[0]));
        }
        lemma_text_len(self.original(), self.added(), self.base_pieces());
        lemma_single(self.original(), self.added(), self.whole_original());
        assert(self.original().subrange(0, self.original().len() as int) =~= self.original());
    }

    /// A new piece list over the same buffers and undo stack keeps the table
    /// well-formed when its pieces fit, its length fits, and it is no shorter.
    proof fn lemma_wf_new_list(&self, next: &PieceTable)
        requires
            self.wf(),
            next.original() == self.original(),
            next.added() == self.added(),
            next.undo_entries() == self.undo_entries(),
            all_fit(next.original(), next.added(), next.piece_list()),
            next.piece_list().len() >= self.piece_list().len(),
            next.piece_list().len() > 0,
            next.piece_list().len() <= usize::MAX,
            len_of(next.piece_list()) <= usize::MAX,
        ensures
            next.wf(),
    {
        reveal(PieceTable::history_wf);
        assert forall|j: int| 0 <= j < next.undo_entries().len() implies #[trigger] piece_fits(
            next.original(),
            next.added(),
            next.undo_entries()[j].1,
        ) by {
            assert(piece_fits(self.original(), self.added(), self.undo_entries()[j].1));
        }
    }

    /// The piece list, being held in a `Vec`, has at most `usize::MAX` pieces.
    proof fn lemma_list_len(&self)
        ensures
            self.piece_list().len() <= usize::MAX,
    {
        assert(self.pieces@.len() == self.pieces.len());
    }

    /// A table whose text is `txt`: `txt` becomes the original buffer, the
    /// piece list is one piece over all of it, and the add buffer is empty.
    pub fn from_text(txt: &str) -> (t: PieceTable)
        ensures
            t.wf(),
            t@ == txt@,
            t.original() == txt@,
            t.added() == Seq::<char>::empty(),
            t.piece_list() == seq![t.whole_original()],
            t.undo_entries() == Seq::<(usize, Piece)>::empty(),
    {
        let original_buffer = chars_of(txt);
        let n = original_buffer.len();
        let mut pieces: Vec<Piece> = Vec::new();
        pieces.push(Piece::new(0..n, Source::Original));
        let t = PieceTable { original_buffer, add_buffer: Vec::new(), pieces, undo: Vec::new() };
        proof {
            reveal(PieceTable::history_wf);
            assert(t.piece_list() =~= seq![t.whole_original()]);
            assert(piece_fits(t.original(), t.added(), t.piece_list()[0]));
            lemma_single(t.original(), t.added(), t.whole_original());
            assert(t.piece_text(t.whole_original()) =~= txt@);
        }
        t
    }

    /// The length of the text, in characters.
    pub fn len(&self) -> (n: usize)
        requires
            self.wf(),
        ensures
            n == self.spec_len(),
            n == self@.len(),
    {
        proof {
            self.lemma_base();
        }
        if self.pieces.is_empty() {
            return self.original_buffer.len();
        }
        let mut len: usize = 0;
        let mut i: usize = 0;
        while i < self.pieces.len()
            invariant
                self.wf(),
                self.piece_list().len() > 0,
                i <= self.piece_list().len(),
                len == len_of(self.piece_list().take(i as int)),
            decreases self.piece_list().len() - i,
        {
            proof {
                let ps = self.piece_list();
                assert(ps.take(i + 1).drop_last() =~= ps.take(i as int));
                assert(ps =~= ps.take(i + 1) + ps.skip(i + 1));
                lemma_text_concat(self.original(), self.added(), ps.take(i + 1), ps.skip(i + 1));
            }
            len = len + self.pieces[i].len();
            i = i + 1;
        }
        proof {
            assert(self.piece_list().take(i as int) =~= self.piece_list());
        }
        len
    }

    /// Whether the text is empty.
    pub fn is_empty(&self) -> (b: bool)
        requires
            self.wf(),
        ensures
            b == (self@.len() == 0),
    {
        self.len() == 0
    }

    /// Appends the text of `piece` to `txt`.
    fn append_from(&self, txt: &mut String, piece: &Piece)
        requires
            piece_fits(self.original(), self.added(), *piece),
        ensures
            final(txt)@ == old(txt)@ + self.piece_text(*piece),
    {
        let buff = match piece.source {
            Source::Original => &self.original_buffer,
            Source::Add => &self.add_buffer,
        };
        let mut k: usize = piece.range.start;
        while k < piece.range.end
            invariant
                buff@ == buffer_of(self.original(), self.added(), *piece),
                piece_fits(self.original(), self.added(), *piece),
                piece.lo() <= k <= piece.hi(),
                txt@ == old(txt)@ + buff@.subrange(piece.lo(), k as int),
            decreases piece.hi() - k,
        {
            proof {
                assert(buff@.subrange(piece.lo(), k + 1) =~= buff@.subrange(piece.lo(), k as int).push(buff@[k as int]));
            }
            push_char(txt, buff[k]);
            k = k + 1;
        }
    }

    /// The current text, built by concatenating the slices of the pieces.
    pub fn project(&self) -> (s: String)
        requires
            self.wf(),
        ensures
            s@ == self@,
    {
        proof {
            self.lemma_base();
        }
        let mut txt = String::new();
        if self.pieces.is_empty() {
            let whole = Piece::new(0..self.original_buffer.len(), Source::Original);
            proof {
                assert(whole == self.whole_original());
            }
            self.append_from(&mut txt, &whole);
            proof {
                assert(txt@ =~= self@);
            }
            return txt;
        }
        let mut i: usize = 0;
        while i < self.pieces.len()
            invariant
                self.wf(),
                self.piece_list().len() > 0,
                i <= self.piece_list().len(),
                txt@ == text_of(self.original(), self.added(), self.piece_list().take(i as int)),
            decreases self.piece_list().len() - i,
        {
            proof {
                let ps = self.piece_list();
                assert(ps.take(i + 1).drop_last() =~= ps.take(i as int));
                assert(piece_fits(self.original(), self.added(), ps[i as int]));
            }
            self.append_from(&mut txt, &self.pieces[i]);
            i = i + 1;
        }
        proof {
            assert(self.piece_list().take(i as int) =~= self.piece_list());
        }
        txt
    }
}

impl PieceTable {
    /// The piece at index `idx` of the list.
    fn piece(&self, idx: usize) -> (p: &Piece)
        requires
            idx < self.piece_list().len(),
        ensures
            *p == self.piece_list()[idx as int],
    {
        &self.pieces[idx]
    }

    /// Puts the piece standing for the whole original buffer into an empty
    /// list, so that every character of the text has a piece.
    fn ensure_pieces(&mut self)
        requires
            old(self).wf(),
        ensures
            final(self).wf(),
            final(self).piece_list() == old(self).base_pieces(),
            final(self).base_pieces() == old(self).base_pieces(),
            final(self).original() == old(self).original(),
            final(self).added() == old(self).added(),
            final(self).undo_entries() == old(self).undo_entries(),
            final(self)@ == old(self)@,
    {
        proof {
            reveal(PieceTable::history_wf);
            self.lemma_base();
        }
        if self.pieces.is_empty() {
            let n = self.original_buffer.len();
            self.append_piece(Piece::new(0..n, Source::Original));
            proof {
                assert(self.piece_list() =~= old(self).base_pieces());
            }
        }
    }

    /// Adds `piece` at the end of the list.
    fn append_piece(&mut self, piece: Piece)
        ensures
            final(self).piece_list() == old(self).piece_list().push(piece),
            final(self).original() == old(self).original(),
            final(self).added() == old(self).added(),
            final(self).undo_entries() == old(self).undo_entries(),
    {
        self.pieces.push(piece);
    }

    /// Puts `piece` at index `idx` of the list.
    fn insert_piece(&mut self, idx: usize, piece: Piece)
        requires
            idx <= old(self).piece_list().len(),
        ensures
            final(self).piece_list() == old(self).piece_list().insert(idx as int, piece),
            final(self).original() == old(self).original(),
            final(self).added() == old(self).added(),
            final(self).undo_entries() == old(self).undo_entries(),
    {
        self.pieces.insert(idx, piece);
    }

    /// Takes the piece at index `idx` out of the list.
    fn remove_piece(&mut self, idx: usize) -> (p: Piece)
        requires
            idx < old(self).piece_list().len(),
        ensures
            p == old(self).piece_list()[idx as int],
            final(self).piece_list() == old(self).piece_list().remove(idx as int),
            final(self).original() == old(self).original(),
            final(self).added() == old(self).added(),
            final(self).undo_entries() == old(self).undo_entries(),
    {
        self.pieces.remove(idx)
    }

    /// Resolves the text offset `at` to the first piece whose run of the
    /// text holds it: its index, and the offset of `at` inside it.
    fn find_piece_idx(&self, at: usize) -> (r: (usize, usize))
        requires
            self.wf(),
            self.piece_list().len() > 0,
            at < self.spec_len(),
        ensures
            r.0 < self.piece_list().len(),
            r.1 < self.piece_list()[r.0 as int].spec_len(),
            len_of(self.piece_list().take(r.0 as int)) + r.1 == at,
    {
        let ghost ps = self.piece_list();
        let mut acc: usize = 0;
        let mut i: usize = 0;
        loop
            invariant
                self.wf(),
                ps == self.piece_list(),
                ps.len() > 0,
                at < len_of(ps),
                i <= ps.len(),
                acc == len_of(ps.take(i as int)),
                acc <= at,
            decreases ps.len() - i,
        {
            if i == self.pieces.len() {
                proof {
                    assert(ps.take(i as int) =~= ps);
                }
                // the loop keeps `acc <= at < len_of(ps)`, so this is never reached
                return (0, 0);
            }
            proof {
                lemma_take_step(self.original(), self.added(), ps, i as int);
            }
            let n = self.piece(i).len();
            if at < acc + n {
                return (i, at - acc);
            }
            acc = acc + n;
            i = i + 1;
        }
    }

    /// The character at text offset `at`.
    fn char_at(&self, at: usize) -> (c: char)
        requires
            self.wf(),
            self.piece_list().len() > 0,
            at < self.spec_len(),
        ensures
            c == self@[at as int],
    {
        let (idx, offset) = self.find_piece_idx(at);
        let piece = self.piece(idx);
        proof {
            let ps = self.piece_list();
            lemma_replace(self.original(), self.added(), ps, idx as int, seq![]);
            lemma_text_len(self.original(), self.added(), ps.take(idx as int));
            assert(piece_fits(self.original(), self.added(), ps[idx as int]));
            assert(all_fit(self.original(), self.added(), ps.take(idx as int)));
        }
        let buff = match piece.source {
            Source::Original => &self.original_buffer,
            Source::Add => &self.add_buffer,
        };
        buff[piece.range.start + offset]
    }
}

impl PieceTable {
    /// The piece that an insertion of `n` characters into this table adds:
    /// the run of the add buffer that the insertion appends.
    pub open spec fn new_add_piece(&self, n: nat) -> Piece {
        Piece {
            range: Range { start: self.added().len() as usize, end: (self.added().len() + n) as usize },
            source: Source::Add,
        }
    }

    /// Appends `text` to the add buffer; the text of the table stays as it was.
    fn extend_add_buffer(&mut self, text: &Vec<char>)
        requires
            old(self).wf(),
        ensures
            final(self).wf(),
            final(self).added() == old(self).added() + text@,
            final(self).original() == old(self).original(),
            final(self).piece_list() == old(self).piece_list(),
            final(self).base_pieces() == old(self).base_pieces(),
            final(self).undo_entries() == old(self).undo_entries(),
            final(self)@ == old(self)@,
    {
        let ghost t0 = *self;
        let mut k: usize = 0;
        while k < text.len()
            invariant
                k <= text@.len(),
                self.added() == t0.added() + text@.take(k as int),
                self.original() == t0.original(),
                self.piece_list() == t0.piece_list(),
                self.undo_entries() == t0.undo_entries(),
            decreases text@.len() - k,
        {
            proof {
                assert(text@.take(k + 1) =~= text@.take(k as int).push(text@[k as int]));
            }
            self.add_buffer.push(text[k]);
            k = k + 1;
        }
        proof {
            reveal(PieceTable::history_wf);
            let o = self.original();
            let a = self.added();
            assert(text@.take(k as int) =~= text@);
            assert(a.take(t0.added().len() as int) =~= t0.added());
            t0.lemma_base();
            lemma_text_grow(o, t0.added(), a, t0.piece_list());
            lemma_text_grow(o, t0.added(), a, t0.base_pieces());
            assert forall|j: int| 0 <= j < self.undo_entries().len() implies #[trigger] piece_fits(
                o,
                a,
                self.undo_entries()[j].1,
            ) by {
                assert(piece_fits(o, t0.added(), t0.undo_entries()[j].1));
            }
        }
    }

    /// Inserts the characters `text` so that they start at text offset `at`.
    fn insert_chars(&mut self, text: &Vec<char>, at: usize) -> (r: Result<(), EditError>)
        requires
            old(self).wf(),
            old(self)@.len() + text@.len() <= usize::MAX,
        ensures
            final(self).wf(),
            r is Err <==> at > old(self)@.len(),
            r is Err ==> r == Err::<(), EditError>(EditError::OutOfRange) && *final(self) == *old(
                self,
            ),
            r is Ok ==> {
                &&& final(self)@ == old(self)@.take(at as int) + text@ + old(self)@.skip(at as int)
                &&& final(self).original() == old(self).original()
                &&& final(self).added() == old(self).added() + text@
                &&& final(self).undo_entries() == old(self).undo_entries()
                &&& at == old(self)@.len() ==> final(self).piece_list() == old(
                    self,
                ).base_pieces().push(old(self).new_add_piece(text@.len()))
            },
    {
        let len = self.len();
        if at > len {
            return Err(EditError::OutOfRange);
        }
        self.ensure_pieces();
        let mut idx: usize = 0;
        let mut offset: usize = 0;
        if at < len {
            let found = self.find_piece_idx(at);
            idx = found.0;
            offset = found.1;
        }
        let start = self.add_buffer.len();
        self.extend_add_buffer(text);
        let end = self.add_buffer.len();
        let add_piece = Piece::new(start..end, Source::Add);
        let ghost t1 = *self;
        let ghost ps = self.piece_list();
        proof {
            t1.lemma_base();
            assert(add_piece == old(self).new_add_piece(text@.len()));
            assert(piece_fits(t1.original(), t1.added(), add_piece));
            assert(t1.piece_text(add_piece) =~= text@);
            lemma_single(t1.original(), t1.added(), add_piece);
        }
        if at == len {
            self.append_piece(add_piece);
            proof {
                let o = t1.original();
                let a = t1.added();
                lemma_text_push(o, a, ps, add_piece);
                assert forall|j: int| 0 <= j < self.piece_list().len() implies #[trigger] piece_fits(
                    o,
                    a,
                    self.piece_list()[j],
                ) by {
                    if j < ps.len() {
                        assert(piece_fits(o, a, ps[j]));
                    }
                }
                assert(t1@.take(at as int) =~= t1@);
                assert(t1@.skip(at as int) =~= Seq::<char>::empty());
                assert(self@ =~= t1@.take(at as int) + text@ + t1@.skip(at as int));
            }
        } else if offset == 0 {
            self.insert_piece(idx, add_piece);
            proof {
                let o = t1.original();
                let a = t1.added();
                let p = ps[idx as int];
                let mid = seq![add_piece, p];
                assert(self.piece_list() =~= ps.take(idx as int) + mid + ps.skip(idx + 1));
                lemma_text_push(o, a, seq![add_piece], p);
                assert(seq![add_piece].push(p) =~= mid);
                assert(piece_fits(o, a, p));
                assert(all_fit(o, a, mid)) by {
                    assert forall|j: int| 0 <= j < mid.len() implies #[trigger] piece_fits(
                        o,
                        a,
                        mid[j],
                    ) by {}
                }
                let sp = slice_of(o, a, p);
                assert(text_of(o, a, mid) =~= sp.take(0) + text@ + sp.skip(0));
                lemma_replace_text(o, a, ps, idx as int, mid, 0, 0, text@);
            }
        } else {
            let current_piece = self.remove_piece(idx);
            let cut = current_piece.range.start + offset;
            let (first_piece, second_piece) = current_piece.split_at(cut);
            self.insert_piece(idx, first_piece);
            assert(idx < self.pieces.len());
            self.insert_piece(idx + 1, add_piece);
            assert(idx + 1 < self.pieces.len());
            self.insert_piece(idx + 2, second_piece);
            proof {
                let o = t1.original();
                let a = t1.added();
                let p = ps[idx as int];
                let mid = seq![first_piece, add_piece, second_piece];
                assert(self.piece_list() =~= ps.take(idx as int) + mid + ps.skip(idx + 1));
                assert(piece_fits(o, a, p));
                lemma_split_text(o, a, p, first_piece, second_piece, cut as int);
                lemma_single(o, a, first_piece);
                lemma_text_push(o, a, seq![first_piece], add_piece);
                lemma_text_push(o, a, seq![first_piece, add_piece], second_piece);
                assert(seq![first_piece].push(add_piece) =~= seq![first_piece, add_piece]);
                assert(seq![first_piece, add_piece].push(second_piece) =~= mid);
                assert(all_fit(o, a, mid)) by {
                    assert forall|j: int| 0 <= j < mid.len() implies #[trigger] piece_fits(
                        o,
                        a,
                        mid[j],
                    ) by {}
                }
                let sp = slice_of(o, a, p);
                assert(text_of(o, a, mid) =~= sp.take(offset as int) + text@ + sp.skip(offset as int));
                lemma_replace_text(o, a, ps, idx as int, mid, offset as int, offset as int, text@);
            }
        }
        proof {
            assert(self.piece_list().len() > 0);
            assert(all_fit(t1.original(), t1.added(), self.piece_list()));
            assert(self@ == t1@.take(at as int) + text@ + t1@.skip(at as int));
            lemma_text_len(t1.original(), t1.added(), self.piece_list());
            self.lemma_list_len();
            t1.lemma_wf_new_list(self);
        }
        Ok(())
    }
}

impl PieceTable {
    /// `next` is this table after `text` was inserted at offset `at`: the
    /// text has `text` spliced in, the add buffer has it appended, and an
    /// insertion at the end adds one piece, over the appended run, after the
    /// pieces the text was made of.
    pub open spec fn inserted(&self, next: PieceTable, text: Seq<char>, at: int) -> bool {
        &&& next.wf()
        &&& next@ == self@.take(at) + text + self@.skip(at)
        &&& next.original() == self.original()
        &&& next.added() == self.added() + text
        &&& next.undo_entries() == self.undo_entries()
        &&& at == self@.len() ==> next.piece_list() == self.base_pieces().push(
            self.new_add_piece(text.len()),
        )
    }

    /// Inserts the character `c` at text offset `at`. Fails with
    /// `OutOfRange`, changing nothing, when `at` is past the end of the text.
    pub fn insert_char(&mut self, c: char, at: usize) -> (r: Result<(), EditError>)
        requires
            old(self).wf(),
            old(self)@.len() + 1 <= usize::MAX,
        ensures
            final(self).wf(),
            r is Err <==> at > old(self)@.len(),
            r is Err ==> r == Err::<(), EditError>(EditError::OutOfRange) && *final(self) == *old(
                self,
            ),
            r is Ok ==> final(self)@ == old(self)@.take(at as int).push(c) + old(self)@.skip(
                at as int,
            ),
            r is Ok ==> old(self).inserted(*final(self), seq![c], at as int),
    {
        let mut text: Vec<char> = Vec::new();
        text.push(c);
        let r = self.insert_chars(&text, at);
        proof {
            assert(old(self)@.take(at as int) + text@ =~= old(self)@.take(at as int).push(c));
        }
        r
    }

    /// Inserts `text` so that it starts at text offset `at`. Fails with
    /// `OutOfRange`, changing nothing, when `at` is past the end of the text.
    pub fn insert(&mut self, text: &str, at: usize) -> (r: Result<(), EditError>)
        requires
            old(self).wf(),
            old(self)@.len() + text@.len() <= usize::MAX,
        ensures
            final(self).wf(),
            r is Err <==> at > old(self)@.len(),
            r is Err ==> r == Err::<(), EditError>(EditError::OutOfRange) && *final(self) == *old(
                self,
            ),
            r is Ok ==> final(self)@ == old(self)@.take(at as int) + text@ + old(self)@.skip(
                at as int,
            ),
            r is Ok ==> old(self).inserted(*final(self), text@, at as int),
    {
        let chars = chars_of(text);
        self.insert_chars(&chars, at)
    }

    /// Removes the character at text offset `at` and returns it. Fails with
    /// `OutOfRange`, changing nothing, when `at` is not an offset of the text.
    pub fn remove_char(&mut self, at: usize) -> (r: Result<char, EditError>)
        requires
            old(self).wf(),
        ensures
            final(self).wf(),
            r is Err <==> at >= old(self)@.len(),
            r is Err ==> r == Err::<char, EditError>(EditError::OutOfRange) && *final(self)
                == *old(self),
            r is Ok ==> {
                &&& r == Ok::<char, EditError>(old(self)@[at as int])
                &&& final(self)@ == old(self)@.take(at as int) + old(self)@.skip(at + 1)
                &&& final(self).original() == old(self).original()
                &&& final(self).added() == old(self).added()
                &&& final(self).undo_entries() == old(self).undo_entries()
            },
    {
        let len = self.len();
        if at >= len {
            return Err(EditError::OutOfRange);
        }
        self.ensure_pieces();
        let c = self.char_at(at);
        let (idx, offset) = self.find_piece_idx(at);
        let ghost t1 = *self;
        let ghost ps = self.piece_list();
        let current_piece = self.remove_piece(idx);
        let real_idx = current_piece.range.start + offset;
        let ghost o = t1.original();
        let ghost a = t1.added();
        let ghost sp = slice_of(o, a, ps[idx as int]);
        proof {
            assert(piece_fits(o, a, ps[idx as int]));
        }
        if offset == 0 {
            let narrowed = Piece::new(real_idx + 1..current_piece.range.end, current_piece.source);
            self.insert_piece(idx, narrowed);
            proof {
                let mid = seq![narrowed];
                assert(self.piece_list() =~= ps.take(idx as int) + mid + ps.skip(idx + 1));
                lemma_single(o, a, narrowed);
                assert(all_fit(o, a, mid)) by {
                    assert(piece_fits(o, a, mid[0]));
                }
                assert(text_of(o, a, mid) =~= sp.take(0) + Seq::<char>::empty() + sp.skip(1));
                lemma_replace_text(o, a, ps, idx as int, mid, 0, 1, Seq::<char>::empty());
            }
        } else if real_idx + 1 == current_piece.range.end {
            let narrowed = Piece::new(current_piece.range.start..real_idx, current_piece.source);
            self.insert_piece(idx, narrowed);
            proof {
                let mid = seq![narrowed];
                assert(self.piece_list() =~= ps.take(idx as int) + mid + ps.skip(idx + 1));
                lemma_single(o, a, narrowed);
                assert(all_fit(o, a, mid)) by {
                    assert(piece_fits(o, a, mid[0]));
                }
                assert(text_of(o, a, mid) =~= sp.take(offset as int) + Seq::<char>::empty()
                    + sp.skip(offset + 1));
                lemma_replace_text(
                    o,
                    a,
                    ps,
                    idx as int,
                    mid,
                    offset as int,
                    offset + 1,
                    Seq::<char>::empty(),
                );
            }
        } else {
            let (first_piece, second_piece) = current_piece.split_at(real_idx);
            let second_piece = Piece::new(real_idx + 1..second_piece.range.end, second_piece.source);
            self.insert_piece(idx, first_piece);
            assert(idx < self.pieces.len());
            self.insert_piece(idx + 1, second_piece);
            proof {
                let mid = seq![first_piece, second_piece];
                assert(self.piece_list() =~= ps.take(idx as int) + mid + ps.skip(idx + 1));
                lemma_single(o, a, first_piece);
                lemma_text_push(o, a, seq![first_piece], second_piece);
                assert(seq![first_piece].push(second_piece) =~= mid);
                assert(all_fit(o, a, mid)) by {
                    assert forall|j: int| 0 <= j < mid.len() implies #[trigger] piece_fits(
                        o,
                        a,
                        mid[j],
                    ) by {}
                }
                assert(text_of(o, a, mid) =~= sp.take(offset as int) + Seq::<char>::empty()
                    + sp.skip(offset + 1));
                lemma_replace_text(
                    o,
                    a,
                    ps,
                    idx as int,
                    mid,
                    offset as int,
                    offset + 1,
                    Seq::<char>::empty(),
                );
            }
        }
        proof {
            t1.lemma_base();
            assert(self.piece_list().len() > 0);
            assert(all_fit(o, a, self.piece_list()));
            assert(self@ =~= t1@.take(at as int) + t1@.skip(at + 1));
            lemma_text_len(o, a, self.piece_list());
            self.lemma_list_len();
            t1.lemma_wf_new_list(self);
        }
        Ok(c)
    }
}

impl PieceTable {
    /// Removes the characters at the offsets of `range`, walking from its
    /// high end down, and returns them in text order. An empty range removes
    /// nothing. Fails with `OutOfRange`, changing nothing, when the range
    /// reaches past the end of the text.
    pub fn remove(&mut self, range: Range<usize>) -> (r: Result<String, EditError>)
        requires
            old(self).wf(),
        ensures
            final(self).wf(),
            r is Err <==> range.end > old(self)@.len(),
            r is Err ==> r == Err::<String, EditError>(EditError::OutOfRange) && *final(self)
                == *old(self),
            r is Ok && range.start >= range.end ==> r->Ok_0@ == Seq::<char>::empty() && *final(self)
                == *old(self),
            r is Ok && range.start < range.end ==> {
                &&& r->Ok_0@ == old(self)@.subrange(range.start as int, range.end as int)
                &&& final(self)@ == old(self)@.take(range.start as int) + old(self)@.skip(
                    range.end as int,
                )
                &&& final(self).original() == old(self).original()
                &&& final(self).added() == old(self).added()
                &&& final(self).undo_entries() == old(self).undo_entries()
            },
    {
        let len = self.len();
        if range.end > len {
            return Err(EditError::OutOfRange);
        }
        if range.start >= range.end {
            return Ok(String::new());
        }
        let lo = range.start;
        let hi = range.end;
        let ghost t0 = *self;
        let count: usize = hi - lo;
        let mut chars: Vec<char> = vec![' '; count];
        let mut k: usize = hi;
        while k > lo
            invariant
                self.wf(),
                lo <= k <= hi <= t0@.len(),
                self@ == t0@.take(k as int) + t0@.skip(hi as int),
                self.original() == t0.original(),
                self.added() == t0.added(),
                self.undo_entries() == t0.undo_entries(),
                chars@.len() == hi - lo,
                forall|j: int| k - lo <= j < hi - lo ==> chars@[j] == t0@[lo + j],
            decreases k,
        {
            k = k - 1;
            let c = match self.remove_char(k) {
                Ok(c) => c,
                Err(e) => return Err(e),
            };
            chars.set(k - lo, c);
            proof {
                assert(self@ =~= t0@.take(k as int) + t0@.skip(hi as int));
            }
        }
        let removed = string_of(&chars);
        proof {
            assert(removed@ =~= t0@.subrange(lo as int, hi as int));
        }
        Ok(removed)
    }

    /// Takes the last piece off the list and pushes it, with the index it
    /// had, onto the undo stack. Fails with `NoHistory`, changing nothing,
    /// when the piece list is empty.
    pub fn undo(&mut self) -> (r: Result<(), EditError>)
        requires
            old(self).wf(),
        ensures
            final(self).wf(),
            r is Err <==> old(self).piece_list().len() == 0,
            r is Err ==> r == Err::<(), EditError>(EditError::NoHistory) && *final(self) == *old(
                self,
            ),
            r is Ok ==> old(self).undone(*final(self)),
    {
        if self.pieces.is_empty() {
            return Err(EditError::NoHistory);
        }
        let last_idx = self.pieces.len() - 1;
        let last_piece = self.remove_piece(last_idx);
        self.undo.push((last_idx, last_piece));
        proof {
            reveal(PieceTable::history_wf);
            let ps = old(self).piece_list();
            let o = self.original();
            let a = self.added();
            assert(ps.remove(last_idx as int) =~= ps.drop_last());
            assert(ps =~= ps.drop_last().push(ps.last()));
            lemma_text_push(o, a, ps.drop_last(), ps.last());
            lemma_single(o, a, self.whole_original());
            assert(piece_fits(o, a, ps[last_idx as int]));
            assert forall|j: int| 0 <= j < self.undo_entries().len() implies #[trigger] piece_fits(
                o,
                a,
                self.undo_entries()[j].1,
            ) by {
                if j < old(self).undo_entries().len() {
                    assert(piece_fits(o, a, old(self).undo_entries()[j].1));
                }
            }
            assert forall|j: int| 0 <= j < self.piece_list().len() implies #[trigger] piece_fits(
                o,
                a,
                self.piece_list()[j],
            ) by {
                assert(piece_fits(o, a, ps[j]));
            }
        }
        Ok(())
    }

    /// `next` is this table after an undo: its last piece has moved, with
    /// its index, onto the undo stack.
    pub open spec fn undone(&self, next: PieceTable) -> bool {
        &&& self.piece_list().len() > 0
        &&& next.piece_list() == self.piece_list().drop_last()
        &&& next.undo_entries() == self.undo_entries().push(
            ((self.piece_list().len() - 1) as usize, self.piece_list().last()),
        )
        &&& next.original() == self.original()
        &&& next.added() == self.added()
    }

    /// `next` is this table after a redo: the top entry of the undo stack
    /// has been popped and its piece put back at its recorded index.
    pub open spec fn redone(&self, next: PieceTable) -> bool {
        let top = self.undo_entries().last();
        &&& self.undo_entries().len() > 0
        &&& next.piece_list() == self.piece_list().insert(top.0 as int, top.1)
        &&& next.undo_entries() == self.undo_entries().drop_last()
        &&& next.original() == self.original()
        &&& next.added() == self.added()
    }

    /// Pops the top entry of the undo stack and puts its piece back at its
    /// recorded index. Fails with `NoHistory`, changing nothing, when the
    /// stack is empty.
    pub fn redo(&mut self) -> (r: Result<(), EditError>)
        requires
            old(self).wf(),
            old(self).undo_entries().len() > 0 ==> len_of(old(self).piece_list())
                + old(self).undo_entries().last().1.spec_len() <= usize::MAX,
        ensures
            final(self).wf(),
            r is Err <==> old(self).undo_entries().len() == 0,
            r is Err ==> r == Err::<(), EditError>(EditError::NoHistory) && *final(self) == *old(
                self,
            ),
            r is Ok ==> old(self).redone(*final(self)),
    {
        let n = self.undo.len();
        if n == 0 {
            return Err(EditError::NoHistory);
        }
        proof {
            reveal(PieceTable::history_wf);
        }
        let (last_op_idx, last_op) = self.undo.remove(n - 1);
        self.insert_piece(last_op_idx, last_op);
        proof {
            reveal(PieceTable::history_wf);
            let ps = old(self).piece_list();
            let us = old(self).undo_entries();
            let o = self.original();
            let a = self.added();
            let p = us.last().1;
            let i = last_op_idx as int;
            assert(us.remove(n - 1) =~= us.drop_last());
            assert(piece_fits(o, a, us[n - 1].1));
            assert forall|j: int| 0 <= j < self.undo_entries().len() implies #[trigger] piece_fits(
                o,
                a,
                self.undo_entries()[j].1,
            ) by {
                assert(piece_fits(o, a, us[j].1));
            }
            lemma_insert_piece(o, a, ps, i, p);
            self.lemma_list_len();
        }
        Ok(())
    }

    /// The piece list, in order.
    pub fn pieces(&self) -> (r: &Vec<Piece>)
        ensures
            r@ == self.piece_list(),
    {
        &self.pieces
    }

    /// The undo stack, its top last.
    pub fn undo_stack(&self) -> (r: &Vec<(usize, Piece)>)
        ensures
            r@ == self.undo_entries(),
    {
        &self.undo
    }
}

/// The string made of the characters of `v`, in order.
fn string_of(v: &Vec<char>) -> (s: String)
    ensures
        s@ == v@,
{
    let mut s = String::new();
    let mut i: usize = 0;
    while i < v.len()
        invariant
            i <= v@.len(),
            s@ == v@.take(i as int),
        decreases v@.len() - i,
    {
        proof {
            assert(v@.take(i + 1) =~= v@.take(i as int).push(v@[i as int]));
        }
        push_char(&mut s, v[i]);
        i = i + 1;
    }
    proof {
        assert(v@.take(i as int) =~= v@);
    }
    s
}

impl Default for PieceTable {
    /// A table over the empty text.
    fn default() -> (t: PieceTable)
        ensures
            t.wf(),
            t@ == Seq::<char>::empty(),
            t.original() == Seq::<char>::empty(),
            t.added() == Seq::<char>::empty(),
            t.piece_list() == seq![t.whole_original()],
            t.undo_entries() == Seq::<(usize, Piece)>::empty(),
    {
        proof {
            reveal_strlit("");
        }
        PieceTable::from_text("")
    }
}

impl View for PieceTable {
    type V = Seq<char>;

    /// The current text: the slices of the pieces, concatenated in order.
    open spec fn view(&self) -> Seq<char> {
        text_of(self.original(), self.added(), self.base_pieces())
    }
}

} // verus!
