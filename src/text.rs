//! The text that a list of pieces stands for, and the facts about it that the
//! edit operations rely on.
use crate::piece::{Piece, Source};
use vstd::prelude::*;

verus! {

/// The buffer that `p` reads from.
pub open spec fn buffer_of(original: Seq<char>, add: Seq<char>, p: Piece) -> Seq<char> {
    match p.source {
        Source::Original => original,
        Source::Add => add,
    }
}

/// `p` selects an in-bounds, non-inverted range of its buffer.
pub open spec fn piece_fits(original: Seq<char>, add: Seq<char>, p: Piece) -> bool {
    p.lo() <= p.hi() <= buffer_of(original, add, p).len()
}

/// Every piece of `ps` fits its buffer.
pub open spec fn all_fit(original: Seq<char>, add: Seq<char>, ps: Seq<Piece>) -> bool {
    forall|j: int| 0 <= j < ps.len() ==> #[trigger] piece_fits(original, add, ps[j])
}

/// The characters that one piece selects.
pub open spec fn slice_of(original: Seq<char>, add: Seq<char>, p: Piece) -> Seq<char> {
    buffer_of(original, add, p).subrange(p.lo(), p.hi())
}

/// The text of a piece list: the slices of its pieces, concatenated in order.
pub open spec fn text_of(original: Seq<char>, add: Seq<char>, ps: Seq<Piece>) -> Seq<char>
    decreases ps.len(),
{
    if ps.len() == 0 {
        Seq::empty()
    } else {
        text_of(original, add, ps.drop_last()) + slice_of(original, add, ps.last())
    }
}

/// The summed length of the ranges of a piece list.
pub open spec fn len_of(ps: Seq<Piece>) -> nat
    decreases ps.len(),
{
    if ps.len() == 0 {
        0
    } else {
        len_of(ps.drop_last()) + ps.last().spec_len()
    }
}

/// The text of a list of fitting pieces is as long as the sum of their ranges.
pub proof fn lemma_text_len(original: Seq<char>, add: Seq<char>, ps: Seq<Piece>)
    requires
        all_fit(original, add, ps),
    ensures
        text_of(original, add, ps).len() == len_of(ps),
    decreases ps.len(),
{
    if ps.len() > 0 {
        assert(piece_fits(original, add, ps[ps.len() - 1]));
        assert forall|j: int| 0 <= j < ps.drop_last().len() implies #[trigger] piece_fits(
            original,
            add,
            ps.drop_last()[j],
        ) by {
            assert(piece_fits(original, add, ps[j]));
        }
        lemma_text_len(original, add, ps.drop_last());
    }
}

/// The text of two lists, one after the other, is the text of the first
/// followed by the text of the second.
pub proof fn lemma_text_concat(
    original: Seq<char>,
    add: Seq<char>,
    a: Seq<Piece>,
    b: Seq<Piece>,
)
    ensures
        text_of(original, add, a + b) == text_of(original, add, a) + text_of(original, add, b),
        len_of(a + b) == len_of(a) + len_of(b),
    decreases b.len(),
{
    if b.len() == 0 {
        assert(a + b =~= a);
        assert(text_of(original, add, a) + text_of(original, add, b) =~= text_of(
            original,
            add,
            a,
        ));
    } else {
        assert((a + b).drop_last() =~= a + b.drop_last());
        assert((a + b).last() == b.last());
        lemma_text_concat(original, add, a, b.drop_last());
        assert(text_of(original, add, a + b) =~= text_of(original, add, a) + text_of(
            original,
            add,
            b,
        ));
    }
}

/// A list of one piece has that piece's text and length.
pub proof fn lemma_single(original: Seq<char>, add: Seq<char>, p: Piece)
    ensures
        text_of(original, add, seq![p]) == slice_of(original, add, p),
        len_of(seq![p]) == p.spec_len(),
{
    let single = seq![p];
    assert(single.drop_last() =~= Seq::<Piece>::empty());
    assert(single.last() == p);
    assert(text_of(original, add, single.drop_last()) == Seq::<char>::empty());
    assert(len_of(single.drop_last()) == 0);
    assert(text_of(original, add, single) =~= slice_of(original, add, p));
}

/// Growing the add buffer at its end leaves the text of fitting pieces as it was.
pub proof fn lemma_text_grow(
    original: Seq<char>,
    add: Seq<char>,
    grown: Seq<char>,
    ps: Seq<Piece>,
)
    requires
        all_fit(original, add, ps),
        add.len() <= grown.len(),
        grown.take(add.len() as int) == add,
    ensures
        text_of(original, grown, ps) == text_of(original, add, ps),
        all_fit(original, grown, ps),
    decreases ps.len(),
{
    if ps.len() > 0 {
        let p = ps.last();
        assert(piece_fits(original, add, ps[ps.len() - 1]));
        assert forall|j: int| 0 <= j < ps.drop_last().len() implies #[trigger] piece_fits(
            original,
            add,
            ps.drop_last()[j],
        ) by {
            assert(piece_fits(original, add, ps[j]));
        }
        lemma_text_grow(original, add, grown, ps.drop_last());
        assert(slice_of(original, grown, p) =~= slice_of(original, add, p)) by {
            if p.source == Source::Add {
                assert forall|k: int| 0 <= k < p.hi() - p.lo() implies slice_of(
                    original,
                    grown,
                    p,
                )[k] == slice_of(original, add, p)[k] by {
                    assert(grown.take(add.len() as int)[p.lo() + k] == grown[p.lo() + k]);
                }
            }
        }
        assert forall|j: int| 0 <= j < ps.len() implies #[trigger] piece_fits(
            original,
            grown,
            ps[j],
        ) by {
            assert(piece_fits(original, add, ps[j]));
        }
    }
}

/// Adding a piece at the end adds its slice at the end of the text.
pub proof fn lemma_text_push(original: Seq<char>, add: Seq<char>, ps: Seq<Piece>, p: Piece)
    ensures
        text_of(original, add, ps.push(p)) == text_of(original, add, ps) + slice_of(original, add, p),
        len_of(ps.push(p)) == len_of(ps) + p.spec_len(),
{
    assert(ps.push(p).drop_last() =~= ps);
}

/// The first `i + 1` pieces have the text of the first `i` followed by the
/// slice of piece `i`; their summed length is at most that of the whole list.
pub proof fn lemma_take_step(original: Seq<char>, add: Seq<char>, ps: Seq<Piece>, i: int)
    requires
        0 <= i < ps.len(),
    ensures
        text_of(original, add, ps.take(i + 1)) == text_of(original, add, ps.take(i)) + slice_of(
            original,
            add,
            ps[i],
        ),
        len_of(ps.take(i + 1)) == len_of(ps.take(i)) + ps[i].spec_len(),
        len_of(ps.take(i + 1)) <= len_of(ps),
{
    assert(ps.take(i + 1) =~= ps.take(i).push(ps[i]));
    lemma_text_push(original, add, ps.take(i), ps[i]);
    assert(ps =~= ps.take(i + 1) + ps.skip(i + 1));
    lemma_text_concat(original, add, ps.take(i + 1), ps.skip(i + 1));
}

/// Replacing piece `i` of `ps` by the list `mid`: the text around it stays,
/// and the pieces still fit when those of `mid` do.
pub proof fn lemma_replace(
    original: Seq<char>,
    add: Seq<char>,
    ps: Seq<Piece>,
    i: int,
    mid: Seq<Piece>,
)
    requires
        0 <= i < ps.len(),
    ensures
        text_of(original, add, ps) == text_of(original, add, ps.take(i)) + slice_of(
            original,
            add,
            ps[i],
        ) + text_of(original, add, ps.skip(i + 1)),
        len_of(ps) == len_of(ps.take(i)) + ps[i].spec_len() + len_of(ps.skip(i + 1)),
        text_of(original, add, ps.take(i) + mid + ps.skip(i + 1)) == text_of(
            original,
            add,
            ps.take(i),
        ) + text_of(original, add, mid) + text_of(original, add, ps.skip(i + 1)),
        len_of(ps.take(i) + mid + ps.skip(i + 1)) == len_of(ps.take(i)) + len_of(mid) + len_of(
            ps.skip(i + 1),
        ),
        all_fit(original, add, ps) && all_fit(original, add, mid) ==> all_fit(
            original,
            add,
            ps.take(i) + mid + ps.skip(i + 1),
        ),
{
    let pre = ps.take(i);
    let post = ps.skip(i + 1);
    lemma_take_step(original, add, ps, i);
    assert(ps =~= ps.take(i + 1) + post);
    lemma_text_concat(original, add, ps.take(i + 1), post);
    lemma_text_concat(original, add, pre, mid);
    lemma_text_concat(original, add, pre + mid, post);
    if all_fit(original, add, ps) && all_fit(original, add, mid) {
        let q = pre + mid + post;
        assert forall|j: int| 0 <= j < q.len() implies #[trigger] piece_fits(
            original,
            add,
            q[j],
        ) by {
            if j < i {
                assert(q[j] == ps[j]);
            } else if j < i + mid.len() {
                assert(q[j] == mid[j - i]);
            } else {
                assert(q[j] == ps[j - mid.len() + 1]);
            }
        }
    }
}

/// Replacing piece `i` of `ps`, whose slice is `s`, by pieces whose text is
/// `s[..k] + x + s[m..]` turns the text `T` of `ps` into
/// `T[..at] + x + T[at + m - k..]`, where `at` is the offset of `s[k]` in `T`.
pub proof fn lemma_replace_text(
    original: Seq<char>,
    add: Seq<char>,
    ps: Seq<Piece>,
    i: int,
    mid: Seq<Piece>,
    k: int,
    m: int,
    x: Seq<char>,
)
    requires
        0 <= i < ps.len(),
        all_fit(original, add, ps),
        all_fit(original, add, mid),
        0 <= k <= m <= slice_of(original, add, ps[i]).len(),
        text_of(original, add, mid) == slice_of(original, add, ps[i]).take(k) + x + slice_of(
            original,
            add,
            ps[i],
        ).skip(m),
    ensures
        ({
            let t = text_of(original, add, ps);
            let at = len_of(ps.take(i)) + k;
            &&& text_of(original, add, ps.take(i) + mid + ps.skip(i + 1)) == t.take(at) + x + t.skip(
                at + m - k,
            )
            &&& 0 <= at <= at + m - k <= t.len()
        }),
        all_fit(original, add, ps.take(i) + mid + ps.skip(i + 1)),
{
    let s = slice_of(original, add, ps[i]);
    let t = text_of(original, add, ps);
    lemma_replace(original, add, ps, i, mid);
    assert(all_fit(original, add, ps.take(i))) by {
        assert forall|j: int| 0 <= j < ps.take(i).len() implies #[trigger] piece_fits(
            original,
            add,
            ps.take(i)[j],
        ) by {
            assert(piece_fits(original, add, ps[j]));
        }
    }
    lemma_text_len(original, add, ps.take(i));
    let pre = text_of(original, add, ps.take(i));
    let post = text_of(original, add, ps.skip(i + 1));
    let at = len_of(ps.take(i)) + k;
    assert(t == pre + s + post);
    assert(t.take(at) =~= pre + s.take(k));
    assert(t.skip(at + m - k) =~= s.skip(m) + post);
    assert(text_of(original, add, ps.take(i) + mid + ps.skip(i + 1)) =~= t.take(at) + x + t.skip(
        at + m - k,
    ));
}

/// Putting a fitting piece into a list of fitting pieces at index `i`.
pub proof fn lemma_insert_piece(
    original: Seq<char>,
    add: Seq<char>,
    ps: Seq<Piece>,
    i: int,
    p: Piece,
)
    requires
        0 <= i <= ps.len(),
        all_fit(original, add, ps),
        piece_fits(original, add, p),
    ensures
        all_fit(original, add, ps.insert(i, p)),
        len_of(ps.insert(i, p)) == len_of(ps) + p.spec_len(),
{
    let q = ps.insert(i, p);
    assert forall|j: int| 0 <= j < q.len() implies #[trigger] piece_fits(original, add, q[j]) by {
        if j < i {
            assert(piece_fits(original, add, ps[j]));
        } else if j > i {
            assert(piece_fits(original, add, ps[j - 1]));
        }
    }
    assert(q =~= ps.take(i) + seq![p] + ps.skip(i));
    assert(ps =~= ps.take(i) + ps.skip(i));
    lemma_text_concat(original, add, ps.take(i), seq![p]);
    lemma_text_concat(original, add, ps.take(i) + seq![p], ps.skip(i));
    lemma_text_concat(original, add, ps.take(i), ps.skip(i));
    lemma_single(original, add, p);
}

/// Splitting a piece at an inner offset leaves its text as it was.
pub proof fn lemma_split_text(
    original: Seq<char>,
    add: Seq<char>,
    p: Piece,
    left: Piece,
    right: Piece,
    mid: int,
)
    requires
        piece_fits(original, add, p),
        p.lo() <= mid <= p.hi(),
        left.source == p.source,
        right.source == p.source,
        left.lo() == p.lo(),
        left.hi() == mid,
        right.lo() == mid,
        right.hi() == p.hi(),
    ensures
        slice_of(original, add, p) == slice_of(original, add, left) + slice_of(
            original,
            add,
            right,
        ),
        piece_fits(original, add, left),
        piece_fits(original, add, right),
{
    assert(slice_of(original, add, p) =~= slice_of(original, add, left) + slice_of(
        original,
        add,
        right,
    ));
}

} // verus!
