use vstd::prelude::*;

use crate::board::{
    board_solved, board_wf, legal_before, legal_in_row, legal_pours, pour_amount, pour_legal,
    pour_outcome, Pour, PourError,
};
use crate::glass::{lemma_top_run, top_run, units, Color, CAPACITY};
use crate::search::{search, search_among};

verus! {

/// The board reached by making the pours of `path` one after another from
/// `b`, or `None` when one of them is refused.
pub open spec fn replay(b: Seq<Seq<Color>>, path: Seq<Pour>) -> Option<Seq<Seq<Color>>>
    decreases path.len(),
{
    if path.len() == 0 {
        Some(b)
    } else {
        match pour_outcome(b, path[0].from as int, path[0].to as int) {
            Ok(next) => replay(next, path.drop_first()),
            Err(_) => None,
        }
    }
}

/// `r` extends the history `h` with pours that, made from `b`, are all
/// accepted and end on a solved board.
pub open spec fn solves_from(b: Seq<Seq<Color>>, h: Seq<Pour>, r: Seq<Pour>) -> bool {
    &&& h.len() <= r.len()
    &&& r.subrange(0, h.len() as int) == h
    &&& replay(b, r.subrange(h.len() as int, r.len() as int)) is Some
    &&& board_solved(replay(b, r.subrange(h.len() as int, r.len() as int))->Some_0)
}

/// A board whose glasses are all empty is solved.
pub proof fn lemma_empty_board_solved(b: Seq<Seq<Color>>)
    requires
        forall|i: int| 0 <= i < b.len() ==> (#[trigger] b[i]).len() == 0,
    ensures
        board_solved(b),
{
}

/// A pour onto a non-empty glass whose top colour differs from the source's
/// top colour is refused as a colour mismatch.
pub proof fn lemma_mismatch_refused(b: Seq<Seq<Color>>, from: int, to: int)
    requires
        0 <= from < b.len(),
        0 <= to < b.len(),
        b[from].len() > 0,
        b[to].len() > 0,
        b[from].last() != b[to].last(),
    ensures
        pour_outcome(b, from, to) == Err::<Seq<Seq<Color>>, PourError>(PourError::ColorMismatch),
{
}

/// An accepted pour moves `k` units of the source's top colour, where `k` is
/// the length of the source's top run or the room left in the destination,
/// whichever is smaller; at least one unit moves; no other glass changes. When
/// the pour stops with room left and units left in the source, the unit now
/// on top of the source has another colour.
pub proof fn lemma_pour_moves_top_run(b: Seq<Seq<Color>>, from: int, to: int)
    requires
        board_wf(b),
        from != to,
        pour_outcome(b, from, to) is Ok,
    ensures
        ({
            let s = b[from];
            let d = b[to];
            let next = pour_outcome(b, from, to)->Ok_0;
            let k = pour_amount(s, d);
            &&& k == if top_run(s) <= CAPACITY - d.len() {
                top_run(s)
            } else {
                (CAPACITY - d.len()) as nat
            }
            &&& 1 <= k <= s.len()
            &&& d.len() + k <= CAPACITY
            &&& forall|i: int| s.len() - k <= i < s.len() ==> s[i] == s.last()
            &&& next[from] == s.subrange(0, s.len() - k)
            &&& next[to] == d + units(s.last(), k)
            &&& next.len() == b.len()
            &&& forall|i: int| 0 <= i < b.len() && i != from && i != to ==> next[i] == b[i]
            &&& (k < CAPACITY - d.len() && k < s.len()) ==> s[s.len() - k - 1] != s.last()
        }),
{
    let s = b[from];
    let d = b[to];
    lemma_top_run(s);
    assert(d.len() <= CAPACITY);
}

/// Each pour listed in `legal_in_row(b, i, j)` is legal and between two
/// distinct glasses.
proof fn lemma_legal_in_row_sound(b: Seq<Seq<Color>>, i: nat, j: nat)
    ensures
        forall|k: int|
            0 <= k < legal_in_row(b, i, j).len() ==> (#[trigger] legal_in_row(b, i, j)[k]).from
                != legal_in_row(b, i, j)[k].to && pour_legal(b, legal_in_row(b, i, j)[k]),
    decreases j,
{
    if j > 0 {
        let prev = legal_in_row(b, i, (j - 1) as nat);
        lemma_legal_in_row_sound(b, i, (j - 1) as nat);
        assert forall|k: int| 0 <= k < legal_in_row(b, i, j).len() implies (#[trigger] legal_in_row(
            b,
            i,
            j,
        )[k]).from != legal_in_row(b, i, j)[k].to && pour_legal(b, legal_in_row(b, i, j)[k]) by {
            if k < prev.len() {
                assert(legal_in_row(b, i, j)[k] == prev[k]);
            }
        }
    }
}

/// Each pour listed in `legal_before(b, i)` is legal and between two
/// distinct glasses.
proof fn lemma_legal_before_sound(b: Seq<Seq<Color>>, i: nat)
    ensures
        forall|k: int|
            0 <= k < legal_before(b, i).len() ==> (#[trigger] legal_before(b, i)[k]).from
                != legal_before(b, i)[k].to && pour_legal(b, legal_before(b, i)[k]),
    decreases i,
{
    if i > 0 {
        let prev = legal_before(b, (i - 1) as nat);
        let row = legal_in_row(b, (i - 1) as nat, b.len());
        lemma_legal_before_sound(b, (i - 1) as nat);
        lemma_legal_in_row_sound(b, (i - 1) as nat, b.len());
        assert forall|k: int| 0 <= k < legal_before(b, i).len() implies (#[trigger] legal_before(
            b,
            i,
        )[k]).from != legal_before(b, i)[k].to && pour_legal(b, legal_before(b, i)[k]) by {
            if k < prev.len() {
                assert(legal_before(b, i)[k] == prev[k]);
            } else {
                assert(legal_before(b, i)[k] == row[k - prev.len()]);
            }
        }
    }
}

/// No listed legal move pours a glass into itself, and each is accepted.
pub proof fn lemma_legal_pours_sound(b: Seq<Seq<Color>>)
    ensures
        forall|k: int|
            0 <= k < legal_pours(b).len() ==> (#[trigger] legal_pours(b)[k]).from != legal_pours(
                b,
            )[k].to && pour_legal(b, legal_pours(b)[k]),
{
    lemma_legal_before_sound(b, b.len());
}

/// A legal pour out of glass `p.from` into a glass before `j` is listed in
/// that glass's row.
proof fn lemma_legal_in_row_complete(b: Seq<Seq<Color>>, j: nat, p: Pour)
    requires
        p.to < j,
        p.from != p.to,
        pour_legal(b, p),
    ensures
        legal_in_row(b, p.from as nat, j).contains(p),
    decreases j,
{
    let row = legal_in_row(b, p.from as nat, j);
    let prev = legal_in_row(b, p.from as nat, (j - 1) as nat);
    if p.to == j - 1 {
        assert(row == prev.push(p));
        assert(row[prev.len() as int] == p);
    } else {
        lemma_legal_in_row_complete(b, (j - 1) as nat, p);
        let k = choose|k: int| 0 <= k < prev.len() && prev[k] == p;
        assert(row[k] == p);
    }
}

/// A legal pour out of a glass before `i` is listed in `legal_before(b, i)`.
proof fn lemma_legal_before_complete(b: Seq<Seq<Color>>, i: nat, p: Pour)
    requires
        p.from < i,
        p.to < b.len(),
        p.from != p.to,
        pour_legal(b, p),
    ensures
        legal_before(b, i).contains(p),
    decreases i,
{
    let prev = legal_before(b, (i - 1) as nat);
    let row = legal_in_row(b, (i - 1) as nat, b.len());
    assert(legal_before(b, i) == prev + row);
    if p.from == i - 1 {
        lemma_legal_in_row_complete(b, b.len(), p);
        let k = choose|k: int| 0 <= k < row.len() && row[k] == p;
        assert((prev + row)[prev.len() + k] == p);
    } else {
        lemma_legal_before_complete(b, (i - 1) as nat, p);
        let k = choose|k: int| 0 <= k < prev.len() && prev[k] == p;
        assert((prev + row)[k] == p);
    }
}

/// Every legal pour between two distinct glasses of the board is listed.
pub proof fn lemma_legal_pours_complete(b: Seq<Seq<Color>>, p: Pour)
    requires
        p.from != p.to,
        pour_legal(b, p),
    ensures
        legal_pours(b).contains(p),
{
    lemma_legal_before_complete(b, b.len(), p);
}

/// A non-empty search result extends the history it started from with
/// pours that are accepted in turn and end on a solved board.
pub proof fn lemma_search_sound(b: Seq<Seq<Color>>, h: Seq<Pour>)
    ensures
        search(b, h).len() > 0 ==> solves_from(b, h, search(b, h)),
    decreases usize::MAX - h.len(), 1int, 0int,
{
    let r = search(b, h);
    if board_solved(b) {
        assert(r.subrange(0, h.len() as int) =~= h);
        assert(r.subrange(h.len() as int, r.len() as int) =~= Seq::<Pour>::empty());
    } else if h.len() < usize::MAX {
        lemma_search_among_sound(b, h, legal_pours(b), 0);
    }
}

/// A non-empty result of searching after one of the candidate pours `ms[k..]`
/// extends the history with pours that are accepted in turn and end on a
/// solved board.
pub proof fn lemma_search_among_sound(b: Seq<Seq<Color>>, h: Seq<Pour>, ms: Seq<Pour>, k: nat)
    ensures
        search_among(b, h, ms, k).len() > 0 ==> solves_from(b, h, search_among(b, h, ms, k)),
    decreases usize::MAX - h.len(), 0int, ms.len() - k,
{
    if k < ms.len() && h.len() < usize::MAX {
        let p = ms[k as int];
        match pour_outcome(b, p.from as int, p.to as int) {
            Ok(next) => {
                let h2 = h.push(p);
                let r = search(next, h2);
                if r.len() > 0 {
                    lemma_search_sound(next, h2);
                    let tail = r.subrange(h2.len() as int, r.len() as int);
                    let path = r.subrange(h.len() as int, r.len() as int);
                    assert(r.subrange(0, h.len() as int) =~= h2.subrange(0, h.len() as int));
                    assert(h2.subrange(0, h.len() as int) =~= h);
                    assert(path[0] == r[h.len() as int]);
                    assert(r[h.len() as int] == h2[h.len() as int]);
                    assert(path.drop_first() =~= tail);
                } else {
                    lemma_search_among_sound(b, h, ms, k + 1);
                }
            },
            Err(_) => {
                lemma_search_among_sound(b, h, ms, k + 1);
            },
        }
    }
}

} // verus!
