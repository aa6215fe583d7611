use vstd::prelude::*;

use crate::board::{board_solved, legal_pours, pour_outcome, Pour, State};
use crate::glass::Color;
use crate::laws::{lemma_search_sound, solves_from};

verus! {

/// The depth-first search from board `b` reached with history `h`: `h`
/// itself when `b` is solved, else the first non-empty result among the
/// legal pours in their fixed order, else the empty sequence. A history never
/// grows past `usize::MAX` pours.
pub open spec fn search(b: Seq<Seq<Color>>, h: Seq<Pour>) -> Seq<Pour>
    decreases usize::MAX - h.len(), 1int, 0int,
{
    if board_solved(b) {
        h
    } else if h.len() >= usize::MAX {
        Seq::empty()
    } else {
        search_among(b, h, legal_pours(b), 0)
    }
}

/// The search over the candidate pours `ms[k..]` from board `b` with history
/// `h`: the first non-empty result of searching on after one of them.
pub open spec fn search_among(b: Seq<Seq<Color>>, h: Seq<Pour>, ms: Seq<Pour>, k: nat) -> Seq<
    Pour,
>
    decreases usize::MAX - h.len(), 0int, ms.len() - k,
{
    if k >= ms.len() || h.len() >= usize::MAX {
        Seq::empty()
    } else {
        match pour_outcome(b, ms[k as int].from as int, ms[k as int].to as int) {
            Ok(next) => {
                let r = search(next, h.push(ms[k as int]));
                if r.len() > 0 {
                    r
                } else {
                    search_among(b, h, ms, k + 1)
                }
            },
            Err(_) => search_among(b, h, ms, k + 1),
        }
    }
}

impl State {
    /// The history of the first solved board that the depth-first search
    /// reaches, trying legal pours in their fixed order; the empty sequence
    /// when no pour sequence leads to a solved board. A board that is solved
    /// already gives its own history.
    pub fn solution(&self) -> (r: Vec<Pour>)
        requires
            self.wf(),
        ensures
            r@ == search(self.board(), self.steps@),
            board_solved(self.board()) ==> r@ == self.steps@,
            r@.len() > 0 ==> solves_from(self.board(), self.steps@, r@),
        decreases usize::MAX - self.steps@.len(),
    {
        let ghost b = self.board();
        let ghost h = self.steps@;
        proof {
            lemma_search_sound(b, h);
        }
        if self.solved() {
            let r = self.steps.clone();
            assert(r@ =~= self.steps@);
            return r;
        }
        if self.steps.len() == usize::MAX {
            return Vec::new();
        }
        let moves = self.legal_moves();
        let mut k: usize = 0;
        while k < moves.len()
            invariant
                b == self.board(),
                h == self.steps@,
                self.wf(),
                !board_solved(b),
                h.len() < usize::MAX,
                moves@ == legal_pours(b),
                forall|i: int|
                    0 <= i < moves@.len() ==> (#[trigger] moves@[i]).from != moves@[i].to
                        && crate::board::pour_legal(b, moves@[i]),
                k <= moves@.len(),
                search(b, h) == search_among(b, h, moves@, k as nat),
                search(b, h).len() > 0 ==> solves_from(b, h, search(b, h)),
            decreases moves@.len() - k,
        {
            let pour = moves[k];
            assert(moves@[k as int] == pour);
            let attempt = self.step(&pour).unwrap();
            let result = attempt.solution();
            if result.len() > 0 {
                return result;
            }
            k = k + 1;
        }
        Vec::new()
    }
}

} // verus!
