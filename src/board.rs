use vstd::prelude::*;

use crate::laws::{lemma_legal_pours_complete, lemma_legal_pours_sound};
use crate::glass::{glass_complete, lemma_top_run, top_run, units, Color, Glass, CAPACITY};

verus! {

/// A move: pour from glass `from` into glass `to`.
#[derive(Clone, Copy, Debug, PartialEq, Eq, Structural)]
pub struct Pour {
    pub from: usize,
    pub to: usize,
}

/// Why a pour was refused.
#[derive(Clone, Copy, Debug, PartialEq, Eq, Structural)]
pub enum PourError {
    /// One of the two indices names no glass.
    InvalidIndex,
    /// The destination is not empty and its top colour is not the source's.
    ColorMismatch,
    /// The destination is already full.
    DestinationFull,
    /// The source holds nothing to pour.
    SourceEmpty,
}

/// A board: its glasses, and the pours that led to it from the starting layout.
#[derive(Clone, Debug)]
pub struct State {
    pub glasses: Vec<Glass>,
    pub steps: Vec<Pour>,
}

/// The contents of each glass, bottom first.
pub open spec fn board_of(glasses: Seq<Glass>) -> Seq<Seq<Color>> {
    Seq::new(glasses.len(), |i: int| glasses[i]@)
}

/// No glass holds more than its capacity.
pub open spec fn board_wf(b: Seq<Seq<Color>>) -> bool {
    forall|i: int| 0 <= i < b.len() ==> #[trigger] b[i].len() <= CAPACITY
}

/// Every glass is complete.
pub open spec fn board_solved(b: Seq<Seq<Color>>) -> bool {
    forall|i: int| 0 <= i < b.len() ==> glass_complete(#[trigger] b[i])
}

/// How many units a pour moves: the source's top run, as far as the
/// destination has room.
pub open spec fn pour_amount(s: Seq<Color>, d: Seq<Color>) -> nat {
    let room = (CAPACITY - d.len()) as nat;
    if top_run(s) <= room {
        top_run(s)
    } else {
        room
    }
}

/// The board after pouring glass `from` into glass `to`, or why that pour
/// is refused. The checks come in this order: indices, colours, room in the
/// destination, units in the source.
pub open spec fn pour_outcome(b: Seq<Seq<Color>>, from: int, to: int) -> Result<
    Seq<Seq<Color>>,
    PourError,
> {
    if !(0 <= from < b.len() && 0 <= to < b.len()) {
        Err(PourError::InvalidIndex)
    } else {
        let s = b[from];
        let d = b[to];
        if d.len() > 0 && (s.len() == 0 || s.last() != d.last()) {
            Err(PourError::ColorMismatch)
        } else if d.len() >= CAPACITY {
            Err(PourError::DestinationFull)
        } else if s.len() == 0 {
            Err(PourError::SourceEmpty)
        } else {
            let k = pour_amount(s, d);
            Ok(
                b.update(from, s.subrange(0, s.len() - k)).update(
                    to,
                    d + units(s.last(), k),
                ),
            )
        }
    }
}

/// The pour `p` is accepted on board `b`.
pub open spec fn pour_legal(b: Seq<Seq<Color>>, p: Pour) -> bool {
    pour_outcome(b, p.from as int, p.to as int) is Ok
}

/// The legal pours out of glass `i`, into glasses `0 .. j`, by destination.
pub open spec fn legal_in_row(b: Seq<Seq<Color>>, i: nat, j: nat) -> Seq<Pour>
    decreases j,
{
    if j == 0 {
        Seq::empty()
    } else {
        let earlier = legal_in_row(b, i, (j - 1) as nat);
        let p = Pour { from: i as usize, to: (j - 1) as usize };
        if p.from != p.to && pour_legal(b, p) {
            earlier.push(p)
        } else {
            earlier
        }
    }
}

/// The legal pours out of glasses `0 .. i`, by source, then destination.
pub open spec fn legal_before(b: Seq<Seq<Color>>, i: nat) -> Seq<Pour>
    decreases i,
{
    if i == 0 {
        Seq::empty()
    } else {
        legal_before(b, (i - 1) as nat) + legal_in_row(b, (i - 1) as nat, b.len())
    }
}

/// Every legal pour between two distinct glasses, by source, then destination.
pub open spec fn legal_pours(b: Seq<Seq<Color>>) -> Seq<Pour> {
    legal_before(b, b.len())
}

impl State {
    /// The contents of each glass.
    pub open spec fn board(&self) -> Seq<Seq<Color>> {
        board_of(self.glasses@)
    }

    /// No glass is over capacity.
    pub open spec fn wf(&self) -> bool {
        board_wf(self.board())
    }
}

impl Default for State {
    /// No glasses and no history.
    fn default() -> (r: State)
        ensures
            r.glasses@.len() == 0,
            r.steps@.len() == 0,
    {
        State { glasses: Vec::new(), steps: Vec::new() }
    }
}

/// A copy of each glass.
fn copy_glasses(glasses: &Vec<Glass>) -> (r: Vec<Glass>)
    ensures
        board_of(r@) == board_of(glasses@),
{
    let mut r: Vec<Glass> = Vec::new();
    let mut i: usize = 0;
    while i < glasses.len()
        invariant
            i <= glasses@.len(),
            r@.len() == i,
            forall|k: int| 0 <= k < i ==> (#[trigger] r@[k])@ == glasses@[k]@,
        decreases glasses@.len() - i,
    {
        let c = glasses[i].content.clone();
        assert(c@ =~= glasses@[i as int]@);
        r.push(Glass { content: c });
        i = i + 1;
    }
    assert(board_of(r@) =~= board_of(glasses@));
    r
}

impl State {
    /// Every glass is complete.
    pub fn solved(&self) -> (r: bool)
        ensures
            r == board_solved(self.board()),
    {
        let mut i: usize = 0;
        while i < self.glasses.len()
            invariant
                i <= self.glasses@.len(),
                forall|k: int| 0 <= k < i ==> glass_complete(#[trigger] self.board()[k]),
            decreases self.glasses@.len() - i,
        {
            if !self.glasses[i].complete() {
                assert(!glass_complete(self.board()[i as int]));
                return false;
            }
            i = i + 1;
        }
        true
    }

    /// The pour would be accepted.
    pub fn is_legal(&self, pour: &Pour) -> (r: bool)
        requires
            self.wf(),
            pour.from != pour.to,
            self.steps@.len() < usize::MAX,
        ensures
            r == pour_legal(self.board(), *pour),
    {
        self.step(pour).is_ok()
    }

    /// Every legal pour between two distinct glasses, ordered by source, then
    /// by destination.
    pub fn legal_moves(&self) -> (r: Vec<Pour>)
        requires
            self.wf(),
            self.steps@.len() < usize::MAX,
        ensures
            r@ == legal_pours(self.board()),
            forall|k: int|
                0 <= k < r@.len() ==> (#[trigger] r@[k]).from != r@[k].to && pour_legal(
                    self.board(),
                    r@[k],
                ),
            forall|p: Pour| p.from != p.to && pour_legal(self.board(), p) ==> r@.contains(p),
    {
        let n = self.glasses.len();
        let ghost b = self.board();
        let mut result: Vec<Pour> = Vec::new();
        let mut i: usize = 0;
        while i < n
            invariant
                n == b.len(),
                b == self.board(),
                self.wf(),
                self.steps@.len() < usize::MAX,
                i <= n,
                result@ == legal_before(b, i as nat),
            decreases n - i,
        {
            let mut j: usize = 0;
            while j < n
                invariant
                    n == b.len(),
                    b == self.board(),
                    self.wf(),
                    self.steps@.len() < usize::MAX,
                    i < n,
                    j <= n,
                    result@ == legal_before(b, i as nat) + legal_in_row(b, i as nat, j as nat),
                decreases n - j,
            {
                if i != j {
                    let p = Pour { from: i, to: j };
                    if self.is_legal(&p) {
                        result.push(p);
                    }
                }
                proof {
                    assert(legal_in_row(b, i as nat, (j + 1) as nat) == (if i != j && pour_legal(b, Pour { from: i, to: j }) {
                        legal_in_row(b, i as nat, j as nat).push(Pour { from: i, to: j })
                    } else {
                        legal_in_row(b, i as nat, j as nat)
                    }));
                    assert(result@ =~= legal_before(b, i as nat) + legal_in_row(b, i as nat, (j + 1) as nat));
                }
                j = j + 1;
            }
            i = i + 1;
        }
        proof {
            lemma_legal_pours_sound(b);
            assert forall|p: Pour| p.from != p.to && pour_legal(b, p) implies result@.contains(p) by {
                lemma_legal_pours_complete(b, p);
            }
        }
        result
    }

    /// Pours `step.from` into `step.to`: the whole top run of one colour
    /// moves, as far as the destination has room. The new state records the
    /// move at the end of its history; `self` is left as it was.
    pub fn step(&self, step: &Pour) -> (r: Result<State, PourError>)
        requires
            self.wf(),
            step.from != step.to,
            self.steps@.len() < usize::MAX,
        ensures
            match r {
                Ok(next) => {
                    &&& pour_outcome(self.board(), step.from as int, step.to as int) == Ok::<
                        Seq<Seq<Color>>,
                        PourError,
                    >(next.board())
                    &&& next.steps@ == self.steps@.push(*step)
                    &&& next.wf()
                },
                Err(e) => pour_outcome(self.board(), step.from as int, step.to as int) == Err::<
                    Seq<Seq<Color>>,
                    PourError,
                >(e),
            },
    {
        let ghost b = self.board();
        let n = self.glasses.len();
        if step.from >= n || step.to >= n {
            return Err(PourError::InvalidIndex);
        }
        let ghost s = b[step.from as int];
        let ghost d = b[step.to as int];
        assert(self.glasses@[step.from as int]@ == s);
        assert(self.glasses@[step.to as int]@ == d);
        let source = &self.glasses[step.from];
        let destination = &self.glasses[step.to];
        if !destination.is_empty() {
            let same = match (source.top(), destination.top()) {
                (Some(a), Some(c)) => a == c,
                _ => false,
            };
            if !same {
                return Err(PourError::ColorMismatch);
            }
        }
        let ghost c = s.last();
        let ghost k = pour_amount(s, d);
        proof {
            lemma_top_run(s);
            assert(d.len() <= CAPACITY);
        }
        let mut glasses = copy_glasses(&self.glasses);
        let ghost m: nat = 0;
        proof {
            assert(s.subrange(0, s.len() as int) =~= s);
            assert(d + units(c, 0) =~= d);
            assert(b.update(step.from as int, s).update(step.to as int, d) =~= b);
        }
        loop
            invariant_except_break
                m == 0 || (m < k && d.len() + m < CAPACITY),
            invariant
                glasses@.len() == n,
                b.len() == n,
                b == self.board(),
                board_of(glasses@) == b.update(step.from as int, s.subrange(0, s.len() - m)).update(
                    step.to as int,
                    d + units(c, m),
                ),
                board_wf(b),
                step.from < n,
                step.to < n,
                step.from != step.to,
                s == b[step.from as int],
                d == b[step.to as int],
                d.len() > 0 ==> s.len() > 0 && s.last() == d.last(),
                c == s.last(),
                k == pour_amount(s, d),
                top_run(s) <= s.len(),
                s.len() > 0 ==> top_run(s) >= 1,
                forall|i: int| s.len() - top_run(s) <= i < s.len() ==> s[i] == s.last(),
                top_run(s) < s.len() ==> s[s.len() - top_run(s) - 1] != s.last(),
                d.len() <= CAPACITY,
                k <= top_run(s),
                m <= s.len(),
            ensures
                d.len() < CAPACITY,
                s.len() > 0,
                board_of(glasses@) == b.update(step.from as int, s.subrange(0, s.len() - k)).update(
                    step.to as int,
                    d + units(c, k),
                ),
            decreases s.len() - m,
        {
            assert(board_of(glasses@)[step.from as int] == glasses@[step.from as int]@);
            assert(board_of(glasses@)[step.to as int] == glasses@[step.to as int]@);
            assert(glasses@[step.from as int]@ == s.subrange(0, s.len() - m));
            if glasses[step.to].is_full() {
                return Err(PourError::DestinationFull);
            }
            let ghost before = glasses@;
            let moved = match glasses[step.from].pop_top() {
                Ok(unit) => unit,
                Err(_) => {
                    return Err(PourError::SourceEmpty);
                },
            };
            assert(moved == s[s.len() - m - 1]);
            assert(moved == c);
            let pushed = glasses[step.to].push(moved);
            proof {
                let prev = b.update(step.from as int, s.subrange(0, s.len() - m)).update(
                    step.to as int,
                    d + units(c, m),
                );
                assert(board_of(before) == prev);
                m = m + 1;
                let cur = b.update(step.from as int, s.subrange(0, s.len() - m)).update(
                    step.to as int,
                    d + units(c, m),
                );
                assert forall|i: int| 0 <= i < n implies board_of(glasses@)[i] == cur[i] by {
                    if i != step.from && i != step.to {
                        assert(glasses@[i] == before[i]);
                        assert(board_of(before)[i] == before[i]@);
                    }
                }
                assert(board_of(glasses@) =~= b.update(step.from as int, s.subrange(0, s.len() - m)).update(
                    step.to as int,
                    d + units(c, m),
                ));
            }
            assert(board_of(glasses@)[step.from as int] == glasses@[step.from as int]@);
            assert(board_of(glasses@)[step.to as int] == glasses@[step.to as int]@);
            match glasses[step.from].top() {
                None => {
                    break;
                },
                Some(source_top) => {
                    let destination_full = glasses[step.to].is_full();
                    if source_top != moved || destination_full {
                        break;
                    }
                    assert(source_top == s[s.len() - m - 1]);
                },
            }
        }
        let mut steps = self.steps.clone();
        steps.push(*step);
        proof {
            assert(steps@ =~= self.steps@.push(*step));
        }
        Ok(State { glasses, steps })
    }
}

} // verus!
