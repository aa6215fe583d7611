use vstd::prelude::*;

verus! {

/// How many units a glass holds when it is full.
pub const CAPACITY: usize = 4;

/// The colour of one unit of liquid. Only equality between colours matters.
#[derive(Clone, Copy, Debug, PartialEq, Eq, Structural)]
pub enum Color {
    Blue,
    Green,
    Red,
    Yellow,
    Orange,
    Pink,
    LightGreen,
    DarkGreen,
    Cyan,
    Purple,
    Grey,
    Brown,
    LightBrown,
}

/// Why a single-unit operation on a glass was refused.
#[derive(Clone, Copy, Debug, PartialEq, Eq, Structural)]
pub enum GlassError {
    /// A unit was taken from a glass that holds none.
    EmptyContainer,
    /// A unit was added to a glass that is already full.
    OverCapacity,
}

/// A glass: a stack of coloured units whose last element is the top.
#[derive(Clone, Debug)]
pub struct Glass {
    pub content: Vec<Color>,
}

/// Every unit of `s` has the colour of its first unit.
pub open spec fn uniform(s: Seq<Color>) -> bool {
    forall|i: int| 0 <= i < s.len() ==> #[trigger] s[i] == s[0]
}

/// A glass is complete when it is empty, or full with a single colour.
pub open spec fn glass_complete(s: Seq<Color>) -> bool {
    s.len() == 0 || (s.len() == CAPACITY && uniform(s))
}

/// The length of the run of units on top of `s` that share the top colour.
pub open spec fn top_run(s: Seq<Color>) -> nat
    decreases s.len(),
{
    if s.len() <= 1 {
        s.len()
    } else if s[s.len() - 2] == s[s.len() - 1] {
        1 + top_run(s.drop_last())
    } else {
        1
    }
}

/// `n` units of colour `c`.
pub open spec fn units(c: Color, n: nat) -> Seq<Color> {
    Seq::new(n, |i: int| c)
}

/// The top run is never longer than the glass and is at least one unit long
/// on a non-empty glass; every unit in it has the top colour, and the unit
/// right below it, if any, has another colour.
pub proof fn lemma_top_run(s: Seq<Color>)
    ensures
        top_run(s) <= s.len(),
        s.len() > 0 ==> top_run(s) >= 1,
        forall|i: int| s.len() - top_run(s) <= i < s.len() ==> s[i] == s.last(),
        top_run(s) < s.len() ==> s[s.len() - top_run(s) - 1] != s.last(),
    decreases s.len(),
{
    if s.len() > 1 && s[s.len() - 2] == s[s.len() - 1] {
        let t = s.drop_last();
        lemma_top_run(t);
        assert forall|i: int| s.len() - top_run(s) <= i < s.len() implies s[i] == s.last() by {
            if i < s.len() - 1 {
                assert(s[i] == t[i]);
            }
        }
        if top_run(s) < s.len() {
            assert(s[s.len() - top_run(s) - 1] == t[t.len() - top_run(t) - 1]);
        }
    }
}

impl View for Glass {
    type V = Seq<Color>;

    open spec fn view(&self) -> Seq<Color> {
        self.content@
    }
}

impl Default for Glass {
    fn default() -> (r: Glass)
        ensures
            r@ == Seq::<Color>::empty(),
    {
        Glass { content: Vec::new() }
    }
}

impl Glass {
    /// The glass never holds more than its capacity.
    pub open spec fn wf(&self) -> bool {
        self@.len() <= CAPACITY
    }

    /// A glass holding `src`, bottom first.
    pub fn from(src: Vec<Color>) -> (r: Glass)
        requires
            src@.len() <= CAPACITY,
        ensures
            r@ == src@,
            r.wf(),
    {
        let mut new = Glass::default();
        let mut i: usize = 0;
        while i < src.len()
            invariant
                i <= src@.len(),
                src@.len() <= CAPACITY,
                new@ == src@.subrange(0, i as int),
            decreases src@.len() - i,
        {
            new.content.push(src[i]);
            i = i + 1;
        }
        assert(new@ =~= src@);
        new
    }

    /// Empty, or full with one colour.
    pub fn complete(&self) -> (r: bool)
        ensures
            r == glass_complete(self@),
    {
        let content = &self.content;
        if content.len() == 0 {
            true
        } else {
            let first = content[0];
            if !self.is_full() {
                return false;
            }
            let mut i: usize = 1;
            while i < content.len()
                invariant
                    1 <= i <= content@.len(),
                    content@ == self@,
                    first == content@[0],
                    forall|k: int| 0 <= k < i ==> content@[k] == first,
                decreases content@.len() - i,
            {
                if content[i] != first {
                    assert(self@[i as int] != self@[0]);
                    return false;
                }
                i = i + 1;
            }
            true
        }
    }

    pub fn is_full(&self) -> (r: bool)
        ensures
            r == (self@.len() == CAPACITY),
    {
        self.content.len() == CAPACITY
    }

    pub fn is_empty(&self) -> (r: bool)
        ensures
            r == (self@.len() == 0),
    {
        self.content.len() == 0
    }

    /// The colour on top, if any.
    pub fn top(&self) -> (r: Option<Color>)
        ensures
            self@.len() == 0 ==> r.is_none(),
            self@.len() > 0 ==> r == Some(self@.last()),
    {
        if self.content.len() == 0 {
            None
        } else {
            Some(self.content[self.content.len() - 1])
        }
    }

    /// Takes the top unit off.
    pub fn pop_top(&mut self) -> (r: Result<Color, GlassError>)
        ensures
            old(self)@.len() == 0 <==> r == Err::<Color, GlassError>(GlassError::EmptyContainer),
            old(self)@.len() == 0 ==> final(self)@ == old(self)@,
            old(self)@.len() > 0 ==> r == Ok::<Color, GlassError>(old(self)@.last())
                && final(self)@ == old(self)@.drop_last(),
    {
        match self.content.pop() {
            Some(c) => Ok(c),
            None => Err(GlassError::EmptyContainer),
        }
    }

    /// Puts a unit on top.
    pub fn push(&mut self, c: Color) -> (r: Result<(), GlassError>)
        requires
            old(self).wf(),
        ensures
            old(self)@.len() == CAPACITY <==> r == Err::<(), GlassError>(GlassError::OverCapacity),
            old(self)@.len() == CAPACITY ==> final(self)@ == old(self)@,
            old(self)@.len() < CAPACITY ==> r == Ok::<(), GlassError>(())
                && final(self)@ == old(self)@.push(c),
            final(self).wf(),
    {
        if self.content.len() == CAPACITY {
            Err(GlassError::OverCapacity)
        } else {
            self.content.push(c);
            Ok(())
        }
    }
}

} // verus!
