//! Outcome of a position as the search sees it.

use vstd::prelude::*;

verus! {

/// Whether a position is decided, from the point of view of one player.
#[derive(Clone, Copy, PartialEq, Eq, Structural, Debug)]
pub enum State {
    NotEnd,
    Win,
    Lose,
    Draw,
}

impl State {
    /// The same outcome seen by the opponent.
    pub open spec fn flipped(self) -> State {
        match self {
            State::NotEnd => State::NotEnd,
            State::Draw => State::Draw,
            State::Win => State::Lose,
            State::Lose => State::Win,
        }
    }

    /// Whether the position is decided.
    pub fn is_end(self) -> (b: bool)
        ensures
            b == (self != State::NotEnd),
    {
        !matches!(self, State::NotEnd)
    }

    /// Whether the position is won.
    pub fn is_win(self) -> (b: bool)
        ensures
            b == (self == State::Win),
    {
        matches!(self, State::Win)
    }

    /// Whether the position is lost.
    pub fn is_lose(self) -> (b: bool)
        ensures
            b == (self == State::Lose),
    {
        matches!(self, State::Lose)
    }

    /// The outcome from the opponent's side: a win becomes a loss and a loss a win.
    pub fn inversed(self) -> (s: State)
        ensures
            s == self.flipped(),
    {
        match self {
            State::NotEnd => State::NotEnd,
            State::Draw => State::Draw,
            State::Win => State::Lose,
            State::Lose => State::Win,
        }
    }

    /// `Win` for `true`, `NotEnd` for `false`.
    pub fn from_win(b: bool) -> (s: State)
        ensures
            s == (if b { State::Win } else { State::NotEnd }),
    {
        if b {
            State::Win
        } else {
            State::NotEnd
        }
    }

    /// The name of the outcome.
    pub fn to_text(self) -> (s: &'static str)
        ensures
            s@ == (match self {
                State::NotEnd => "Not an end"@,
                State::Draw => "Draw"@,
                State::Win => "Win"@,
                State::Lose => "Lose"@,
            }),
    {
        match self {
            State::NotEnd => "Not an end",
            State::Draw => "Draw",
            State::Win => "Win",
            State::Lose => "Lose",
        }
    }
}

impl From<bool> for State {
    /// `Win` for `true`, `NotEnd` for `false`.
    fn from(b: bool) -> (s: State) {
        State::from_win(b)
    }
}

impl vstd::std_specs::convert::FromSpecImpl<bool> for State {
    open spec fn obeys_from_spec() -> bool {
        true
    }

    open spec fn from_spec(b: bool) -> State {
        if b {
            State::Win
        } else {
            State::NotEnd
        }
    }
}

/// Inverting an outcome twice gives it back.
pub proof fn lemma_flipped_involution(s: State)
    ensures
        s.flipped().flipped() == s,
        s.flipped() == State::NotEnd <==> s == State::NotEnd,
{
}

} // verus!
