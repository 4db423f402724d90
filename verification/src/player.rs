//! The two players.

use vstd::prelude::*;

verus! {

/// A gomoku player: X or O.
#[derive(Clone, Copy, PartialEq, Eq, Structural, Debug)]
pub enum Player {
    X,
    O,
}

/// Why a text was not accepted as a player.
#[derive(Debug)]
pub struct Error(pub &'static str);

impl Player {
    /// The other player.
    pub open spec fn other(self) -> Player {
        match self {
            Player::X => Player::O,
            Player::O => Player::X,
        }
    }

    /// The character a player is written with.
    pub open spec fn glyph(self) -> char {
        match self {
            Player::X => 'x',
            Player::O => 'o',
        }
    }

    /// Returns the char representation of the player.
    pub fn char(self) -> (c: char)
        ensures
            c == self.glyph(),
    {
        match self {
            Player::X => 'x',
            Player::O => 'o',
        }
    }

    /// Returns the index of the player in a per-player pair: 0 for X, 1 for O.
    pub fn index(self) -> (i: usize)
        ensures
            i == (if self == Player::X { 0usize } else { 1usize }),
    {
        match self {
            Player::X => 0,
            Player::O => 1,
        }
    }

    /// Returns the number a player's stone is counted as: 1 for X, 2 for O.
    pub fn value(self) -> (v: usize)
        ensures
            v == (if self == Player::X { 1usize } else { 2usize }),
    {
        match self {
            Player::X => 1,
            Player::O => 2,
        }
    }

    /// Returns the opponent.
    pub fn next(self) -> (p: Player)
        ensures
            p == self.other(),
    {
        match self {
            Player::X => Player::O,
            Player::O => Player::X,
        }
    }

    /// Tries to convert a char to a player: `'x'` and `'o'` are the only ones accepted.
    pub fn from_char(c: char) -> (r: Result<Player, Error>)
        ensures
            c == 'x' <==> r matches Ok(Player::X),
            c == 'o' <==> r matches Ok(Player::O),
            r is Ok <==> (c == 'x' || c == 'o'),
            r matches Err(e) ==> e.0@ == "Unexpected character!"@,
    {
        if c == 'x' {
            Ok(Player::X)
        } else if c == 'o' {
            Ok(Player::O)
        } else {
            Err(Error("Unexpected character!"))
        }
    }

    /// Tries to convert a string to a player: `"x"` and `"o"` are the only ones accepted.
    pub fn from_string(c: &str) -> (r: Result<Player, Error>)
        ensures
            c@ == seq!['x'] <==> r matches Ok(Player::X),
            c@ == seq!['o'] <==> r matches Ok(Player::O),
            r is Ok <==> (c@ == seq!['x'] || c@ == seq!['o']),
            r matches Err(e) ==> e.0@ == "Unexpected character!"@,
    {
        let mut chars = c.chars();
        let first = chars.next();
        let second = chars.next();
        match (first, second) {
            (Some(ch), None) => {
                assert(c@ =~= seq![ch]);
                Player::from_char(ch)
            },
            _ => {
                assert(c@.len() != 1);
                Err(Error("Unexpected character!"))
            },
        }
    }
}

impl core::ops::Not for Player {
    type Output = Player;

    /// The other player.
    fn not(self) -> (p: Player) {
        match self {
            Player::X => Player::O,
            Player::O => Player::X,
        }
    }
}

impl vstd::std_specs::ops::NotSpecImpl for Player {
    open spec fn obeys_not_spec() -> bool {
        true
    }

    open spec fn not_req(self) -> bool {
        true
    }

    open spec fn not_spec(self) -> Player {
        self.other()
    }
}

impl std::str::FromStr for Player {
    type Err = Error;

    /// Reads a player from text, as `Player::from_string` does.
    fn from_str(s: &str) -> (r: Result<Player, Error>)
        ensures
            s@ == seq!['x'] <==> r matches Ok(Player::X),
            s@ == seq!['o'] <==> r matches Ok(Player::O),
            r is Ok <==> (s@ == seq!['x'] || s@ == seq!['o']),
            r matches Err(e) ==> e.0@ == "Unexpected character!"@,
    {
        Player::from_string(s)
    }
}

/// The other player is never the same one, and the other of the other is the first.
pub proof fn lemma_other_involution(p: Player)
    ensures
        p.other() != p,
        p.other().other() == p,
{
}

} // verus!
