use vstd::prelude::*;

verus! {

/// A card encoded as `rank * 4 + suit` (rank 0 = deuce .. 12 = ace; suits c, d, h, s).
pub type Card = u8;

pub const STREET_PREFLOP: u8 = 0;
pub const STREET_FLOP: u8 = 1;
pub const STREET_TURN: u8 = 2;
pub const STREET_RIVER: u8 = 3;

/// Kind of an action in a hand.
#[derive(Debug, Clone, Copy, PartialEq, Eq, Structural)]
pub enum ActKind {
    Ante,
    SmallBlind,
    BigBlind,
    Fold,
    Check,
    Call,
    Bet,
    Raise,
}

impl ActKind {
    pub open spec fn spec_voluntary(self) -> bool {
        self == ActKind::Call || self == ActKind::Bet || self == ActKind::Raise
    }

    pub open spec fn spec_aggressive(self) -> bool {
        self == ActKind::Bet || self == ActKind::Raise
    }

    pub open spec fn spec_post(self) -> bool {
        self == ActKind::Ante || self == ActKind::SmallBlind || self == ActKind::BigBlind
    }

    /// Call, bet or raise: money put in by choice.
    pub fn is_voluntary(self) -> (r: bool)
        ensures
            r == self.spec_voluntary(),
    {
        matches!(self, ActKind::Call | ActKind::Bet | ActKind::Raise)
    }

    /// Bet or raise.
    pub fn is_aggressive(self) -> (r: bool)
        ensures
            r == self.spec_aggressive(),
    {
        matches!(self, ActKind::Bet | ActKind::Raise)
    }

    /// Forced posts: ante and blinds.
    pub fn is_post(self) -> (r: bool)
        ensures
            r == self.spec_post(),
    {
        matches!(self, ActKind::Ante | ActKind::SmallBlind | ActKind::BigBlind)
    }
}

/// An action as the position and statistics logic sees it (the chip amount is kept by
/// the caller).
#[derive(Debug, Clone, Copy, PartialEq, Eq, Structural)]
pub struct Action {
    pub street: u8,
    /// index of the player in the hand's seats
    pub p: u8,
    pub kind: ActKind,
    /// the player is all-in after this action
    pub allin: bool,
}

pub open spec fn rank_char(r: int) -> char {
    if r == 0 { '2' } else if r == 1 { '3' } else if r == 2 { '4' } else if r == 3 { '5' }
    else if r == 4 { '6' } else if r == 5 { '7' } else if r == 6 { '8' } else if r == 7 { '9' }
    else if r == 8 { 'T' } else if r == 9 { 'J' } else if r == 10 { 'Q' } else if r == 11 { 'K' }
    else { 'A' }
}

pub open spec fn suit_char(s: int) -> char {
    if s == 0 { 'c' } else if s == 1 { 'd' } else if s == 2 { 'h' } else { 's' }
}

pub open spec fn spec_card_str(c: int) -> Seq<char> {
    seq![rank_char(c / 4), suit_char(c % 4)]
}

pub fn rank_ch(r: u8) -> (ch: char)
    requires
        r < 13,
    ensures
        ch == rank_char(r as int),
{
    match r {
        0 => '2', 1 => '3', 2 => '4', 3 => '5', 4 => '6', 5 => '7', 6 => '8', 7 => '9',
        8 => 'T', 9 => 'J', 10 => 'Q', 11 => 'K', _ => 'A',
    }
}

pub fn suit_ch(s: u8) -> (ch: char)
    requires
        s < 4,
    ensures
        ch == suit_char(s as int),
{
    match s {
        0 => 'c', 1 => 'd', 2 => 'h', _ => 's',
    }
}

/// `String::push`: claimed to add the character at the end of the text.
#[verifier::external_body]
pub(crate) fn push_char(s: &mut String, c: char)
    ensures
        final(s)@ == old(s)@.push(c),
{
    s.push(c);
}

/// Two-character name of a card ("Ah", "Tc").
pub fn card_str(c: Card) -> (s: String)
    requires
        c < 52,
    ensures
        s@ == spec_card_str(c as int),
{
    let mut s = String::new();
    push_char(&mut s, rank_ch(c / 4));
    push_char(&mut s, suit_ch(c % 4));
    s
}

} // verus!
