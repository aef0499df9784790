use vstd::prelude::*;
use vstd::string::*;

use crate::errors::TaxRankParsingError;
use crate::text::{decimal, push_char, push_decimal};

verus! {

/// A taxonomic level, with an offset that counts sub-clades below it
/// (a parvorder, a subfamily, ...).
///
/// The order is by level first, in the order of declaration, then by offset.
#[derive(Clone, Copy, Debug, PartialEq, Eq, Structural, PartialOrd, Ord, Hash)]
pub enum Rank {
    Unclassified(u32),
    Root(u32),
    Domain(u32),
    Kingdom(u32),
    Phylum(u32),
    Class(u32),
    Order(u32),
    Family(u32),
    Genus(u32),
    Species(u32),
}

/// The position of a rank's level in the order of declaration.
pub open spec fn level_of(r: Rank) -> nat {
    match r {
        Rank::Unclassified(_) => 0,
        Rank::Root(_) => 1,
        Rank::Domain(_) => 2,
        Rank::Kingdom(_) => 3,
        Rank::Phylum(_) => 4,
        Rank::Class(_) => 5,
        Rank::Order(_) => 6,
        Rank::Family(_) => 7,
        Rank::Genus(_) => 8,
        Rank::Species(_) => 9,
    }
}

/// The sub-clade offset of a rank.
pub open spec fn offset_of(r: Rank) -> u32 {
    match r {
        Rank::Unclassified(i) => i,
        Rank::Root(i) => i,
        Rank::Domain(i) => i,
        Rank::Kingdom(i) => i,
        Rank::Phylum(i) => i,
        Rank::Class(i) => i,
        Rank::Order(i) => i,
        Rank::Family(i) => i,
        Rank::Genus(i) => i,
        Rank::Species(i) => i,
    }
}

/// The rank at the same level as `r`, with offset `o`.
pub open spec fn with_offset(r: Rank, o: u32) -> Rank {
    match r {
        Rank::Unclassified(_) => Rank::Unclassified(o),
        Rank::Root(_) => Rank::Root(o),
        Rank::Domain(_) => Rank::Domain(o),
        Rank::Kingdom(_) => Rank::Kingdom(o),
        Rank::Phylum(_) => Rank::Phylum(o),
        Rank::Class(_) => Rank::Class(o),
        Rank::Order(_) => Rank::Order(o),
        Rank::Family(_) => Rank::Family(o),
        Rank::Genus(_) => Rank::Genus(o),
        Rank::Species(_) => Rank::Species(o),
    }
}

/// `a` comes strictly before `b` in the order of ranks.
pub open spec fn rank_lt(a: Rank, b: Rank) -> bool {
    level_of(a) < level_of(b) || (level_of(a) == level_of(b) && offset_of(a) < offset_of(b))
}

/// The level that a rank letter stands for, if any.
pub open spec fn rank_of_letter(c: char, offset: u32) -> Option<Rank> {
    if c == 'U' {
        Some(Rank::Unclassified(offset))
    } else if c == 'R' {
        Some(Rank::Root(offset))
    } else if c == 'D' {
        Some(Rank::Domain(offset))
    } else if c == 'K' {
        Some(Rank::Kingdom(offset))
    } else if c == 'P' {
        Some(Rank::Phylum(offset))
    } else if c == 'C' {
        Some(Rank::Class(offset))
    } else if c == 'O' {
        Some(Rank::Order(offset))
    } else if c == 'F' {
        Some(Rank::Family(offset))
    } else if c == 'G' {
        Some(Rank::Genus(offset))
    } else if c == 'S' {
        Some(Rank::Species(offset))
    } else {
        None
    }
}

pub open spec fn is_digit(c: char) -> bool {
    '0' <= c && c <= '9'
}

/// The offset that a code gives: its second character as a digit, or 0.
pub open spec fn code_offset(code: Seq<char>) -> u32 {
    if code.len() == 2 {
        (code[1] as u32 - '0' as u32) as u32
    } else {
        0
    }
}

/// The rank that a code stands for, where `last` is the rank read before it.
/// `None` where the code is rejected.
pub open spec fn rank_from_code(code: Seq<char>, last: Option<Rank>) -> Option<Rank> {
    if code.len() == 0 || code.len() > 2 {
        None
    } else if code.len() == 2 && !is_digit(code[1]) {
        None
    } else if code[0] == '-' {
        match last {
            Some(r) => if offset_of(r) < u32::MAX {
                Some(with_offset(r, (offset_of(r) + 1) as u32))
            } else {
                None
            },
            None => None,
        }
    } else {
        rank_of_letter(code[0], code_offset(code))
    }
}

/// The letter of a rank's level.
pub open spec fn letter_of(r: Rank) -> char {
    match r {
        Rank::Unclassified(_) => 'U',
        Rank::Root(_) => 'R',
        Rank::Domain(_) => 'D',
        Rank::Kingdom(_) => 'K',
        Rank::Phylum(_) => 'P',
        Rank::Class(_) => 'C',
        Rank::Order(_) => 'O',
        Rank::Family(_) => 'F',
        Rank::Genus(_) => 'G',
        Rank::Species(_) => 'S',
    }
}

impl TaxRankParsingError {
    /// This error is the one that reading `code` after `last` gives.
    pub open spec fn explains(self, code: Seq<char>, last: Option<Rank>) -> bool {
        let length_ok = 0 < code.len() <= 2;
        let offset_ok = code.len() == 1 || is_digit(code[1]);
        match self {
            TaxRankParsingError::InvalidLength(s, n) => s@ == code && n == code.len()
                && !length_ok,
            TaxRankParsingError::OffsetNotANumber(s, c) => s@ == code && length_ok && !offset_ok
                && c == code[1],
            TaxRankParsingError::InvalidRankCode(s, c) => s@ == code && length_ok && offset_ok
                && c == code[0] && c != '-' && rank_of_letter(c, 0).is_none(),
            TaxRankParsingError::TaxRankParsingCannotInferRank(s) => s@ == code && length_ok
                && offset_ok && code[0] == '-' && rank_from_code(code, last).is_none(),
        }
    }
}

impl Rank {
    /// The same level, one sub-clade further down.
    pub fn plus_one(self) -> (r: Rank)
        requires
            offset_of(self) < u32::MAX,
        ensures
            r == with_offset(self, (offset_of(self) + 1) as u32),
    {
        match self {
            Rank::Unclassified(i) => Rank::Unclassified(i + 1),
            Rank::Root(i) => Rank::Root(i + 1),
            Rank::Domain(i) => Rank::Domain(i + 1),
            Rank::Kingdom(i) => Rank::Kingdom(i + 1),
            Rank::Phylum(i) => Rank::Phylum(i + 1),
            Rank::Class(i) => Rank::Class(i + 1),
            Rank::Order(i) => Rank::Order(i + 1),
            Rank::Family(i) => Rank::Family(i + 1),
            Rank::Genus(i) => Rank::Genus(i + 1),
            Rank::Species(i) => Rank::Species(i + 1),
        }
    }

    /// The sub-clade offset.
    pub fn offset(&self) -> (r: u32)
        ensures
            r == offset_of(*self),
    {
        match *self {
            Rank::Unclassified(i) => i,
            Rank::Root(i) => i,
            Rank::Domain(i) => i,
            Rank::Kingdom(i) => i,
            Rank::Phylum(i) => i,
            Rank::Class(i) => i,
            Rank::Order(i) => i,
            Rank::Family(i) => i,
            Rank::Genus(i) => i,
            Rank::Species(i) => i,
        }
    }

    /// The position of the level in the order of ranks (0 for unclassified).
    pub fn level(&self) -> (r: u8)
        ensures
            r as nat == level_of(*self),
    {
        match *self {
            Rank::Unclassified(_) => 0,
            Rank::Root(_) => 1,
            Rank::Domain(_) => 2,
            Rank::Kingdom(_) => 3,
            Rank::Phylum(_) => 4,
            Rank::Class(_) => 5,
            Rank::Order(_) => 6,
            Rank::Family(_) => 7,
            Rank::Genus(_) => 8,
            Rank::Species(_) => 9,
        }
    }

    /// The short code of the rank: its letter, then its offset in decimal
    /// (`D1`, `S0`).
    pub fn code(&self) -> (r: String)
        ensures
            r@ == seq![letter_of(*self)] + decimal(offset_of(*self) as nat),
    {
        let letter = match *self {
            Rank::Unclassified(_) => 'U',
            Rank::Root(_) => 'R',
            Rank::Domain(_) => 'D',
            Rank::Kingdom(_) => 'K',
            Rank::Phylum(_) => 'P',
            Rank::Class(_) => 'C',
            Rank::Order(_) => 'O',
            Rank::Family(_) => 'F',
            Rank::Genus(_) => 'G',
            Rank::Species(_) => 'S',
        };
        let mut r = String::new();
        push_char(&mut r, letter);
        push_decimal(&mut r, self.offset() as usize);
        assert(r@ =~= seq![letter_of(*self)] + decimal(offset_of(*self) as nat));
        r
    }

    /// Whether `self` comes strictly before `other` in the order of ranks.
    pub fn precedes(&self, other: &Rank) -> (r: bool)
        ensures
            r == rank_lt(*self, *other),
    {
        let a = self.level();
        let b = other.level();
        a < b || (a == b && self.offset() < other.offset())
    }
}

/// Reads a rank code of one or two characters: a letter among
/// `U R D K P C O F G S`, optionally followed by a digit for the offset.
/// The code `-` continues `last`, the rank read just before, one sub-clade
/// further down.
pub fn parse_taxonomy_level(code: &str, last: Option<Rank>) -> (r: Result<Rank, TaxRankParsingError>)
    ensures
        match r {
            Ok(rank) => rank_from_code(code@, last) == Some(rank),
            Err(e) => rank_from_code(code@, last).is_none() && e.explains(code@, last),
        },
{
    let len = code.unicode_len();
    if len == 0 || len > 2 {
        return Err(TaxRankParsingError::InvalidLength(code.to_owned(), len));
    }
    let letter = code.get_char(0);
    let mut offset: u32 = 0;
    if len == 2 {
        let digit = code.get_char(1);
        if !('0' <= digit && digit <= '9') {
            return Err(TaxRankParsingError::OffsetNotANumber(code.to_owned(), digit));
        }
        offset = (digit as u32) - ('0' as u32);
    }
    let rank = match letter {
        'U' => Rank::Unclassified(offset),
        'R' => Rank::Root(offset),
        'D' => Rank::Domain(offset),
        'K' => Rank::Kingdom(offset),
        'P' => Rank::Phylum(offset),
        'C' => Rank::Class(offset),
        'O' => Rank::Order(offset),
        'F' => Rank::Family(offset),
        'G' => Rank::Genus(offset),
        'S' => Rank::Species(offset),
        '-' => match last {
            Some(previous) if previous.offset() < u32::MAX => previous.plus_one(),
            _ => {
                return Err(TaxRankParsingError::TaxRankParsingCannotInferRank(code.to_owned()));
            },
        },
        _ => {
            return Err(TaxRankParsingError::InvalidRankCode(code.to_owned(), letter));
        },
    };
    Ok(rank)
}

} // verus!
