//! # FreeCell layout
//! Sixteen spots: 4 foundations (`0..4`), 4 free cells (`4..8`) and 8 cascades
//! (`8..16`). A spot's zone follows from its number alone.
use crate::deck;
use core::ops::Range;
use vstd::prelude::*;
use vstd::string::StringExecFns;

verus! {

/// There are 4 foundations, built up by suit from ace to king.
pub const BASE_NUM: usize = 4;

/// There are 4 free cells, each holding at most one card.
pub const CELL_NUM: usize = 4;

/// Cards are dealt face-up into 8 cascades.
pub const PILE_NUM: usize = 8;

/// Desk size.
pub const DESK_SIZE: usize = 16;

pub const BASE_START: usize = 0;

pub const BASE_END: usize = 4;

pub const CELL_START: usize = 4;

pub const CELL_END: usize = 8;

pub const PILE_START: usize = 8;

pub const PILE_END: usize = 16;

/// A foundation spot.
pub open spec fn base_spot(i: int) -> bool {
    0 <= i < 4
}

/// A free-cell spot.
pub open spec fn cell_spot(i: int) -> bool {
    4 <= i < 8
}

/// A cascade spot.
pub open spec fn pile_spot(i: int) -> bool {
    8 <= i < 16
}

/// A spot that cards are played from: a free cell or a cascade.
pub open spec fn play_spot(i: int) -> bool {
    4 <= i < 16
}

/// Whether `a` can take `b` on a tableau: one rank higher and of the other color.
pub open spec fn tableau(a: u8, b: u8) -> bool {
    deck::rank_of(a) == deck::rank_of(b) + 1 && deck::color_of(a) != deck::color_of(b)
}

/// All spots.
pub fn desk_range() -> (r: Range<usize>)
    ensures
        r.start == 0,
        r.end == DESK_SIZE,
{
    0..DESK_SIZE
}

/// The spots that cards are played from: free cells and cascades.
pub fn play_range() -> (r: Range<usize>)
    ensures
        r.start == BASE_END,
        r.end == DESK_SIZE,
{
    BASE_END..DESK_SIZE
}

/// The cascades.
pub fn pile_range() -> (r: Range<usize>)
    ensures
        r.start == PILE_START,
        r.end == PILE_END,
{
    PILE_START..PILE_END
}

/// The foundations.
pub fn base_range() -> (r: Range<usize>)
    ensures
        r.start == BASE_START,
        r.end == BASE_END,
{
    BASE_START..BASE_END
}

/// The free cells.
pub fn cell_range() -> (r: Range<usize>)
    ensures
        r.start == CELL_START,
        r.end == CELL_END,
{
    CELL_START..CELL_END
}

pub fn is_play(index: usize) -> (r: bool)
    ensures
        r == play_spot(index as int),
{
    BASE_END <= index && index < DESK_SIZE
}

pub fn is_pile(index: usize) -> (r: bool)
    ensures
        r == pile_spot(index as int),
{
    PILE_START <= index && index < PILE_END
}

pub fn is_base(index: usize) -> (r: bool)
    ensures
        r == base_spot(index as int),
{
    index < BASE_END
}

pub fn is_cell(index: usize) -> (r: bool)
    ensures
        r == cell_spot(index as int),
{
    CELL_START <= index && index < CELL_END
}

/// A digit in base 16, lower case.
pub open spec fn digit_char(d: nat) -> char {
    if d == 0 {
        '0'
    } else if d == 1 {
        '1'
    } else if d == 2 {
        '2'
    } else if d == 3 {
        '3'
    } else if d == 4 {
        '4'
    } else if d == 5 {
        '5'
    } else if d == 6 {
        '6'
    } else if d == 7 {
        '7'
    } else if d == 8 {
        '8'
    } else if d == 9 {
        '9'
    } else if d == 10 {
        'a'
    } else if d == 11 {
        'b'
    } else if d == 12 {
        'c'
    } else if d == 13 {
        'd'
    } else if d == 14 {
        'e'
    } else {
        'f'
    }
}

/// The digits of `n` in the given base (10 or 16), most significant first.
pub open spec fn digits_text(n: nat, base: nat) -> Seq<char>
    decreases n,
    via digits_text_decreases
{
    if base < 2 || n < base {
        seq![digit_char(n)]
    } else {
        digits_text(n / base, base) + seq![digit_char(n % base)]
    }
}

#[via_fn]
proof fn digits_text_decreases(n: nat, base: nat) {
    if !(base < 2 || n < base) {
        assert(n / base < n) by (nonlinear_arith)
            requires
                base >= 2,
                n >= base,
        {
        }
    }
}

fn digit_str(d: usize) -> (r: &'static str)
    requires
        d < 16,
    ensures
        r@ == seq![digit_char(d as nat)],
{
    match d {
        0 => {
            proof {
                reveal_strlit("0");
            }
            "0"
        },
        1 => {
            proof {
                reveal_strlit("1");
            }
            "1"
        },
        2 => {
            proof {
                reveal_strlit("2");
            }
            "2"
        },
        3 => {
            proof {
                reveal_strlit("3");
            }
            "3"
        },
        4 => {
            proof {
                reveal_strlit("4");
            }
            "4"
        },
        5 => {
            proof {
                reveal_strlit("5");
            }
            "5"
        },
        6 => {
            proof {
                reveal_strlit("6");
            }
            "6"
        },
        7 => {
            proof {
                reveal_strlit("7");
            }
            "7"
        },
        8 => {
            proof {
                reveal_strlit("8");
            }
            "8"
        },
        9 => {
            proof {
                reveal_strlit("9");
            }
            "9"
        },
        10 => {
            proof {
                reveal_strlit("a");
            }
            "a"
        },
        11 => {
            proof {
                reveal_strlit("b");
            }
            "b"
        },
        12 => {
            proof {
                reveal_strlit("c");
            }
            "c"
        },
        13 => {
            proof {
                reveal_strlit("d");
            }
            "d"
        },
        14 => {
            proof {
                reveal_strlit("e");
            }
            "e"
        },
        _ => {
            proof {
                reveal_strlit("f");
            }
            "f"
        },
    }
}

fn digits_string(n: usize, base: usize) -> (r: String)
    requires
        base == 10 || base == 16,
    ensures
        r@ == digits_text(n as nat, base as nat),
    decreases n,
{
    if n < base {
        String::from_str(digit_str(n))
    } else {
        let mut text = digits_string(n / base, base);
        text.append(digit_str(n % base));
        text
    }
}

/// The words that name a spot: a zone and a number from 1.
pub open spec fn spot_text(index: nat) -> Seq<char> {
    if base_spot(index as int) {
        "base "@ + digits_text(1 + index, 10)
    } else if pile_spot(index as int) {
        "pile "@ + digits_text((1 + index - PILE_START) as nat, 10)
    } else if cell_spot(index as int) {
        "cell "@ + digits_text((1 + index - CELL_START) as nat, 10)
    } else {
        "unknown "@ + digits_text(index, 10)
    }
}

/// Names a spot, e.g. "base 1", "cell 2", "pile 8".
pub fn spot_name(index: usize) -> (r: String)
    ensures
        r@ == spot_text(index as nat),
{
    if is_base(index) {
        return String::from_str("base ").concat(digits_string(1 + index - BASE_START, 10).as_str());
    }
    if is_pile(index) {
        return String::from_str("pile ").concat(digits_string(1 + index - PILE_START, 10).as_str());
    }
    if is_cell(index) {
        return String::from_str("cell ").concat(digits_string(1 + index - CELL_START, 10).as_str());
    }
    String::from_str("unknown ").concat(digits_string(index, 10).as_str())
}

/// The compact index of a spot in replay links: cascades 0-7, then
/// foundations 8-11, then free cells 12-15.
pub open spec fn compact_spot(index: nat) -> nat {
    if pile_spot(index as int) {
        (index - PILE_START) as nat
    } else if base_spot(index as int) {
        (index + PILE_NUM) as nat
    } else if cell_spot(index as int) {
        (index - CELL_START + PILE_NUM + BASE_NUM) as nat
    } else {
        index
    }
}

/// The compact index of a spot, as one hexadecimal digit.
pub fn spot_to_hex(index: usize) -> (r: String)
    ensures
        r@ == digits_text(compact_spot(index as nat), 16),
{
    let mut compact = index;
    if is_pile(index) {
        compact = index - PILE_START;
    } else if is_base(index) {
        compact = index - BASE_START + PILE_NUM;
    } else if is_cell(index) {
        compact = index - CELL_START + PILE_NUM + BASE_NUM;
    }
    digits_string(compact, 16)
}

/// Returns `true` if `card_b` can be put on `card_a` in a tableau:
/// one rank lower and of the other color.
pub fn is_tableau(card_a: u8, card_b: u8) -> (r: bool)
    ensures
        r == tableau(card_a, card_b),
{
    deck::card_rank(card_a) == deck::card_rank(card_b) + 1 && deck::card_color(card_a)
        != deck::card_color(card_b)
}

} // verus!
