//! # Standard 52-card deck
//! A standard 52-card deck comprises 13 ranks in each of the 4 French suits:
//! spades, diamonds, clubs and hearts. A card is one byte: `rank * 4 + suit`.
use vstd::arithmetic::div_mod::lemma_div_denominator;
use vstd::prelude::*;
use vstd::string::StringExecFns;

verus! {

/// 13 ranks: ace, 2, 3, 4, 5, 6, 7, 8, 9, 10, jack, queen, king.
pub const RANK_NUM: usize = 13;

/// 4 suits: spades, diamonds, clubs and hearts.
pub const SUIT_NUM: usize = 4;

/// A standard 52-card deck.
pub const CARD_NUM: usize = 52;

/// Ranks, from ace to king: 'T' stands for 10.
pub const RANKS: [char; RANK_NUM] = ['A', '2', '3', '4', '5', '6', '7', '8', '9', 'T', 'J', 'Q', 'K'];

/// Suits: spades, diamonds, clubs and hearts.
pub const SUITS: [char; SUIT_NUM] = ['♠', '♦', '♣', '♥'];

/// The rank of a card, from 0 (ace) to 12 (king).
pub open spec fn rank_of(card: u8) -> nat {
    ((card / 4) % 13) as nat
}

/// The suit of a card, from 0 to 3.
pub open spec fn suit_of(card: u8) -> nat {
    (card % 4) as nat
}

/// The color of a card: 0 for black (spades, clubs), 1 for red (diamonds, hearts).
pub open spec fn color_of(card: u8) -> nat {
    (card % 2) as nat
}

/// Returns the card of the given rank and suit.
pub fn to_card(rank: usize, suit: usize) -> (r: u8)
    requires
        rank < RANK_NUM,
        suit < SUIT_NUM,
    ensures
        r == rank * 4 + suit,
        rank_of(r) == rank,
        suit_of(r) == suit,
{
    (rank * SUIT_NUM + suit) as u8
}

/// Returns the rank of a card, from 0 to 12: A, 2, ..., T, J, Q and K.
pub fn card_rank(card: u8) -> (r: usize)
    ensures
        r == rank_of(card),
        r < 13,
{
    (card as usize / SUIT_NUM) % RANK_NUM
}

/// Returns the suit of a card, from 0 to 3: spades, diamonds, clubs and hearts.
pub fn card_suit(card: u8) -> (r: usize)
    ensures
        r == suit_of(card),
        r < 4,
{
    card as usize % SUIT_NUM
}

/// Returns 0 for blacks (spades and clubs) and 1 for reds (diamonds and hearts).
pub fn card_color(card: u8) -> (r: usize)
    ensures
        r == color_of(card),
        color_of(card) == suit_of(card) % 2,
{
    assert(card & 1 == card % 2) by (bit_vector);
    (card & 1) as usize
}

/// Returns `true` for spades or clubs.
pub fn is_card_black(card: u8) -> (r: bool)
    ensures
        r == (color_of(card) == 0),
{
    card_color(card) == 0
}

/// Returns `true` for diamonds or hearts.
pub fn is_card_red(card: u8) -> (r: bool)
    ensures
        r == (color_of(card) == 1),
{
    !is_card_black(card)
}


/// The least value that is not a double-precision significand: 2^53.
pub const SIGNIFICAND_LIMIT: u128 = 0x20_0000_0000_0000;

/// Multiplier of the shuffle's linear congruential generator.
pub const LCG_MUL: u128 = 1103515245;

/// Increment of the shuffle's linear congruential generator.
pub const LCG_INC: u128 = 12345;

/// Modulus of the shuffle's linear congruential generator: 2^31.
pub const LCG_MOD: u128 = 0x8000_0000;

/// The spacing of double-precision values around the integer `n`: 1 below 2^53,
/// and doubling with each further binary digit.
pub open spec fn f64_unit(n: nat) -> nat
    decreases n,
{
    if n < SIGNIFICAND_LIMIT {
        1
    } else {
        2 * f64_unit(n / 2)
    }
}

/// The double-precision value nearest to the integer `n`, ties to even.
pub open spec fn round_f64(n: nat) -> nat {
    let u = f64_unit(n);
    let q = n / u;
    let r = n % u;
    if r * 2 > u || (r * 2 == u && q % 2 == 1) {
        (q + 1) * u
    } else {
        q * u
    }
}

/// One draw of the generator as double-precision arithmetic computes it:
/// `floor((a * seed + c) % m)`, each operation rounded to the nearest double.
pub open spec fn lcg_next(seed: nat) -> nat {
    round_f64((round_f64((LCG_MUL * round_f64(seed)) as nat) + LCG_INC) as nat) % (LCG_MOD as nat)
}

/// The generator's state after `k` draws from `seed`.
pub open spec fn lcg_state(seed: nat, k: nat) -> nat
    decreases k,
{
    if k == 0 {
        seed
    } else {
        lcg_next(lcg_state(seed, (k - 1) as nat))
    }
}

/// The sequence `s` with the items at `i` and `j` exchanged.
pub open spec fn swapped(s: Seq<u8>, i: int, j: int) -> Seq<u8> {
    s.update(i, s[j]).update(j, s[i])
}

/// The cards after the first `k` steps of the shuffle: step `i` draws the next
/// state and exchanges card `i` with the card at that state modulo the length.
pub open spec fn shuffle_steps(cards: Seq<u8>, seed: nat, k: nat) -> Seq<u8>
    decreases k,
{
    if k == 0 {
        cards
    } else {
        let prev = shuffle_steps(cards, seed, (k - 1) as nat);
        let j = lcg_state(seed, k) % cards.len();
        swapped(prev, k - 1, j as int)
    }
}

/// The shuffled cards: one step for each card.
pub open spec fn shuffled(cards: Seq<u8>, seed: nat) -> Seq<u8> {
    shuffle_steps(cards, seed, cards.len())
}

/// The standard deck in order: card `i` at index `i`.
pub open spec fn fresh_deck() -> Seq<u8> {
    Seq::new(52, |i: int| i as u8)
}

proof fn lemma_unit_positive(n: nat)
    ensures
        f64_unit(n) >= 1,
    decreases n,
{
    if n >= SIGNIFICAND_LIMIT {
        lemma_unit_positive(n / 2);
    }
}

/// Rounds an integer to the nearest double-precision value, ties to even.
fn round_to_f64(n: u128) -> (r: u128)
    requires
        n < 0x10_0000_0000_0000_0000_0000_0000,
    ensures
        r == round_f64(n as nat),
        r <= 2 * n,
{
    let mut unit: u128 = 1;
    while n / unit >= SIGNIFICAND_LIMIT
        invariant
            1 <= unit <= n || unit == 1,
            f64_unit(n as nat) == unit * f64_unit((n / unit) as nat),
        decreases n / unit,
    {
        proof {
            let ni = n as int;
            let ui = unit as int;
            lemma_div_denominator(ni, ui, 2);
            assert(ui * 2 <= ni) by (nonlinear_arith)
                requires
                    ni / ui >= 2,
                    ui >= 1,
            {
            }
            assert(f64_unit((ni / ui) as nat) == 2 * f64_unit((ni / (ui * 2)) as nat));
            assert(ui * (2 * f64_unit((ni / (ui * 2)) as nat)) == (ui * 2) * f64_unit(
                (ni / (ui * 2)) as nat,
            )) by (nonlinear_arith);
            assert(ni / (ui * 2) < ni / ui) by (nonlinear_arith)
                requires
                    ni / ui >= 2,
                    ui >= 1,
                    (ni / ui) / 2 == ni / (ui * 2),
            {
            }
        }
        unit = unit * 2;
    }
    let q = n / unit;
    let r = n % unit;
    proof {
        lemma_unit_positive(n as nat);
        let ni = n as int;
        let ui = unit as int;
        let fu = f64_unit((n / unit) as nat);
        assert(fu == 1);
        assert(unit * fu == unit) by (nonlinear_arith)
            requires
                fu == 1,
        {
        }
        assert(unit == f64_unit(n as nat));
        assert(q * ui <= ni) by (nonlinear_arith)
            requires
                q == ni / ui,
                ui >= 1,
        {
        }
        if unit == 1 {
            assert(r == 0);
        } else {
            assert((q + 1) * ui <= 2 * ni) by (nonlinear_arith)
                requires
                    q == ni / ui,
                    1 <= ui <= ni,
            {
                assert(q >= 1);
            }
        }
    }
    if r * 2 > unit || (r * 2 == unit && q % 2 == 1) {
        (q + 1) * unit
    } else {
        q * unit
    }
}

/// One draw of the shuffle's generator.
fn next_seed(seed: u64) -> (r: u64)
    ensures
        r == lcg_next(seed as nat),
{
    let x = round_to_f64(seed as u128);
    let y = round_to_f64(LCG_MUL * x);
    let z = round_to_f64(y + LCG_INC);
    (z % LCG_MOD) as u64
}


/// Creates a standard 52-card deck in order: A♠A♦A♣A♥2♠2♦...
pub fn new() -> (r: [u8; CARD_NUM])
    ensures
        r@ == fresh_deck(),
{
    let mut deck = [0u8; CARD_NUM];
    let mut i: usize = 0;
    while i < CARD_NUM
        invariant
            i <= CARD_NUM,
            deck@.len() == CARD_NUM,
            forall|k: int| 0 <= k < i ==> deck@[k] == k as u8,
        decreases CARD_NUM - i,
    {
        deck[i] = i as u8;
        i = i + 1;
    }
    assert(deck@ =~= fresh_deck());
    deck
}

/// Shuffles cards. A linear congruential generator, computed in double
/// precision, draws for each position `i` the position `j` to exchange it with.
pub fn shuffle(cards: &mut [u8], seed: u64)
    ensures
        final(cards)@ == shuffled(old(cards)@, seed as nat),
{
    let len = cards.len();
    let mut state = seed;
    let mut i: usize = 0;
    while i < len
        invariant
            i <= len,
            len == cards@.len(),
            len == old(cards)@.len(),
            state == lcg_state(seed as nat, i as nat),
            cards@ == shuffle_steps(old(cards)@, seed as nat, i as nat),
        decreases len - i,
    {
        state = next_seed(state);
        let j = (state % len as u64) as usize;
        if i != j {
            let card = cards[i];
            let other = cards[j];
            cards[i] = other;
            cards[j] = card;
        }
        proof {
            let prev = shuffle_steps(old(cards)@, seed as nat, i as nat);
            assert(shuffle_steps(old(cards)@, seed as nat, (i + 1) as nat) == swapped(
                prev,
                i as int,
                j as int,
            ));
            assert(cards@ =~= swapped(prev, i as int, j as int));
        }
        i = i + 1;
    }
}

/// Creates a standard 52-card deck and shuffles it.
pub fn deal(seed: u64) -> (r: [u8; CARD_NUM])
    ensures
        r@ == shuffled(fresh_deck(), seed as nat),
{
    let mut cards = new();
    shuffle(&mut cards, seed);
    cards
}


/// The character that names a rank: 'T' for 10.
pub open spec fn rank_char(rank: nat) -> char {
    if rank == 0 {
        'A'
    } else if rank == 1 {
        '2'
    } else if rank == 2 {
        '3'
    } else if rank == 3 {
        '4'
    } else if rank == 4 {
        '5'
    } else if rank == 5 {
        '6'
    } else if rank == 6 {
        '7'
    } else if rank == 7 {
        '8'
    } else if rank == 8 {
        '9'
    } else if rank == 9 {
        'T'
    } else if rank == 10 {
        'J'
    } else if rank == 11 {
        'Q'
    } else {
        'K'
    }
}

/// The character that names a suit.
pub open spec fn suit_char(suit: nat) -> char {
    if suit == 0 {
        '♠'
    } else if suit == 1 {
        '♦'
    } else if suit == 2 {
        '♣'
    } else {
        '♥'
    }
}

/// The text of a card: its rank, then its suit.
pub open spec fn card_text(card: u8) -> Seq<char> {
    seq![rank_char(rank_of(card)), suit_char(suit_of(card))]
}

/// The text of a sequence of cards, one after another.
pub open spec fn cards_text(cards: Seq<u8>) -> Seq<char>
    decreases cards.len(),
{
    if cards.len() == 0 {
        Seq::empty()
    } else {
        cards_text(cards.drop_last()) + card_text(cards.last())
    }
}

fn rank_str(rank: usize) -> (r: &'static str)
    requires
        rank < RANK_NUM,
    ensures
        r@ == seq![rank_char(rank as nat)],
{
    match rank {
        0 => {
            proof {
                reveal_strlit("A");
            }
            "A"
        },
        1 => {
            proof {
                reveal_strlit("2");
            }
            "2"
        },
        2 => {
            proof {
                reveal_strlit("3");
            }
            "3"
        },
        3 => {
            proof {
                reveal_strlit("4");
            }
            "4"
        },
        4 => {
            proof {
                reveal_strlit("5");
            }
            "5"
        },
        5 => {
            proof {
                reveal_strlit("6");
            }
            "6"
        },
        6 => {
            proof {
                reveal_strlit("7");
            }
            "7"
        },
        7 => {
            proof {
                reveal_strlit("8");
            }
            "8"
        },
        8 => {
            proof {
                reveal_strlit("9");
            }
            "9"
        },
        9 => {
            proof {
                reveal_strlit("T");
            }
            "T"
        },
        10 => {
            proof {
                reveal_strlit("J");
            }
            "J"
        },
        11 => {
            proof {
                reveal_strlit("Q");
            }
            "Q"
        },
        _ => {
            proof {
                reveal_strlit("K");
            }
            "K"
        },
    }
}

fn suit_str(suit: usize) -> (r: &'static str)
    requires
        suit < SUIT_NUM,
    ensures
        r@ == seq![suit_char(suit as nat)],
{
    match suit {
        0 => {
            proof {
                reveal_strlit("♠");
            }
            "♠"
        },
        1 => {
            proof {
                reveal_strlit("♦");
            }
            "♦"
        },
        2 => {
            proof {
                reveal_strlit("♣");
            }
            "♣"
        },
        _ => {
            proof {
                reveal_strlit("♥");
            }
            "♥"
        },
    }
}

/// Formats a card, e.g. "A♠", "2♦", "3♣".
pub fn card_to_string(card: u8) -> (r: String)
    ensures
        r@ == card_text(card),
{
    let mut text = String::new();
    text.append(rank_str(card_rank(card)));
    text.append(suit_str(card_suit(card)));
    assert(text@ =~= card_text(card));
    text
}

/// Formats cards one after another, e.g. "A♠2♦3♣4♥".
pub fn to_string(cards: &[u8]) -> (r: String)
    ensures
        r@ == cards_text(cards@),
{
    let mut text = String::new();
    let mut i: usize = 0;
    while i < cards.len()
        invariant
            i <= cards@.len(),
            text@ == cards_text(cards@.subrange(0, i as int)),
        decreases cards@.len() - i,
    {
        let card = card_to_string(cards[i]);
        text.append(card.as_str());
        proof {
            let next = cards@.subrange(0, i + 1);
            assert(next.drop_last() =~= cards@.subrange(0, i as int));
        }
        i = i + 1;
    }
    assert(cards@.subrange(0, cards@.len() as int) =~= cards@);
    text
}

proof fn lemma_swapped_permutes(s: Seq<u8>, i: int, j: int)
    requires
        0 <= i < s.len(),
        0 <= j < s.len(),
    ensures
        swapped(s, i, j).to_multiset() =~= s.to_multiset(),
{
    broadcast use vstd::seq_lib::group_to_multiset_ensures;
    broadcast use vstd::multiset::group_multiset_axioms;

    let s1 = s.update(i, s[j]);
    assert(s1[j] == s[j]);
    assert forall|x: u8| #[trigger] swapped(s, i, j).to_multiset().count(x) == s.to_multiset().count(x) by {
        assert(s.to_multiset().count(s[i]) > 0);
        assert(s1.to_multiset().count(s[j]) > 0);
    }
}

proof fn lemma_shuffle_steps_permute(cards: Seq<u8>, seed: nat, k: nat)
    requires
        k <= cards.len(),
    ensures
        shuffle_steps(cards, seed, k).to_multiset() =~= cards.to_multiset(),
        shuffle_steps(cards, seed, k).len() == cards.len(),
    decreases k,
{
    if k > 0 {
        lemma_shuffle_steps_permute(cards, seed, (k - 1) as nat);
        let prev = shuffle_steps(cards, seed, (k - 1) as nat);
        let j = lcg_state(seed, k) % cards.len();
        lemma_swapped_permutes(prev, k - 1, j as int);
    }
}

/// A shuffle only reorders the cards.
pub proof fn lemma_shuffle_permutes(cards: Seq<u8>, seed: nat)
    ensures
        shuffled(cards, seed).to_multiset() == cards.to_multiset(),
        shuffled(cards, seed).len() == cards.len(),
{
    lemma_shuffle_steps_permute(cards, seed, cards.len());
}

} // verus!
