//! The game state: sixteen stacks of cards and the path of moves that led to
//! them from the deal.
use crate::autoplay::{
    auto_move, auto_moves, auto_pick, auto_result, base_for, lemma_auto_facts, lemma_auto_step,
    min3, min_black, min_red, pickable, safe_rank,
};
use crate::basis::{
    cell_spot, pile_spot, tableau, BASE_END, BASE_START, CELL_END, CELL_START, DESK_SIZE, PILE_END,
    PILE_NUM, PILE_START,
};
use crate::board::{
    apply_move, board_text, dealt, deepest, desk_cards, desk_ok, empty_count, empty_desk, estimate,
    first_empty, fwd, lemma_apply_move, lemma_dealt_cards, lemma_dealt_len, lemma_empty_sum,
    lemma_first_empty_range, lemma_lens_sum_split, lemma_push_path, lemma_replay_keeps_cards,
    lemma_replay_ok, lemma_replayable_prefix, lemma_stack_bound, lens_sum, lock_count, locked,
    locks, locks_sum, replay, replayable, row_text, rows_text, slot_text, slots_text, solved, top,
    undo_move, undone, unsolved, Desk, Move, PATH_CAPACITY, Path, Pile,
};
use crate::consumer::{
    fed, lemma_single_fed, lemma_total_fed, running, Consumer, SingleConsumer, TotalConsumer,
};
use crate::deck;
use crate::deck::{color_of, rank_of, suit_of};
use crate::fingerprint::{
    base_depths, cascades, encode, fingerprint, lemma_lex_total_ordering, lex_le, lex_less_eq,
    lex_order, overlay, piles_at, piles_upto, sorted_cascades, sum_lens, KEY_SIZE, Key64,
};
use crate::moves::{
    all_moves, base_list, base_moves, cell_list, cell_moves, cell_pile_list, lemma_all_moves_sound,
    lemma_feed_step, lift_list, lift_row, offer, pile_list, pile_moves, sound, tab_list, tab_row,
    tableau_moves,
};
use vstd::prelude::*;
use vstd::relations::sorted_by;
use vstd::seq_lib::lemma_sorted_unique;
use vstd::string::StringExecFns;

verus! {

pub type MoveConsumer = TotalConsumer<Move>;

pub type SingleMoveConsumer = SingleConsumer<Move>;

/// The lowest ranks built on the black and on the red foundations.
pub struct BaseRanks(pub usize, pub usize);

impl BaseRanks {
    pub fn new(blacks: usize, reds: usize) -> (r: Self)
        ensures
            r.0 == blacks,
            r.1 == reds,
    {
        BaseRanks(blacks, reds)
    }

    /// Tests if the card's rank does not exceed the safe rank: one above the
    /// lowest foundation of the other color.
    pub fn ge(&self, card: u8) -> (r: bool)
        requires
            self.0 < usize::MAX,
            self.1 < usize::MAX,
        ensures
            r == (rank_of(card) <= 1 + if color_of(card) == 0 {
                self.1
            } else {
                self.0
            }),
    {
        self.next_rank(card) >= deck::card_rank(card)
    }

    /// One above the lowest foundation of the card's other color.
    pub fn next_rank(&self, card: u8) -> (r: usize)
        requires
            self.0 < usize::MAX,
            self.1 < usize::MAX,
        ensures
            r == 1 + if color_of(card) == 0 {
                self.1
            } else {
                self.0
            },
    {
        1 + if deck::is_card_black(card) {
            self.1
        } else {
            self.0
        }
    }
}

/// A freecell game: sixteen stacks and the path of moves that made them from
/// the stacks of the deal.
pub struct Game {
    desk: Desk,
    path: Path,
    start: Ghost<Seq<Seq<u8>>>,
}

/// Whatever moves a game has made, its desk holds the cards it was dealt.
pub proof fn lemma_game_keeps_cards(game: &Game)
    requires
        game.wf(),
    ensures
        desk_cards(game.stacks()) == desk_cards(game.origin()),
{
    lemma_replay_keeps_cards(game.origin(), game.moves());
}

impl Game {
    /// The stacks, by spot.
    pub closed spec fn stacks(&self) -> Seq<Seq<u8>> {
        self.desk@.map_values(|p: Pile| p@)
    }

    /// The moves made since the deal.
    pub closed spec fn moves(&self) -> Seq<Move> {
        self.path@
    }

    /// The stacks as dealt, before any move.
    pub closed spec fn origin(&self) -> Seq<Seq<u8>> {
        self.start@
    }

    /// The stacks are those that the path makes from the deal.
    pub open spec fn wf(&self) -> bool {
        &&& desk_ok(self.origin())
        &&& replayable(self.origin(), self.moves())
        &&& self.stacks() == replay(self.origin(), self.moves())
        &&& desk_ok(self.stacks())
        &&& self.moves().len() <= PATH_CAPACITY
    }

    /// An empty game: no card, no move.
    pub fn new() -> (r: Self)
        ensures
            r.wf(),
            r.stacks() == empty_desk(),
            r.moves().len() == 0,
    {
        let mut desk: Desk = Vec::new();
        let mut i: usize = 0;
        while i < DESK_SIZE
            invariant
                i <= DESK_SIZE,
                desk@.len() == i,
                forall|k: int| 0 <= k < i ==> (#[trigger] desk@[k])@.len() == 0,
            decreases DESK_SIZE - i,
        {
            desk.push(Vec::new());
            i = i + 1;
        }
        let r = Game { desk, path: Vec::new(), start: Ghost(empty_desk()) };
        proof {
            assert(r.stacks() =~~= empty_desk());
            assert(lens_sum(empty_desk(), 0, 16) == 0) by {
                lemma_empty_sum(empty_desk(), 0, 16);
            }
        }
        r
    }

    pub fn desk(&self) -> (r: &Desk)
        ensures
            r@.map_values(|p: Pile| p@) == self.stacks(),
    {
        &self.desk
    }

    pub fn path(&self) -> (r: &Path)
        ensures
            r@ == self.moves(),
    {
        &self.path
    }

    /// Puts the card on top of `giver` on top of `taker` and records the move.
    /// Legality is the caller's: only the giver must hold a card.
    pub fn move_card(&mut self, giver: usize, taker: usize)
        requires
            old(self).wf(),
            giver < DESK_SIZE,
            taker < DESK_SIZE,
            old(self).stacks()[giver as int].len() > 0,
            old(self).moves().len() < PATH_CAPACITY,
        ensures
            final(self).wf(),
            final(self).origin() == old(self).origin(),
            final(self).moves() == old(self).moves().push(Move(giver as u8, taker as u8)),
            final(self).stacks() == apply_move(old(self).stacks(), Move(giver as u8, taker as u8)),
    {
        let ghost d0 = self.stacks();
        let c = self.desk[giver].pop().unwrap();
        self.desk[taker].push(c);
        self.path.push(Move::new(giver, taker));
        proof {
            let m = Move(giver as u8, taker as u8);
            assert(self.stacks() =~~= apply_move(d0, m));
            lemma_push_path(self.origin(), old(self).moves(), m);
            lemma_apply_move(d0, m);
        }
    }

    /// Removes every card and every move.
    pub fn clear(&mut self)
        requires
            old(self).wf(),
        ensures
            final(self).wf(),
            final(self).stacks() == empty_desk(),
            final(self).origin() == empty_desk(),
            final(self).moves().len() == 0,
    {
        self.path.clear();
        let mut i: usize = 0;
        while i < DESK_SIZE
            invariant
                i <= DESK_SIZE,
                self.desk@.len() == DESK_SIZE,
                self.path@.len() == 0,
                forall|k: int| 0 <= k < i ==> (#[trigger] self.desk@[k])@.len() == 0,
            decreases DESK_SIZE - i,
        {
            self.desk[i].clear();
            i = i + 1;
        }
        self.start = Ghost(empty_desk());
        proof {
            assert(self.stacks() =~~= empty_desk());
            lemma_empty_sum(empty_desk(), 0, 16);
            assert(self.moves() =~= Seq::<Move>::empty());
        }
    }

    /// Clears the game and deals the cards round-robin onto the cascades.
    pub fn deal(&mut self, cards: &[u8])
        requires
            old(self).wf(),
            cards@.len() <= deck::CARD_NUM,
        ensures
            final(self).wf(),
            final(self).stacks() == dealt(cards@),
            final(self).origin() == dealt(cards@),
            final(self).moves().len() == 0,
            desk_cards(final(self).stacks()) == cards@.to_multiset(),
    {
        self.clear();
        let mut index: usize = 0;
        while index < cards.len()
            invariant
                index <= cards@.len(),
                cards@.len() <= deck::CARD_NUM,
                self.desk@.len() == DESK_SIZE,
                self.path@.len() == 0,
                self.stacks() == dealt(cards@.subrange(0, index as int)),
            decreases cards@.len() - index,
        {
            let ghost d0 = self.stacks();
            self.desk[PILE_START + index % PILE_NUM].push(cards[index]);
            proof {
                let next = cards@.subrange(0, index + 1);
                assert(next.drop_last() =~= cards@.subrange(0, index as int));
                lemma_dealt_len(cards@.subrange(0, index as int));
                assert(self.stacks() =~~= dealt(next));
            }
            index = index + 1;
        }
        proof {
            assert(cards@.subrange(0, cards@.len() as int) =~= cards@);
            lemma_dealt_len(cards@);
            lemma_dealt_cards(cards@);
        }
        self.start = Ghost(dealt(cards@));
    }

    /// Whether the move from `giver` to `taker` does not take back the last move.
    pub fn is_move_forward(&self, giver: usize, taker: usize) -> (r: bool)
        ensures
            r == fwd(self.moves(), giver as int, taker as int),
    {
        if self.path.len() == 0 {
            true
        } else {
            let mv = self.path[self.path.len() - 1];
            mv.giver() != taker || mv.taker() != giver
        }
    }

    /// The card on top of a spot.
    pub fn card_at(&self, spot: usize) -> (r: Option<&u8>)
        requires
            self.wf(),
            spot < DESK_SIZE,
        ensures
            match r {
                Some(c) => self.stacks()[spot as int].len() > 0 && *c == top(
                    self.stacks(),
                    spot as int,
                ),
                None => self.stacks()[spot as int].len() == 0,
            },
    {
        let n = self.desk[spot].len();
        if n == 0 {
            None
        } else {
            Some(&self.desk[spot][n - 1])
        }
    }

    /// Cards on spots `lo..hi`.
    fn sum_lens(&self, lo: usize, hi: usize) -> (r: usize)
        requires
            self.wf(),
            lo <= hi <= DESK_SIZE,
        ensures
            r == lens_sum(self.stacks(), lo as int, hi as int),
    {
        let mut sum: usize = 0;
        let mut i = lo;
        while i < hi
            invariant
                self.wf(),
                lo <= i <= hi <= DESK_SIZE,
                sum == lens_sum(self.stacks(), lo as int, i as int),
            decreases hi - i,
        {
            proof {
                lemma_lens_sum_split(self.stacks(), 0, lo as int, 16);
                lemma_lens_sum_split(self.stacks(), lo as int, i + 1, 16);
            }
            sum = sum + self.desk[i].len();
            i = i + 1;
        }
        sum
    }

    /// Empty spots among `lo..hi`.
    fn count_empty_in(&self, lo: usize, hi: usize) -> (r: usize)
        requires
            self.wf(),
            lo <= hi <= DESK_SIZE,
        ensures
            r == empty_count(self.stacks(), lo as int, hi as int),
            r <= hi - lo,
    {
        let mut count: usize = 0;
        let mut i = lo;
        while i < hi
            invariant
                self.wf(),
                lo <= i <= hi <= DESK_SIZE,
                count == empty_count(self.stacks(), lo as int, i as int),
                count <= i - lo,
            decreases hi - i,
        {
            if self.desk[i].len() == 0 {
                count = count + 1;
            }
            i = i + 1;
        }
        count
    }

    /// The first empty spot among `lo..hi`.
    fn find_empty(&self, lo: usize, hi: usize) -> (r: Option<usize>)
        requires
            self.wf(),
            lo <= hi <= DESK_SIZE,
        ensures
            r == match first_empty(self.stacks(), lo as int, hi as int) {
                Some(i) => Some(i as usize),
                None => None::<usize>,
            },
            r matches Some(i) ==> lo <= i < hi && self.stacks()[i as int].len() == 0,
        decreases hi - lo,
    {
        if lo >= hi {
            None
        } else if self.desk[lo].len() == 0 {
            Some(lo)
        } else {
            self.find_empty(lo + 1, hi)
        }
    }

    pub fn count_empty_cells(&self) -> (r: usize)
        requires
            self.wf(),
        ensures
            r == empty_count(self.stacks(), CELL_START as int, CELL_END as int),
            r <= CELL_END - CELL_START,
    {
        self.count_empty_in(CELL_START, CELL_END)
    }

    pub fn count_empty_piles(&self) -> (r: usize)
        requires
            self.wf(),
        ensures
            r == empty_count(self.stacks(), PILE_START as int, PILE_END as int),
            r <= PILE_END - PILE_START,
    {
        self.count_empty_in(PILE_START, PILE_END)
    }

    /// Empty free cells and empty cascades.
    pub fn count_empty(&self) -> (r: usize)
        requires
            self.wf(),
        ensures
            r == empty_count(self.stacks(), CELL_START as int, CELL_END as int) + empty_count(
                self.stacks(),
                PILE_START as int,
                PILE_END as int,
            ),
    {
        self.count_empty_cells() + self.count_empty_piles()
    }

    /// Cards on the foundations.
    pub fn count_solved(&self) -> (r: usize)
        requires
            self.wf(),
        ensures
            r == solved(self.stacks()),
    {
        self.sum_lens(BASE_START, BASE_END)
    }

    /// Cards not yet on a foundation.
    pub fn count_unsolved(&self) -> (r: usize)
        requires
            self.wf(),
        ensures
            r == unsolved(self.stacks()),
    {
        self.sum_lens(BASE_END, DESK_SIZE)
    }

    /// Whether every card is on a foundation.
    pub fn is_done(&self) -> (r: bool)
        requires
            self.wf(),
        ensures
            r == (unsolved(self.stacks()) == 0),
    {
        let mut i: usize = BASE_END;
        while i < DESK_SIZE
            invariant
                self.wf(),
                BASE_END <= i <= DESK_SIZE,
                lens_sum(self.stacks(), BASE_END as int, i as int) == 0,
            decreases DESK_SIZE - i,
        {
            if self.desk[i].len() > 0 {
                proof {
                    lemma_lens_sum_split(self.stacks(), BASE_END as int, i + 1, DESK_SIZE as int);
                }
                return false;
            }
            i = i + 1;
        }
        true
    }

    /// Whether the card at `card_index` of a cascade sits above a lower card of
    /// its suit: it must be moved away before that card can be freed.
    pub fn is_lock(pile: &Pile, card_index: usize) -> (r: bool)
        requires
            card_index < pile@.len(),
        ensures
            r == locked(pile@, card_index as int),
    {
        let card_a = pile[card_index];
        let card_a_rank = deck::card_rank(card_a);
        let card_a_suit = deck::card_suit(card_a);
        let mut prev_index: usize = 0;
        while prev_index < card_index
            invariant
                prev_index <= card_index < pile@.len(),
                card_a == pile@[card_index as int],
                card_a_rank == rank_of(card_a),
                card_a_suit == suit_of(card_a),
                forall|j: int|
                    0 <= j < prev_index ==> !(rank_of(card_a) > rank_of(#[trigger] pile@[j])
                        && suit_of(card_a) == suit_of(pile@[j])),
            decreases card_index - prev_index,
        {
            let card_b = pile[prev_index];
            if card_a_rank > deck::card_rank(card_b) && card_a_suit == deck::card_suit(card_b) {
                return true;
            }
            prev_index = prev_index + 1;
        }
        false
    }

    /// Blocking cards in the stack at `index`.
    pub fn count_locks_at(&self, index: usize) -> (r: usize)
        requires
            self.wf(),
            index < DESK_SIZE,
        ensures
            r == lock_count(self.stacks()[index as int], self.stacks()[index as int].len() as int),
            r <= self.stacks()[index as int].len(),
    {
        let pile = &self.desk[index];
        let mut count: usize = 0;
        let mut card_index: usize = 1;
        if pile.len() == 0 {
            return 0;
        }
        assert(lock_count(pile@, 0) == 0);
        assert(!locked(pile@, 0));
        assert(lock_count(pile@, 1) == lock_count(pile@, 0));
        while card_index < pile.len()
            invariant
                1 <= card_index <= pile@.len(),
                count == lock_count(pile@, card_index as int),
                count <= card_index,
            decreases pile@.len() - card_index,
        {
            if Self::is_lock(pile, card_index) {
                count = count + 1;
            }
            card_index = card_index + 1;
        }
        count
    }

    /// Blocking cards in all cascades.
    pub fn count_locks(&self) -> (r: usize)
        requires
            self.wf(),
        ensures
            r == locks(self.stacks()),
            r <= lens_sum(self.stacks(), PILE_START as int, PILE_END as int),
    {
        let mut sum: usize = 0;
        let mut i: usize = PILE_START;
        proof {
            lemma_lens_sum_split(self.stacks(), 0, PILE_START as int, 16);
        }
        while i < PILE_END
            invariant
                self.wf(),
                PILE_START <= i <= PILE_END,
                sum == locks_sum(self.stacks(), PILE_START as int, i as int),
                sum <= lens_sum(self.stacks(), PILE_START as int, i as int),
                lens_sum(self.stacks(), PILE_START as int, 16) <= deck::CARD_NUM,
            decreases PILE_END - i,
        {
            proof {
                lemma_lens_sum_split(self.stacks(), PILE_START as int, i + 1, 16);
            }
            sum = sum + self.count_locks_at(i);
            i = i + 1;
        }
        sum
    }

    /// Moves so far, plus cards not on a foundation, plus blocking cards: an
    /// optimistic estimate of the length of a whole solution.
    pub fn estimate_path_len(&self) -> (r: usize)
        requires
            self.wf(),
        ensures
            r == estimate(self.stacks(), self.moves()),
    {
        proof {
            lemma_lens_sum_split(self.stacks(), 0, BASE_END as int, 16);
            lemma_lens_sum_split(self.stacks(), 0, PILE_START as int, 16);
        }
        let locks = self.count_locks();
        self.path.len() + self.count_unsolved() + locks
    }

    /// The foundation that takes `card` next: the one of its suit, if it holds
    /// every lower rank of it.
    pub fn get_base(&self, card: u8) -> (r: Option<usize>)
        requires
            self.wf(),
        ensures
            r == match base_for(self.stacks(), card) {
                Some(i) => Some(i as usize),
                None => None::<usize>,
            },
    {
        let s = deck::card_suit(card);
        let r = deck::card_rank(card);
        if self.desk[BASE_START + s].len() == r {
            Some(BASE_START + s)
        } else {
            None
        }
    }

    /// The first empty free cell.
    pub fn get_empty_cell(&self) -> (r: Option<usize>)
        requires
            self.wf(),
        ensures
            r == match first_empty(self.stacks(), CELL_START as int, CELL_END as int) {
                Some(i) => Some(i as usize),
                None => None::<usize>,
            },
            r matches Some(i) ==> cell_spot(i as int) && self.stacks()[i as int].len() == 0,
    {
        self.find_empty(CELL_START, CELL_END)
    }

    /// The first empty cascade.
    pub fn get_empty_pile(&self) -> (r: Option<usize>)
        requires
            self.wf(),
        ensures
            r == match first_empty(self.stacks(), PILE_START as int, PILE_END as int) {
                Some(i) => Some(i as usize),
                None => None::<usize>,
            },
            r matches Some(i) ==> pile_spot(i as int) && self.stacks()[i as int].len() == 0,
    {
        self.find_empty(PILE_START, PILE_END)
    }

    /// The lowest ranks built on the black and on the red foundations.
    pub fn base_min_ranks(&self) -> (r: BaseRanks)
        requires
            self.wf(),
        ensures
            r.0 == min_black(self.stacks()),
            r.1 == min_red(self.stacks()),
    {
        let mut black = deck::RANK_NUM;
        let mut red = deck::RANK_NUM;
        let mut i: usize = BASE_START;
        while i < BASE_END
            invariant
                self.wf(),
                BASE_START <= i <= BASE_END,
                black == min3(13, if i > 0 { self.stacks()[0].len() } else { 13 }, if i > 2 {
                    self.stacks()[2].len()
                } else {
                    13
                }),
                red == min3(13, if i > 1 { self.stacks()[1].len() } else { 13 }, if i > 3 {
                    self.stacks()[3].len()
                } else {
                    13
                }),
            decreases BASE_END - i,
        {
            let rank = self.desk[i].len();
            if deck::is_card_black(i as u8) {
                if rank < black {
                    black = rank;
                }
            } else {
                if rank < red {
                    red = rank;
                }
            }
            i = i + 1;
        }
        BaseRanks::new(black, red)
    }

    /// Offers the move from `giver` to `taker` unless it takes back the last
    /// move; answers whether the producer may go on.
    fn try_move<C: Consumer<Move>>(&self, giver: usize, taker: usize, consumer: &mut C) -> (r: bool)
        requires
            giver < DESK_SIZE,
            taker < DESK_SIZE,
        ensures
            final(consumer)@ == fed::<Move, C>(
                old(consumer)@,
                offer(self.moves(), giver as int, taker as int, true),
            ),
            r == running::<Move, C>(
                old(consumer)@,
                offer(self.moves(), giver as int, taker as int, true),
            ),
    {
        let ghost v = consumer@;
        let ghost s = offer(self.moves(), giver as int, taker as int, true);
        proof {
            assert(fed::<Move, C>(v, Seq::empty()) == v);
            assert(running::<Move, C>(v, Seq::empty()));
        }
        if !self.is_move_forward(giver, taker) {
            assert(s =~= Seq::<Move>::empty());
            return true;
        }
        let r = consumer.accept(Move::new(giver, taker));
        proof {
            assert(s.drop_last() =~= Seq::<Move>::empty());
        }
        r
    }

    /// Offers the move of the top card of `giver` to its foundation, if it is
    /// the next rank of its suit; answers whether the producer may go on.
    fn try_move_to_base<C: Consumer<Move>>(&self, giver: usize, consumer: &mut C) -> (r: bool)
        requires
            self.wf(),
            BASE_END <= giver < DESK_SIZE,
        ensures
            final(consumer)@ == fed::<Move, C>(
                old(consumer)@,
                offer(
                    self.moves(),
                    giver as int,
                    suit_of(top(self.stacks(), giver as int)) as int,
                    self.stacks()[giver as int].len() > 0 && base_for(
                        self.stacks(),
                        top(self.stacks(), giver as int),
                    ) is Some,
                ),
            ),
            r == running::<Move, C>(
                old(consumer)@,
                offer(
                    self.moves(),
                    giver as int,
                    suit_of(top(self.stacks(), giver as int)) as int,
                    self.stacks()[giver as int].len() > 0 && base_for(
                        self.stacks(),
                        top(self.stacks(), giver as int),
                    ) is Some,
                ),
            ),
    {
        proof {
            assert(fed::<Move, C>(consumer@, Seq::empty()) == consumer@);
            assert(running::<Move, C>(consumer@, Seq::empty()));
        }
        if let Some(card_ref) = self.card_at(giver) {
            let card = *card_ref;
            if let Some(taker) = self.get_base(card) {
                return self.try_move(giver, taker, consumer);
            }
        }
        true
    }

    /// Offers the moves to a foundation, in order, until the consumer stops.
    pub fn get_moves_to_base<C: Consumer<Move>>(&self, consumer: &mut C)
        requires
            self.wf(),
        ensures
            final(consumer)@ == fed::<Move, C>(
                old(consumer)@,
                base_moves(self.stacks(), self.moves()),
            ),
    {
        let ghost d = self.stacks();
        let ghost p = self.moves();
        let ghost v0 = consumer@;
        let mut going = true;
        let mut giver: usize = BASE_END;
        while giver < DESK_SIZE
            invariant
                self.wf(),
                d == self.stacks(),
                p == self.moves(),
                BASE_END <= giver <= DESK_SIZE,
                consumer@ == fed::<Move, C>(v0, base_list(d, p, giver as int)),
                going == running::<Move, C>(v0, base_list(d, p, giver as int)),
            decreases DESK_SIZE - giver,
        {
            let ghost acc = base_list(d, p, giver as int);
            let ghost seg = offer(
                p,
                giver as int,
                suit_of(top(d, giver as int)) as int,
                d[giver as int].len() > 0 && base_for(d, top(d, giver as int)) is Some,
            );
            if going {
                going = self.try_move_to_base(giver, consumer);
            }
            proof {
                lemma_feed_step::<C>(v0, acc, seg);
                assert(base_list(d, p, giver + 1) == acc + seg);
            }
            giver = giver + 1;
        }
    }

    /// Offers the moves to the first empty free cell, in order, until the
    /// consumer stops.
    pub fn get_moves_to_cell<C: Consumer<Move>>(&self, consumer: &mut C)
        requires
            self.wf(),
        ensures
            final(consumer)@ == fed::<Move, C>(
                old(consumer)@,
                cell_moves(self.stacks(), self.moves()),
            ),
    {
        let ghost d = self.stacks();
        let ghost p = self.moves();
        let ghost v0 = consumer@;
        proof {
            lemma_first_empty_range(d, CELL_START as int, CELL_END as int);
            assert(fed::<Move, C>(v0, Seq::empty()) == v0);
        }
        if let Some(taker) = self.get_empty_cell() {
            let mut going = true;
            let mut giver: usize = PILE_START;
            while giver < PILE_END
                invariant
                    self.wf(),
                    d == self.stacks(),
                    p == self.moves(),
                    taker < DESK_SIZE,
                    PILE_START <= giver <= PILE_END,
                    consumer@ == fed::<Move, C>(v0, cell_list(d, p, taker as int, giver as int)),
                    going == running::<Move, C>(v0, cell_list(d, p, taker as int, giver as int)),
                decreases PILE_END - giver,
            {
                let ghost acc = cell_list(d, p, taker as int, giver as int);
                let ghost seg = offer(p, giver as int, taker as int, d[giver as int].len() > 0);
                if going && self.desk[giver].len() > 0 {
                    going = self.try_move(giver, taker, consumer);
                }
                proof {
                    lemma_feed_step::<C>(v0, acc, seg);
                }
                giver = giver + 1;
            }
        }
    }

    /// Offers the moves to the first empty cascade, in order, until the
    /// consumer stops: from cascades of two cards or more, then from free cells.
    pub fn get_moves_to_pile<C: Consumer<Move>>(&self, consumer: &mut C)
        requires
            self.wf(),
        ensures
            final(consumer)@ == fed::<Move, C>(
                old(consumer)@,
                pile_moves(self.stacks(), self.moves()),
            ),
    {
        let ghost d = self.stacks();
        let ghost p = self.moves();
        let ghost v0 = consumer@;
        proof {
            lemma_first_empty_range(d, PILE_START as int, PILE_END as int);
            assert(fed::<Move, C>(v0, Seq::empty()) == v0);
        }
        if let Some(taker) = self.get_empty_pile() {
            let ghost e = taker as int;
            let mut going = true;
            let mut giver: usize = PILE_START;
            while giver < PILE_END
                invariant
                    self.wf(),
                    d == self.stacks(),
                    p == self.moves(),
                    taker < DESK_SIZE,
                    e == taker,
                    PILE_START <= giver <= PILE_END,
                    consumer@ == fed::<Move, C>(v0, pile_list(d, p, e, giver as int)),
                    going == running::<Move, C>(v0, pile_list(d, p, e, giver as int)),
                decreases PILE_END - giver,
            {
                let ghost acc = pile_list(d, p, e, giver as int);
                let ghost seg = offer(p, giver as int, e, d[giver as int].len() > 1);
                if going && self.desk[giver].len() > 1 {
                    going = self.try_move(giver, taker, consumer);
                }
                proof {
                    lemma_feed_step::<C>(v0, acc, seg);
                }
                giver = giver + 1;
            }
            let ghost first = pile_list(d, p, e, PILE_END as int);
            giver = CELL_START;
            while giver < CELL_END
                invariant
                    self.wf(),
                    d == self.stacks(),
                    p == self.moves(),
                    taker < DESK_SIZE,
                    e == taker,
                    CELL_START <= giver <= CELL_END,
                    consumer@ == fed::<Move, C>(v0, first + cell_pile_list(d, p, e, giver as int)),
                    going == running::<Move, C>(v0, first + cell_pile_list(d, p, e, giver as int)),
                decreases CELL_END - giver,
            {
                let ghost acc = first + cell_pile_list(d, p, e, giver as int);
                let ghost seg = offer(p, giver as int, e, d[giver as int].len() > 0);
                if going && self.desk[giver].len() > 0 {
                    going = self.try_move(giver, taker, consumer);
                }
                proof {
                    lemma_feed_step::<C>(v0, acc, seg);
                    assert(first + cell_pile_list(d, p, e, giver + 1) =~= acc + seg);
                }
                giver = giver + 1;
            }
        }
    }

    /// Offers the moves onto a tableau, in order, until the consumer stops:
    /// from play spots, then from foundations whose top card is above the safe rank.
    pub fn get_moves_to_tableau<C: Consumer<Move>>(&self, consumer: &mut C)
        requires
            self.wf(),
        ensures
            final(consumer)@ == fed::<Move, C>(
                old(consumer)@,
                tableau_moves(self.stacks(), self.moves()),
            ),
    {
        let ghost d = self.stacks();
        let ghost p = self.moves();
        let ghost v0 = consumer@;
        let mut going = true;
        // 1. From cells and cascades:
        let mut giver: usize = BASE_END;
        while giver < DESK_SIZE
            invariant
                self.wf(),
                d == self.stacks(),
                p == self.moves(),
                BASE_END <= giver <= DESK_SIZE,
                consumer@ == fed::<Move, C>(v0, tab_list(d, p, giver as int)),
                going == running::<Move, C>(v0, tab_list(d, p, giver as int)),
            decreases DESK_SIZE - giver,
        {
            let ghost outer = tab_list(d, p, giver as int);
            let mut taker: usize = PILE_START;
            while taker < PILE_END
                invariant
                    self.wf(),
                    d == self.stacks(),
                    p == self.moves(),
                    BASE_END <= giver < DESK_SIZE,
                    PILE_START <= taker <= PILE_END,
                    outer == tab_list(d, p, giver as int),
                    consumer@ == fed::<Move, C>(v0, outer + tab_row(d, p, giver as int, taker as int)),
                    going == running::<Move, C>(v0, outer + tab_row(d, p, giver as int, taker as int)),
                decreases PILE_END - taker,
            {
                let ghost acc = outer + tab_row(d, p, giver as int, taker as int);
                let ghost seg = offer(
                    p,
                    giver as int,
                    taker as int,
                    d[giver as int].len() > 0 && d[taker as int].len() > 0 && giver != taker
                        && tableau(top(d, taker as int), top(d, giver as int)),
                );
                if going {
                    if let Some(free_card_ref) = self.card_at(giver) {
                        let free_card = *free_card_ref;
                        if let Some(pile_card_ref) = self.card_at(taker) {
                            let pile_card = *pile_card_ref;
                            if giver != taker && crate::basis::is_tableau(pile_card, free_card) {
                                going = self.try_move(giver, taker, consumer);
                            }
                        }
                    }
                }
                proof {
                    lemma_feed_step::<C>(v0, acc, seg);
                    assert(outer + tab_row(d, p, giver as int, taker + 1) =~= acc + seg);
                }
                taker = taker + 1;
            }
            giver = giver + 1;
        }
        // 2. From foundations: only cards above the safe rank, whose removal
        // from the foundation no tableau of the other color can need.
        let ghost first = tab_list(d, p, DESK_SIZE as int);
        let ranks = self.base_min_ranks();
        giver = BASE_START;
        while giver < BASE_END
            invariant
                self.wf(),
                d == self.stacks(),
                p == self.moves(),
                ranks.0 == min_black(d),
                ranks.1 == min_red(d),
                BASE_START <= giver <= BASE_END,
                consumer@ == fed::<Move, C>(v0, first + lift_list(d, p, giver as int)),
                going == running::<Move, C>(v0, first + lift_list(d, p, giver as int)),
            decreases BASE_END - giver,
        {
            let ghost outer = first + lift_list(d, p, giver as int);
            let ghost lifts = d[giver as int].len() > 0 && rank_of(top(d, giver as int)) > safe_rank(
                d,
                top(d, giver as int),
            );
            if let Some(free_card_ref) = self.card_at(giver) {
                let free_card = *free_card_ref;
                if !ranks.ge(free_card) {
                    let mut taker: usize = PILE_START;
                    while taker < PILE_END
                        invariant
                            self.wf(),
                            d == self.stacks(),
                            p == self.moves(),
                            giver < BASE_END,
                            lifts,
                            free_card == top(d, giver as int),
                            PILE_START <= taker <= PILE_END,
                            outer == first + lift_list(d, p, giver as int),
                            consumer@ == fed::<Move, C>(
                                v0,
                                outer + lift_row(d, p, giver as int, taker as int),
                            ),
                            going == running::<Move, C>(
                                v0,
                                outer + lift_row(d, p, giver as int, taker as int),
                            ),
                        decreases PILE_END - taker,
                    {
                        let ghost acc = outer + lift_row(d, p, giver as int, taker as int);
                        let ghost seg = offer(
                            p,
                            giver as int,
                            taker as int,
                            d[taker as int].len() > 0 && tableau(
                                top(d, taker as int),
                                top(d, giver as int),
                            ),
                        );
                        if going {
                            if let Some(pile_card_ref) = self.card_at(taker) {
                                let pile_card = *pile_card_ref;
                                if crate::basis::is_tableau(pile_card, free_card) {
                                    going = self.try_move(giver, taker, consumer);
                                }
                            }
                        }
                        proof {
                            lemma_feed_step::<C>(v0, acc, seg);
                            assert(outer + lift_row(d, p, giver as int, taker + 1) =~= acc + seg);
                        }
                        taker = taker + 1;
                    }
                    proof {
                        assert(first + lift_list(d, p, giver + 1) =~= outer + lift_row(
                            d,
                            p,
                            giver as int,
                            PILE_END as int,
                        ));
                    }
                } else {
                    proof {
                        assert(first + lift_list(d, p, giver + 1) =~= outer);
                    }
                }
            } else {
                proof {
                    assert(first + lift_list(d, p, giver + 1) =~= outer);
                }
            }
            giver = giver + 1;
        }
    }

    /// Offers every candidate move, generator by generator: to a foundation,
    /// onto a tableau, to a free cell, to an empty cascade.
    pub fn get_moves<C: Consumer<Move>>(&self, consumer: &mut C)
        requires
            self.wf(),
        ensures
            final(consumer)@ == fed::<Move, C>(
                fed::<Move, C>(
                    fed::<Move, C>(
                        fed::<Move, C>(old(consumer)@, base_moves(self.stacks(), self.moves())),
                        tableau_moves(self.stacks(), self.moves()),
                    ),
                    cell_moves(self.stacks(), self.moves()),
                ),
                pile_moves(self.stacks(), self.moves()),
            ),
    {
        self.get_moves_to_base(consumer);
        self.get_moves_to_tableau(consumer);
        self.get_moves_to_cell(consumer);
        self.get_moves_to_pile(consumer);
    }

    /// Every candidate move, in order.
    pub fn get_all_moves(&self) -> (r: Vec<Move>)
        requires
            self.wf(),
        ensures
            r@ == all_moves(self.stacks(), self.moves()),
            sound(self.stacks(), self.moves(), r@),
    {
        let mut consumer = MoveConsumer::new();
        self.get_moves(&mut consumer);
        proof {
            let d = self.stacks();
            let p = self.moves();
            let e = Seq::<Move>::empty();
            lemma_total_fed(e, base_moves(d, p));
            lemma_total_fed(e + base_moves(d, p), tableau_moves(d, p));
            lemma_total_fed(e + base_moves(d, p) + tableau_moves(d, p), cell_moves(d, p));
            lemma_total_fed(
                e + base_moves(d, p) + tableau_moves(d, p) + cell_moves(d, p),
                pile_moves(d, p),
            );
            assert(e + base_moves(d, p) =~= base_moves(d, p));
            lemma_all_moves_sound(d, p);
        }
        consumer.into_vec()
    }

    pub fn has_move_to_base(&self) -> (r: bool)
        requires
            self.wf(),
        ensures
            r == (base_moves(self.stacks(), self.moves()).len() > 0),
    {
        let mut consumer = SingleMoveConsumer::new();
        self.get_moves_to_base(&mut consumer);
        proof {
            lemma_single_fed(base_moves(self.stacks(), self.moves()));
        }
        consumer.is_some()
    }

    pub fn has_move_to_tableau(&self) -> (r: bool)
        requires
            self.wf(),
        ensures
            r == (tableau_moves(self.stacks(), self.moves()).len() > 0),
    {
        let mut consumer = SingleMoveConsumer::new();
        self.get_moves_to_tableau(&mut consumer);
        proof {
            lemma_single_fed(tableau_moves(self.stacks(), self.moves()));
        }
        consumer.is_some()
    }

    pub fn has_move_to_cell(&self) -> (r: bool)
        requires
            self.wf(),
        ensures
            r == (cell_moves(self.stacks(), self.moves()).len() > 0),
    {
        let mut consumer = SingleMoveConsumer::new();
        self.get_moves_to_cell(&mut consumer);
        proof {
            lemma_single_fed(cell_moves(self.stacks(), self.moves()));
        }
        consumer.is_some()
    }

    pub fn has_move_to_pile(&self) -> (r: bool)
        requires
            self.wf(),
        ensures
            r == (pile_moves(self.stacks(), self.moves()).len() > 0),
    {
        let mut consumer = SingleMoveConsumer::new();
        self.get_moves_to_pile(&mut consumer);
        proof {
            lemma_single_fed(pile_moves(self.stacks(), self.moves()));
        }
        consumer.is_some()
    }

    /// Whether any candidate move exists.
    pub fn has_next_move(&self) -> (r: bool)
        requires
            self.wf(),
        ensures
            r == (all_moves(self.stacks(), self.moves()).len() > 0),
    {
        self.has_move_to_cell() || self.has_move_to_pile() || self.has_move_to_base()
            || self.has_move_to_tableau()
    }

    /// Puts on their foundations, one at a time, the top cards that can go there
    /// without blocking a tableau of the other color; returns how many went.
    pub fn move_cards_auto(&mut self) -> (r: usize)
        requires
            old(self).wf(),
            old(self).moves().len() + deck::CARD_NUM <= PATH_CAPACITY,
        ensures
            final(self).wf(),
            final(self).origin() == old(self).origin(),
            final(self).moves() == old(self).moves() + auto_moves(old(self).stacks()),
            final(self).stacks() == auto_result(old(self).stacks()),
            r == auto_moves(old(self).stacks()).len(),
            r <= deck::CARD_NUM,
    {
        let ghost d0 = self.stacks();
        let ghost p0 = self.moves();
        proof {
            lemma_auto_facts(d0);
            lemma_lens_sum_split(d0, 0, BASE_END as int, 16);
        }
        let mut count: usize = 0;
        let mut done = false;
        while !done
            invariant
                self.wf(),
                self.origin() == old(self).origin(),
                self.moves() == p0 + auto_moves(d0).subrange(0, count as int),
                count <= auto_moves(d0).len(),
                auto_moves(d0).len() <= unsolved(d0),
                unsolved(d0) <= deck::CARD_NUM,
                p0.len() + deck::CARD_NUM <= PATH_CAPACITY,
                auto_moves(self.stacks()) == auto_moves(d0).subrange(count as int, auto_moves(d0).len() as int),
                auto_result(self.stacks()) == auto_result(d0),
                done ==> auto_pick(self.stacks(), BASE_END as int) is None,
            decreases unsolved(self.stacks()) + if done { 0int } else { 1int },
        {
            done = true;
            let ghost d = self.stacks();
            let ranks = self.base_min_ranks();
            let mut giver: usize = BASE_END;
            let mut picked = false;
            while !picked && giver < DESK_SIZE
                invariant
                    self.wf(),
                    d == self.stacks(),
                    done,
                    ranks.0 == min_black(d),
                    ranks.1 == min_red(d),
                    BASE_END <= giver <= DESK_SIZE,
                    picked ==> giver < DESK_SIZE && pickable(d, giver as int),
                    auto_pick(d, BASE_END as int) == auto_pick(d, giver as int),
                decreases DESK_SIZE - giver + if picked { 0int } else { 1int },
            {
                if let Some(card_ref) = self.card_at(giver) {
                    let card = *card_ref;
                    if ranks.ge(card) {
                        if let Some(taker) = self.get_base(card) {
                            picked = true;
                        }
                    }
                }
                if !picked {
                    giver = giver + 1;
                }
            }
            if picked {
                let ghost g = giver as int;
                proof {
                    lemma_auto_step(d, g);
                    let m = auto_move(d, g);
                    assert(auto_moves(d) == seq![m] + auto_moves(apply_move(d, m)));
                    assert(auto_moves(d0).subrange(count as int, auto_moves(d0).len() as int)[0]
                        == m);
                }
                let card = *self.card_at(giver).unwrap();
                let taker = deck::card_suit(card);
                self.move_card(giver, taker);
                proof {
                    let m = auto_move(d, g);
                    let all = auto_moves(d0);
                    assert(all.subrange(count + 1, all.len() as int) =~= all.subrange(
                        count as int,
                        all.len() as int,
                    ).drop_first());
                    assert(auto_moves(apply_move(d, m)) =~= (seq![m] + auto_moves(
                        apply_move(d, m),
                    )).drop_first());
                    assert(all.subrange(0, count + 1) =~= all.subrange(0, count as int).push(m));
                    assert(self.moves() =~= p0 + all.subrange(0, count + 1));
                }
                count = count + 1;
                done = false;
            }
        }
        proof {
            assert(auto_moves(self.stacks()) =~= Seq::<Move>::empty());
            assert(count == auto_moves(d0).len());
            assert(auto_moves(d0).subrange(0, count as int) =~= auto_moves(d0));
            lemma_lens_sum_split(d0, 0, BASE_END as int, 16);
        }
        count
    }

    /// Writes the foundation depths at the start of the key.
    pub fn fill_base_invariant(&self, key: &mut Key64)
        requires
            self.wf(),
            old(key)@.len() == KEY_SIZE,
        ensures
            final(key)@ == overlay(old(key)@, 0, base_depths(self.stacks())),
    {
        let ghost k0 = key@;
        let mut i: usize = BASE_START;
        while i < BASE_END
            invariant
                self.wf(),
                k0.len() == KEY_SIZE,
                BASE_START <= i <= BASE_END,
                key@ == overlay(k0, 0, base_depths(self.stacks()).subrange(0, i as int)),
            decreases BASE_END - i,
        {
            proof {
                lemma_stack_bound(self.stacks(), i as int);
            }
            key.put(i, self.desk[i].len() as u8);
            assert(key@ =~= overlay(k0, 0, base_depths(self.stacks()).subrange(0, i + 1)));
            i = i + 1;
        }
        assert(base_depths(self.stacks()).subrange(0, 4) =~= base_depths(self.stacks()));
    }

    /// The spots of the non-empty cascades, ordered by their cards.
    fn sorted_pile_spots(&self) -> (r: Vec<usize>)
        requires
            self.wf(),
        ensures
            forall|k: int| 0 <= k < r@.len() ==> PILE_START <= #[trigger] r@[k] < PILE_END,
            piles_at(self.stacks(), r@) == sorted_cascades(self.stacks()),
            r@.len() <= PILE_NUM,
    {
        let ghost d = self.stacks();
        let mut order: Vec<usize> = Vec::new();
        let mut i: usize = PILE_START;
        proof {
            lemma_lex_total_ordering();
            assert(piles_at(d, order@) =~= Seq::<Seq<u8>>::empty());
        }
        while i < PILE_END
            invariant
                self.wf(),
                d == self.stacks(),
                PILE_START <= i <= PILE_END,
                order@.len() <= i - PILE_START,
                forall|k: int| 0 <= k < order@.len() ==> PILE_START <= #[trigger] order@[k] < PILE_END,
                sorted_by(piles_at(d, order@), lex_order()),
                piles_at(d, order@).to_multiset() == piles_upto(d, i as int).to_multiset(),
                vstd::relations::total_ordering(lex_order()),
            decreases PILE_END - i,
        {
            if self.desk[i].len() > 0 {
                let ghost x = d[i as int];
                let ghost s0 = piles_at(d, order@);
                let mut pos: usize = 0;
                while pos < order.len() && lex_less_eq(&self.desk[order[pos]], &self.desk[i])
                    invariant
                        self.wf(),
                        d == self.stacks(),
                        pos <= order@.len(),
                        i < PILE_END,
                        forall|k: int| 0 <= k < order@.len() ==> PILE_START <= #[trigger] order@[k] < PILE_END,
                        s0 == piles_at(d, order@),
                        x == d[i as int],
                        forall|k: int| 0 <= k < pos ==> lex_le(#[trigger] s0[k], x),
                    decreases order@.len() - pos,
                {
                    pos = pos + 1;
                }
                proof {
                    if pos < order@.len() {
                        assert(!lex_le(s0[pos as int], x));
                        assert(lex_order()(s0[pos as int], x) || lex_order()(x, s0[pos as int]));
                    }
                }
                order.insert(pos, i);
                proof {
                    let s1 = piles_at(d, order@);
                    assert(s1 =~= s0.insert(pos as int, x));
                    let r = lex_order();
                    assert forall|a: int, b: int| 0 <= a < b < s1.len() implies #[trigger] r(
                        s1[a],
                        s1[b],
                    ) by {
                        if b < pos {
                            assert(r(s0[a], s0[b]));
                        } else if b == pos {
                            assert(lex_le(s0[a], x));
                        } else if a == pos {
                            assert(r(x, s0[pos as int]));
                            if b - 1 > pos {
                                assert(r(s0[pos as int], s0[b - 1]));
                            }
                        } else if a < pos {
                            assert(lex_le(s0[a], x));
                            assert(r(x, s0[pos as int]));
                            if b - 1 > pos {
                                assert(r(s0[pos as int], s0[b - 1]));
                            }
                            assert(r(s0[a], s0[pos as int]));
                        } else {
                            assert(r(s0[a - 1], s0[b - 1]));
                        }
                    }
                    assert(piles_upto(d, i + 1) =~= piles_upto(d, i as int).push(x));
                    vstd::seq_lib::to_multiset_insert(s0, pos as int, x);
                    vstd::seq_lib::to_multiset_build(piles_upto(d, i as int), x);
                }
            } else {
                assert(piles_upto(d, i + 1) =~= piles_upto(d, i as int));
            }
            i = i + 1;
        }
        proof {
            cascades(d).lemma_sort_by_ensures(lex_order());
            lemma_sorted_unique(piles_at(d, order@), sorted_cascades(d), lex_order());
        }
        order
    }

    /// Writes the non-empty cascades, in lexicographic order, after the
    /// foundation depths: each as its length, then its cards.
    pub fn fill_pile_invariant(&self, key: &mut Key64)
        requires
            self.wf(),
            old(key)@.len() == KEY_SIZE,
        ensures
            final(key)@ == overlay(old(key)@, BASE_END as int, encode(sorted_cascades(self.stacks()))),
    {
        let ghost d = self.stacks();
        let ghost k0 = key@;
        let order = self.sorted_pile_spots();
        let ghost ps = piles_at(d, order@);
        let ghost mut written: Seq<u8> = Seq::empty();
        let mut pos: usize = BASE_END;
        let mut k: usize = 0;
        assert(key@ =~= overlay(k0, BASE_END as int, written));
        while k < order.len()
            invariant
                self.wf(),
                d == self.stacks(),
                k0.len() == KEY_SIZE,
                k <= order@.len() <= PILE_NUM,
                forall|q: int| 0 <= q < order@.len() ==> PILE_START <= #[trigger] order@[q] < PILE_END,
                ps == piles_at(d, order@),
                written == encode(ps.subrange(0, k as int)),
                written.len() <= 53 * k,
                pos == BASE_END + written.len(),
                key@ == overlay(k0, BASE_END as int, written),
            decreases order@.len() - k,
        {
            let pile = &self.desk[order[k]];
            let ghost before = written;
            proof {
                lemma_stack_bound(d, order@[k as int] as int);
                assert(53 * k <= 424) by (nonlinear_arith)
                    requires
                        k < 8,
                {
                }
            }
            if pos < KEY_SIZE {
                key.put(pos, pile.len() as u8);
            }
            proof {
                written = written.push(pile@.len() as u8);
                assert(key@ =~= overlay(k0, BASE_END as int, written));
            }
            pos = pos + 1;
            let mut j: usize = 0;
            while j < pile.len()
                invariant
                    self.wf(),
                    k0.len() == KEY_SIZE,
                    j <= pile@.len() <= deck::CARD_NUM,
                    written == before + seq![pile@.len() as u8] + pile@.reverse().subrange(0, j as int),
                    before.len() <= 53 * k,
                    before.len() <= 424,
                    pos == BASE_END + written.len(),
                    key@ == overlay(k0, BASE_END as int, written),
                decreases pile@.len() - j,
            {
                let card = pile[pile.len() - 1 - j];
                if pos < KEY_SIZE {
                    key.put(pos, card);
                }
                proof {
                    let rev = pile@.reverse();
                    assert(rev[j as int] == card);
                    assert(rev.subrange(0, j + 1) =~= rev.subrange(0, j as int).push(card));
                    written = written.push(card);
                    assert(key@ =~= overlay(k0, BASE_END as int, written));
                }
                pos = pos + 1;
                j = j + 1;
            }
            proof {
                assert(pile@.reverse().subrange(0, j as int) =~= pile@.reverse());
                let next = ps.subrange(0, k + 1);
                assert(next.drop_last() =~= ps.subrange(0, k as int));
                assert(next.last() == pile@);
            }
            k = k + 1;
        }
        assert(ps.subrange(0, order@.len() as int) =~= ps);
    }

    /// The fingerprint of the stacks.
    pub fn get_invariant(&self) -> (r: Key64)
        requires
            self.wf(),
        ensures
            r@ == fingerprint(self.stacks()),
    {
        let mut key = Key64::new();
        self.fill_base_invariant(&mut key);
        self.fill_pile_invariant(&mut key);
        key
    }

    /// The board as text: free cells then foundations on the first line, a
    /// rule, then the cascades row by row.
    pub fn to_string(&self) -> (r: String)
        requires
            self.wf(),
        ensures
            r@ == board_text(self.stacks()),
    {
        let ghost d = self.stacks();
        let mut text = String::new();
        proof {
            reveal_strlit("|");
            reveal_strlit("  ");
            reveal_strlit("XX");
            reveal_strlit("\n");
            reveal_strlit("-");
            reveal_strlit("\n|");
        }
        text.append("|");
        let ghost head = text@;
        let mut i: usize = CELL_START;
        while i < CELL_END
            invariant
                self.wf(),
                d == self.stacks(),
                CELL_START <= i <= CELL_END,
                text@ == head + slots_text(d, CELL_START as int, i as int),
            decreases CELL_END - i,
        {
            self.append_slot(&mut text, i);
            text.append("|");
            i = i + 1;
        }
        let ghost cells = text@;
        i = BASE_START;
        while i < BASE_END
            invariant
                self.wf(),
                d == self.stacks(),
                BASE_START <= i <= BASE_END,
                text@ == cells + slots_text(d, BASE_START as int, i as int),
            decreases BASE_END - i,
        {
            self.append_slot(&mut text, i);
            text.append("|");
            i = i + 1;
        }
        text.append("\n");
        let ghost ruled = text@;
        let mut k: usize = 0;
        while k < 25
            invariant
                k <= 25,
                text@ == ruled + Seq::new(k as nat, |j: int| '-'),
            decreases 25 - k,
        {
            text.append("-");
            proof {
                reveal_strlit("-");
                assert("-"@ =~= seq!['-']);
                assert(text@ =~= ruled + Seq::new((k + 1) as nat, |j: int| '-'));
            }
            k = k + 1;
        }
        let ghost top_part = text@;
        let mut n: usize = 0;
        i = PILE_START;
        while i < PILE_END
            invariant
                self.wf(),
                d == self.stacks(),
                PILE_START <= i <= PILE_END,
                n == deepest(d, i as int),
            decreases PILE_END - i,
        {
            if self.desk[i].len() > n {
                n = self.desk[i].len();
            }
            i = i + 1;
        }
        let mut row: usize = 0;
        assert(text@ =~= top_part + rows_text(d, 0));
        while row < n
            invariant
                self.wf(),
                d == self.stacks(),
                row <= n,
                text@ == top_part + rows_text(d, row as int),
            decreases n - row,
        {
            let ghost before = text@;
            text.append("\n|");
            i = PILE_START;
            while i < PILE_END
                invariant
                    self.wf(),
                    d == self.stacks(),
                    row < n,
                    PILE_START <= i <= PILE_END,
                    text@ == before + "\n|"@ + row_text(d, row as int, i as int),
                decreases PILE_END - i,
            {
                if self.desk[i].len() > row {
                    let card = deck::card_to_string(self.desk[i][row]);
                    text.append(card.as_str());
                } else {
                    text.append("  ");
                }
                text.append("|");
                i = i + 1;
            }
            row = row + 1;
        }
        proof {
            assert(text@ =~= board_text(d));
        }
        text
    }

    /// Appends the text of a free cell or foundation slot.
    fn append_slot(&self, text: &mut String, i: usize)
        requires
            self.wf(),
            i < CELL_END,
        ensures
            final(text)@ == old(text)@ + slot_text(self.stacks(), i as int),
    {
        proof {
            reveal_strlit("  ");
            reveal_strlit("XX");
        }
        let n = self.desk[i].len();
        if n == 0 {
            text.append("  ");
        } else if crate::basis::is_cell(i) && n > 1 {
            text.append("XX");
        } else if crate::basis::is_cell(i) {
            let card = deck::card_to_string(self.desk[i][0]);
            text.append(card.as_str());
        } else {
            let card = deck::card_to_string(self.desk[i][n - 1]);
            text.append(card.as_str());
        }
    }

    /// Takes moves back, last first, until `mark` moves are left.
    pub fn backward(&mut self, mark: usize)
        requires
            old(self).wf(),
        ensures
            final(self).wf(),
            final(self).origin() == old(self).origin(),
            final(self).moves() == old(self).moves().subrange(
                0,
                if mark < old(self).moves().len() {
                    mark as int
                } else {
                    old(self).moves().len() as int
                },
            ),
            final(self).stacks() == undone(old(self).stacks(), old(self).moves(), mark as nat),
    {
        while self.path.len() > mark
            invariant
                self.wf(),
                self.origin() == old(self).origin(),
                self.moves().len() <= old(self).moves().len(),
                self.moves() == old(self).moves().subrange(0, self.moves().len() as int),
                self.moves().len() < mark ==> self.moves() == old(self).moves(),
                undone(self.stacks(), self.moves(), mark as nat) == undone(
                    old(self).stacks(),
                    old(self).moves(),
                    mark as nat,
                ),
            decreases self.path.len(),
        {
            let ghost d0 = self.stacks();
            let ghost p0 = self.moves();
            let mv = self.path.pop().unwrap();
            proof {
                lemma_replay_ok(self.origin(), p0.drop_last());
                lemma_apply_move(replay(self.origin(), p0.drop_last()), mv);
            }
            let card = self.desk[mv.taker()].pop().unwrap();
            self.desk[mv.giver()].push(card);
            proof {
                assert(self.stacks() =~~= undo_move(d0, mv));
                assert(self.moves() =~= p0.drop_last());
                assert(self.stacks() =~~= replay(self.origin(), self.moves()));
                lemma_replay_ok(self.origin(), self.moves());
            }
        }
        proof {
            if mark < old(self).moves().len() {
                assert(self.moves().len() == mark);
            } else {
                assert(self.moves() =~= old(self).moves().subrange(0, old(self).moves().len() as int));
            }
        }
    }

    /// Takes every move back: the stacks as dealt.
    pub fn rewind(&mut self)
        requires
            old(self).wf(),
        ensures
            final(self).wf(),
            final(self).origin() == old(self).origin(),
            final(self).moves().len() == 0,
            final(self).stacks() == old(self).origin(),
    {
        self.backward(0);
        proof {
            assert(replay(self.origin(), self.moves()) == self.origin());
        }
    }

    /// Makes the moves in order.
    pub fn forward(&mut self, moves: &[Move])
        requires
            old(self).wf(),
            replayable(old(self).stacks(), moves@),
            old(self).moves().len() + moves@.len() <= PATH_CAPACITY,
        ensures
            final(self).wf(),
            final(self).origin() == old(self).origin(),
            final(self).moves() == old(self).moves() + moves@,
            final(self).stacks() == replay(old(self).stacks(), moves@),
    {
        let mut i: usize = 0;
        while i < moves.len()
            invariant
                self.wf(),
                i <= moves@.len(),
                replayable(old(self).stacks(), moves@),
                old(self).moves().len() + moves@.len() <= PATH_CAPACITY,
                self.origin() == old(self).origin(),
                self.moves() == old(self).moves() + moves@.subrange(0, i as int),
                self.stacks() == replay(old(self).stacks(), moves@.subrange(0, i as int)),
            decreases moves@.len() - i,
        {
            let mv = moves[i];
            proof {
                let pre = moves@.subrange(0, i as int);
                let next = moves@.subrange(0, i + 1);
                assert(next =~= pre.push(mv));
                lemma_replayable_prefix(old(self).stacks(), moves@, i + 1);
                lemma_push_path(old(self).stacks(), pre, mv);
            }
            self.move_card(mv.giver(), mv.taker());
            proof {
                let pre = moves@.subrange(0, i as int);
                assert(moves@.subrange(0, i + 1) =~= pre.push(mv));
                assert(self.moves() =~= old(self).moves() + moves@.subrange(0, i + 1));
            }
            i = i + 1;
        }
        assert(moves@.subrange(0, moves@.len() as int) =~= moves@);
    }

    /// Rewinds to the deal, then makes the moves in order.
    pub fn set_path(&mut self, moves: &[Move])
        requires
            old(self).wf(),
            replayable(old(self).origin(), moves@),
            moves@.len() <= PATH_CAPACITY,
        ensures
            final(self).wf(),
            final(self).origin() == old(self).origin(),
            final(self).moves() == moves@,
            final(self).stacks() == replay(old(self).origin(), moves@),
    {
        self.rewind();
        self.forward(moves);
        assert(self.moves() =~= moves@);
    }
}

} // verus!
