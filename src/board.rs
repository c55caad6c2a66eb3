//! The board model: sixteen stacks of cards, moves between them, and the
//! counts that the search estimates with.
use crate::basis::{
    cell_spot, BASE_END, BASE_START, CELL_END, CELL_START, DESK_SIZE, PILE_END, PILE_START,
};
use crate::deck;
use crate::deck::{rank_of, suit_of};
use vstd::multiset::Multiset;
use vstd::prelude::*;

verus! {

/// The longest path a game holds: a quarter of the smallest address space, in
/// two-byte moves.
pub const PATH_CAPACITY: usize = 0x3fff_ffff;

/// A step in the game: the card on top of the giver's spot goes on top of the
/// taker's spot.
#[derive(Clone, Copy, Debug, PartialEq, Eq, Structural)]
pub struct Move(pub u8, pub u8);

impl Move {
    pub fn new(giver: usize, taker: usize) -> (r: Self)
        requires
            giver < 256,
            taker < 256,
        ensures
            r.0 == giver,
            r.1 == taker,
    {
        Move(giver as u8, taker as u8)
    }

    pub fn giver(&self) -> (r: usize)
        ensures
            r == self.0,
    {
        self.0 as usize
    }

    pub fn taker(&self) -> (r: usize)
        ensures
            r == self.1,
    {
        self.1 as usize
    }
}

pub type Path = Vec<Move>;

pub type Pile = Vec<u8>;

pub type Desk = Vec<Pile>;

/// The stacks after one move: the giver's top card is put on the taker.
pub open spec fn apply_move(d: Seq<Seq<u8>>, m: Move) -> Seq<Seq<u8>> {
    let g = m.0 as int;
    let t = m.1 as int;
    let card = d[g].last();
    let lifted = d.update(g, d[g].drop_last());
    lifted.update(t, lifted[t].push(card))
}

/// The stacks after a move is taken back: the taker's top card returns to the giver.
pub open spec fn undo_move(d: Seq<Seq<u8>>, m: Move) -> Seq<Seq<u8>> {
    let g = m.0 as int;
    let t = m.1 as int;
    let card = d[t].last();
    let lifted = d.update(t, d[t].drop_last());
    lifted.update(g, lifted[g].push(card))
}

/// A move can be made: both spots exist and the giver holds a card.
pub open spec fn move_ok(d: Seq<Seq<u8>>, m: Move) -> bool {
    m.0 < DESK_SIZE && m.1 < DESK_SIZE && d[m.0 as int].len() > 0
}

/// The stacks after the moves of `path`, in order.
pub open spec fn replay(d: Seq<Seq<u8>>, path: Seq<Move>) -> Seq<Seq<u8>>
    decreases path.len(),
{
    if path.len() == 0 {
        d
    } else {
        apply_move(replay(d, path.drop_last()), path.last())
    }
}

/// Every move of `path` can be made in turn, starting from `d`.
pub open spec fn replayable(d: Seq<Seq<u8>>, path: Seq<Move>) -> bool
    decreases path.len(),
{
    path.len() == 0 || (replayable(d, path.drop_last()) && move_ok(
        replay(d, path.drop_last()),
        path.last(),
    ))
}

/// The stacks after the moves of `path` are taken back, last first, until
/// `mark` moves are left.
pub open spec fn undone(d: Seq<Seq<u8>>, path: Seq<Move>, mark: nat) -> Seq<Seq<u8>>
    decreases path.len(),
{
    if path.len() <= mark {
        d
    } else {
        undone(undo_move(d, path.last()), path.drop_last(), mark)
    }
}

/// The number of cards on spots `lo..hi`.
pub open spec fn lens_sum(d: Seq<Seq<u8>>, lo: int, hi: int) -> nat
    decreases hi - lo,
{
    if hi <= lo {
        0
    } else {
        lens_sum(d, lo, hi - 1) + d[hi - 1].len()
    }
}

/// The number of empty spots among `lo..hi`.
pub open spec fn empty_count(d: Seq<Seq<u8>>, lo: int, hi: int) -> nat
    decreases hi - lo,
{
    if hi <= lo {
        0
    } else {
        empty_count(d, lo, hi - 1) + if d[hi - 1].len() == 0 {
            1nat
        } else {
            0nat
        }
    }
}

/// The first empty spot among `lo..hi`.
pub open spec fn first_empty(d: Seq<Seq<u8>>, lo: int, hi: int) -> Option<int>
    decreases hi - lo,
{
    if hi <= lo {
        None
    } else if d[lo].len() == 0 {
        Some(lo)
    } else {
        first_empty(d, lo + 1, hi)
    }
}

/// Sixteen empty stacks.
pub open spec fn empty_desk() -> Seq<Seq<u8>> {
    Seq::new(16, |i: int| Seq::<u8>::empty())
}

/// The stacks after `cards` are dealt round-robin onto the eight cascades.
pub open spec fn dealt(cards: Seq<u8>) -> Seq<Seq<u8>>
    decreases cards.len(),
{
    if cards.len() == 0 {
        empty_desk()
    } else {
        let d = dealt(cards.drop_last());
        let i = PILE_START + (cards.len() - 1) % 8;
        d.update(i, d[i].push(cards.last()))
    }
}

/// The well-formed stacks: sixteen of them, holding at most a deck.
pub open spec fn desk_ok(d: Seq<Seq<u8>>) -> bool {
    d.len() == DESK_SIZE && lens_sum(d, 0, 16) <= deck::CARD_NUM
}

/// The card on top of spot `i`.
pub open spec fn top(d: Seq<Seq<u8>>, i: int) -> u8 {
    d[i].last()
}

/// The move from `g` to `t` does not take back the last move of `path`.
pub open spec fn fwd(path: Seq<Move>, g: int, t: int) -> bool {
    path.len() == 0 || !(path.last().0 == t && path.last().1 == g)
}

/// The card at index `i` of a cascade sits above a lower card of its suit,
/// which it blocks.
pub open spec fn locked(p: Seq<u8>, i: int) -> bool {
    exists|j: int|
        0 <= j < i && rank_of(p[i]) > rank_of(#[trigger] p[j]) && suit_of(p[i]) == suit_of(p[j])
}

/// The number of blocking cards among the first `n` cards of a cascade.
pub open spec fn lock_count(p: Seq<u8>, n: int) -> nat
    decreases n,
{
    if n <= 0 {
        0
    } else {
        lock_count(p, n - 1) + if locked(p, n - 1) {
            1nat
        } else {
            0nat
        }
    }
}

/// The number of blocking cards in the cascades among spots `lo..hi`.
pub open spec fn locks_sum(d: Seq<Seq<u8>>, lo: int, hi: int) -> nat
    decreases hi - lo,
{
    if hi <= lo {
        0
    } else {
        locks_sum(d, lo, hi - 1) + lock_count(d[hi - 1], d[hi - 1].len() as int)
    }
}

/// Cards not yet on a foundation.
pub open spec fn unsolved(d: Seq<Seq<u8>>) -> nat {
    lens_sum(d, BASE_END as int, DESK_SIZE as int)
}

/// Cards on the foundations.
pub open spec fn solved(d: Seq<Seq<u8>>) -> nat {
    lens_sum(d, BASE_START as int, BASE_END as int)
}

/// Blocking cards in the cascades.
pub open spec fn locks(d: Seq<Seq<u8>>) -> nat {
    locks_sum(d, PILE_START as int, PILE_END as int)
}

/// The lower bound on the length of a whole solution: moves made, cards not yet
/// on a foundation, and blocking cards.
pub open spec fn estimate(d: Seq<Seq<u8>>, path: Seq<Move>) -> nat {
    path.len() + unsolved(d) + locks(d)
}

pub(crate) proof fn lemma_lens_sum_update(d: Seq<Seq<u8>>, lo: int, hi: int, i: int, s: Seq<u8>)
    requires
        0 <= i < d.len(),
        0 <= lo,
        hi <= d.len(),
    ensures
        lens_sum(d.update(i, s), lo, hi) == if lo <= i < hi {
            lens_sum(d, lo, hi) - d[i].len() + s.len()
        } else {
            lens_sum(d, lo, hi) as int
        },
    decreases hi - lo,
{
    if hi > lo {
        lemma_lens_sum_update(d, lo, hi - 1, i, s);
    }
}

pub(crate) proof fn lemma_lens_sum_split(d: Seq<Seq<u8>>, lo: int, mid: int, hi: int)
    requires
        lo <= mid <= hi,
    ensures
        lens_sum(d, lo, hi) == lens_sum(d, lo, mid) + lens_sum(d, mid, hi),
    decreases hi - mid,
{
    if hi > mid {
        lemma_lens_sum_split(d, lo, mid, hi - 1);
    }
}

pub(crate) proof fn lemma_empty_sum(d: Seq<Seq<u8>>, lo: int, hi: int)
    requires
        forall|i: int| lo <= i < hi ==> (#[trigger] d[i]).len() == 0,
    ensures
        lens_sum(d, lo, hi) == 0,
    decreases hi - lo,
{
    if hi > lo {
        lemma_empty_sum(d, lo, hi - 1);
    }
}

pub(crate) proof fn lemma_first_empty_range(d: Seq<Seq<u8>>, lo: int, hi: int)
    ensures
        first_empty(d, lo, hi) matches Some(i) ==> lo <= i < hi && d[i].len() == 0,
    decreases hi - lo,
{
    if lo < hi && d[lo].len() != 0 {
        lemma_first_empty_range(d, lo + 1, hi);
    }
}

pub(crate) proof fn lemma_apply_move(d: Seq<Seq<u8>>, m: Move)
    requires
        desk_ok(d),
        move_ok(d, m),
    ensures
        desk_ok(apply_move(d, m)),
        undo_move(apply_move(d, m), m) =~~= d,
        apply_move(d, m)[m.1 as int].len() > 0,
{
    let g = m.0 as int;
    let t = m.1 as int;
    let lifted = d.update(g, d[g].drop_last());
    lemma_lens_sum_update(d, 0, 16, g, d[g].drop_last());
    lemma_lens_sum_update(lifted, 0, 16, t, lifted[t].push(d[g].last()));
    let a = apply_move(d, m);
    let u = undo_move(a, m);
    if g == t {
        assert(d[g].drop_last().push(d[g].last()) =~= d[g]);
        assert(a[t].drop_last() =~= d[g].drop_last());
    } else {
        assert(a[t].drop_last() =~= d[t]);
        assert(d[g].drop_last().push(d[g].last()) =~= d[g]);
    }
}

pub(crate) proof fn lemma_replay_ok(d: Seq<Seq<u8>>, path: Seq<Move>)
    requires
        desk_ok(d),
        replayable(d, path),
    ensures
        desk_ok(replay(d, path)),
    decreases path.len(),
{
    if path.len() > 0 {
        lemma_replay_ok(d, path.drop_last());
        lemma_apply_move(replay(d, path.drop_last()), path.last());
    }
}

pub(crate) proof fn lemma_push_path(d: Seq<Seq<u8>>, path: Seq<Move>, m: Move)
    ensures
        path.push(m).drop_last() == path,
        replay(d, path.push(m)) == apply_move(replay(d, path), m),
        replayable(d, path.push(m)) == (replayable(d, path) && move_ok(replay(d, path), m)),
{
    assert(path.push(m).drop_last() =~= path);
}

/// A prefix of a replayable path is replayable.
pub proof fn lemma_replayable_prefix(d: Seq<Seq<u8>>, path: Seq<Move>, k: int)
    requires
        replayable(d, path),
        0 <= k <= path.len(),
    ensures
        replayable(d, path.subrange(0, k)),
    decreases path.len(),
{
    if k == path.len() {
        assert(path.subrange(0, k) =~= path);
    } else {
        lemma_replayable_prefix(d, path.drop_last(), k);
        assert(path.drop_last().subrange(0, k) =~= path.subrange(0, k));
    }
}

/// Undo exactness: taking back the moves of a path down to `k` moves leaves the
/// stacks that the first `k` moves make from the start.
pub proof fn lemma_undo_exact(start: Seq<Seq<u8>>, path: Seq<Move>, k: nat)
    requires
        desk_ok(start),
        replayable(start, path),
        k <= path.len(),
    ensures
        replayable(start, path.subrange(0, k as int)),
        undone(replay(start, path), path, k) =~~= replay(start, path.subrange(0, k as int)),
    decreases path.len(),
{
    if path.len() == k {
        assert(path.subrange(0, k as int) =~= path);
    } else {
        let p = path.drop_last();
        lemma_replay_ok(start, p);
        lemma_apply_move(replay(start, p), path.last());
        assert(undo_move(replay(start, path), path.last()) =~~= replay(start, p));
        lemma_undo_exact(start, p, k);
        assert(p.subrange(0, k as int) =~= path.subrange(0, k as int));
    }
}

pub(crate) proof fn lemma_lock_count_bound(p: Seq<u8>, n: int)
    ensures
        lock_count(p, n) <= if n < 0 { 0 } else { n },
    decreases n,
{
    if n > 0 {
        lemma_lock_count_bound(p, n - 1);
    }
}

pub(crate) proof fn lemma_locks_sum_bound(d: Seq<Seq<u8>>, lo: int, hi: int)
    ensures
        locks_sum(d, lo, hi) <= lens_sum(d, lo, hi),
    decreases hi - lo,
{
    if hi > lo {
        lemma_locks_sum_bound(d, lo, hi - 1);
        lemma_lock_count_bound(d[hi - 1], d[hi - 1].len() as int);
    }
}

/// At most a deck of cards is in play, and at most as many block others.
pub proof fn lemma_counts_within(d: Seq<Seq<u8>>)
    requires
        desk_ok(d),
    ensures
        unsolved(d) <= deck::CARD_NUM,
        locks(d) <= deck::CARD_NUM,
{
    lemma_lens_sum_split(d, 0, BASE_END as int, 16);
    lemma_lens_sum_split(d, 0, PILE_START as int, 16);
    lemma_locks_sum_bound(d, PILE_START as int, PILE_END as int);
}

pub(crate) proof fn lemma_stack_bound(d: Seq<Seq<u8>>, i: int)
    requires
        desk_ok(d),
        0 <= i < DESK_SIZE,
    ensures
        d[i].len() <= deck::CARD_NUM,
{
    lemma_lens_sum_split(d, 0, i, 16);
    lemma_lens_sum_split(d, i, i + 1, 16);
}

pub(crate) proof fn lemma_dealt_len(cards: Seq<u8>)
    ensures
        desk_ok(dealt(cards)) || cards.len() > deck::CARD_NUM,
        dealt(cards).len() == DESK_SIZE,
        lens_sum(dealt(cards), 0, 16) == cards.len(),
    decreases cards.len(),
{
    if cards.len() == 0 {
        lemma_empty_sum(empty_desk(), 0, 16);
    } else {
        let d = dealt(cards.drop_last());
        lemma_dealt_len(cards.drop_last());
        let i = PILE_START + (cards.len() - 1) % 8;
        lemma_lens_sum_update(d, 0, 16, i, d[i].push(cards.last()));
    }
}

/// The text of one free cell or foundation slot: blank, its top card, or
/// "XX" for a free cell that holds more than one card.
pub open spec fn slot_text(d: Seq<Seq<u8>>, i: int) -> Seq<char> {
    if d[i].len() == 0 {
        "  "@
    } else if cell_spot(i) && d[i].len() > 1 {
        "XX"@
    } else if cell_spot(i) {
        deck::card_text(d[i][0])
    } else {
        deck::card_text(top(d, i))
    }
}

/// The slots `lo..hi`, each followed by a bar.
pub open spec fn slots_text(d: Seq<Seq<u8>>, lo: int, hi: int) -> Seq<char>
    decreases hi - lo,
{
    if hi <= lo {
        Seq::empty()
    } else {
        slots_text(d, lo, hi - 1) + slot_text(d, hi - 1) + "|"@
    }
}

/// Row `row` of the cascades `8..hi`: the card at that depth or a blank, each
/// followed by a bar.
pub open spec fn row_text(d: Seq<Seq<u8>>, row: int, hi: int) -> Seq<char>
    decreases hi,
{
    if hi <= PILE_START {
        Seq::empty()
    } else {
        row_text(d, row, hi - 1) + (if d[hi - 1].len() > row {
            deck::card_text(d[hi - 1][row])
        } else {
            "  "@
        }) + "|"@
    }
}

/// The rows `0..n` of the cascades, each on a new line.
pub open spec fn rows_text(d: Seq<Seq<u8>>, n: int) -> Seq<char>
    decreases n,
{
    if n <= 0 {
        Seq::empty()
    } else {
        rows_text(d, n - 1) + "\n|"@ + row_text(d, n - 1, PILE_END as int)
    }
}

/// The depth of the deepest cascade among `8..hi`.
pub open spec fn deepest(d: Seq<Seq<u8>>, hi: int) -> nat
    decreases hi,
{
    if hi <= PILE_START {
        0
    } else if d[hi - 1].len() > deepest(d, hi - 1) {
        d[hi - 1].len()
    } else {
        deepest(d, hi - 1)
    }
}

/// The board as text: free cells then foundations on the first line, a rule,
/// then the cascades row by row.
pub open spec fn board_text(d: Seq<Seq<u8>>) -> Seq<char> {
    "|"@ + slots_text(d, CELL_START as int, CELL_END as int) + slots_text(
        d,
        BASE_START as int,
        BASE_END as int,
    ) + "\n"@ + Seq::new(25, |i: int| '-') + rows_text(d, deepest(d, PILE_END as int) as int)
}

/// The cards on spots `0..hi`.
pub open spec fn cards_in(d: Seq<Seq<u8>>, hi: int) -> Multiset<u8>
    decreases hi,
{
    if hi <= 0 {
        Multiset::empty()
    } else {
        cards_in(d, hi - 1).add(d[hi - 1].to_multiset())
    }
}

/// The cards on the desk, wherever they stand.
pub open spec fn desk_cards(d: Seq<Seq<u8>>) -> Multiset<u8> {
    cards_in(d, DESK_SIZE as int)
}

proof fn lemma_cards_update(d: Seq<Seq<u8>>, hi: int, i: int, s: Seq<u8>)
    requires
        0 <= i < d.len(),
        hi <= d.len(),
    ensures
        i < hi ==> cards_in(d.update(i, s), hi).add(d[i].to_multiset()) =~= cards_in(d, hi).add(
            s.to_multiset(),
        ),
        i >= hi ==> cards_in(d.update(i, s), hi) =~= cards_in(d, hi),
    decreases hi,
{
    broadcast use vstd::multiset::group_multiset_axioms;

    if hi > 0 {
        lemma_cards_update(d, hi - 1, i, s);
        let d2 = d.update(i, s);
        let a = cards_in(d2, hi);
        let b = cards_in(d, hi);
        if hi - 1 == i {
            assert(d2[i] == s);
            assert forall|x: u8| #[trigger] a.add(d[i].to_multiset()).count(x) == b.add(
                s.to_multiset(),
            ).count(x) by {
                assert(cards_in(d2, hi - 1).count(x) == cards_in(d, hi - 1).count(x));
            }
        } else if hi - 1 > i {
            assert(d2[hi - 1] == d[hi - 1]);
            assert forall|x: u8| #[trigger] a.add(d[i].to_multiset()).count(x) == b.add(
                s.to_multiset(),
            ).count(x) by {
                assert(cards_in(d2, hi - 1).add(d[i].to_multiset()).count(x) == cards_in(
                    d,
                    hi - 1,
                ).add(s.to_multiset()).count(x));
            }
        } else {
            assert(d2[hi - 1] == d[hi - 1]);
        }
    }
}

/// A move keeps the cards of the desk: none is created, lost or duplicated.
pub proof fn lemma_move_keeps_cards(d: Seq<Seq<u8>>, m: Move)
    requires
        d.len() == DESK_SIZE,
        move_ok(d, m),
    ensures
        desk_cards(apply_move(d, m)) == desk_cards(d),
{
    broadcast use vstd::seq_lib::group_to_multiset_ensures;
    broadcast use vstd::multiset::group_multiset_axioms;

    let g = m.0 as int;
    let t = m.1 as int;
    let c = d[g].last();
    let d1 = d.update(g, d[g].drop_last());
    let d2 = d1.update(t, d1[t].push(c));
    assert(d[g] =~= d[g].drop_last().push(c));
    lemma_cards_update(d, DESK_SIZE as int, g, d[g].drop_last());
    lemma_cards_update(d1, DESK_SIZE as int, t, d1[t].push(c));
    assert forall|x: u8| #[trigger] desk_cards(d2).count(x) == desk_cards(d).count(x) by {
        assert(d[g].to_multiset().count(x) == d[g].drop_last().to_multiset().count(x) + if x == c {
            1nat
        } else {
            0nat
        });
        assert(d1[t].push(c).to_multiset().count(x) == d1[t].to_multiset().count(x) + if x == c {
            1nat
        } else {
            0nat
        });
        assert(desk_cards(d1).add(d[g].to_multiset()).count(x) == desk_cards(d).add(
            d[g].drop_last().to_multiset(),
        ).count(x));
        assert(desk_cards(d2).add(d1[t].to_multiset()).count(x) == desk_cards(d1).add(
            d1[t].push(c).to_multiset(),
        ).count(x));
    }
    assert(desk_cards(d2) =~= desk_cards(d));
}

/// Replaying a path keeps the cards of the desk.
pub proof fn lemma_replay_keeps_cards(d: Seq<Seq<u8>>, path: Seq<Move>)
    requires
        d.len() == DESK_SIZE,
        replayable(d, path),
    ensures
        desk_cards(replay(d, path)) == desk_cards(d),
        replay(d, path).len() == DESK_SIZE,
    decreases path.len(),
{
    if path.len() > 0 {
        lemma_replay_keeps_cards(d, path.drop_last());
        lemma_move_keeps_cards(replay(d, path.drop_last()), path.last());
    }
}

/// Dealing puts every card on the desk, once.
pub proof fn lemma_dealt_cards(cards: Seq<u8>)
    ensures
        desk_cards(dealt(cards)) == cards.to_multiset(),
    decreases cards.len(),
{
    broadcast use vstd::seq_lib::group_to_multiset_ensures;
    broadcast use vstd::multiset::group_multiset_axioms;

    if cards.len() == 0 {
        assert(desk_cards(empty_desk()) =~= Multiset::<u8>::empty()) by {
            lemma_cards_empty(empty_desk(), DESK_SIZE as int);
        }
    } else {
        let p = cards.drop_last();
        let d = dealt(p);
        lemma_dealt_cards(p);
        lemma_dealt_len(p);
        let i = PILE_START + (cards.len() - 1) % 8;
        lemma_cards_update(d, DESK_SIZE as int, i, d[i].push(cards.last()));
        assert(cards =~= p.push(cards.last()));
        let c = cards.last();
        assert forall|x: u8| #[trigger] desk_cards(dealt(cards)).count(x) == cards.to_multiset().count(
            x,
        ) by {
            assert(d[i].push(c).to_multiset().count(x) == d[i].to_multiset().count(x) + if x == c {
                1nat
            } else {
                0nat
            });
            assert(desk_cards(dealt(cards)).add(d[i].to_multiset()).count(x) == desk_cards(d).add(
                d[i].push(c).to_multiset(),
            ).count(x));
            assert(cards.to_multiset().count(x) == p.to_multiset().count(x) + if x == c {
                1nat
            } else {
                0nat
            });
        }
        assert(desk_cards(dealt(cards)) =~= cards.to_multiset());
    }
}

proof fn lemma_cards_empty(d: Seq<Seq<u8>>, hi: int)
    requires
        forall|i: int| 0 <= i < hi ==> (#[trigger] d[i]).len() == 0,
    ensures
        cards_in(d, hi) =~= Multiset::<u8>::empty(),
    decreases hi,
{
    broadcast use vstd::seq_lib::group_to_multiset_ensures;

    if hi > 0 {
        lemma_cards_empty(d, hi - 1);
        assert(d[hi - 1] =~= Seq::<u8>::empty());
    }
}

/// A card standing on the desk is among its cards.
pub proof fn lemma_card_on_desk(d: Seq<Seq<u8>>, hi: int, a: int, x: int)
    requires
        0 <= a < hi <= d.len(),
        0 <= x < d[a].len(),
    ensures
        cards_in(d, hi).count(d[a][x]) > 0,
    decreases hi,
{
    broadcast use vstd::seq_lib::group_to_multiset_ensures;
    broadcast use vstd::multiset::group_multiset_axioms;

    if a < hi - 1 {
        lemma_card_on_desk(d, hi - 1, a, x);
    } else {
        assert(d[a].contains(d[a][x]));
    }
}

/// The desk holds as many cards as its stacks are long.
pub proof fn lemma_cards_count(d: Seq<Seq<u8>>, hi: int)
    requires
        0 <= hi <= d.len(),
    ensures
        cards_in(d, hi).len() == lens_sum(d, 0, hi),
    decreases hi,
{
    broadcast use vstd::seq_lib::group_to_multiset_ensures;
    broadcast use vstd::multiset::group_multiset_axioms;

    if hi > 0 {
        lemma_cards_count(d, hi - 1);
    }
}

/// Spots whose stacks hold no card are all empty.
pub proof fn lemma_no_cards_all_empty(d: Seq<Seq<u8>>, lo: int, hi: int)
    requires
        lens_sum(d, lo, hi) == 0,
    ensures
        empty_count(d, lo, hi) == if hi <= lo { 0 } else { hi - lo },
    decreases hi - lo,
{
    if hi > lo {
        lemma_no_cards_all_empty(d, lo, hi - 1);
    }
}

} // verus!
