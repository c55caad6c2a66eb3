//! Auto-play: cards that no tableau can still need go to their foundations
//! on their own.
use crate::basis::{pile_spot, play_spot, BASE_END, DESK_SIZE, PILE_END, PILE_START};
use crate::board::{
    apply_move, dealt, desk_ok, empty_desk, estimate, lemma_apply_move, lemma_card_on_desk,
    lemma_dealt_cards, lemma_dealt_len, lemma_lens_sum_update, lock_count, locked, locks, locks_sum,
    move_ok, replay, replayable, top, unsolved, Move,
};
use crate::deck;
use crate::deck::{color_of, rank_of, suit_of};
use vstd::prelude::*;

verus! {

pub open spec fn min3(a: nat, b: nat, c: nat) -> nat {
    if a <= b && a <= c {
        a
    } else if b <= c {
        b
    } else {
        c
    }
}

/// The lowest rank, plus one, built on the black foundations (spots 0 and 2),
/// at most 13.
pub open spec fn min_black(d: Seq<Seq<u8>>) -> nat {
    min3(13, d[0].len(), d[2].len())
}

/// The lowest rank, plus one, built on the red foundations (spots 1 and 3),
/// at most 13.
pub open spec fn min_red(d: Seq<Seq<u8>>) -> nat {
    min3(13, d[1].len(), d[3].len())
}

/// The highest rank of `card` whose removal from play no tableau of the other
/// color can need: one above the lowest foundation of the other color.
pub open spec fn safe_rank(d: Seq<Seq<u8>>, card: u8) -> nat {
    1 + if color_of(card) == 0 {
        min_red(d)
    } else {
        min_black(d)
    }
}

/// The foundation that takes `card` next, if it is the next rank of its suit.
pub open spec fn base_for(d: Seq<Seq<u8>>, card: u8) -> Option<int> {
    if d[suit_of(card) as int].len() == rank_of(card) {
        Some(suit_of(card) as int)
    } else {
        None
    }
}

/// The top card of spot `g` can go to its foundation on its own: it is the next
/// rank of its suit and not above the safe rank.
pub open spec fn pickable(d: Seq<Seq<u8>>, g: int) -> bool {
    &&& d[g].len() > 0
    &&& rank_of(top(d, g)) <= safe_rank(d, top(d, g))
    &&& base_for(d, top(d, g)) is Some
}

/// The first play spot among `lo..16` whose top card can go to its foundation.
pub open spec fn auto_pick(d: Seq<Seq<u8>>, lo: int) -> Option<int>
    decreases DESK_SIZE - lo,
{
    if lo >= DESK_SIZE {
        None
    } else if pickable(d, lo) {
        Some(lo)
    } else {
        auto_pick(d, lo + 1)
    }
}

/// The move that auto-play makes next from play spot `g`.
pub open spec fn auto_move(d: Seq<Seq<u8>>, g: int) -> Move {
    Move(g as u8, suit_of(top(d, g)) as u8)
}

/// The moves that auto-play makes: the first card that can go to its
/// foundation goes, until none can.
pub open spec fn auto_moves(d: Seq<Seq<u8>>) -> Seq<Move>
    decreases unsolved(d),
    via auto_moves_decreases
{
    if !desk_ok(d) {
        Seq::empty()
    } else {
        match auto_pick(d, BASE_END as int) {
            Some(g) => seq![auto_move(d, g)] + auto_moves(apply_move(d, auto_move(d, g))),
            None => Seq::empty(),
        }
    }
}

#[via_fn]
pub(crate) proof fn auto_moves_decreases(d: Seq<Seq<u8>>) {
    if desk_ok(d) {
        if let Some(g) = auto_pick(d, BASE_END as int) {
            lemma_auto_step(d, g);
        }
    }
}

pub(crate) proof fn lemma_auto_pick_range(d: Seq<Seq<u8>>, lo: int)
    requires
        lo >= BASE_END,
    ensures
        auto_pick(d, lo) matches Some(g) ==> lo <= g < DESK_SIZE && pickable(d, g),
    decreases DESK_SIZE - lo,
{
    if lo < DESK_SIZE && !pickable(d, lo) {
        lemma_auto_pick_range(d, lo + 1);
    }
}

/// One auto-play move: the card leaves play for a foundation.
pub(crate) proof fn lemma_auto_step(d: Seq<Seq<u8>>, g: int)
    requires
        desk_ok(d),
        auto_pick(d, BASE_END as int) == Some(g),
    ensures
        play_spot(g),
        pickable(d, g),
        move_ok(d, auto_move(d, g)),
        desk_ok(apply_move(d, auto_move(d, g))),
        unsolved(apply_move(d, auto_move(d, g))) + 1 == unsolved(d),
{
    lemma_auto_pick_range(d, BASE_END as int);
    let m = auto_move(d, g);
    lemma_apply_move(d, m);
    let t = suit_of(top(d, g)) as int;
    let lifted = d.update(g, d[g].drop_last());
    lemma_lens_sum_update(d, BASE_END as int, DESK_SIZE as int, g, d[g].drop_last());
    lemma_lens_sum_update(lifted, BASE_END as int, DESK_SIZE as int, t, lifted[t].push(d[g].last()));
}

/// The stacks once auto-play is over.
pub open spec fn auto_result(d: Seq<Seq<u8>>) -> Seq<Seq<u8>>
    decreases unsolved(d),
    via auto_result_decreases
{
    if !desk_ok(d) {
        d
    } else {
        match auto_pick(d, BASE_END as int) {
            Some(g) => auto_result(apply_move(d, auto_move(d, g))),
            None => d,
        }
    }
}

#[via_fn]
pub(crate) proof fn auto_result_decreases(d: Seq<Seq<u8>>) {
    if desk_ok(d) {
        if let Some(g) = auto_pick(d, BASE_END as int) {
            lemma_auto_step(d, g);
        }
    }
}

pub(crate) proof fn lemma_auto_facts(d: Seq<Seq<u8>>)
    requires
        desk_ok(d),
    ensures
        auto_moves(d).len() <= unsolved(d),
        replayable(d, auto_moves(d)),
        replay(d, auto_moves(d)) == auto_result(d),
        desk_ok(auto_result(d)),
        auto_pick(auto_result(d), BASE_END as int) is None,
    decreases unsolved(d),
{
    match auto_pick(d, BASE_END as int) {
        Some(g) => {
            lemma_auto_step(d, g);
            let m = auto_move(d, g);
            let d1 = apply_move(d, m);
            lemma_auto_facts(d1);
            lemma_replay_prepend(d, m, auto_moves(d1));
        },
        None => {},
    }
}

/// Replaying a move, then a path, replays the path that starts with that move.
pub(crate) proof fn lemma_replay_prepend(d: Seq<Seq<u8>>, m: Move, rest: Seq<Move>)
    requires
        move_ok(d, m),
    ensures
        replay(d, seq![m] + rest) == replay(apply_move(d, m), rest),
        replayable(d, seq![m] + rest) == replayable(apply_move(d, m), rest),
    decreases rest.len(),
{
    let whole = seq![m] + rest;
    if rest.len() == 0 {
        assert(whole =~= seq![m]);
        assert(whole.drop_last() =~= Seq::<Move>::empty());
        assert(replay(d, whole.drop_last()) == d);
        assert(replayable(d, whole.drop_last()));
    } else {
        lemma_replay_prepend(d, m, rest.drop_last());
        assert(whole.drop_last() =~= seq![m] + rest.drop_last());
        assert(whole.last() == rest.last());
    }
}

/// Auto-play idempotence: once auto-play is over, running it again makes no move.
pub proof fn lemma_auto_idempotent(d: Seq<Seq<u8>>)
    requires
        desk_ok(d),
    ensures
        auto_moves(auto_result(d)).len() == 0,
        auto_result(auto_result(d)) == auto_result(d),
{
    lemma_auto_facts(d);
}

/// Every card of the stacks is one of the 52.
pub open spec fn real_cards(d: Seq<Seq<u8>>) -> bool {
    forall|a: int, x: int| 0 <= a < d.len() && 0 <= x < d[a].len() ==> #[trigger] d[a][x] < 52
}

/// No card stands in two places.
pub open spec fn distinct_cards(d: Seq<Seq<u8>>) -> bool {
    forall|a: int, x: int, b: int, y: int|
        0 <= a < d.len() && 0 <= b < d.len() && 0 <= x < d[a].len() && 0 <= y < d[b].len() && (a
            != b || x != y) ==> #[trigger] d[a][x] != #[trigger] d[b][y]
}

/// Foundation `s` holds the cards of suit `s` from the ace up, in order.
pub open spec fn built_bases(d: Seq<Seq<u8>>) -> bool {
    forall|s: int, k: int| 0 <= s < BASE_END && 0 <= k < d[s].len() ==> #[trigger] d[s][k] == 4 * k + s
}

/// Stacks that legal play reaches from a deal: distinct cards of the deck,
/// foundations built by suit.
pub open spec fn proper(d: Seq<Seq<u8>>) -> bool {
    &&& desk_ok(d)
    &&& real_cards(d)
    &&& distinct_cards(d)
    &&& built_bases(d)
}

pub(crate) proof fn lemma_lock_count_prefix(p: Seq<u8>, n: int)
    requires
        0 <= n < p.len(),
    ensures
        lock_count(p.drop_last(), n) == lock_count(p, n),
    decreases n,
{
    if n > 0 {
        lemma_lock_count_prefix(p, n - 1);
        let q = p.drop_last();
        assert(locked(q, n - 1) == locked(p, n - 1)) by {
            if locked(p, n - 1) {
                let j = choose|j: int|
                    0 <= j < n - 1 && rank_of(p[n - 1]) > rank_of(#[trigger] p[j]) && suit_of(p[n - 1])
                        == suit_of(p[j]);
                assert(q[j] == p[j]);
            }
            if locked(q, n - 1) {
                let j = choose|j: int|
                    0 <= j < n - 1 && rank_of(q[n - 1]) > rank_of(#[trigger] q[j]) && suit_of(q[n - 1])
                        == suit_of(q[j]);
                assert(q[j] == p[j]);
            }
        }
    }
}

pub(crate) proof fn lemma_locks_sum_same(d1: Seq<Seq<u8>>, d2: Seq<Seq<u8>>, lo: int, hi: int)
    requires
        forall|i: int|
            lo <= i < hi ==> lock_count(#[trigger] d1[i], d1[i].len() as int) == lock_count(
                d2[i],
                d2[i].len() as int,
            ),
    ensures
        locks_sum(d1, lo, hi) == locks_sum(d2, lo, hi),
    decreases hi - lo,
{
    if hi > lo {
        lemma_locks_sum_same(d1, d2, lo, hi - 1);
        assert(lock_count(d1[hi - 1], d1[hi - 1].len() as int) == lock_count(
            d2[hi - 1],
            d2[hi - 1].len() as int,
        ));
    }
}

/// A move is lawful for the foundations: it goes elsewhere, or it puts on the
/// foundation of its suit the next rank.
pub open spec fn lawful(d: Seq<Seq<u8>>, m: Move) -> bool {
    m.1 >= BASE_END || (m.1 == suit_of(top(d, m.0 as int)) && d[m.1 as int].len() == rank_of(
        top(d, m.0 as int),
    ))
}

/// A lawful move keeps the stacks proper.
pub proof fn lemma_move_keeps_proper(d: Seq<Seq<u8>>, m: Move)
    requires
        proper(d),
        move_ok(d, m),
        lawful(d, m),
    ensures
        proper(apply_move(d, m)),
{
    let g = m.0 as int;
    let t = m.1 as int;
    lemma_apply_move(d, m);
    let d2 = apply_move(d, m);
    if g == t {
        assert(d[g].drop_last().push(d[g].last()) =~= d[g]);
        assert(d2 =~~= d);
        return;
    }
    let c = top(d, g);
    let lg = d[g].len() as int;
    let lt = d[t].len() as int;
    assert(d[g][lg - 1] == c);
    assert(c < 52);
    assert(c == 4 * rank_of(c) + suit_of(c));
    assert(d2.len() == d.len());
    assert(d2[t] == d[t].push(c));
    assert(d2[g] == d[g].drop_last());
    assert forall|a: int, x: int| 0 <= a < d2.len() && 0 <= x < d2[a].len() implies #[trigger] d2[a][x]
        < 52 by {
        if a == t && x == lt {
        } else if a == g {
            assert(d2[a][x] == d[a][x]);
        } else if a == t {
            assert(d2[a][x] == d[a][x]);
        } else {
            assert(d2[a] == d[a]);
        }
    }
    assert forall|a: int, x: int, b: int, y: int|
        0 <= a < d2.len() && 0 <= b < d2.len() && 0 <= x < d2[a].len() && 0 <= y < d2[b].len() && (a
            != b || x != y) implies #[trigger] d2[a][x] != #[trigger] d2[b][y] by {
        let oa = if a == t && x == lt { g } else { a };
        let ox = if a == t && x == lt { lg - 1 } else { x };
        let ob = if b == t && y == lt { g } else { b };
        let oy = if b == t && y == lt { lg - 1 } else { y };
        assert(d2[a][x] == d[oa][ox]);
        assert(d2[b][y] == d[ob][oy]);
        assert(oa != ob || ox != oy);
        assert(d[oa][ox] != d[ob][oy]);
    }
    assert forall|q: int, k: int| 0 <= q < BASE_END && 0 <= k < d2[q].len() implies #[trigger] d2[q][k]
        == 4 * k + q by {
        if q == t {
            if k < lt {
                assert(d2[q][k] == d[q][k]);
            } else {
                assert(rank_of(c) == lt);
            }
        } else if q == g {
            assert(d2[q][k] == d[q][k]);
        } else {
            assert(d2[q] == d[q]);
        }
    }
}

/// One auto-play move keeps the stacks proper and the blocking cards as they were.
pub(crate) proof fn lemma_auto_step_proper(d: Seq<Seq<u8>>, g: int)
    requires
        proper(d),
        auto_pick(d, BASE_END as int) == Some(g),
    ensures
        proper(apply_move(d, auto_move(d, g))),
        locks(apply_move(d, auto_move(d, g))) == locks(d),
{
    lemma_auto_step(d, g);
    let m = auto_move(d, g);
    let d2 = apply_move(d, m);
    let c = top(d, g);
    let t = suit_of(c) as int;
    let lg = d[g].len() as int;
    lemma_move_keeps_proper(d, m);
    assert(d[g][lg - 1] == c);
    assert(d2[g] == d[g].drop_last());
    // The card leaves play from the top: it blocked nothing, since every lower
    // card of its suit is already on the foundation.
    if pile_spot(g) {
        assert(!locked(d[g], lg - 1)) by {
            if locked(d[g], lg - 1) {
                let j = choose|j: int|
                    0 <= j < lg - 1 && rank_of(d[g][lg - 1]) > rank_of(#[trigger] d[g][j]) && suit_of(
                        d[g][lg - 1],
                    ) == suit_of(d[g][j]);
                let x = d[g][j];
                assert(x < 52);
                assert(x == 4 * rank_of(x) + suit_of(x));
                assert(d[t][rank_of(x) as int] == 4 * rank_of(x) + t);
                assert(d[t][rank_of(x) as int] != d[g][j]);
            }
        }
        lemma_lock_count_prefix(d[g], lg - 1);
        assert(lock_count(d2[g], d2[g].len() as int) == lock_count(d[g], lg));
    }
    assert forall|i: int| PILE_START <= i < PILE_END implies lock_count(#[trigger] d2[i], d2[i].len() as int)
        == lock_count(d[i], d[i].len() as int) by {
        if i != g {
            assert(d2[i] == d[i]);
        }
    }
    lemma_locks_sum_same(d2, d, PILE_START as int, PILE_END as int);
}

/// Monotonic estimate: on proper stacks, auto-play never lowers the estimate of
/// the whole solution's length; each card it moves adds one move and leaves
/// play, so the estimate stays exactly where it was.
pub proof fn lemma_auto_estimate(d: Seq<Seq<u8>>, path: Seq<Move>)
    requires
        proper(d),
    ensures
        proper(auto_result(d)),
        estimate(auto_result(d), path + auto_moves(d)) == estimate(d, path),
        estimate(auto_result(d), path + auto_moves(d)) >= estimate(d, path),
    decreases unsolved(d),
{
    match auto_pick(d, BASE_END as int) {
        Some(g) => {
            lemma_auto_step(d, g);
            lemma_auto_step_proper(d, g);
            let m = auto_move(d, g);
            let d1 = apply_move(d, m);
            lemma_auto_estimate(d1, path.push(m));
            assert(path + auto_moves(d) =~= path.push(m) + auto_moves(d1));
        },
        None => {
            assert(path + auto_moves(d) =~= path);
        },
    }
}

/// Dealing distinct cards of the deck gives proper stacks.
pub proof fn lemma_dealt_proper(cards: Seq<u8>)
    requires
        cards.len() <= 52,
        cards.no_duplicates(),
        forall|i: int| 0 <= i < cards.len() ==> #[trigger] cards[i] < 52,
    ensures
        proper(dealt(cards)),
    decreases cards.len(),
{
    broadcast use vstd::seq_lib::group_to_multiset_ensures;
    broadcast use vstd::multiset::group_multiset_axioms;

    lemma_dealt_len(cards);
    if cards.len() == 0 {
        assert(forall|a: int| 0 <= a < DESK_SIZE ==> (#[trigger] empty_desk()[a]).len() == 0);
    } else {
        let p = cards.drop_last();
        let c = cards.last();
        assert forall|i: int| 0 <= i < p.len() implies #[trigger] p[i] < 52 by {
            assert(p[i] == cards[i]);
        }
        assert(p.no_duplicates()) by {
            assert forall|i: int, j: int| 0 <= i < p.len() && 0 <= j < p.len() && i != j implies p[i]
                != p[j] by {
                assert(p[i] == cards[i] && p[j] == cards[j]);
            }
        }
        lemma_dealt_proper(p);
        lemma_dealt_cards(p);
        lemma_dealt_len(p);
        let d = dealt(p);
        let i = PILE_START + (cards.len() - 1) % 8;
        let d2 = dealt(cards);
        assert(d2 == d.update(i, d[i].push(c)));
        assert(!p.contains(c)) by {
            if p.contains(c) {
                let k = choose|k: int| 0 <= k < p.len() && p[k] == c;
                assert(cards[k] == cards[cards.len() - 1]);
            }
        }
        assert(p.to_multiset().count(c) == 0);
        let li = d[i].len() as int;
        assert forall|a: int, x: int| 0 <= a < d2.len() && 0 <= x < d2[a].len() implies #[trigger] d2[a][x]
            < 52 by {
            if a == i && x == li {
                assert(cards[cards.len() - 1] < 52);
            } else if a == i {
                assert(d2[a][x] == d[a][x]);
            } else {
                assert(d2[a] == d[a]);
            }
        }
        assert forall|a: int, x: int, b: int, y: int|
            0 <= a < d2.len() && 0 <= b < d2.len() && 0 <= x < d2[a].len() && 0 <= y < d2[b].len() && (a
                != b || x != y) implies #[trigger] d2[a][x] != #[trigger] d2[b][y] by {
            let new_a = a == i && x == li;
            let new_b = b == i && y == li;
            if !new_a {
                assert(d2[a][x] == d[a][x]);
                lemma_card_on_desk(d, DESK_SIZE as int, a, x);
            }
            if !new_b {
                assert(d2[b][y] == d[b][y]);
                lemma_card_on_desk(d, DESK_SIZE as int, b, y);
            }
        }
        assert forall|q: int, k: int| 0 <= q < BASE_END && 0 <= k < d2[q].len() implies #[trigger] d2[q][k]
            == 4 * k + q by {
            assert(d2[q] == d[q]);
        }
    }
}

/// A shuffled deck deals proper stacks.
pub proof fn lemma_deal_proper(seed: nat)
    ensures
        proper(dealt(deck::shuffled(deck::fresh_deck(), seed))),
{
    let fresh = deck::fresh_deck();
    let s = deck::shuffled(fresh, seed);
    deck::lemma_shuffle_permutes(fresh, seed);
    assert(fresh.no_duplicates()) by {
        assert forall|i: int, j: int| 0 <= i < fresh.len() && 0 <= j < fresh.len() && i != j implies fresh[i]
            != fresh[j] by {
        }
    }
    fresh.lemma_multiset_has_no_duplicates();
    s.lemma_multiset_has_no_duplicates_conv();
    assert forall|i: int| 0 <= i < s.len() implies #[trigger] s[i] < 52 by {
        broadcast use vstd::seq_lib::group_to_multiset_ensures;

        assert(s.contains(s[i]));
        assert(s.to_multiset().count(s[i]) > 0);
        assert(fresh.contains(s[i]));
    }
    lemma_dealt_proper(s);
}

} // verus!
