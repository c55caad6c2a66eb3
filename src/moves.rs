//! The candidate moves of a board, in the order the generators offer them.
use crate::autoplay::{base_for, lawful, safe_rank};
use crate::basis::{
    tableau, BASE_END, BASE_START, CELL_END, CELL_START, DESK_SIZE, PILE_END, PILE_START,
};
use crate::board::{first_empty, fwd, lemma_first_empty_range, move_ok, top, Move};
use crate::consumer::{fed, lemma_fed_append, lemma_fed_stopped, running, Consumer};
use crate::deck::{rank_of, suit_of};
use vstd::prelude::*;

verus! {

/// The move from `g` to `t`, offered when `cond` holds and it does not take
/// back the last move of `path`.
pub open spec fn offer(path: Seq<Move>, g: int, t: int, cond: bool) -> Seq<Move> {
    if cond && fwd(path, g, t) {
        seq![Move(g as u8, t as u8)]
    } else {
        Seq::empty()
    }
}

/// Moves to a foundation from the play spots `4..hi`, in order.
pub open spec fn base_list(d: Seq<Seq<u8>>, path: Seq<Move>, hi: int) -> Seq<Move>
    decreases hi,
{
    if hi <= BASE_END {
        Seq::empty()
    } else {
        let g = hi - 1;
        base_list(d, path, g) + offer(
            path,
            g,
            suit_of(top(d, g)) as int,
            d[g].len() > 0 && base_for(d, top(d, g)) is Some,
        )
    }
}

/// Moves to the free cell `c` from the cascades `8..hi`.
pub open spec fn cell_list(d: Seq<Seq<u8>>, path: Seq<Move>, c: int, hi: int) -> Seq<Move>
    decreases hi,
{
    if hi <= PILE_START {
        Seq::empty()
    } else {
        cell_list(d, path, c, hi - 1) + offer(path, hi - 1, c, d[hi - 1].len() > 0)
    }
}

/// Moves to the empty cascade `e` from the cascades `8..hi` that hold two cards
/// or more.
pub open spec fn pile_list(d: Seq<Seq<u8>>, path: Seq<Move>, e: int, hi: int) -> Seq<Move>
    decreases hi,
{
    if hi <= PILE_START {
        Seq::empty()
    } else {
        pile_list(d, path, e, hi - 1) + offer(path, hi - 1, e, d[hi - 1].len() > 1)
    }
}

/// Moves to the empty cascade `e` from the free cells `4..hi`.
pub open spec fn cell_pile_list(d: Seq<Seq<u8>>, path: Seq<Move>, e: int, hi: int) -> Seq<
    Move,
>
    decreases hi,
{
    if hi <= CELL_START {
        Seq::empty()
    } else {
        cell_pile_list(d, path, e, hi - 1) + offer(path, hi - 1, e, d[hi - 1].len() > 0)
    }
}

/// Moves from the play spot `g` onto the cascades `8..hi` that take its card.
pub open spec fn tab_row(d: Seq<Seq<u8>>, path: Seq<Move>, g: int, hi: int) -> Seq<Move>
    decreases hi,
{
    if hi <= PILE_START {
        Seq::empty()
    } else {
        let t = hi - 1;
        tab_row(d, path, g, t) + offer(
            path,
            g,
            t,
            d[g].len() > 0 && d[t].len() > 0 && g != t && tableau(top(d, t), top(d, g)),
        )
    }
}

/// Moves onto a tableau from the play spots `4..hi`.
pub open spec fn tab_list(d: Seq<Seq<u8>>, path: Seq<Move>, hi: int) -> Seq<Move>
    decreases hi,
{
    if hi <= BASE_END {
        Seq::empty()
    } else {
        tab_list(d, path, hi - 1) + tab_row(d, path, hi - 1, PILE_END as int)
    }
}

/// Moves from the foundation `g` onto the cascades `8..hi` that take its card.
pub open spec fn lift_row(d: Seq<Seq<u8>>, path: Seq<Move>, g: int, hi: int) -> Seq<Move>
    decreases hi,
{
    if hi <= PILE_START {
        Seq::empty()
    } else {
        let t = hi - 1;
        lift_row(d, path, g, t) + offer(
            path,
            g,
            t,
            d[t].len() > 0 && tableau(top(d, t), top(d, g)),
        )
    }
}

/// Moves onto a tableau from the foundations `0..hi` whose top card is above
/// its safe rank.
pub open spec fn lift_list(d: Seq<Seq<u8>>, path: Seq<Move>, hi: int) -> Seq<Move>
    decreases hi,
{
    if hi <= BASE_START {
        Seq::empty()
    } else {
        let g = hi - 1;
        lift_list(d, path, g) + if d[g].len() > 0 && rank_of(top(d, g)) > safe_rank(
            d,
            top(d, g),
        ) {
            lift_row(d, path, g, PILE_END as int)
        } else {
            Seq::empty()
        }
    }
}

/// Moves to a foundation: any top card of a play spot that is the next rank of its suit.
pub open spec fn base_moves(d: Seq<Seq<u8>>, path: Seq<Move>) -> Seq<Move> {
    base_list(d, path, DESK_SIZE as int)
}

/// Moves onto a tableau: a top card of a play spot onto a cascade whose top card
/// is one rank higher and of the other color; then a foundation's top card
/// above its safe rank onto such a cascade.
pub open spec fn tableau_moves(d: Seq<Seq<u8>>, path: Seq<Move>) -> Seq<Move> {
    tab_list(d, path, DESK_SIZE as int) + lift_list(d, path, BASE_END as int)
}

/// Moves to the first empty free cell, from any cascade that holds a card.
pub open spec fn cell_moves(d: Seq<Seq<u8>>, path: Seq<Move>) -> Seq<Move> {
    match first_empty(d, CELL_START as int, CELL_END as int) {
        Some(c) => cell_list(d, path, c, PILE_END as int),
        None => Seq::empty(),
    }
}

/// Moves to the first empty cascade, from a cascade of two cards or more, then
/// from an occupied free cell.
pub open spec fn pile_moves(d: Seq<Seq<u8>>, path: Seq<Move>) -> Seq<Move> {
    match first_empty(d, PILE_START as int, PILE_END as int) {
        Some(e) => pile_list(d, path, e, PILE_END as int) + cell_pile_list(
            d,
            path,
            e,
            CELL_END as int,
        ),
        None => Seq::empty(),
    }
}

/// Every candidate move, in the order the generators offer them.
pub open spec fn all_moves(d: Seq<Seq<u8>>, path: Seq<Move>) -> Seq<Move> {
    base_moves(d, path) + tableau_moves(d, path) + cell_moves(d, path) + pile_moves(d, path)
}

/// Every move of `s` can be made on `d`, is lawful for the foundations, and
/// none takes back the last move of `path`.
pub open spec fn sound(d: Seq<Seq<u8>>, path: Seq<Move>, s: Seq<Move>) -> bool {
    forall|i: int|
        0 <= i < s.len() ==> move_ok(d, #[trigger] s[i]) && lawful(d, s[i]) && fwd(
            path,
            s[i].0 as int,
            s[i].1 as int,
        )
}

pub(crate) proof fn lemma_sound_append(d: Seq<Seq<u8>>, path: Seq<Move>, a: Seq<Move>, b: Seq<Move>)
    requires
        sound(d, path, a),
        sound(d, path, b),
    ensures
        sound(d, path, a + b),
{
    assert forall|i: int| 0 <= i < (a + b).len() implies move_ok(d, #[trigger] (a + b)[i]) && fwd(
        path,
        (a + b)[i].0 as int,
        (a + b)[i].1 as int,
    ) by {
        if i < a.len() {
            assert((a + b)[i] == a[i]);
        } else {
            assert((a + b)[i] == b[i - a.len()]);
        }
    }
}

pub(crate) proof fn lemma_offer_sound(d: Seq<Seq<u8>>, path: Seq<Move>, g: int, t: int, cond: bool)
    requires
        cond ==> 0 <= g < DESK_SIZE && 0 <= t < DESK_SIZE && d[g].len() > 0,
        cond ==> t >= BASE_END || (t == suit_of(top(d, g)) && d[t].len() == rank_of(top(d, g))),
    ensures
        sound(d, path, offer(path, g, t, cond)),
{
}

pub(crate) proof fn lemma_lists_sound(d: Seq<Seq<u8>>, path: Seq<Move>, hi: int, c: int)
    requires
        d.len() == DESK_SIZE,
        hi <= DESK_SIZE,
        BASE_END <= c < DESK_SIZE,
    ensures
        sound(d, path, base_list(d, path, hi)),
        sound(d, path, cell_list(d, path, c, hi)),
        sound(d, path, pile_list(d, path, c, hi)),
        sound(d, path, cell_pile_list(d, path, c, hi)),
        sound(d, path, tab_list(d, path, hi)),
        hi <= BASE_END ==> sound(d, path, lift_list(d, path, hi)),
    decreases hi,
{
    if hi > 0 {
        let g = hi - 1;
        lemma_lists_sound(d, path, g, c);
        if hi > BASE_END {
            lemma_offer_sound(
                d,
                path,
                g,
                suit_of(top(d, g)) as int,
                d[g].len() > 0 && base_for(d, top(d, g)) is Some,
            );
            lemma_sound_append(
                d,
                path,
                base_list(d, path, g),
                offer(
                    path,
                    g,
                    suit_of(top(d, g)) as int,
                    d[g].len() > 0 && base_for(d, top(d, g)) is Some,
                ),
            );
            lemma_rows_sound(d, path, g, PILE_END as int);
            lemma_sound_append(d, path, tab_list(d, path, g), tab_row(d, path, g, PILE_END as int));
        }
        if hi > PILE_START {
            lemma_sound_append(d, path, cell_list(d, path, c, g), offer(path, g, c, d[g].len() > 0));
            lemma_sound_append(d, path, pile_list(d, path, c, g), offer(path, g, c, d[g].len() > 1));
        }
        if hi > CELL_START {
            lemma_sound_append(
                d,
                path,
                cell_pile_list(d, path, c, g),
                offer(path, g, c, d[g].len() > 0),
            );
        }
        if hi <= BASE_END {
            lemma_rows_sound(d, path, g, PILE_END as int);
            lemma_sound_append(
                d,
                path,
                lift_list(d, path, g),
                if d[g].len() > 0 && rank_of(top(d, g)) > safe_rank(d, top(d, g)) {
                    lift_row(d, path, g, PILE_END as int)
                } else {
                    Seq::empty()
                },
            );
        }
    }
}

pub(crate) proof fn lemma_rows_sound(d: Seq<Seq<u8>>, path: Seq<Move>, g: int, hi: int)
    requires
        d.len() == DESK_SIZE,
        0 <= g < DESK_SIZE,
        hi <= DESK_SIZE,
    ensures
        sound(d, path, tab_row(d, path, g, hi)),
        d[g].len() > 0 ==> sound(d, path, lift_row(d, path, g, hi)),
    decreases hi,
{
    if hi > PILE_START {
        let t = hi - 1;
        lemma_rows_sound(d, path, g, t);
        lemma_sound_append(
            d,
            path,
            tab_row(d, path, g, t),
            offer(path, g, t, d[g].len() > 0 && d[t].len() > 0 && g != t && tableau(top(d, t), top(d, g))),
        );
        if d[g].len() > 0 {
            lemma_sound_append(
                d,
                path,
                lift_row(d, path, g, t),
                offer(path, g, t, d[t].len() > 0 && tableau(top(d, t), top(d, g))),
            );
        }
    }
}

/// Every generated move can be made, and none takes back the last move.
pub proof fn lemma_all_moves_sound(d: Seq<Seq<u8>>, path: Seq<Move>)
    requires
        d.len() == DESK_SIZE,
    ensures
        sound(d, path, all_moves(d, path)),
{
    lemma_lists_sound(d, path, DESK_SIZE as int, 4);
    lemma_lists_sound(d, path, BASE_END as int, 4);
    match first_empty(d, CELL_START as int, CELL_END as int) {
        Some(c) => {
            lemma_first_empty_range(d, CELL_START as int, CELL_END as int);
            lemma_lists_sound(d, path, PILE_END as int, c);
        },
        None => {},
    }
    match first_empty(d, PILE_START as int, PILE_END as int) {
        Some(e) => {
            lemma_first_empty_range(d, PILE_START as int, PILE_END as int);
            lemma_lists_sound(d, path, PILE_END as int, e);
            lemma_lists_sound(d, path, CELL_END as int, e);
            lemma_sound_append(
                d,
                path,
                pile_list(d, path, e, PILE_END as int),
                cell_pile_list(d, path, e, CELL_END as int),
            );
        },
        None => {},
    }
    lemma_sound_append(
        d,
        path,
        tab_list(d, path, DESK_SIZE as int),
        lift_list(d, path, BASE_END as int),
    );
    lemma_sound_append(d, path, base_moves(d, path), tableau_moves(d, path));
    lemma_sound_append(d, path, base_moves(d, path) + tableau_moves(d, path), cell_moves(d, path));
    lemma_sound_append(
        d,
        path,
        base_moves(d, path) + tableau_moves(d, path) + cell_moves(d, path),
        pile_moves(d, path),
    );
}

/// Reverse-move suppression: no generated move takes back the last move of the path.
pub proof fn lemma_no_reverse_move(d: Seq<Seq<u8>>, path: Seq<Move>, m: Move)
    requires
        d.len() == DESK_SIZE,
        path.len() > 0,
        all_moves(d, path).contains(m),
    ensures
        !(m.0 == path.last().1 && m.1 == path.last().0),
{
    lemma_all_moves_sound(d, path);
}

/// A consumer that is still running takes the next segment; one that stopped
/// takes nothing more.
pub(crate) proof fn lemma_feed_step<C: Consumer<Move>>(v0: C::V, a: Seq<Move>, s: Seq<Move>)
    ensures
        running::<Move, C>(v0, a) ==> fed::<Move, C>(v0, a + s) == fed::<Move, C>(
            fed::<Move, C>(v0, a),
            s,
        ) && running::<Move, C>(v0, a + s) == running::<Move, C>(fed::<Move, C>(v0, a), s),
        !running::<Move, C>(v0, a) ==> fed::<Move, C>(v0, a + s) == fed::<Move, C>(v0, a)
            && !running::<Move, C>(v0, a + s),
{
    if running::<Move, C>(v0, a) {
        lemma_fed_append::<Move, C>(v0, a, s);
    } else {
        lemma_fed_stopped::<Move, C>(v0, a, s);
    }
}

} // verus!
