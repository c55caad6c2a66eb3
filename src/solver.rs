//! Best-first branch-and-bound search: candidate paths wait in a graded bank,
//! the most promising grade is expanded first, and every solution found
//! tightens the bound on the length of the next.
use crate::autoplay::{
    auto_moves, auto_result, lawful, lemma_auto_estimate, lemma_deal_proper,
    lemma_move_keeps_proper, proper,
};
use crate::basis::{
    BASE_END, CELL_END, CELL_NUM, CELL_START, DESK_SIZE, PILE_END, PILE_NUM, PILE_START,
};
use crate::board::{
    apply_move, dealt, desk_cards, empty_count, empty_desk, estimate, lemma_cards_count,
    lemma_counts_within, lemma_dealt_cards, lemma_dealt_len, lemma_lens_sum_split,
    lemma_no_cards_all_empty, lemma_replay_keeps_cards, locks, move_ok, replay, replayable, solved,
    unsolved, Move, Path,
};
use crate::deck;
use crate::deck::lemma_shuffle_permutes;
use crate::fingerprint::{fingerprint, key_of, FpKey};
use crate::game::Game;
use crate::grader::{cut_at, Grader};
use crate::moves::{all_moves, sound};
use std::collections::BTreeMap;
use vstd::prelude::*;

verus! {

broadcast use vstd::std_specs::btree::group_btree_axioms, vstd::laws_cmp::group_laws_cmp;

/// Paths this long are never searched: it keeps every grade within `usize`.
pub const SEARCH_LIMIT: usize = 0x1000_0000;

/// Weight of each card not yet on a foundation in a grade.
pub const UNSOLVED_WEIGHT: usize = 10;

/// Weight of each blocking card in a grade.
pub const LOCK_WEIGHT: usize = 9;

/// Paths shorter than this all get grade 0.
pub const SHALLOW_LEN: usize = 8;

/// Paths longer than this weigh their length more.
pub const DEEP_LEN: usize = 88;

/// Weight of the length of a path of middle length.
pub const LEN_WEIGHT: usize = 4;

/// Weight of the length of a long path.
pub const DEEP_LEN_WEIGHT: usize = 8;

/// The grade of a board and its path: lower is more promising.
pub open spec fn priority(d: Seq<Seq<u8>>, path: Seq<Move>) -> nat {
    let len = path.len();
    if len < SHALLOW_LEN {
        0
    } else if len > DEEP_LEN {
        (UNSOLVED_WEIGHT * unsolved(d) + LOCK_WEIGHT * locks(d) + len * DEEP_LEN_WEIGHT) as nat
    } else {
        (UNSOLVED_WEIGHT * unsolved(d) + LOCK_WEIGHT * locks(d) + len * LEN_WEIGHT) as nat
    }
}

/// A path that can be replayed from the deal, is short enough to search, and
/// leads to proper stacks.
pub open spec fn path_ok(start: Seq<Seq<u8>>, p: Seq<Move>) -> bool {
    replayable(start, p) && p.len() < SEARCH_LIMIT && proper(replay(start, p))
}

/// A path that clears every card from play onto the foundations.
pub open spec fn solves(start: Seq<Seq<u8>>, p: Seq<Move>) -> bool {
    path_ok(start, p) && unsolved(replay(start, p)) == 0
}

/// Every path in the bank can be searched.
pub open spec fn bank_ok(start: Seq<Seq<u8>>, bank: Map<usize, Seq<Path>>) -> bool {
    forall|g: usize, i: int|
        #![trigger bank[g][i]]
        bank.contains_key(g) && 0 <= i < bank[g].len() ==> path_ok(start, bank[g][i]@)
}

/// Every path of `paths` can be searched.
pub open spec fn paths_ok(start: Seq<Seq<u8>>, paths: Seq<Path>) -> bool {
    forall|i: int| 0 <= i < paths.len() ==> path_ok(start, #[trigger] paths[i]@)
}

/// The grade of the game's board and path: 0 for short paths; otherwise ten per
/// card not on a foundation, nine per blocking card, and the length weighted
/// more heavily past a depth.
pub fn game_priority(game: &Game) -> (r: usize)
    requires
        game.wf(),
        game.moves().len() < SEARCH_LIMIT,
    ensures
        r == priority(game.stacks(), game.moves()),
{
    let len = game.path().len();
    if len < SHALLOW_LEN {
        0
    } else {
        let unsolved = game.count_unsolved();
        let locks = game.count_locks();
        proof {
            lemma_counts_bound(game);
        }
        if len > DEEP_LEN {
            UNSOLVED_WEIGHT * unsolved + LOCK_WEIGHT * locks + len * DEEP_LEN_WEIGHT
        } else {
            UNSOLVED_WEIGHT * unsolved + LOCK_WEIGHT * locks + len * LEN_WEIGHT
        }
    }
}

proof fn lemma_counts_bound(game: &Game)
    requires
        game.wf(),
    ensures
        unsolved(game.stacks()) <= deck::CARD_NUM,
        locks(game.stacks()) <= deck::CARD_NUM,
{
    lemma_counts_within(game.stacks());
}

/// A copy of a path.
fn copy_path(p: &Path) -> (r: Path)
    ensures
        r@ == p@,
{
    let mut r: Path = Vec::new();
    let mut i: usize = 0;
    while i < p.len()
        invariant
            i <= p@.len(),
            r@ == p@.subrange(0, i as int),
        decreases p@.len() - i,
    {
        r.push(p[i]);
        assert(r@ =~= p@.subrange(0, i + 1));
        i = i + 1;
    }
    assert(r@ =~= p@);
    r
}

/// The paths of a bank, as move sequences.
pub open spec fn paths_view(m: Map<usize, Seq<Path>>) -> Map<usize, Seq<Seq<Move>>> {
    m.map_values(|row: Seq<Path>| row.map_values(|p: Path| p@))
}

/// The paths whose estimate is below `limit`.
pub open spec fn keeps(start: Seq<Seq<u8>>, limit: usize) -> spec_fn(Seq<Move>) -> bool {
    |p: Seq<Move>| estimate(replay(start, p), p) < limit
}

/// The bank with every path whose estimate is not below `limit` dropped, the
/// order of the others kept, and grades left empty removed.
pub open spec fn cleaned(start: Seq<Seq<u8>>, m: Map<usize, Seq<Seq<Move>>>, limit: usize) -> Map<
    usize,
    Seq<Seq<Move>>,
> {
    Map::new(
        |g: usize| m.contains_key(g) && m[g].filter(keeps(start, limit)).len() > 0,
        |g: usize| m[g].filter(keeps(start, limit)),
    )
}

/// The bank with `p` filed last under grade `g`.
pub open spec fn file(m: Map<usize, Seq<Seq<Move>>>, g: usize, p: Seq<Move>) -> Map<
    usize,
    Seq<Seq<Move>>,
> {
    m.insert(
        g,
        if m.contains_key(g) {
            m[g]
        } else {
            Seq::empty()
        }.push(p),
    )
}

proof fn lemma_view_file(b0: Map<usize, Seq<Path>>, b1: Map<usize, Seq<Path>>, g: usize, x: Path)
    requires
        b1 == b0.insert(
            g,
            if b0.contains_key(g) {
                b0[g]
            } else {
                Seq::empty()
            }.push(x),
        ),
    ensures
        paths_view(b1) == file(paths_view(b0), g, x@),
{
    let f = file(paths_view(b0), g, x@);
    assert(paths_view(b1).dom() =~= f.dom());
    assert forall|q: usize| #[trigger] paths_view(b1).contains_key(q) implies paths_view(b1)[q]
        =~= f[q] by {
        if q == g && b0.contains_key(g) {
            assert(paths_view(b1)[q] =~= paths_view(b0)[q].push(x@));
        }
    }
    assert(paths_view(b1) =~= f);
}

/// Drops from the bank every path whose estimate is not below `path_upper_limit`,
/// keeping the order of the others; grades left empty go.
fn clean_bank(bank: &mut Grader<Path>, game: &mut Game, path_upper_limit: usize)
    requires
        old(bank).wf(),
        old(game).wf(),
        bank_ok(old(game).origin(), old(bank)@),
    ensures
        final(bank).wf(),
        final(game).wf(),
        final(game).origin() == old(game).origin(),
        bank_ok(final(game).origin(), final(bank)@),
        paths_view(final(bank)@) == cleaned(
            old(game).origin(),
            paths_view(old(bank)@),
            path_upper_limit,
        ),
{
    let ghost start = game.origin();
    let ghost m0 = paths_view(bank@);
    let ghost f = keeps(start, path_upper_limit);
    let grades = bank.grades();
    let mut k: usize = 0;
    while k < grades.len()
        invariant
            bank.wf(),
            game.wf(),
            game.origin() == start,
            bank_ok(start, bank@),
            k <= grades@.len(),
            crate::grader::increasing(grades@),
            grades@.to_set() == m0.dom(),
            f == keeps(start, path_upper_limit),
            forall|g: usize|
                #![trigger paths_view(bank@).contains_key(g)]
                m0.contains_key(g) && g < cut_at(grades@, k as int) ==> (paths_view(bank@).contains_key(g)
                    == (m0[g].filter(f).len() > 0)) && (paths_view(bank@).contains_key(g)
                    ==> paths_view(bank@)[g] == m0[g].filter(f)),
            forall|g: usize|
                #![trigger paths_view(bank@).contains_key(g)]
                !(m0.contains_key(g) && g < cut_at(grades@, k as int)) ==> paths_view(bank@).contains_key(g)
                    == m0.contains_key(g) && (m0.contains_key(g) ==> paths_view(bank@)[g] == m0[g]),
        decreases grades@.len() - k,
    {
        let g = grades[k];
        let ghost before = bank@;
        proof {
            assert(grades@.to_set().contains(g));
            assert(paths_view(before).contains_key(g));
            assert(before.contains_key(g));
        }
        let taken = bank.split_off(g, usize::MAX);
        let row = match taken {
            Some(row) => row,
            None => Vec::new(),
        };
        let ghost rowv = row@.map_values(|p: Path| p@);
        proof {
            assert(before[g].take(before[g].len() as int) =~= before[g]);
            assert(row@ =~= before[g]);
            assert(rowv =~= m0[g]);
            assert forall|i: int| 0 <= i < row@.len() implies path_ok(start, (#[trigger] row@[i])@) by {
                assert(row@[i] == before[g][i]);
            }
        }
        let ghost pre = bank@;
        let mut i: usize = 0;
        proof {
            reveal(Seq::filter);
            assert(rowv.take(0).filter(f) =~= Seq::<Seq<Move>>::empty());
            assert(pre == before.remove(g));
        }
        while i < row.len()
            invariant
                bank.wf(),
                game.wf(),
                game.origin() == start,
                !pre.contains_key(g),
                forall|q: usize| q != g ==> #[trigger] bank@.contains_key(q) == pre.contains_key(q),
                forall|q: usize| q != g && #[trigger] bank@.contains_key(q) ==> bank@[q] == pre[q],
                bank_ok(start, pre),
                bank_ok(start, bank@),
                i <= row@.len(),
                rowv == row@.map_values(|p: Path| p@),
                f == keeps(start, path_upper_limit),
                paths_view(bank@).contains_key(g) == (rowv.take(i as int).filter(f).len() > 0),
                paths_view(bank@).contains_key(g) ==> paths_view(bank@)[g] == rowv.take(
                    i as int,
                ).filter(f),
                forall|q: int| 0 <= q < row@.len() ==> path_ok(start, (#[trigger] row@[q])@),
            decreases row@.len() - i,
        {
            let path = &row[i];
            proof {
                assert(path_ok(start, row@[i as int]@));
            }
            game.set_path(path.as_slice());
            let est = game.estimate_path_len();
            let ghost x = rowv[i as int];
            let ghost before_take = rowv.take(i as int).filter(f);
            proof {
                reveal(Seq::filter);
                assert(x == row@[i as int]@);
                assert(f(x) == (est < path_upper_limit));
                let t = rowv.take(i + 1);
                let one = seq![x];
                assert(t =~= rowv.take(i as int) + one);
                Seq::filter_distributes_over_add(rowv.take(i as int), one, f);
                assert(one.drop_last() =~= Seq::<Seq<Move>>::empty());
                assert(Seq::<Seq<Move>>::empty().filter(f) =~= Seq::<Seq<Move>>::empty());
                assert(one.last() == x);
                assert(one.drop_last().filter(f) =~= Seq::<Seq<Move>>::empty());
                if f(x) {
                    assert(one.filter(f) =~= one);
                    assert(t.filter(f) =~= before_take.push(x));
                } else {
                    assert(one.filter(f) =~= Seq::<Seq<Move>>::empty());
                    assert(t.filter(f) =~= before_take);
                }
            }
            if est < path_upper_limit {
                let ghost b0 = bank@;
                bank.add(g, copy_path(path));
                proof {
                    lemma_view_file(b0, bank@, g, bank@[g].last());
                    let row_g = bank@[g];
                    assert forall|q: usize, j: int|
                        #![trigger bank@[q][j]]
                        bank@.contains_key(q) && 0 <= j < bank@[q].len() implies path_ok(
                        start,
                        bank@[q][j]@,
                    ) by {
                        if q != g {
                            assert(bank@[q] == b0[q]);
                        } else if j < row_g.len() - 1 {
                            assert(bank@[q][j] == b0[q][j]);
                        }
                    }
                    if !paths_view(b0).contains_key(g) {
                        assert(before_take =~= Seq::<Seq<Move>>::empty());
                    }
                    assert(bank@[g].last()@ == x);
                    assert(paths_view(bank@)[g] == before_take.push(x));
                    assert forall|q: usize| q != g implies #[trigger] bank@.contains_key(q)
                        == pre.contains_key(q) && (bank@.contains_key(q) ==> bank@[q] == pre[q]) by {
                        assert(bank@.contains_key(q) == b0.contains_key(q));
                    }
                }
            }
            i = i + 1;
        }
        proof {
            assert(rowv.take(row@.len() as int) =~= rowv);
            let cut1 = cut_at(grades@, k + 1);
            assert forall|q: usize| #[trigger] m0.contains_key(q) && q < cut1 && q != g implies q < g by {
                assert(grades@.to_set().contains(q));
                let j = choose|j: int| 0 <= j < grades@.len() && grades@[j] == q;
                if j > k {
                    assert(grades@[k + 1] <= grades@[j]) by {
                        if k + 1 < j {
                            assert(grades@[k + 1] < grades@[j]);
                        }
                    }
                }
                if j < k {
                    assert(grades@[j] < grades@[k as int]);
                }
            }
            if k + 1 < grades@.len() {
                assert(grades@[k as int] < grades@[k + 1]);
            }
            assert forall|q: usize|
                #![trigger paths_view(bank@).contains_key(q)]
                m0.contains_key(q) && q < cut1 implies (paths_view(bank@).contains_key(q) == (
                m0[q].filter(f).len() > 0)) && (paths_view(bank@).contains_key(q) ==> paths_view(
                bank@,
            )[q] == m0[q].filter(f)) by {
                if q != g {
                    assert(q < g);
                    assert(bank@.contains_key(q) == before.contains_key(q));
                    if bank@.contains_key(q) {
                        assert(bank@[q] == before[q]);
                    }
                    assert(paths_view(bank@).contains_key(q) == paths_view(before).contains_key(q));
                    if paths_view(bank@).contains_key(q) {
                        assert(paths_view(bank@)[q] == paths_view(before)[q]);
                    }
                }
            }
            assert forall|q: usize|
                #![trigger paths_view(bank@).contains_key(q)]
                !(m0.contains_key(q) && q < cut1) implies paths_view(bank@).contains_key(q)
                == m0.contains_key(q) && (m0.contains_key(q) ==> paths_view(bank@)[q] == m0[q]) by {
                assert(q != g);
                assert(!(m0.contains_key(q) && q < g));
                assert(bank@.contains_key(q) == before.contains_key(q));
                if bank@.contains_key(q) {
                    assert(bank@[q] == before[q]);
                }
                assert(paths_view(bank@).contains_key(q) == paths_view(before).contains_key(q));
                if paths_view(bank@).contains_key(q) {
                    assert(paths_view(bank@)[q] == paths_view(before)[q]);
                }
            }
        }
        k = k + 1;
    }
    proof {
        let c = cleaned(start, m0, path_upper_limit);
        assert forall|g: usize| #[trigger] paths_view(bank@).contains_key(g) == c.contains_key(g) by {
        }
        assert forall|g: usize| #[trigger] paths_view(bank@).contains_key(g) implies paths_view(
            bank@,
        )[g] == c[g] by {
        }
        assert(paths_view(bank@) =~= c);
    }
}

/// What a search step carries along: the bank, the visited boards (packed
/// fingerprint to the lowest estimate recorded), and the solution it found.
pub type StepState = (Map<usize, Seq<Seq<Move>>>, Map<FpKey, usize>, Option<Seq<Move>>);

/// The path that trying move `m` after `p` makes: the move, then auto-play.
pub open spec fn child(start: Seq<Seq<u8>>, p: Seq<Move>, m: Move) -> Seq<Move> {
    p.push(m) + auto_moves(apply_move(replay(start, p), m))
}

/// The board that trying move `m` after `p` leaves.
pub open spec fn child_board(start: Seq<Seq<u8>>, p: Seq<Move>, m: Move) -> Seq<Seq<u8>> {
    auto_result(apply_move(replay(start, p), m))
}

/// Tries move `m` after path `p`. A child whose estimate is below the bound,
/// that still has a move, and whose board was never recorded with a lower
/// estimate is filed (under its priority, or 0) and recorded; a solved child
/// shorter than the bound is the solution. Once a solution is found nothing
/// more is tried.
pub open spec fn try_child(
    st: StepState,
    start: Seq<Seq<u8>>,
    p: Seq<Move>,
    m: Move,
    bound: usize,
    prioritize: bool,
) -> StepState {
    let c = child(start, p, m);
    let b = child_board(start, p, m);
    let est = estimate(b, c);
    if st.2 is Some || est >= bound {
        st
    } else {
        let key = key_of(fingerprint(b));
        let fresh = all_moves(b, c).len() > 0 && (!st.1.contains_key(key) || est < st.1[key]);
        let grade: usize = if prioritize {
            priority(b, c) as usize
        } else {
            0
        };
        let st1 = if fresh {
            (file(st.0, grade, c), st.1.insert(key, est as usize), st.2)
        } else {
            st
        };
        if c.len() < bound && unsolved(b) == 0 {
            (st1.0, st1.1, Some(c))
        } else {
            st1
        }
    }
}

/// Tries the moves of `ms` after path `p`, in order.
pub open spec fn try_moves(
    st: StepState,
    start: Seq<Seq<u8>>,
    p: Seq<Move>,
    ms: Seq<Move>,
    bound: usize,
    prioritize: bool,
) -> StepState
    decreases ms.len(),
{
    if ms.len() == 0 {
        st
    } else {
        try_moves(try_child(st, start, p, ms[0], bound, prioritize), start, p, ms.drop_first(), bound, prioritize)
    }
}

/// Expands the paths of a batch, last first: each tries every candidate move
/// of its board. Once a solution is found, the paths not yet expanded go back
/// to the bank under the batch's grade `g0`.
pub open spec fn run_batch(
    st: StepState,
    start: Seq<Seq<u8>>,
    batch: Seq<Seq<Move>>,
    g0: usize,
    bound: usize,
    prioritize: bool,
) -> StepState
    decreases batch.len(),
{
    if batch.len() == 0 {
        st
    } else {
        let p = batch.last();
        let st1 = if st.2 is Some {
            (file(st.0, g0, p), st.1, st.2)
        } else {
            try_moves(st, start, p, all_moves(replay(start, p), p), bound, prioritize)
        };
        run_batch(st1, start, batch.drop_last(), g0, bound, prioritize)
    }
}

/// The lowest grade of a bank.
pub open spec fn lowest(m: Map<usize, Seq<Seq<Move>>>) -> usize {
    choose|g: usize| m.contains_key(g) && forall|h: usize| #[trigger] m.contains_key(h) ==> g <= h
}

/// The bound of a step: `limit`, at most `SEARCH_LIMIT`, and below the length
/// of the solution found so far.
pub open spec fn bound_of(limit: usize, sol: Option<Seq<Move>>) -> usize {
    let l = if limit > SEARCH_LIMIT {
        SEARCH_LIMIT
    } else {
        limit
    };
    match sol {
        Some(q) => if q.len() < l {
            q.len() as usize
        } else {
            l
        },
        None => l,
    }
}

/// The state a search step ends in before any cleaning: the first
/// `input_upper_limit` paths of the lowest grade leave the bank and are
/// expanded, as `run_batch` says, under the bound `bound_of`.
pub open spec fn step_fin(
    f0: Map<usize, Seq<Seq<Move>>>,
    v0: Map<FpKey, usize>,
    start: Seq<Seq<u8>>,
    sol: Option<Seq<Move>>,
    path_upper_limit: usize,
    input_upper_limit: usize,
) -> StepState {
    let g0 = lowest(f0);
    let row = f0[g0];
    let k = if input_upper_limit < row.len() {
        input_upper_limit as int
    } else {
        row.len() as int
    };
    let rest = if k < row.len() {
        f0.insert(g0, row.skip(k))
    } else {
        f0.remove(g0)
    };
    run_batch(
        (rest, v0, None),
        start,
        row.take(k),
        g0,
        bound_of(path_upper_limit, sol),
        rest.dom().len() > 0,
    )
}

/// The visited boards recorded with an estimate below `limit`.
pub open spec fn visited_below(v: Map<FpKey, usize>, limit: nat) -> Map<FpKey, usize> {
    v.restrict(v.dom().filter(|k: FpKey| v[k] < limit))
}

proof fn lemma_try_moves_found(
    st: StepState,
    start: Seq<Seq<u8>>,
    p: Seq<Move>,
    ms: Seq<Move>,
    bound: usize,
    prioritize: bool,
)
    requires
        st.2 is Some,
    ensures
        try_moves(st, start, p, ms, bound, prioritize) == st,
    decreases ms.len(),
{
    if ms.len() > 0 {
        lemma_try_moves_found(st, start, p, ms.drop_first(), bound, prioritize);
    }
}

/// Whether a recorded estimate is below the bound.
fn below(len: usize, limit: usize) -> (r: bool)
    ensures
        r == (len < limit),
{
    len < limit
}

/// Relies on `BTreeMap::retain`: exactly the entries for which the closure
/// answers `true` stay.
#[verifier::external_body]
fn retain_below(map: &mut BTreeMap<FpKey, usize>, limit: usize)
    ensures
        final(map)@ == visited_below(old(map)@, limit as nat),
{
    map.retain(|_, len| below(*len, limit))
}

proof fn lemma_bank_add(
    start: Seq<Seq<u8>>,
    b0: Map<usize, Seq<Path>>,
    b1: Map<usize, Seq<Path>>,
    g: usize,
    p: Seq<Move>,
)
    requires
        bank_ok(start, b0),
        path_ok(start, p),
        b1 == b0.insert(
            g,
            if b0.contains_key(g) {
                b0[g]
            } else {
                Seq::empty()
            }.push(b1[g].last()),
        ),
        b1[g].last()@ == p,
    ensures
        bank_ok(start, b1),
{
    assert forall|q: usize, j: int|
        #![trigger b1[q][j]]
        b1.contains_key(q) && 0 <= j < b1[q].len() implies path_ok(start, b1[q][j]@) by {
        if q != g {
            assert(b1[q] == b0[q]);
        } else if j < b1[q].len() - 1 {
            assert(b1[q][j] == b0[q][j]);
        }
    }
}

/// A well-formed solver is searchable.
proof fn lemma_searchable(solver: &Solver)
    requires
        solver.wf(),
    ensures
        solver.searchable(),
{
    assert forall|g: usize, i: int|
        #![trigger solver.frontier()[g][i]]
        solver.frontier().contains_key(g) && 0 <= i < solver.frontier()[g].len() implies path_ok(
        solver.origin(),
        solver.frontier()[g][i],
    ) by {
        assert(solver.bank@.contains_key(g));
        assert(solver.frontier()[g][i] == solver.bank@[g][i]@);
    }
}

/// Searches a deal for a short solution, a batch of candidate paths at a time.
pub struct Solver {
    bank: Grader<Path>,
    done: BTreeMap<FpKey, usize>,
    game: Game,
    path: Option<Path>,
}

impl Solver {
    /// The stacks as dealt.
    pub closed spec fn origin(&self) -> Seq<Seq<u8>> {
        self.game.origin()
    }

    /// The candidate paths, by grade.
    pub closed spec fn frontier(&self) -> Map<usize, Seq<Seq<Move>>> {
        paths_view(self.bank@)
    }

    /// The best solution found so far.
    pub closed spec fn solution(&self) -> Option<Seq<Move>> {
        match self.path {
            Some(p) => Some(p@),
            None => None,
        }
    }

    /// The game the search replays paths on.
    pub closed spec fn board(&self) -> Game {
        self.game
    }

    /// Every candidate path replays from the deal onto proper stacks, and the
    /// solution, if any, solves the deal.
    pub open spec fn searchable(&self) -> bool {
        &&& forall|g: usize, i: int|
            #![trigger self.frontier()[g][i]]
            self.frontier().contains_key(g) && 0 <= i < self.frontier()[g].len() ==> path_ok(
                self.origin(),
                self.frontier()[g][i],
            )
        &&& self.solution() matches Some(p) ==> solves(self.origin(), p)
    }

    /// Every candidate can be searched and the solution, if any, solves the deal.
    pub closed spec fn wf(&self) -> bool {
        &&& self.game.wf()
        &&& self.bank.wf()
        &&& bank_ok(self.game.origin(), self.bank@)
        &&& self.solution() matches Some(p) ==> solves(self.game.origin(), p)
    }

    pub fn new() -> (r: Self)
        ensures
            r.wf(),
            r.searchable(),
            r.frontier() == Map::<usize, Seq<Seq<Move>>>::empty(),
            r.solution() is None,
    {
        let r = Solver { bank: Grader::new(), done: BTreeMap::new(), game: Game::new(), path: None };
        proof {
            lemma_searchable(&r);
        }
        r
    }

    /// Forgets the deal, every candidate and the solution.
    pub fn clear(&mut self)
        requires
            old(self).wf(),
        ensures
            final(self).wf(),
            final(self).searchable(),
            final(self).frontier() == Map::<usize, Seq<Seq<Move>>>::empty(),
            final(self).visited() == Map::<FpKey, usize>::empty(),
            final(self).solution() is None,
            final(self).board().stacks() == empty_desk(),
            final(self).board().moves().len() == 0,
    {
        self.game.clear();
        self.bank.clear();
        self.done.clear();
        self.path = None;
        proof {
            lemma_searchable(self);
        }
    }

    /// Deals the shuffled deck of `seed`, plays to the foundations what can go
    /// there at once, and files that path as the only candidate, under grade 0.
    pub fn deal(&mut self, seed: u64)
        requires
            old(self).wf(),
        ensures
            final(self).wf(),
            final(self).searchable(),
            final(self).origin() == dealt(deck::shuffled(deck::fresh_deck(), seed as nat)),
            desk_cards(final(self).origin()) == deck::fresh_deck().to_multiset(),
            final(self).frontier() == Map::<usize, Seq<Seq<Move>>>::empty().insert(
                0,
                seq![auto_moves(final(self).origin())],
            ),
            final(self).visited() == Map::<FpKey, usize>::empty().insert(
                key_of(fingerprint(auto_result(final(self).origin()))),
                auto_moves(final(self).origin()).len() as usize,
            ),
            final(self).solution() is None,
            final(self).board().moves().len() == 0,
            final(self).board().stacks() == final(self).origin(),
    {
        self.clear();
        proof {
            lemma_shuffle_permutes(deck::fresh_deck(), seed as nat);
            lemma_dealt_cards(deck::shuffled(deck::fresh_deck(), seed as nat));
            assert(self.bank@.dom() =~= paths_view(self.bank@).dom());
            assert(self.bank@ =~= Map::<usize, Seq<Path>>::empty());
        }
        let cards = deck::deal(seed);
        self.game.deal(&cards);
        let ghost dealt_stacks = self.game.stacks();
        self.game.move_cards_auto();
        proof {
            lemma_deal_proper(seed as nat);
            lemma_auto_estimate(dealt_stacks, Seq::empty());
            lemma_counts_within(self.game.origin());
            assert(self.game.moves() =~= auto_moves(self.game.origin()));
        }
        let ghost b0 = self.bank@;
        self.bank.add(0, copy_path(self.game.path()));
        self.done.insert(self.game.get_invariant().packed(), self.game.path().len());
        self.game.rewind();
        proof {
            assert(b0 == Map::<usize, Seq<Path>>::empty());
            assert forall|g: usize, i: int|
                #![trigger self.bank@[g][i]]
                self.bank@.contains_key(g) && 0 <= i < self.bank@[g].len() implies path_ok(
                self.game.origin(),
                self.bank@[g][i]@,
            ) by {
                assert(g == 0 && i == 0);
            }
            let b = self.bank@[0];
            assert(b.len() == 1);
            assert(b[0]@ == auto_moves(self.game.origin()));
            assert(self.bank@[0] =~= seq![b[0]]);
            assert(paths_view(self.bank@) =~= Map::<usize, Seq<Seq<Move>>>::empty().insert(
                0,
                seq![auto_moves(self.game.origin())],
            )) by {
                assert(paths_view(self.bank@)[0] =~= seq![auto_moves(self.game.origin())]);
            }
            lemma_searchable(self);
        }
    }

    /// Keeps only the visited boards recorded with an estimate below `limit`.
    fn purge_done(&mut self, limit: usize)
        ensures
            final(self).done@ == visited_below(old(self).done@, limit as nat),
            final(self).game == old(self).game,
            final(self).bank == old(self).bank,
            final(self).path == old(self).path,
    {
        retain_below(&mut self.done, limit);
    }

    /// The facts that hold throughout a search step.
    spec fn stepping(&self, start: Seq<Seq<u8>>, limit: usize) -> bool {
        &&& self.game.wf()
        &&& self.game.origin() == start
        &&& self.bank.wf()
        &&& bank_ok(start, self.bank@)
        &&& limit <= SEARCH_LIMIT
    }

    /// Tries move `mv` after `path` (whose board is `d`): makes the move and
    /// auto-play, files and records the child as `try_child` says, and answers
    /// whether it solved the deal, in which case it is the solution.
    fn expand_child(
        &mut self,
        path: &Path,
        mv: Move,
        limit: usize,
        prioritize: bool,
        Ghost(start): Ghost<Seq<Seq<u8>>>,
        Ghost(d): Ghost<Seq<Seq<u8>>>,
    ) -> (found: bool)
        requires
            old(self).stepping(start, limit),
            path_ok(start, path@),
            d == replay(start, path@),
            move_ok(d, mv),
            lawful(d, mv),
            old(self).game.moves().len() >= path@.len(),
            old(self).game.moves().subrange(0, path@.len() as int) == path@,
        ensures
            final(self).stepping(start, limit),
            final(self).game.moves().len() >= path@.len(),
            final(self).game.moves().subrange(0, path@.len() as int) == path@,
            ({
                let st = (paths_view(old(self).bank@), old(self).done@, None::<Seq<Move>>);
                let st1 = try_child(st, start, path@, mv, limit, prioritize);
                &&& paths_view(final(self).bank@) == st1.0
                &&& final(self).done@ == st1.1
                &&& found == st1.2 is Some
                &&& !found ==> final(self).path == old(self).path
                &&& found ==> final(self).solution() == st1.2 && solves(start, st1.2->0)
                    && st1.2->0.len() < limit
            }),
    {
        let mark = path.len();
        self.game.backward(mark);
        proof {
            assert(self.game.moves() == path@);
        }
        self.game.move_card(mv.giver(), mv.taker());
        let ghost moved = self.game.stacks();
        self.game.move_cards_auto();
        proof {
            let m = self.game.moves();
            assert(m.subrange(0, mark as int) =~= path@);
            lemma_move_keeps_proper(d, mv);
            lemma_auto_estimate(moved, path@);
            assert(m == child(start, path@, mv));
        }
        let estm_len = self.game.estimate_path_len();
        if estm_len < limit {
            if self.game.has_next_move() {
                let key = self.game.get_invariant().packed();
                let keep = match self.done.get(&key) {
                    None => true,
                    Some(min_len) => estm_len < *min_len,
                };
                if keep {
                    self.done.insert(key, estm_len);
                    let g = if prioritize {
                        game_priority(&self.game)
                    } else {
                        0
                    };
                    let ghost b0 = self.bank@;
                    self.bank.add(g, copy_path(self.game.path()));
                    proof {
                        lemma_bank_add(start, b0, self.bank@, g, self.game.moves());
                        lemma_view_file(b0, self.bank@, g, self.bank@[g].last());
                    }
                }
            }
            let sol_len = self.game.path().len();
            if sol_len < limit && self.game.is_done() {
                self.path = Some(copy_path(self.game.path()));
                return true;
            }
        }
        false
    }

    /// Ends a step that found solution `sol`: the paths of the batch not yet
    /// expanded go back under `grade`, then the bank and the visited boards
    /// keep only what is below the solution's length.
    fn finish(
        &mut self,
        input: Vec<Path>,
        grade: usize,
        sol_len: usize,
        Ghost(start): Ghost<Seq<Seq<u8>>>,
        Ghost(sol): Ghost<Seq<Move>>,
        Ghost(limit): Ghost<usize>,
        Ghost(prioritize): Ghost<bool>,
        Ghost(fin): Ghost<StepState>,
    )
        requires
            old(self).stepping(start, limit),
            paths_ok(start, input@),
            old(self).solution() == Some(sol),
            solves(start, sol),
            sol.len() == sol_len,
            fin == run_batch(
                (paths_view(old(self).bank@), old(self).done@, Some(sol)),
                start,
                input@.map_values(|p: Path| p@),
                grade,
                limit,
                prioritize,
            ),
        ensures
            final(self).wf(),
            final(self).origin() == start,
            final(self).solution() == Some(sol),
            fin.2 == Some(sol),
            final(self).frontier() == cleaned(start, fin.0, sol_len),
            final(self).visited() == visited_below(fin.1, sol_len as nat),
    {
        let mut input = input;
        while input.len() > 0
            invariant
                self.stepping(start, limit),
                paths_ok(start, input@),
                self.solution() == Some(sol),
                fin == run_batch(
                    (paths_view(self.bank@), self.done@, Some(sol)),
                    start,
                    input@.map_values(|p: Path| p@),
                    grade,
                    limit,
                    prioritize,
                ),
            decreases input@.len(),
        {
            let ghost inp = input@;
            let p = input.pop().unwrap();
            let ghost b0 = self.bank@;
            proof {
                assert(p == inp[inp.len() - 1]);
                assert(path_ok(start, p@));
                assert forall|j: int| 0 <= j < input@.len() implies path_ok(
                    start,
                    (#[trigger] input@[j])@,
                ) by {
                    assert(input@[j] == inp[j]);
                }
                assert(inp.map_values(|q: Path| q@).drop_last() =~= input@.map_values(|q: Path| q@));
                assert(inp.map_values(|q: Path| q@).last() == p@);
            }
            self.bank.add(grade, p);
            proof {
                lemma_bank_add(start, b0, self.bank@, grade, self.bank@[grade].last()@);
                lemma_view_file(b0, self.bank@, grade, self.bank@[grade].last());
            }
        }
        proof {
            assert(input@.map_values(|q: Path| q@) =~= Seq::<Seq<Move>>::empty());
        }
        clean_bank(&mut self.bank, &mut self.game, sol_len);
        self.purge_done(sol_len);
    }

    /// One unit of search. Takes up to `input_upper_limit` paths of the lowest
    /// grade and expands them, newest first: each is replayed, every candidate
    /// move is tried followed by auto-play, and each child whose estimate is
    /// below the bound (`path_upper_limit`, at most `SEARCH_LIMIT`, and below
    /// the length of the solution found so far), that still has a move, and
    /// whose board was not recorded with a lower estimate is filed and
    /// recorded. The first solved child shorter than the bound becomes the
    /// solution: the rest of the batch goes back under its grade, and the bank
    /// and the visited boards keep only what is below its length. Returns
    /// `None` when no candidate is left, `Some(true)` on a new solution, and
    /// `Some(false)` otherwise. Nothing is printed: callers that report do so
    /// from the result.
    #[verifier::rlimit(50)]
    pub fn next(
        &mut self,
        path_upper_limit: usize,
        input_upper_limit: usize,
        _debug_output: bool,
    ) -> (r: Option<bool>)
        requires
            old(self).wf(),
        ensures
            final(self).wf(),
            final(self).searchable(),
            final(self).origin() == old(self).origin(),
            (r is None) == (old(self).frontier().dom().len() == 0),
            r is None ==> {
                &&& final(self).frontier() == old(self).frontier()
                &&& final(self).visited() == old(self).visited()
                &&& final(self).solution() == old(self).solution()
                &&& final(self).board() == old(self).board()
            },
            r is Some ==> ({
                let fin = step_fin(
                    old(self).frontier(),
                    old(self).visited(),
                    old(self).origin(),
                    old(self).solution(),
                    path_upper_limit,
                    input_upper_limit,
                );
                match fin.2 {
                    Some(sol) => {
                        &&& r == Some(true)
                        &&& final(self).solution() == Some(sol)
                        &&& sol.len() < bound_of(path_upper_limit, old(self).solution())
                        &&& final(self).frontier() == cleaned(
                            old(self).origin(),
                            fin.0,
                            sol.len() as usize,
                        )
                        &&& final(self).visited() == visited_below(fin.1, sol.len())
                    },
                    None => {
                        &&& r == Some(false)
                        &&& final(self).solution() == old(self).solution()
                        &&& final(self).frontier() == fin.0
                        &&& final(self).visited() == fin.1
                    },
                }
            }),
    {
        let ghost start = self.game.origin();
        let ghost old_solution = self.solution();
        let ghost f0 = paths_view(self.bank@);
        let ghost v0 = self.done@;
        let mut limit = path_upper_limit;
        if limit > SEARCH_LIMIT {
            limit = SEARCH_LIMIT;
        }
        if let Some(p) = &self.path {
            if p.len() < limit {
                limit = p.len();
            }
        }
        assert(limit == bound_of(path_upper_limit, old_solution));
        let grades = self.bank.grades();
        proof {
            assert(f0.dom() =~= self.bank@.dom());
        }
        if grades.len() == 0 {
            proof {
                assert(self.bank@.dom() =~= Set::<usize>::empty());
                lemma_searchable(self);
            }
            return None;
        }
        let grade = grades[0];
        proof {
            assert(grades@.to_set().contains(grades@[0]));
            assert(self.bank@.dom().len() > 0);
            assert forall|h: usize| #[trigger] f0.contains_key(h) implies grade <= h by {
                assert(grades@.to_set().contains(h));
                let j = choose|j: int| 0 <= j < grades@.len() && grades@[j] == h;
                if j > 0 {
                    assert(grades@[0] < grades@[j]);
                }
            }
            let g0 = lowest(f0);
            assert(f0.contains_key(grade) && forall|h: usize| #[trigger] f0.contains_key(h) ==> grade <= h);
            assert(f0.contains_key(g0) && forall|h: usize| #[trigger] f0.contains_key(h) ==> g0 <= h);
            assert(g0 <= grade && grade <= g0);
        }
        let ghost before = self.bank@;
        let ghost row = f0[grade];
        let mut input = match self.bank.split_off(grade, input_upper_limit) {
            Some(v) => v,
            None => Vec::new(),
        };
        let ghost k = if input_upper_limit < row.len() {
            input_upper_limit as int
        } else {
            row.len() as int
        };
        let ghost rest = if k < row.len() {
            f0.insert(grade, row.skip(k))
        } else {
            f0.remove(grade)
        };
        proof {
            assert(before[grade].len() == row.len());
            assert(input@.map_values(|p: Path| p@) =~= row.take(k));
            assert(paths_view(self.bank@).dom() =~= rest.dom());
            assert forall|q: usize| #[trigger] rest.contains_key(q) implies paths_view(self.bank@)[q]
                =~= rest[q] by {
                if q == grade {
                    assert(self.bank@[q] == before[q].skip(k));
                } else {
                    assert(self.bank@[q] == before[q]);
                }
            }
            assert(paths_view(self.bank@) =~= rest);
            assert forall|i: int| 0 <= i < input@.len() implies path_ok(start, (#[trigger] input@[i])@) by {
                assert(input@[i] == before[grade][i]);
            }
            assert forall|g: usize, i: int|
                #![trigger self.bank@[g][i]]
                self.bank@.contains_key(g) && 0 <= i < self.bank@[g].len() implies path_ok(
                start,
                self.bank@[g][i]@,
            ) by {
                if g == grade {
                    assert(self.bank@[g][i] == before[g][i + input_upper_limit]);
                } else {
                    assert(self.bank@[g] == before[g]);
                }
            }
        }
        let prioritize = self.bank.grade_num() > 0;
        let ghost fin = run_batch(
            (rest, v0, None),
            start,
            row.take(k),
            grade,
            limit,
            prioritize,
        );
        proof {
            assert(rest.dom() =~= self.bank@.dom());
            assert(fin == step_fin(f0, v0, start, old_solution, path_upper_limit, input_upper_limit));
        }
        while input.len() > 0
            invariant
                self.stepping(start, limit),
                start == old(self).origin(),
                old(self).frontier().dom().len() > 0,
                old_solution == old(self).solution(),
                fin == step_fin(
                    old(self).frontier(),
                    old(self).visited(),
                    start,
                    old_solution,
                    path_upper_limit,
                    input_upper_limit,
                ),
                self.solution() == old_solution,
                old_solution matches Some(q) ==> solves(start, q),
                limit == bound_of(path_upper_limit, old_solution),
                paths_ok(start, input@),
                fin == run_batch(
                    (paths_view(self.bank@), self.done@, None),
                    start,
                    input@.map_values(|p: Path| p@),
                    grade,
                    limit,
                    prioritize,
                ),
            decreases input@.len(),
        {
            let ghost inp = input@;
            let path = input.pop().unwrap();
            proof {
                assert(path == inp[inp.len() - 1]);
                assert(path_ok(start, path@));
                assert forall|j: int| 0 <= j < input@.len() implies path_ok(start, (#[trigger] input@[j])@) by {
                    assert(input@[j] == inp[j]);
                }
                assert(inp.map_values(|p: Path| p@).drop_last() =~= input@.map_values(|p: Path| p@));
                assert(inp.map_values(|p: Path| p@).last() == path@);
            }
            self.game.set_path(path.as_slice());
            let mark = path.len();
            let moves = self.game.get_all_moves();
            let ghost d = self.game.stacks();
            let ghost s_path = (paths_view(self.bank@), self.done@, None::<Seq<Move>>);
            let ghost after_path = try_moves(s_path, start, path@, moves@, limit, prioritize);
            proof {
                assert(moves@.skip(0) =~= moves@);
                assert(fin == run_batch(
                    after_path,
                    start,
                    input@.map_values(|p: Path| p@),
                    grade,
                    limit,
                    prioritize,
                ));
            }
            let mut i: usize = 0;
            let ghost rest_input = input@;
            while i < moves.len()
                invariant
                    self.stepping(start, limit),
                    start == old(self).origin(),
                    old(self).frontier().dom().len() > 0,
                    old_solution == old(self).solution(),
                    fin == step_fin(
                        old(self).frontier(),
                        old(self).visited(),
                        start,
                        old_solution,
                        path_upper_limit,
                        input_upper_limit,
                    ),
                    self.solution() == old_solution,
                    old_solution matches Some(q) ==> solves(start, q),
                    limit == bound_of(path_upper_limit, old_solution),
                    input@ == rest_input,
                    paths_ok(start, input@),
                    fin == run_batch(
                        after_path,
                        start,
                        input@.map_values(|p: Path| p@),
                        grade,
                        limit,
                        prioritize,
                    ),
                    after_path == try_moves(
                        (paths_view(self.bank@), self.done@, None),
                        start,
                        path@,
                        moves@.skip(i as int),
                        limit,
                        prioritize,
                    ),
                    path_ok(start, path@),
                    d == replay(start, path@),
                    d.len() == crate::basis::DESK_SIZE,
                    sound(d, path@, moves@),
                    i <= moves@.len(),
                    self.game.moves().len() >= path@.len(),
                    self.game.moves().subrange(0, path@.len() as int) == path@,
                decreases moves@.len() - i,
            {
                let mv = moves[i];
                let ghost st = (paths_view(self.bank@), self.done@, None::<Seq<Move>>);
                proof {
                    assert(moves@.skip(i as int)[0] == mv);
                    assert(moves@.skip(i as int).drop_first() =~= moves@.skip(i + 1));
                    assert(move_ok(d, moves@[i as int]) && lawful(d, moves@[i as int]));
                }
                let found = self.expand_child(&path, mv, limit, prioritize, Ghost(start), Ghost(d));
                if found {
                    let ghost sol = self.solution()->0;
                    let sol_len = self.path.as_ref().unwrap().len();
                    proof {
                        let found_st = (paths_view(self.bank@), self.done@, Some(sol));
                        lemma_try_moves_found(found_st, start, path@, moves@.skip(i + 1), limit, prioritize);
                    }
                    self.finish(input, grade, sol_len, Ghost(start), Ghost(sol), Ghost(limit), Ghost(prioritize), Ghost(fin));
                    proof {
                        lemma_searchable(self);
                    }
                    return Some(true);
                }
                i = i + 1;
            }
            proof {
                assert(moves@.skip(moves@.len() as int) =~= Seq::<Move>::empty());
            }
        }
        proof {
            assert(input@.map_values(|p: Path| p@) =~= Seq::<Seq<Move>>::empty());
            lemma_searchable(self);
        }
        Some(false)
    }

    pub fn bank(&self) -> (r: &Grader<Path>)
        ensures
            paths_view(r@) == self.frontier(),
    {
        &self.bank
    }

    /// The visited boards: packed fingerprint to the lowest estimate recorded.
    pub closed spec fn visited(&self) -> Map<FpKey, usize> {
        self.done@
    }

    /// The visited boards: packed fingerprint to the lowest estimate recorded.
    pub fn done(&self) -> (r: &BTreeMap<FpKey, usize>)
        ensures
            r@ == self.visited(),
    {
        &self.done
    }

    pub fn game(&self) -> (r: &Game)
        ensures
            *r == self.board(),
    {
        &self.game
    }

    pub fn path(&self) -> (r: Option<&Path>)
        ensures
            match r {
                Some(p) => self.solution() == Some(p@),
                None => self.solution() is None,
            },
    {
        match &self.path {
            Some(p) => Some(p),
            None => None,
        }
    }

    pub fn into_solution(self) -> (r: (Game, Option<Path>))
        ensures
            r.0 == self.board(),
            match r.1 {
                Some(p) => self.solution() == Some(p@),
                None => self.solution() is None,
            },
    {
        (self.game, self.path)
    }
}

/// End to end: replaying a solution of a dealt seed leaves all 52 cards on the
/// foundations and every cascade and free cell empty.
pub proof fn lemma_solution_clears_board(seed: nat, p: Seq<Move>)
    requires
        solves(dealt(deck::shuffled(deck::fresh_deck(), seed)), p),
    ensures
        ({
            let d = replay(dealt(deck::shuffled(deck::fresh_deck(), seed)), p);
            &&& solved(d) == deck::CARD_NUM
            &&& empty_count(d, CELL_START as int, CELL_END as int) == CELL_NUM
            &&& empty_count(d, PILE_START as int, PILE_END as int) == PILE_NUM
        }),
{
    broadcast use vstd::seq_lib::group_to_multiset_ensures;

    let start = dealt(deck::shuffled(deck::fresh_deck(), seed));
    let d = replay(start, p);
    lemma_shuffle_permutes(deck::fresh_deck(), seed);
    lemma_dealt_cards(deck::shuffled(deck::fresh_deck(), seed));
    lemma_dealt_len(deck::shuffled(deck::fresh_deck(), seed));
    lemma_replay_keeps_cards(start, p);
    lemma_cards_count(d, DESK_SIZE as int);
    assert(deck::fresh_deck().to_multiset().len() == 52);
    lemma_lens_sum_split(d, 0, BASE_END as int, DESK_SIZE as int);
    lemma_lens_sum_split(d, BASE_END as int, CELL_END as int, DESK_SIZE as int);
    lemma_no_cards_all_empty(d, CELL_START as int, CELL_END as int);
    lemma_no_cards_all_empty(d, PILE_START as int, PILE_END as int);
}

} // verus!
