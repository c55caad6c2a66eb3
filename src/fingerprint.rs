//! The fingerprint of a board: a fixed-size key that is equal for boards the
//! search treats as the same state.
use crate::basis::{BASE_END, DESK_SIZE, PILE_END, PILE_NUM, PILE_START};
use crate::board::{desk_ok, lemma_lens_sum_split, lens_sum};
use crate::deck;
use vstd::multiset::Multiset;
use vstd::prelude::*;
use vstd::relations::{antisymmetric, reflexive, strongly_connected, total_ordering, transitive};
use vstd::seq_lib::lemma_sorted_unique;

verus! {

/// Foundation depths, then each non-empty cascade as its length and its cards.
pub const KEY_SIZE: usize = 64;

/// A structure to hold a freecell game invariant.
#[derive(Hash, Eq, PartialEq, Debug, Copy, Clone)]
pub struct Key64 {
    data: [u8; KEY_SIZE],
}

impl View for Key64 {
    type V = Seq<u8>;

    closed spec fn view(&self) -> Seq<u8> {
        self.data@
    }
}

impl Key64 {
    /// A key of zeros.
    pub fn new() -> (r: Self)
        ensures
            r@ == Seq::new(KEY_SIZE as nat, |i: int| 0u8),
    {
        let r = Key64 { data: [0;KEY_SIZE] };
        assert(r@ =~= Seq::new(KEY_SIZE as nat, |i: int| 0u8));
        r
    }

    pub fn put(&mut self, index: usize, value: u8)
        requires
            index < KEY_SIZE,
        ensures
            final(self)@ == old(self)@.update(index as int, value),
    {
        self.data[index] = value;
        assert(self@ =~= old(self)@.update(index as int, value));
    }
}

/// A fingerprint packed into four 128-bit words, sixteen bytes each, most
/// significant byte first: an ordered key for the map of visited boards.
pub type FpKey = (u128, u128, u128, u128);

/// The word made of bytes `off..off + n` of `s`, most significant first.
pub open spec fn word(s: Seq<u8>, off: int, n: nat) -> nat
    decreases n,
{
    if n == 0 {
        0
    } else {
        (word(s, off, (n - 1) as nat) * 256 + s[off + n - 1]) as nat
    }
}

/// The largest word of `n` bytes.
pub open spec fn word_max(n: nat) -> nat
    decreases n,
{
    if n == 0 {
        0
    } else {
        (word_max((n - 1) as nat) * 256 + 255) as nat
    }
}

/// The packed key of a fingerprint.
pub open spec fn key_of(s: Seq<u8>) -> FpKey {
    (
        word(s, 0, 16) as u128,
        word(s, 16, 16) as u128,
        word(s, 32, 16) as u128,
        word(s, 48, 16) as u128,
    )
}

impl Key64 {
    /// The word of bytes `off..off + 16`.
    fn word_at(&self, off: usize) -> (r: u128)
        requires
            off + 16 <= KEY_SIZE,
        ensures
            r == word(self@, off as int, 16),
    {
        proof {
            reveal_with_fuel(word_max, 16);
            assert(word_max(15) == 0xff_ffff_ffff_ffff_ffff_ffff_ffff_ffffnat);
        }
        let mut acc: u128 = 0;
        let mut j: usize = 0;
        while j < 16
            invariant
                j <= 16,
                off + 16 <= KEY_SIZE,
                self@.len() == KEY_SIZE,
                acc == word(self@, off as int, j as nat),
                acc <= word_max(j as nat),
                word_max(15) == u128::MAX / 256,
            decreases 16 - j,
        {
            proof {
                assert(word_max(j as nat) <= word_max(15)) by {
                    lemma_word_max_grows(j as nat, 15);
                }
            }
            acc = acc * 256 + self.data[off + j] as u128;
            j = j + 1;
        }
        acc
    }

    /// The packed key of this fingerprint.
    pub fn packed(&self) -> (r: FpKey)
        ensures
            r == key_of(self@),
    {
        (self.word_at(0), self.word_at(16), self.word_at(32), self.word_at(48))
    }
}

proof fn lemma_word_max_grows(a: nat, b: nat)
    requires
        a <= b,
    ensures
        word_max(a) <= word_max(b),
    decreases b,
{
    if a < b {
        lemma_word_max_grows(a, (b - 1) as nat);
    }
}

/// Lexicographic order on byte strings; a proper prefix comes first.
pub open spec fn lex_le(a: Seq<u8>, b: Seq<u8>) -> bool
    decreases a.len(),
{
    if a.len() == 0 {
        true
    } else if b.len() == 0 {
        false
    } else if a[0] != b[0] {
        a[0] < b[0]
    } else {
        lex_le(a.drop_first(), b.drop_first())
    }
}

/// The lexicographic order as a relation.
pub open spec fn lex_order() -> spec_fn(Seq<u8>, Seq<u8>) -> bool {
    |a: Seq<u8>, b: Seq<u8>| lex_le(a, b)
}

proof fn lemma_lex_refl(a: Seq<u8>)
    ensures
        lex_le(a, a),
    decreases a.len(),
{
    if a.len() > 0 {
        lemma_lex_refl(a.drop_first());
    }
}

proof fn lemma_lex_antisym(a: Seq<u8>, b: Seq<u8>)
    requires
        lex_le(a, b),
        lex_le(b, a),
    ensures
        a == b,
    decreases a.len(),
{
    if a.len() > 0 && b.len() > 0 {
        lemma_lex_antisym(a.drop_first(), b.drop_first());
        assert(a =~= seq![a[0]] + a.drop_first());
        assert(b =~= seq![b[0]] + b.drop_first());
    }
}

proof fn lemma_lex_trans(a: Seq<u8>, b: Seq<u8>, c: Seq<u8>)
    requires
        lex_le(a, b),
        lex_le(b, c),
    ensures
        lex_le(a, c),
    decreases a.len(),
{
    if a.len() > 0 && b.len() > 0 && c.len() > 0 && a[0] == b[0] && b[0] == c[0] {
        lemma_lex_trans(a.drop_first(), b.drop_first(), c.drop_first());
    }
}

proof fn lemma_lex_total(a: Seq<u8>, b: Seq<u8>)
    ensures
        lex_le(a, b) || lex_le(b, a),
    decreases a.len(),
{
    if a.len() > 0 && b.len() > 0 && a[0] == b[0] {
        lemma_lex_total(a.drop_first(), b.drop_first());
    }
}

/// The lexicographic order on byte strings is a total order.
pub proof fn lemma_lex_total_ordering()
    ensures
        total_ordering(lex_order()),
{
    let r = lex_order();
    assert forall|x: Seq<u8>| #[trigger] r(x, x) by {
        lemma_lex_refl(x);
    }
    assert(reflexive(r));
    assert forall|x: Seq<u8>, y: Seq<u8>| #[trigger] r(x, y) && #[trigger] r(y, x) implies x
        == y by {
        lemma_lex_antisym(x, y);
    }
    assert(antisymmetric(r));
    assert forall|x: Seq<u8>, y: Seq<u8>, z: Seq<u8>| #[trigger] r(x, y) && #[trigger] r(
        y,
        z,
    ) implies r(x, z) by {
        lemma_lex_trans(x, y, z);
    }
    assert(transitive(r));
    assert forall|x: Seq<u8>, y: Seq<u8>| #[trigger] r(x, y) || #[trigger] r(y, x) by {
        lemma_lex_total(x, y);
    }
    assert(strongly_connected(r));
}

/// Compares byte strings lexicographically.
pub fn lex_less_eq(a: &Vec<u8>, b: &Vec<u8>) -> (r: bool)
    ensures
        r == lex_le(a@, b@),
{
    let mut i: usize = 0;
    assert(a@.subrange(0, a@.len() as int) =~= a@);
    assert(b@.subrange(0, b@.len() as int) =~= b@);
    while i < a.len() && i < b.len()
        invariant
            i <= a@.len(),
            i <= b@.len(),
            lex_le(a@, b@) == lex_le(a@.subrange(i as int, a@.len() as int), b@.subrange(i as int, b@.len() as int)),
        decreases a@.len() - i,
    {
        let ghost sa = a@.subrange(i as int, a@.len() as int);
        let ghost sb = b@.subrange(i as int, b@.len() as int);
        assert(sa[0] == a@[i as int]);
        assert(sb[0] == b@[i as int]);
        if a[i] != b[i] {
            return a[i] < b[i];
        }
        assert(sa.drop_first() =~= a@.subrange(i + 1, a@.len() as int));
        assert(sb.drop_first() =~= b@.subrange(i + 1, b@.len() as int));
        i = i + 1;
    }
    a.len() <= b.len()
}

/// The non-empty cascades among spots `8..hi`, in spot order.
pub open spec fn piles_upto(d: Seq<Seq<u8>>, hi: int) -> Seq<Seq<u8>>
    decreases hi,
{
    if hi <= PILE_START {
        Seq::empty()
    } else {
        piles_upto(d, hi - 1) + if d[hi - 1].len() > 0 {
            seq![d[hi - 1]]
        } else {
            Seq::empty()
        }
    }
}

/// The non-empty cascades, in spot order.
pub open spec fn cascades(d: Seq<Seq<u8>>) -> Seq<Seq<u8>> {
    piles_upto(d, PILE_END as int)
}

/// The non-empty cascades in lexicographic order: which spot holds which
/// cascade does not matter.
pub open spec fn sorted_cascades(d: Seq<Seq<u8>>) -> Seq<Seq<u8>> {
    cascades(d).sort_by(lex_order())
}

/// Each cascade as its length, then its cards from the top down.
pub open spec fn encode(ps: Seq<Seq<u8>>) -> Seq<u8>
    decreases ps.len(),
{
    if ps.len() == 0 {
        Seq::empty()
    } else {
        encode(ps.drop_last()) + seq![ps.last().len() as u8] + ps.last().reverse()
    }
}

/// `k` with `e` written from index `off` on; what falls past its end is dropped.
pub open spec fn overlay(k: Seq<u8>, off: int, e: Seq<u8>) -> Seq<u8> {
    Seq::new(k.len(), |i: int| if off <= i < off + e.len() { e[i - off] } else { k[i] })
}

/// The depths of the four foundations.
pub open spec fn base_depths(d: Seq<Seq<u8>>) -> Seq<u8> {
    seq![d[0].len() as u8, d[1].len() as u8, d[2].len() as u8, d[3].len() as u8]
}

/// The fingerprint of the stacks: the foundation depths, then the non-empty
/// cascades in lexicographic order, zero-padded. Free cells are left out.
pub open spec fn fingerprint(d: Seq<Seq<u8>>) -> Seq<u8> {
    overlay(
        overlay(Seq::new(KEY_SIZE as nat, |i: int| 0u8), 0, base_depths(d)),
        BASE_END as int,
        encode(sorted_cascades(d)),
    )
}

/// The cascades at the spots of `order`, in that order.
pub open spec fn piles_at(d: Seq<Seq<u8>>, order: Seq<usize>) -> Seq<Seq<u8>> {
    order.map_values(|j: usize| d[j as int])
}

/// Fingerprint permutation invariance: stacks with the same foundation depths
/// and the same non-empty cascades, wherever they stand, have the same
/// fingerprint, whatever the free cells hold.
pub proof fn lemma_fingerprint_permutation(d1: Seq<Seq<u8>>, d2: Seq<Seq<u8>>)
    requires
        d1.len() == DESK_SIZE,
        d2.len() == DESK_SIZE,
        forall|i: int| 0 <= i < BASE_END ==> #[trigger] d1[i].len() == d2[i].len(),
        cascades(d1).to_multiset() == cascades(d2).to_multiset(),
    ensures
        fingerprint(d1) == fingerprint(d2),
{
    lemma_lex_total_ordering();
    cascades(d1).lemma_sort_by_ensures(lex_order());
    cascades(d2).lemma_sort_by_ensures(lex_order());
    lemma_sorted_unique(sorted_cascades(d1), sorted_cascades(d2), lex_order());
    assert(base_depths(d1) == base_depths(d2)) by {
        assert(d1[0].len() == d2[0].len());
        assert(d1[1].len() == d2[1].len());
        assert(d1[2].len() == d2[2].len());
        assert(d1[3].len() == d2[3].len());
    }
}

/// Stacks whose foundation depths differ (below 256) have different fingerprints.
pub proof fn lemma_fingerprint_bases(d1: Seq<Seq<u8>>, d2: Seq<Seq<u8>>, i: int)
    requires
        0 <= i < BASE_END,
        d1[i].len() < 256,
        d2[i].len() < 256,
        d1[i].len() != d2[i].len(),
    ensures
        fingerprint(d1) != fingerprint(d2),
{
    assert(fingerprint(d1)[i] == d1[i].len() as u8);
    assert(fingerprint(d2)[i] == d2[i].len() as u8);
}

/// The number of cards in the cascades of `ps`.
pub open spec fn sum_lens(ps: Seq<Seq<u8>>) -> nat
    decreases ps.len(),
{
    if ps.len() == 0 {
        0
    } else {
        sum_lens(ps.drop_last()) + ps.last().len()
    }
}

/// The byte at `i` of `e`, zero past its end.
pub open spec fn byte_at(e: Seq<u8>, i: int) -> u8 {
    if 0 <= i < e.len() {
        e[i]
    } else {
        0
    }
}

pub(crate) proof fn lemma_encode_len(ps: Seq<Seq<u8>>)
    ensures
        encode(ps).len() == ps.len() + sum_lens(ps),
    decreases ps.len(),
{
    if ps.len() > 0 {
        lemma_encode_len(ps.drop_last());
    }
}

pub(crate) proof fn lemma_encode_front(p: Seq<u8>, rest: Seq<Seq<u8>>)
    ensures
        encode(seq![p] + rest) == seq![p.len() as u8] + p.reverse() + encode(rest),
    decreases rest.len(),
{
    let whole = seq![p] + rest;
    if rest.len() == 0 {
        assert(whole.drop_last() =~= Seq::<Seq<u8>>::empty());
        assert(whole.last() == p);
        assert(rest =~= Seq::<Seq<u8>>::empty());
        assert(encode(whole.drop_last()) =~= Seq::<u8>::empty());
        assert(encode(rest) =~= Seq::<u8>::empty());
        assert(encode(whole) =~= seq![p.len() as u8] + p.reverse() + encode(rest));
    } else {
        lemma_encode_front(p, rest.drop_last());
        assert(whole.drop_last() =~= seq![p] + rest.drop_last());
        assert(whole.last() == rest.last());
        assert(encode(whole) =~= seq![p.len() as u8] + p.reverse() + encode(rest));
    }
}

pub(crate) proof fn lemma_sum_lens_remove(ps: Seq<Seq<u8>>, i: int)
    requires
        0 <= i < ps.len(),
    ensures
        sum_lens(ps.remove(i)) + ps[i].len() == sum_lens(ps),
    decreases ps.len(),
{
    if i == ps.len() - 1 {
        assert(ps.remove(i) =~= ps.drop_last());
    } else {
        lemma_sum_lens_remove(ps.drop_last(), i);
        assert(ps.remove(i).drop_last() =~= ps.drop_last().remove(i));
        assert(ps.remove(i).last() == ps.last());
    }
}

pub(crate) proof fn lemma_sum_lens_permutation(a: Seq<Seq<u8>>, b: Seq<Seq<u8>>)
    requires
        a.to_multiset() == b.to_multiset(),
    ensures
        sum_lens(a) == sum_lens(b),
    decreases a.len(),
{
    broadcast use vstd::seq_lib::group_to_multiset_ensures;
    broadcast use vstd::multiset::group_multiset_axioms;

    vstd::seq_lib::to_multiset_len(a);
    vstd::seq_lib::to_multiset_len(b);
    if a.len() == 0 {
        assert(b.len() == 0);
    } else {
        let x = a.last();
        assert(a.to_multiset().count(x) > 0);
        assert(b.contains(x));
        let i = choose|i: int| 0 <= i < b.len() && b[i] == x;
        let br = b.remove(i);
        assert(a =~= a.drop_last().push(x));
        assert(a.drop_last().to_multiset() =~= a.to_multiset().remove(x));
        assert(br.to_multiset() =~= b.to_multiset().remove(x));
        lemma_sum_lens_permutation(a.drop_last(), br);
        lemma_sum_lens_remove(b, i);
    }
}

pub(crate) proof fn lemma_piles_upto(d: Seq<Seq<u8>>, hi: int)
    requires
        d.len() == DESK_SIZE,
        hi <= PILE_END,
    ensures
        sum_lens(piles_upto(d, hi)) == lens_sum(d, PILE_START as int, hi),
        piles_upto(d, hi).len() <= if hi < PILE_START { 0 } else { hi - PILE_START },
        forall|k: int| 0 <= k < piles_upto(d, hi).len() ==> (#[trigger] piles_upto(d, hi)[k]).len() > 0,
    decreases hi,
{
    if hi > PILE_START {
        lemma_piles_upto(d, hi - 1);
        let prev = piles_upto(d, hi - 1);
        if d[hi - 1].len() > 0 {
            let now = piles_upto(d, hi);
            assert(now =~= prev.push(d[hi - 1]));
            assert(now.drop_last() =~= prev);
            assert forall|k: int| 0 <= k < now.len() implies (#[trigger] now[k]).len() > 0 by {
                if k < prev.len() {
                    assert(now[k] == prev[k]);
                }
            }
        } else {
            assert(piles_upto(d, hi) =~= prev);
        }
    } else {
        assert(lens_sum(d, PILE_START as int, hi) == 0);
    }
}

/// Encodings of different sequences of non-empty cascades (each shorter than
/// 256) differ at some byte, counting bytes past the end as zeros.
pub(crate) proof fn lemma_encode_injective(a: Seq<Seq<u8>>, b: Seq<Seq<u8>>)
    requires
        a != b,
        forall|k: int| 0 <= k < a.len() ==> 0 < (#[trigger] a[k]).len() < 256,
        forall|k: int| 0 <= k < b.len() ==> 0 < (#[trigger] b[k]).len() < 256,
    ensures
        exists|i: int|
            0 <= i < encode(a).len() + encode(b).len() && byte_at(encode(a), i) != byte_at(
                encode(b),
                i,
            ),
    decreases a.len() + b.len(),
{
    let ea = encode(a);
    let eb = encode(b);
    if a.len() == 0 {
        assert(b.len() > 0) by {
            if b.len() == 0 {
                assert(a =~= b);
            }
        }
        lemma_encode_front(b[0], b.drop_first());
        assert(b =~= seq![b[0]] + b.drop_first());
        assert(eb[0] == b[0].len() as u8);
        assert(byte_at(ea, 0) != byte_at(eb, 0));
    } else if b.len() == 0 {
        lemma_encode_front(a[0], a.drop_first());
        assert(a =~= seq![a[0]] + a.drop_first());
        assert(ea[0] == a[0].len() as u8);
        assert(byte_at(ea, 0) != byte_at(eb, 0));
    } else {
        let p = a[0];
        let q = b[0];
        lemma_encode_front(p, a.drop_first());
        lemma_encode_front(q, b.drop_first());
        assert(a =~= seq![p] + a.drop_first());
        assert(b =~= seq![q] + b.drop_first());
        assert(ea[0] == p.len() as u8);
        assert(eb[0] == q.len() as u8);
        if p.len() != q.len() {
            assert(byte_at(ea, 0) != byte_at(eb, 0));
        } else if p != q {
            assert(exists|j: int| 0 <= j < p.len() && p[j] != q[j]) by {
                if forall|j: int| 0 <= j < p.len() ==> p[j] == q[j] {
                    assert(p =~= q);
                }
            }
            let j = choose|j: int| 0 <= j < p.len() && p[j] != q[j];
            let at = 1 + (p.len() - 1 - j);
            assert(ea[at] == p.reverse()[p.len() - 1 - j]);
            assert(eb[at] == q.reverse()[q.len() - 1 - j]);
            assert(byte_at(ea, at) != byte_at(eb, at));
        } else {
            let ra = a.drop_first();
            let rb = b.drop_first();
            assert(ra != rb) by {
                if ra == rb {
                    assert(a =~= b);
                }
            }
            assert forall|k: int| 0 <= k < ra.len() implies 0 < (#[trigger] ra[k]).len() < 256 by {
                assert(ra[k] == a[k + 1]);
            }
            assert forall|k: int| 0 <= k < rb.len() implies 0 < (#[trigger] rb[k]).len() < 256 by {
                assert(rb[k] == b[k + 1]);
            }
            lemma_encode_injective(ra, rb);
            let i = choose|i: int|
                0 <= i < encode(ra).len() + encode(rb).len() && byte_at(encode(ra), i) != byte_at(
                    encode(rb),
                    i,
                );
            let off = 1 + p.len();
            assert(ea =~= seq![p.len() as u8] + p.reverse() + encode(ra));
            assert(eb =~= seq![q.len() as u8] + q.reverse() + encode(rb));
            assert(byte_at(ea, off + i) == byte_at(encode(ra), i));
            assert(byte_at(eb, off + i) == byte_at(encode(rb), i));
        }
    }
}

/// The facts about a desk's sorted cascades that its fingerprint needs.
pub(crate) proof fn lemma_sorted_cascades(d: Seq<Seq<u8>>)
    requires
        desk_ok(d),
    ensures
        sorted_cascades(d).len() <= PILE_NUM,
        sum_lens(sorted_cascades(d)) <= deck::CARD_NUM,
        forall|k: int|
            0 <= k < sorted_cascades(d).len() ==> 0 < (#[trigger] sorted_cascades(d)[k]).len() < 256,
        encode(sorted_cascades(d)).len() <= KEY_SIZE - BASE_END,
{
    broadcast use vstd::seq_lib::group_to_multiset_ensures;

    lemma_lex_total_ordering();
    let c = cascades(d);
    let sc = sorted_cascades(d);
    c.lemma_sort_by_ensures(lex_order());
    lemma_piles_upto(d, PILE_END as int);
    lemma_sum_lens_permutation(c, sc);
    lemma_lens_sum_split(d, 0, PILE_START as int, 16);
    assert(sc.len() == c.len()) by {
        assert(sc.to_multiset().len() == c.to_multiset().len());
    }
    assert forall|k: int| 0 <= k < sc.len() implies 0 < (#[trigger] sc[k]).len() < 256 by {
        assert(sc.contains(sc[k]));
        assert(c.contains(sc[k]));
        let j = choose|j: int| 0 <= j < c.len() && c[j] == sc[k];
        assert(c[j].len() > 0);
        assert(sc[k].len() <= sum_lens(sc)) by {
            lemma_sum_lens_remove(sc, k);
        }
    }
    lemma_encode_len(sc);
}

/// Stacks whose non-empty cascades differ, wherever they stand, have
/// different fingerprints.
pub proof fn lemma_fingerprint_cascades(d1: Seq<Seq<u8>>, d2: Seq<Seq<u8>>)
    requires
        desk_ok(d1),
        desk_ok(d2),
        cascades(d1).to_multiset() != cascades(d2).to_multiset(),
    ensures
        fingerprint(d1) != fingerprint(d2),
{
    lemma_lex_total_ordering();
    cascades(d1).lemma_sort_by_ensures(lex_order());
    cascades(d2).lemma_sort_by_ensures(lex_order());
    let s1 = sorted_cascades(d1);
    let s2 = sorted_cascades(d2);
    assert(s1 != s2);
    lemma_sorted_cascades(d1);
    lemma_sorted_cascades(d2);
    lemma_encode_injective(s1, s2);
    let e1 = encode(s1);
    let e2 = encode(s2);
    let i = choose|i: int| 0 <= i < e1.len() + e2.len() && byte_at(e1, i) != byte_at(e2, i);
    if i >= KEY_SIZE - BASE_END {
        assert(byte_at(e1, i) == 0);
        assert(byte_at(e2, i) == 0);
    }
    assert(fingerprint(d1)[BASE_END + i] == byte_at(e1, i));
    assert(fingerprint(d2)[BASE_END + i] == byte_at(e2, i));
}

/// The cascade `p` as a bag of at most one cascade: none if it is empty.
pub open spec fn one_if_nonempty(p: Seq<u8>) -> Multiset<Seq<u8>> {
    if p.len() > 0 {
        Multiset::singleton(p)
    } else {
        Multiset::empty()
    }
}

proof fn lemma_piles_update(d: Seq<Seq<u8>>, hi: int, a: int, x: Seq<u8>)
    requires
        d.len() == DESK_SIZE,
        PILE_START <= a < hi <= PILE_END,
    ensures
        piles_upto(d.update(a, x), hi).to_multiset().add(one_if_nonempty(d[a])) =~= piles_upto(
            d,
            hi,
        ).to_multiset().add(one_if_nonempty(x)),
    decreases hi,
{
    broadcast use vstd::seq_lib::group_to_multiset_ensures;
    broadcast use vstd::multiset::group_multiset_axioms;

    let d2 = d.update(a, x);
    let p1 = piles_upto(d2, hi - 1);
    let p0 = piles_upto(d, hi - 1);
    let lhs = piles_upto(d2, hi).to_multiset().add(one_if_nonempty(d[a]));
    let rhs = piles_upto(d, hi).to_multiset().add(one_if_nonempty(x));
    if hi - 1 > a {
        lemma_piles_update(d, hi - 1, a, x);
        assert(d2[hi - 1] == d[hi - 1]);
        let top = one_if_nonempty(d[hi - 1]);
        if d[hi - 1].len() > 0 {
            assert(piles_upto(d2, hi) =~= p1.push(d[hi - 1]));
            assert(piles_upto(d, hi) =~= p0.push(d[hi - 1]));
        } else {
            assert(piles_upto(d2, hi) =~= p1);
            assert(piles_upto(d, hi) =~= p0);
        }
        assert(piles_upto(d2, hi).to_multiset() =~= p1.to_multiset().add(top));
        assert(piles_upto(d, hi).to_multiset() =~= p0.to_multiset().add(top));
        assert forall|y: Seq<u8>| #[trigger] lhs.count(y) == rhs.count(y) by {
            assert(p1.to_multiset().add(one_if_nonempty(d[a])).count(y) == p0.to_multiset().add(
                one_if_nonempty(x),
            ).count(y));
        }
    } else {
        assert(p1 =~= p0) by {
            lemma_piles_same(d, d2, hi - 1);
        }
        if x.len() > 0 {
            assert(piles_upto(d2, hi) =~= p1.push(x));
        } else {
            assert(piles_upto(d2, hi) =~= p1);
        }
        if d[a].len() > 0 {
            assert(piles_upto(d, hi) =~= p0.push(d[a]));
        } else {
            assert(piles_upto(d, hi) =~= p0);
        }
        assert(piles_upto(d2, hi).to_multiset() =~= p0.to_multiset().add(one_if_nonempty(x)));
        assert(piles_upto(d, hi).to_multiset() =~= p0.to_multiset().add(one_if_nonempty(d[a])));
    }
    assert(lhs =~= rhs);
}

proof fn lemma_piles_same(d1: Seq<Seq<u8>>, d2: Seq<Seq<u8>>, hi: int)
    requires
        forall|i: int| PILE_START <= i < hi ==> d1[i] == d2[i],
    ensures
        piles_upto(d1, hi) == piles_upto(d2, hi),
    decreases hi,
{
    if hi > PILE_START {
        lemma_piles_same(d1, d2, hi - 1);
    }
}

/// Fingerprint permutation invariance, one exchange at a time: swapping the
/// cascades of two spots leaves the fingerprint unchanged, so any
/// reassignment of cascades to spots, a series of such swaps, does too.
pub proof fn lemma_fingerprint_swap(d: Seq<Seq<u8>>, a: int, b: int)
    requires
        d.len() == DESK_SIZE,
        PILE_START <= a < PILE_END,
        PILE_START <= b < PILE_END,
    ensures
        fingerprint(d.update(a, d[b]).update(b, d[a])) == fingerprint(d),
{
    broadcast use vstd::multiset::group_multiset_axioms;

    let d1 = d.update(a, d[b]);
    let d2 = d1.update(b, d[a]);
    if a == b {
        assert(d2 =~= d);
    } else {
        lemma_piles_update(d, PILE_END as int, a, d[b]);
        lemma_piles_update(d1, PILE_END as int, b, d[a]);
        assert(d1[b] == d[b]);
        let m0 = cascades(d).to_multiset();
        let m1 = cascades(d1).to_multiset();
        let m2 = cascades(d2).to_multiset();
        assert forall|x: Seq<u8>| #[trigger] m2.count(x) == m0.count(x) by {
            assert(m1.add(one_if_nonempty(d[a])).count(x) == m0.add(one_if_nonempty(d[b])).count(x));
            assert(m2.add(one_if_nonempty(d[b])).count(x) == m1.add(one_if_nonempty(d[a])).count(x));
        }
        assert(m2 =~= m0);
        assert forall|i: int| 0 <= i < BASE_END implies #[trigger] d2[i].len() == d[i].len() by {
            assert(d2[i] == d[i]);
        }
        lemma_fingerprint_permutation(d2, d);
    }
}

/// What the free cells hold does not enter the fingerprint.
pub proof fn lemma_fingerprint_cells(d: Seq<Seq<u8>>, c: int, x: Seq<u8>)
    requires
        d.len() == DESK_SIZE,
        BASE_END <= c < PILE_START,
    ensures
        fingerprint(d.update(c, x)) == fingerprint(d),
{
    let d2 = d.update(c, x);
    lemma_piles_same(d, d2, PILE_END as int);
    assert forall|i: int| 0 <= i < BASE_END implies #[trigger] d2[i].len() == d[i].len() by {
        assert(d2[i] == d[i]);
    }
    lemma_fingerprint_permutation(d2, d);
}

} // verus!
