//! The search that finds the rows a piece reaches.
//!
//! The search keeps, for each slot, the rows found and already expanded and
//! the rows found and still pending. It takes a slot with pending rows, lets
//! the piece fall, step and turn from them, hands what comes of it to the
//! slots it leads to, and goes on until nothing is pending. What it has found
//! then is `Setup::reach`.
use crate::bits::{
    fall, lemma_fall, lemma_kick, lemma_masked, lemma_within, resting, within, ALL_ROWS,
};
use crate::data::{Piece, Rotation};
use crate::kicks::{kicks, kicks_180};
use crate::least::lemma_reach_least;
use crate::movegen::{all_listed, lemma_listed_goal, lemma_listed_grows};
use crate::reach::{
    lemma_closed_slot, lemma_kick_ok_grow, lemma_kick_slot, lemma_landed_within, lemma_reach_is,
    lemma_seed_free, lemma_shut_resting,
    lemma_shift_ok_grow, lemma_sink_ok_grow, lemma_slot_ok_grow, lemma_slot_ok_nothing,
    lemma_slot_ok_union, lemma_turn_ok_grow, Marks, Setup,
};
use vstd::prelude::*;

verus! {

/// The row sets of a `Setup`, computed once for a generation.
pub struct Field {
    pub piece: Piece,
    pub blocked: [u64; 40],
    pub shut: [u64; 40],
    pub seeds: [u64; 40],
    pub spin: [u64; 40],
    pub front: [u64; 40],
}

/// The state of a search.
pub struct Search {
    /// Rows found and not yet expanded.
    pub pending: [u64; 40],
    /// Rows found and expanded.
    pub found: [u64; 40],
    pub plain: [u64; 40],
    pub mini: [u64; 40],
    pub full: [u64; 40],
    /// The slots that may have pending rows, bit `s` for slot `s`.
    pub queue: u64,
}

impl Field {
    /// Whether the row sets of slot `s` are those of `su`.
    pub open spec fn caches_at(self, su: Setup, s: int) -> bool {
        &&& self.blocked[s] == su.blocked(s)
        &&& self.shut[s] == su.shut(s)
        &&& self.seeds[s] == su.seed(s)
        &&& self.spin[s] == su.spin(s)
        &&& self.front[s] == su.front(s)
    }

    /// Whether the field holds the row sets of `su`.
    pub open spec fn caches(self, su: Setup) -> bool {
        self.piece == su.piece && forall|s: int| 0 <= s < 40 ==> #[trigger] self.caches_at(su, s)
    }
}

impl Search {
    /// Everything found, expanded or not, with how it was entered.
    pub open spec fn disc(self) -> Marks {
        Marks {
            found: Seq::new(40, |t: int| self.found[t] | self.pending[t]),
            plain: self.plain@,
            mini: self.mini@,
            full: self.full@,
        }
    }

    /// What was found and expanded, with how it was entered.
    pub open spec fn marks(self) -> Marks {
        Marks { found: self.found@, plain: self.plain@, mini: self.mini@, full: self.full@ }
    }

    /// Whether slot `t` is in the queue.
    pub open spec fn queued(self, t: int) -> bool {
        self.queue & (1u64 << (t as u64)) != 0
    }

    /// How much is left to find in the slots `0 .. n`.
    pub open spec fn weight_upto(self, n: int) -> int
        decreases n,
    {
        if n <= 0 {
            0
        } else {
            self.weight_upto(n - 1) + (u64::MAX - (self.found[n - 1] | self.pending[n - 1]))
        }
    }

    /// How much is left to find.
    pub open spec fn weight(self) -> int {
        self.weight_upto(40)
    }

    /// What holds of slot `t` between two expansions.
    pub open spec fn inv_at(self, su: Setup, drops: Seq<u64>, t: int) -> bool {
        &&& self.pending[t] != 0 ==> self.queued(t)
        &&& within(su.seed(t), self.found[t] | self.pending[t])
        &&& within(su.seed(t), self.plain[t])
        &&& su.slot_ok(t, self.found[t], drops[t], self.disc())
        &&& within(self.found[t] | self.pending[t], !su.blocked(t))
    }

    /// What holds between two expansions: the queue names every slot with
    /// pending rows, the rows where the piece starts are found, every move
    /// from an expanded row leads to a found row, and all that is found lies
    /// within every closed family.
    pub open spec fn inv(self, su: Setup, drops: Seq<u64>) -> bool {
        &&& self.queue < 0x100_0000_0000
        &&& drops.len() == 40
        &&& forall|t: int| 0 <= t < 40 ==> #[trigger] self.inv_at(su, drops, t)
        &&& forall|h: Marks| #[trigger] su.closed(h) ==> self.disc().below(h)
    }

    /// How a later state relates to an earlier one while a slot is expanded.
    pub open spec fn moved_on(self, later: Search) -> bool {
        &&& self.disc().below(later.disc())
        &&& forall|u: int| 0 <= u < 40 ==> #[trigger] later.found[u] == self.found[u]
        &&& forall|u: int| 0 <= u < 40 ==> within(#[trigger] self.pending[u], later.pending[u])
        &&& forall|u: int| 0 <= u < 40 && self.queued(u) ==> #[trigger] later.queued(u)
        &&& later.weight() < self.weight() || (later.weight() == self.weight() && later.queue
            == self.queue)
    }
}

/// Facts about the bits of the queue.
proof fn lemma_queue(q: u64, t: u64, u: u64)
    by (bit_vector)
    requires
        t < 40,
        u < 40,
        q < 0x100_0000_0000,
    ensures
        (q | (1u64 << t)) < 0x100_0000_0000,
        (q ^ (1u64 << t)) < 0x100_0000_0000 || q & (1u64 << t) == 0,
        (q | (1u64 << t)) & (1u64 << t) != 0,
        q & (1u64 << u) != 0 ==> (q | (1u64 << t)) & (1u64 << u) != 0,
        q & (1u64 << t) != 0 ==> q | (1u64 << t) == q,
        q & (1u64 << t) != 0 ==> (q ^ (1u64 << t)) < q,
        u != t && q & (1u64 << u) != 0 ==> (q ^ (1u64 << t)) & (1u64 << u) != 0,
        q == 0 ==> q & (1u64 << t) == 0,
        t < 40 && 1u64 << t != 0,
{
}

/// The lowest bit of a queue that is not empty names a slot in the queue.
proof fn lemma_queue_first(q: u64, t: u64)
    by (bit_vector)
    requires
        q < 0x100_0000_0000,
        q != 0,
        t < 64,
        (q >> t) & 1 == 1,
    ensures
        t < 40,
        q & (1u64 << t) != 0,
{
}

/// Adding rows makes a word greater unless it has them all.
proof fn lemma_grown(a: u64, m: u64)
    by (bit_vector)
    ensures
        a | m >= a,
        (a | m == a) <==> within(m, a),
        within(m, a) ==> a | m == a,
        a | m != a ==> a | m > a,
{
}

/// Rows that are offered to a slot, without those that are shut or found.
proof fn lemma_offer(rows: u64, shut: u64, found: u64, pending: u64, blocked: u64, h: u64)
    by (bit_vector)
    requires
        within(blocked, shut),
    ensures
        within(rows & !shut, h) && within(found | pending, h) ==> within(
            found | (pending | (rows & !(shut | found))),
            h,
        ),
        within(found | pending, !blocked) ==> within(
            found | (pending | (rows & !(shut | found))),
            !blocked,
        ),
        within(rows & !shut, found | (pending | (rows & !(shut | found)))),
        within(found | pending, found | (pending | (rows & !(shut | found)))),
        within(pending, pending | (rows & !(shut | found))),
        within(rows & !(shut | found), pending) ==> found | (pending | (rows & !(shut | found)))
            == found | pending,
        rows & !(shut | found) == 0 ==> pending | (rows & !(shut | found)) == pending,
        found | (pending | (rows & !(shut | found))) >= found | pending,
        found | (pending | (rows & !(shut | found))) == found | pending ==> within(
            rows & !(shut | found),
            pending,
        ),
{
}

/// The weight of two states that differ in what is found in slot `t` only.
proof fn lemma_weight_change(a: Search, b: Search, t: int, n: int)
    requires
        0 <= t < 40,
        0 <= n <= 40,
        forall|u: int|
            0 <= u < 40 && u != t ==> (#[trigger] b.found[u] | b.pending[u]) == (a.found[u]
                | a.pending[u]),
    ensures
        b.weight_upto(n) == a.weight_upto(n) - if t < n {
            (b.found[t] | b.pending[t]) - (a.found[t] | a.pending[t])
        } else {
            0
        },
    decreases n,
{
    if n > 0 {
        lemma_weight_change(a, b, t, n - 1);
        if n - 1 != t {
            assert((b.found[n - 1] | b.pending[n - 1]) == (a.found[n - 1] | a.pending[n - 1]));
        }
    }
}

/// `moved_on` of three states in a row.
proof fn lemma_moved_on(a: Search, b: Search, c: Search)
    requires
        a.moved_on(b),
        b.moved_on(c),
    ensures
        a.moved_on(c),
{
    assert forall|t: int| 0 <= t < 40 implies #[trigger] a.disc().below_at(c.disc(), t) by {
        assert(a.disc().below_at(b.disc(), t));
        assert(b.disc().below_at(c.disc(), t));
        lemma_within(a.disc().found[t], b.disc().found[t], c.disc().found[t]);
        lemma_within(a.disc().plain[t], b.disc().plain[t], c.disc().plain[t]);
        lemma_within(a.disc().mini[t], b.disc().mini[t], c.disc().mini[t]);
        lemma_within(a.disc().full[t], b.disc().full[t], c.disc().full[t]);
    }
    assert forall|u: int| 0 <= u < 40 implies within(#[trigger] a.pending[u], c.pending[u]) by {
        lemma_within(a.pending[u], b.pending[u], c.pending[u]);
    }
}

/// A state has moved on to itself.
proof fn lemma_moved_on_self(a: Search)
    ensures
        a.moved_on(a),
{
    assert forall|t: int| 0 <= t < 40 implies #[trigger] a.disc().below_at(a.disc(), t) by {
        lemma_within(a.disc().found[t], 0, 0);
        lemma_within(a.disc().plain[t], 0, 0);
        lemma_within(a.disc().mini[t], 0, 0);
        lemma_within(a.disc().full[t], 0, 0);
    }
    assert forall|u: int| 0 <= u < 40 implies within(#[trigger] a.pending[u], a.pending[u]) by {
        lemma_within(a.pending[u], 0, 0);
    }
}

/// Hands `rows` to slot `t`: those that are neither shut nor found become
/// pending there. Marks `plain`, `mini` and `full` in slot `t`.
fn deliver(
    st: &mut Search,
    f: &Field,
    t: usize,
    rows: u64,
    plain: u64,
    mini: u64,
    full: u64,
    Ghost(su): Ghost<Setup>,
    Ghost(drops): Ghost<Seq<u64>>,
)
    requires
        t < 40,
        f.caches(su),
        old(st).inv(su, drops),
        forall|h: Marks|
            #[trigger] su.closed(h) ==> within(rows & !su.shut(t as int), h.found[t as int])
                && within(plain, h.plain[t as int]) && within(mini, h.mini[t as int]) && within(
                full,
                h.full[t as int],
            ),
    ensures
        final(st).inv(su, drops),
        old(st).moved_on(*final(st)),
        within(rows & !su.shut(t as int), final(st).disc().found[t as int]),
        within(plain, final(st).plain[t as int]),
        within(mini, final(st).mini[t as int]),
        within(full, final(st).full[t as int]),
        final(st).pending[t as int] == old(st).pending[t as int] | (rows & !(su.shut(t as int)
            | old(st).found[t as int])),
        forall|u: int| 0 <= u < 40 && u != t ==> final(st).pending[u] == old(st).pending[u],
{
    let ghost before = *st;
    assert(f.caches_at(su, t as int));
    assert(before.inv_at(su, drops, t as int));
    let m: u64 = rows & !(f.shut[t] | st.found[t]);
    if m != 0 {
        st.pending[t] = st.pending[t] | m;
        st.queue = st.queue | (1u64 << (t as u64));
    }
    st.plain[t] = st.plain[t] | plain;
    st.mini[t] = st.mini[t] | mini;
    st.full[t] = st.full[t] | full;
    proof {
        let sh = su.shut(t as int);
        let fo = before.found[t as int];
        let pe = before.pending[t as int];
        let bl = su.blocked(t as int);
        lemma_within(bl, su.surface(t as int), 0);
        lemma_offer(rows, sh, fo, pe, bl, 0);
        assert(st.pending[t as int] == pe | m);
        assert(st.found[t as int] | st.pending[t as int] == fo | (pe | m));
        lemma_queue(before.queue, t as u64, t as u64);
        lemma_within(before.plain[t as int], plain, 0);
        lemma_within(before.mini[t as int], mini, 0);
        lemma_within(before.full[t as int], full, 0);
        assert forall|u: int| 0 <= u < 40 implies #[trigger] before.disc().below_at(
            st.disc(),
            u,
        ) by {
            lemma_within(before.found[u] | before.pending[u], 0, 0);
            lemma_within(before.plain[u], plain, 0);
            lemma_within(before.mini[u], mini, 0);
            lemma_within(before.full[u], full, 0);
            if u != t {
                assert(st.found[u] | st.pending[u] == before.found[u] | before.pending[u]);
            }
        }
        assert(before.disc().below(st.disc()));
        assert forall|u: int| 0 <= u < 40 implies within(
            #[trigger] before.pending[u],
            st.pending[u],
        ) by {
            lemma_within(before.pending[u], 0, 0);
        }
        assert forall|u: int| 0 <= u < 40 && before.queued(u) implies #[trigger] st.queued(u) by {
            lemma_queue(before.queue, t as u64, u as u64);
        }
        lemma_weight_change(before, *st, t as int, 40);
        lemma_grown(pe, m);
        if m != 0 && (fo | (pe | m)) == (fo | pe) {
            assert(within(m, pe));
            lemma_within(m, 0, 0);
            assert(pe != 0);
            assert(before.queued(t as int));
        }
        assert(before.moved_on(*st));
        assert forall|u: int| 0 <= u < 40 implies #[trigger] st.inv_at(su, drops, u) by {
            assert(before.inv_at(su, drops, u));
            lemma_slot_ok_grow(su, u, before.found[u], drops[u], before.disc(), st.disc());
            assert(before.disc().below_at(st.disc(), u));
            lemma_within(
                su.seed(u),
                before.found[u] | before.pending[u],
                st.found[u] | st.pending[u],
            );
            lemma_within(su.seed(u), before.plain[u], st.plain[u]);
            lemma_queue(before.queue, t as u64, u as u64);
            if u != t {
                assert(st.found[u] | st.pending[u] == before.found[u] | before.pending[u]);
            }
            assert(st.pending[u] != 0 ==> st.queued(u));
            assert(within(st.found[u] | st.pending[u], !su.blocked(u)));
        }
        assert forall|h: Marks| #[trigger] su.closed(h) implies st.disc().below(h) by {
            assert(before.disc().below(h));
            assert forall|u: int| 0 <= u < 40 implies #[trigger] st.disc().below_at(h, u) by {
                assert(before.disc().below_at(h, u));
                if u == t {
                    lemma_offer(rows, sh, fo, pe, bl, h.found[u]);
                    lemma_within(before.plain[u], plain, h.plain[u]);
                    lemma_within(before.mini[u], mini, h.mini[u]);
                    lemma_within(before.full[u], full, h.full[u]);
                } else {
                    assert(st.found[u] | st.pending[u] == before.found[u] | before.pending[u]);
                }
            }
        }
    }
}

/// The rows that a fall from `rows` passes: the least set of rows that holds
/// the rows one step below `rows` and is closed under falling by one row.
fn sink(rows: u64, blocked: u64) -> (m: u64)
    ensures
        within(fall(rows, blocked), m),
        within(fall(m, blocked), m),
        forall|d: u64|
            within(fall(rows, blocked), d) && #[trigger] within(fall(d, blocked), d) ==> within(
                m,
                d,
            ),
{
    let mut m: u64 = (rows >> 1) & !blocked;
    let mut grown: u64 = m | ((m >> 1) & !blocked);
    proof {
        lemma_within(m, 0, 0);
    }
    while grown != m
        invariant
            within(fall(rows, blocked), m),
            grown == m | fall(m, blocked),
            forall|d: u64|
                within(fall(rows, blocked), d) && #[trigger] within(fall(d, blocked), d)
                    ==> within(m, d),
        decreases u64::MAX - m,
    {
        proof {
            lemma_grown(m, fall(m, blocked));
            lemma_within(fall(rows, blocked), m, grown);
            lemma_within(m, fall(m, blocked), 0);
            assert forall|d: u64|
                within(fall(rows, blocked), d) && #[trigger] within(
                    fall(d, blocked),
                    d,
                ) implies within(grown, d) by {
                lemma_fall(m, d, blocked);
                lemma_within(fall(m, blocked), fall(d, blocked), d);
                lemma_within(m, fall(m, blocked), d);
            }
        }
        m = grown;
        grown = m | ((m >> 1) & !blocked);
    }
    proof {
        lemma_grown(m, fall(m, blocked));
    }
    m
}

/// Lets the piece fall from the pending rows of slot `s`: the rows where it
/// comes to rest become pending too, and the rows that it passes are marked
/// plain.
fn settle(
    st: &mut Search,
    f: &Field,
    s: usize,
    Ghost(su): Ghost<Setup>,
    Ghost(drops): Ghost<Seq<u64>>,
) -> (m: Ghost<u64>)
    requires
        s < 40,
        f.caches(su),
        old(st).inv(su, drops),
    ensures
        final(st).inv(su, drops),
        old(st).moved_on(*final(st)),
        su.sink_ok(s as int, final(st).pending[s as int], m@, final(st).disc()),
{
    let ghost before = *st;
    assert(f.caches_at(su, s as int));
    let rows0: u64 = st.pending[s];
    let b: u64 = f.blocked[s];
    let m: u64 = sink(rows0, b);
    let landing: u64 = m & ((!b) & ((b << 1) | 1));
    proof {
        assert(landing == m & resting(b));
        assert forall|h: Marks| #[trigger] su.closed(h) implies within(
            landing & !su.shut(s as int),
            h.found[s as int],
        ) && within(m, h.plain[s as int]) && within(0, h.mini[s as int]) && within(
            0,
            h.full[s as int],
        ) by {
            let dh = lemma_closed_slot(su, h, s as int);
            assert(before.disc().below(h));
            assert(before.disc().below_at(h, s as int));
            let big = h.found[s as int];
            lemma_within(before.found[s as int], rows0, big);
            lemma_fall(rows0, big, b);
            lemma_within(fall(rows0, b), fall(big, b), dh);
            assert(within(m, dh));
            lemma_within(m, dh, resting(b));
            lemma_within(m & resting(b), dh & resting(b), big);
            lemma_within(landing, big, !su.shut(s as int));
            lemma_within(m, dh, h.plain[s as int]);
            lemma_within(h.mini[s as int], 0, 0);
            lemma_within(h.full[s as int], 0, 0);
        }
    }
    deliver(st, f, s, landing, m, 0, 0, Ghost(su), Ghost(drops));
    proof {
        let rows = st.pending[s as int];
        let fo = before.found[s as int];
        let sh = su.shut(s as int);
        assert(before.inv_at(su, drops, s as int));
        assert(st.inv_at(su, drops, s as int));
        lemma_shut_resting(su, s as int);
        lemma_settled(rows0, rows, m, b, sh, fo, su.seed(s as int), st.disc().found[s as int]);
    }
    Ghost(m)
}

/// What holds of the rows of a slot after the piece has fallen from them.
proof fn lemma_settled(
    rows0: u64,
    rows: u64,
    m: u64,
    b: u64,
    sh: u64,
    fo: u64,
    seed: u64,
    disc: u64,
)
    by (bit_vector)
    requires
        within(fall(rows0, b), m),
        rows == rows0 | ((m & resting(b)) & !(sh | fo)),
        within(resting(b) & sh, seed),
        within(seed, disc),
        within((m & resting(b)) & !sh, disc),
    ensures
        within(fall(rows, b), m),
        within(m & resting(b), disc),
{
}

/// Lets the piece step from `rows` of a slot to the slot `t` beside it.
fn step_aside(
    st: &mut Search,
    f: &Field,
    s: usize,
    t: usize,
    rows: u64,
    Ghost(su): Ghost<Setup>,
    Ghost(drops): Ghost<Seq<u64>>,
)
    requires
        s < 40,
        t < 40,
        t == s + 4 || s == t + 4,
        f.caches(su),
        old(st).inv(su, drops),
        within(rows, old(st).pending[s as int]),
    ensures
        final(st).inv(su, drops),
        old(st).moved_on(*final(st)),
        final(st).pending[s as int] == old(st).pending[s as int],
        su.shift_ok(t as int, rows, final(st).disc()),
{
    let ghost before = *st;
    assert(f.caches_at(su, t as int));
    proof {
        assert forall|h: Marks| #[trigger] su.closed(h) implies within(
            rows & !su.shut(t as int),
            h.found[t as int],
        ) && within(rows & !f.blocked[t as int], h.plain[t as int]) && within(
            0,
            h.mini[t as int],
        ) && within(0, h.full[t as int]) by {
            let dh = lemma_closed_slot(su, h, s as int);
            assert(before.disc().below(h));
            assert(before.disc().below_at(h, s as int));
            let big = h.found[s as int];
            lemma_within(before.found[s as int], before.pending[s as int], big);
            lemma_within(rows, before.pending[s as int], big);
            assert(su.shift_ok(t as int, big, h));
            lemma_masked(rows, big, !su.shut(t as int), 0, h.found[t as int]);
            lemma_masked(rows, big, !su.blocked(t as int), 0, h.plain[t as int]);
            lemma_within(h.mini[t as int], 0, 0);
            lemma_within(h.full[t as int], 0, 0);
        }
    }
    deliver(st, f, t, rows, rows & !f.blocked[t], 0, 0, Ghost(su), Ghost(drops));
}

/// Lets the rows `cur` of slot `s`, which none of the kicks before kick `i`
/// fits, land in slot `t` with kick `i`. Returns the rows that it does not fit.
fn land(
    st: &mut Search,
    f: &Field,
    s: usize,
    q: usize,
    i: usize,
    t: usize,
    k: u64,
    cur: u64,
    Ghost(rows): Ghost<u64>,
    Ghost(su): Ghost<Setup>,
    Ghost(drops): Ghost<Seq<u64>>,
) -> (next: u64)
    requires
        s < 40,
        1 <= q <= 3,
        i < Setup::kick_count(q as int),
        su.piece != Piece::O,
        f.caches(su),
        old(st).inv(su, drops),
        within(rows, old(st).pending[s as int]),
        t == su.kick_slot(s as int, q as int, i as int),
        k == su.kick_by(s as int, q as int, i as int),
        cur == su.left(s as int, q as int, i as int, rows),
    ensures
        final(st).inv(su, drops),
        old(st).moved_on(*final(st)),
        final(st).pending[s as int] == old(st).pending[s as int],
        next == su.left(s as int, q as int, i + 1, rows),
        su.kick_ok(s as int, q as int, i as int, rows, final(st).disc()),
{
    proof {
        lemma_kick_slot(su, s as int, q as int, i as int);
    }
    assert(f.caches_at(su, t as int));
    let l: u64 = ((cur << k) >> 3) & !f.blocked[t];
    let next: u64 = cur ^ ((l << 3) >> k);
    let sp: u64 = l & f.spin[t];
    let fm: u64 = if q != 2 && i >= 4 {
        ALL_ROWS
    } else {
        f.front[t]
    };
    proof {
        lemma_kick(cur, 0, k, su.blocked(t as int));
        assert(l == su.landed(s as int, q as int, i as int, rows));
        assert(next == su.left(s as int, q as int, i + 1, rows));
        assert(fm == su.full_mask(s as int, q as int, i as int));
        assert forall|h: Marks| #[trigger] su.closed(h) implies within(
            l & !su.shut(t as int),
            h.found[t as int],
        ) && within(l & !f.spin[t as int], h.plain[t as int]) && within(
            sp & !fm,
            h.mini[t as int],
        ) && within(sp & fm, h.full[t as int]) by {
            let dh = lemma_closed_slot(su, h, s as int);
            assert(st.disc().below(h));
            assert(st.disc().below_at(h, s as int));
            let big = h.found[s as int];
            lemma_within(st.found[s as int], st.pending[s as int], big);
            lemma_within(rows, st.pending[s as int], big);
            assert(su.turn_ok(s as int, q as int, big, h));
            assert(su.kick_ok(s as int, q as int, i as int, big, h));
            lemma_landed_within(su, s as int, q as int, i as int, rows, big);
            let lb = su.landed(s as int, q as int, i as int, big);
            lemma_masked(l, lb, !su.shut(t as int), 0, h.found[t as int]);
            lemma_masked(l, lb, !su.spin(t as int), 0, h.plain[t as int]);
            lemma_masked(l, lb, su.spin(t as int), !fm, h.mini[t as int]);
            lemma_masked(l, lb, su.spin(t as int), fm, h.full[t as int]);
        }
    }
    deliver(st, f, t, l, l & !f.spin[t], sp & !fm, sp & fm, Ghost(su), Ghost(drops));
    next
}

/// Lets the piece turn by `q` quarters from `rows` of slot `s`, with the
/// first kick that fits each row.
fn turn(
    st: &mut Search,
    f: &Field,
    s: usize,
    q: usize,
    rows: u64,
    Ghost(su): Ghost<Setup>,
    Ghost(drops): Ghost<Seq<u64>>,
)
    requires
        s < 40,
        1 <= q <= 3,
        su.piece != Piece::O,
        f.caches(su),
        old(st).inv(su, drops),
        within(rows, old(st).pending[s as int]),
    ensures
        final(st).inv(su, drops),
        old(st).moved_on(*final(st)),
        final(st).pending[s as int] == old(st).pending[s as int],
        su.turn_ok(s as int, q as int, rows, final(st).disc()),
{
    let x: usize = s / 4;
    let r: usize = s % 4;
    let to_r: usize = (r + q) % 4;
    let from = Rotation::from_ordinal(r);
    let to = Rotation::from_ordinal(r + q);
    let n: usize = if q == 2 {
        6
    } else {
        5
    };
    let table: [(i8, i8); 6] = if q == 2 {
        kicks_180(f.piece, from, to)
    } else {
        let k = kicks(f.piece, from, to);
        [k[0], k[1], k[2], k[3], k[4], (0, 0)]
    };
    let mut cur: u64 = rows;
    let mut i: usize = 0;
    proof {
        lemma_moved_on_self(*st);
        assert(from == Setup::rot(s as int));
        assert(to == Setup::rot(s + q));
    }
    while i < n
        invariant
            s < 40,
            1 <= q <= 3,
            x == s / 4,
            to_r == (s + q) % 4,
            n == Setup::kick_count(q as int),
            i <= n,
            su.piece != Piece::O,
            f.caches(su),
            st.inv(su, drops),
            old(st).moved_on(*st),
            st.pending[s as int] == old(st).pending[s as int],
            within(rows, st.pending[s as int]),
            cur == su.left(s as int, q as int, i as int, rows),
            forall|j: int|
                0 <= j < n ==> (#[trigger] table[j]).0 == su.kick_at(s as int, q as int, j).0
                    && table[j].1 == su.kick_at(s as int, q as int, j).1,
            forall|j: int|
                0 <= j < i ==> #[trigger] su.kick_ok(s as int, q as int, j, rows, st.disc()),
        decreases n - i,
    {
        let ghost before = *st;
        let (kx, ky) = table[i];
        proof {
            lemma_kick_slot(su, s as int, q as int, i as int);
        }
        let nx: i8 = x as i8 + kx;
        if nx >= 0 && nx <= 9 {
            let t: usize = 4 * (nx as usize) + to_r;
            let k: u64 = (ky + 3) as u64;
            cur = land(st, f, s, q, i, t, k, cur, Ghost(rows), Ghost(su), Ghost(drops));
            proof {
                lemma_moved_on(*old(st), before, *st);
                assert forall|j: int| 0 <= j < i + 1 implies #[trigger] su.kick_ok(
                    s as int,
                    q as int,
                    j,
                    rows,
                    st.disc(),
                ) by {
                    if j < i {
                        lemma_kick_ok_grow(su, s as int, q as int, j, rows, before.disc(), st.disc());
                    }
                }
            }
        } else {
            assert(su.kick_slot(s as int, q as int, i as int) == -1);
            assert(cur == su.left(s as int, q as int, i + 1, rows));
        }
        i += 1;
    }
}

/// Moves the pending rows of slot `s` to the found ones and takes the slot
/// out of the queue.
fn retire(
    st: &mut Search,
    s: usize,
    Ghost(su): Ghost<Setup>,
    Ghost(drops): Ghost<Seq<u64>>,
    Ghost(m): Ghost<u64>,
) -> (next: Ghost<Seq<u64>>)
    requires
        s < 40,
        old(st).inv(su, drops),
        old(st).queued(s as int),
        su.slot_ok(s as int, old(st).pending[s as int], m, old(st).disc()),
    ensures
        final(st).inv(su, next@),
        final(st).weight() == old(st).weight(),
        final(st).queue < old(st).queue,
{
    let ghost before = *st;
    let rows: u64 = st.pending[s];
    st.found[s] = st.found[s] | rows;
    st.pending[s] = 0;
    st.queue = st.queue ^ (1u64 << (s as u64));
    let ghost next = drops.update(s as int, drops[s as int] | m);
    proof {
        lemma_queue(before.queue, s as u64, s as u64);
        assert forall|u: int| 0 <= u < 40 implies (#[trigger] st.found[u] | st.pending[u]) == (
        before.found[u] | before.pending[u]) by {
            lemma_within(before.found[u] | before.pending[u], 0, 0);
        }
        assert(st.disc().found =~= before.disc().found);
        assert(st.disc() == before.disc());
        lemma_weight_change(before, *st, s as int, 40);
        assert forall|u: int| 0 <= u < 40 implies #[trigger] st.inv_at(su, next, u) by {
            assert(before.inv_at(su, drops, u));
            if u == s {
                lemma_slot_ok_union(
                    su,
                    u,
                    before.found[u],
                    drops[u],
                    before.pending[u],
                    m,
                    before.disc(),
                );
            } else {
                lemma_queue(before.queue, s as u64, u as u64);
            }
        }
    }
    Ghost(next)
}

/// Expands slot `s`: lets the piece fall, step to both sides and turn all
/// three ways from its pending rows, then retires them.
fn expand(
    st: &mut Search,
    f: &Field,
    s: usize,
    Ghost(su): Ghost<Setup>,
    Ghost(drops): Ghost<Seq<u64>>,
) -> (next: Ghost<Seq<u64>>)
    requires
        s < 40,
        f.caches(su),
        old(st).inv(su, drops),
        old(st).queued(s as int),
    ensures
        final(st).inv(su, next@),
        final(st).weight() < old(st).weight() || (final(st).weight() == old(st).weight()
            && final(st).queue < old(st).queue),
{
    let m = settle(st, f, s, Ghost(su), Ghost(drops));
    let ghost st1 = *st;
    let rows: u64 = st.pending[s];
    proof {
        lemma_within(rows, 0, 0);
    }
    if s >= 4 {
        step_aside(st, f, s, s - 4, rows, Ghost(su), Ghost(drops));
    }
    let ghost st2 = *st;
    if s < 36 {
        step_aside(st, f, s, s + 4, rows, Ghost(su), Ghost(drops));
    }
    let ghost st3 = *st;
    if !matches!(f.piece, Piece::O) {
        turn(st, f, s, 1, rows, Ghost(su), Ghost(drops));
    }
    let ghost st4 = *st;
    if !matches!(f.piece, Piece::O) {
        turn(st, f, s, 3, rows, Ghost(su), Ghost(drops));
    }
    let ghost st5 = *st;
    if !matches!(f.piece, Piece::O) {
        turn(st, f, s, 2, rows, Ghost(su), Ghost(drops));
    }
    let ghost st6 = *st;
    proof {
        lemma_moved_on_self(st1);
        lemma_moved_on_self(st2);
        lemma_moved_on_self(st3);
        lemma_moved_on_self(st4);
        lemma_moved_on_self(st5);
        // every state has moved on to the last one
        lemma_moved_on(st4, st5, st6);
        lemma_moved_on(st3, st4, st6);
        lemma_moved_on(st2, st3, st6);
        lemma_moved_on(st1, st2, st6);
        lemma_moved_on(*old(st), st1, st6);
        lemma_sink_ok_grow(su, s as int, rows, m@, st1.disc(), st6.disc());
        if s >= 4 {
            lemma_shift_ok_grow(su, s - 4, rows, st2.disc(), st6.disc());
        }
        if s < 36 {
            lemma_shift_ok_grow(su, s + 4, rows, st3.disc(), st6.disc());
        }
        if su.piece != Piece::O {
            lemma_turn_ok_grow(su, s as int, 1, rows, st4.disc(), st6.disc());
            lemma_turn_ok_grow(su, s as int, 3, rows, st5.disc(), st6.disc());
        }
        assert(su.slot_ok(s as int, rows, m@, st6.disc()));
    }
    retire(st, s, Ghost(su), Ghost(drops), m)
}

/// Finds the rows that the piece reaches. With `early` the search ends as
/// soon as every row in which the piece can rest at all is listed: what it
/// has found by then may be less than what the piece reaches, but lists the
/// same rows.
pub fn explore(f: &Field, early: bool, Ghost(su): Ghost<Setup>) -> (st: Search)
    requires
        f.caches(su),
        early ==> su.piece != Piece::T,
    ensures
        su.least(su.reach()),
        st.disc() == st.marks(),
        !early ==> st.marks() == su.reach(),
        forall|c: int| 0 <= c < 40 ==> #[trigger] su.listed(st.marks(), c) == su.listed(su.reach(), c),
        forall|t: int| 0 <= t < 40 ==> within(#[trigger] st.found[t], !su.blocked(t)),
{
    let mut st = Search {
        pending: f.seeds,
        found: [0u64;40],
        plain: f.seeds,
        mini: [0u64;40],
        full: [0u64;40],
        queue: 0,
    };
    let mut t: usize = 0;
    while t < 40
        invariant
            t <= 40,
            st.queue < 0x100_0000_0000,
            forall|u: int|
                0 <= u < 40 ==> #[trigger] st.pending[u] == f.seeds[u] && st.plain[u] == f.seeds[u]
                    && st.found[u] == 0 && st.mini[u] == 0 && st.full[u] == 0,
            forall|u: int| 0 <= u < t && st.pending[u] != 0 ==> #[trigger] st.queued(u),
        decreases 40 - t,
    {
        let ghost before = st;
        if st.pending[t] != 0 {
            st.queue = st.queue | (1u64 << (t as u64));
        }
        proof {
            lemma_queue(before.queue, t as u64, t as u64);
            assert forall|u: int| 0 <= u < t + 1 && st.pending[u] != 0 implies #[trigger] st.queued(
                u,
            ) by {
                lemma_queue(before.queue, t as u64, u as u64);
                if u < t {
                    assert(before.queued(u));
                }
            }
        }
        t += 1;
    }
    let ghost mut drops: Seq<u64> = Seq::new(40, |u: int| 0u64);
    proof {
        lemma_reach_least(su);
        assert forall|u: int| 0 <= u < 40 implies #[trigger] st.inv_at(su, drops, u) by {
            assert(f.caches_at(su, u));
            lemma_slot_ok_nothing(su, u, st.disc());
            lemma_within(su.seed(u), 0, 0);
            lemma_seed_free(su, u);
            let sd = su.seed(u);
            assert(0u64 | sd == sd) by (bit_vector);
        }
        assert forall|h: Marks| #[trigger] su.closed(h) implies st.disc().below(h) by {
            assert forall|u: int| 0 <= u < 40 implies #[trigger] st.disc().below_at(h, u) by {
                assert(f.caches_at(su, u));
                let dh = lemma_closed_slot(su, h, u);
                let sd = su.seed(u);
                assert(0u64 | sd == sd) by (bit_vector);
                lemma_within(h.mini[u], 0, 0);
                lemma_within(h.full[u], 0, 0);
            }
        }
    }
    let ghost mut done = false;
    while st.queue != 0
        invariant_except_break
            !done,
        invariant
            f.caches(su),
            st.inv(su, drops),
            early ==> su.piece != Piece::T,
        ensures
            st.inv(su, drops),
            done || st.queue == 0,
            done ==> early && forall|c: int|
                0 <= c < 40 ==> #[trigger] su.listed(st.disc(), c) == su.goal(c),
        decreases st.weight(), st.queue,
    {
        if early && all_listed(f, &st, Ghost(su)) {
            proof {
                done = true;
            }
            break ;
        }
        let s: usize = st.queue.trailing_zeros() as usize;
        proof {
            vstd::std_specs::bits::axiom_u64_trailing_zeros(st.queue);
            lemma_queue_first(st.queue, s as u64);
            lemma_weight_bounds(st, 40);
        }
        let next = expand(&mut st, f, s, Ghost(su), Ghost(drops));
        proof {
            drops = next@;
            lemma_weight_bounds(st, 40);
        }
    }
    let ghost all = st.disc();
    proof {
        lemma_reach_least(su);
        assert(all.below(su.reach()));
        assert forall|t: int| 0 <= t < 40 implies within(#[trigger] all.found[t], !su.blocked(t)) by {
            assert(st.inv_at(su, drops, t));
        }
        if done {
            assert forall|c: int| 0 <= c < 40 implies #[trigger] su.listed(all, c) == su.listed(
                su.reach(),
                c,
            ) by {
                lemma_listed_grows(su, all, su.reach(), c);
                lemma_listed_goal(su, su.reach(), c);
                lemma_within(su.listed(all, c), su.listed(su.reach(), c), su.goal(c));
            }
        } else {
            assert forall|u: int| 0 <= u < 40 implies #[trigger] st.pending[u] == 0 by {
                assert(st.inv_at(su, drops, u));
                lemma_queue(st.queue, u as u64, u as u64);
            }
            assert forall|u: int| 0 <= u < 40 implies (#[trigger] st.found[u] | st.pending[u])
                == st.found[u] by {
                lemma_within(st.found[u], 0, 0);
            }
            assert(st.disc().found =~= st.marks().found);
            assert(st.disc() == st.marks());
            assert forall|u: int| 0 <= u < 40 implies #[trigger] su.closed_at(st.marks(), u) by {
                assert(st.inv_at(su, drops, u));
                assert(su.slot_ok(u, st.marks().found[u], drops[u], st.marks()));
            }
            assert(su.closed(st.marks()));
            lemma_reach_is(su, st.marks());
        }
    }
    // what is still pending is found as well
    let mut u: usize = 0;
    while u < 40
        invariant
            u <= 40,
            all.wf(),
            st.plain@ == all.plain,
            st.mini@ == all.mini,
            st.full@ == all.full,
            forall|v: int|
                0 <= v < u ==> #[trigger] st.found[v] == all.found[v] && st.pending[v] == 0,
            forall|v: int| u <= v < 40 ==> (#[trigger] st.found[v] | st.pending[v]) == all.found[v],
        decreases 40 - u,
    {
        st.found[u] = st.found[u] | st.pending[u];
        st.pending[u] = 0;
        u += 1;
    }
    proof {
        assert(st.marks().found =~= all.found);
        assert(st.marks() == all);
        assert forall|v: int| 0 <= v < 40 implies (#[trigger] st.found[v] | st.pending[v])
            == st.found[v] by {
            lemma_within(st.found[v], 0, 0);
        }
        assert(st.disc().found =~= st.marks().found);
        assert forall|t: int| 0 <= t < 40 implies within(#[trigger] st.found[t], !su.blocked(t)) by {
            assert(all.found[t] == st.found[t]);
        }
    }
    st
}

/// The weight of a state is not negative.
proof fn lemma_weight_bounds(st: Search, n: int)
    requires
        0 <= n <= 40,
    ensures
        st.weight_upto(n) >= 0,
    decreases n,
{
    if n > 0 {
        lemma_weight_bounds(st, n - 1);
    }
}

} // verus!
