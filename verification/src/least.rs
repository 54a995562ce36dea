//! There is a least closed family: the rows that every closed family holds.
use crate::bits::{
    fall, has_row, lemma_fall, lemma_has_row_ops, lemma_has_row_shift, lemma_masked, lemma_within,
    lemma_within_rows, resting, within,
};
use crate::data::Piece;
use crate::reach::{lemma_closed_slot, lemma_kick_slot, lemma_landed_within, Marks, Setup};
use vstd::prelude::*;

verus! {

/// The rows `y` below `n` of which `p` holds.
pub open spec fn word_of(p: spec_fn(int) -> bool, n: int) -> u64
    decreases n,
{
    if n <= 0 {
        0
    } else if p(n - 1) {
        word_of(p, n - 1) | (1u64 << ((n - 1) as u64))
    } else {
        word_of(p, n - 1)
    }
}

/// A row is in `word_of` exactly when it is below `n` and `p` holds of it.
pub proof fn lemma_word_of(p: spec_fn(int) -> bool, n: int, y: int)
    requires
        0 <= n <= 64,
        0 <= y < 64,
    ensures
        has_row(word_of(p, n), y) == (y < n && p(y)),
    decreases n,
{
    if n > 0 {
        lemma_word_of(p, n - 1, y);
        lemma_has_row_ops(word_of(p, n - 1), 1u64 << ((n - 1) as u64), y);
        lemma_has_row_shift(0, n - 1, y);
    } else {
        lemma_has_row_ops(0, 0, y);
    }
}

/// Which of the four families of a `Marks` is meant.
pub enum Kind {
    Found,
    Plain,
    Mini,
    Full,
}

impl Marks {
    /// The family of the given kind.
    pub open spec fn of(self, kind: Kind) -> Seq<u64> {
        match kind {
            Kind::Found => self.found,
            Kind::Plain => self.plain,
            Kind::Mini => self.mini,
            Kind::Full => self.full,
        }
    }
}

impl Setup {
    /// Whether row `y` of slot `s` is in the family of the given kind of
    /// every closed family.
    pub open spec fn in_all(self, kind: Kind, s: int, y: int) -> bool {
        forall|h: Marks| #[trigger] self.closed(h) ==> has_row(h.of(kind)[s], y)
    }

    /// Whether row `y` is passed by every fall from the found rows of slot
    /// `s` of every closed family.
    pub open spec fn falls_in_all(self, s: int, y: int) -> bool {
        forall|h: Marks, d: u64|
            self.closed(h) && #[trigger] self.slot_ok(s, h.found[s], d, h) ==> has_row(d, y)
    }

    /// The rows of slot `s` that every closed family has in its family of
    /// the given kind.
    pub open spec fn common(self, kind: Kind, s: int) -> u64 {
        word_of(|y: int| self.in_all(kind, s, y), 64)
    }

    /// The rows that every fall from the found rows of slot `s` of every
    /// closed family passes.
    pub open spec fn common_fall(self, s: int) -> u64 {
        word_of(|y: int| self.falls_in_all(s, y), 64)
    }

    /// The family of the rows that every closed family holds.
    pub open spec fn meet(self) -> Marks {
        Marks {
            found: Seq::new(40, |s: int| self.common(Kind::Found, s)),
            plain: Seq::new(40, |s: int| self.common(Kind::Plain, s)),
            mini: Seq::new(40, |s: int| self.common(Kind::Mini, s)),
            full: Seq::new(40, |s: int| self.common(Kind::Full, s)),
        }
    }
}

/// What every closed family holds lies within each of them.
pub proof fn lemma_common_below(su: Setup, kind: Kind, s: int, h: Marks)
    requires
        0 <= s < 40,
        su.closed(h),
    ensures
        within(su.common(kind, s), h.of(kind)[s]),
{
    let p = |y: int| su.in_all(kind, s, y);
    assert forall|y: int| 0 <= y < 64 && has_row(su.common(kind, s), y) implies has_row(
        h.of(kind)[s],
        y,
    ) by {
        lemma_word_of(p, 64, y);
        assert(p(y));
    }
    lemma_within_rows(su.common(kind, s), h.of(kind)[s]);
}

/// Rows that lie within every closed family lie within what all of them hold.
pub proof fn lemma_into_common(su: Setup, kind: Kind, s: int, x: u64)
    requires
        0 <= s < 40,
        forall|h: Marks| #[trigger] su.closed(h) ==> within(x, h.of(kind)[s]),
    ensures
        within(x, su.common(kind, s)),
{
    let p = |y: int| su.in_all(kind, s, y);
    assert forall|y: int| 0 <= y < 64 && has_row(x, y) implies has_row(su.common(kind, s), y) by {
        lemma_word_of(p, 64, y);
        assert forall|h: Marks| #[trigger] su.closed(h) implies has_row(h.of(kind)[s], y) by {
            lemma_within_rows(x, h.of(kind)[s]);
        }
        assert(p(y));
    }
    lemma_within_rows(x, su.common(kind, s));
}

/// The rows that every fall passes lie within the rows that any one passes.
pub proof fn lemma_common_fall_below(su: Setup, s: int, h: Marks, d: u64)
    requires
        0 <= s < 40,
        su.closed(h),
        su.slot_ok(s, h.found[s], d, h),
    ensures
        within(su.common_fall(s), d),
{
    let p = |y: int| su.falls_in_all(s, y);
    assert forall|y: int| 0 <= y < 64 && has_row(su.common_fall(s), y) implies has_row(d, y) by {
        lemma_word_of(p, 64, y);
        assert(p(y));
    }
    lemma_within_rows(su.common_fall(s), d);
}

/// Rows that every fall passes lie within the rows that all of them pass.
pub proof fn lemma_into_common_fall(su: Setup, s: int, x: u64)
    requires
        0 <= s < 40,
        forall|h: Marks, d: u64|
            su.closed(h) && #[trigger] su.slot_ok(s, h.found[s], d, h) ==> within(x, d),
    ensures
        within(x, su.common_fall(s)),
{
    let p = |y: int| su.falls_in_all(s, y);
    assert forall|y: int| 0 <= y < 64 && has_row(x, y) implies has_row(su.common_fall(s), y) by {
        lemma_word_of(p, 64, y);
        assert forall|h: Marks, d: u64|
            su.closed(h) && #[trigger] su.slot_ok(s, h.found[s], d, h) implies has_row(d, y) by {
            lemma_within_rows(x, d);
        }
        assert(p(y));
    }
    lemma_within_rows(x, su.common_fall(s));
}

/// Falling from what every closed family holds leads into what every closed
/// family holds.
proof fn lemma_meet_sinks(su: Setup, s: int)
    requires
        0 <= s < 40,
    ensures
        su.sink_ok(s, su.meet().found[s], su.common_fall(s), su.meet()),
{
    let m = su.meet();
    let f = m.found[s];
    let d = su.common_fall(s);
    let b = su.blocked(s);
    assert forall|h: Marks, dh: u64|
        su.closed(h) && #[trigger] su.slot_ok(s, h.found[s], dh, h) implies within(fall(f, b), dh)
        && within(fall(d, b), dh) by {
        lemma_common_below(su, Kind::Found, s, h);
        lemma_common_fall_below(su, s, h, dh);
        lemma_fall(f, h.found[s], b);
        lemma_within(fall(f, b), fall(h.found[s], b), dh);
        lemma_fall(d, dh, b);
        lemma_within(fall(d, b), fall(dh, b), dh);
    }
    lemma_into_common_fall(su, s, fall(f, b));
    lemma_into_common_fall(su, s, fall(d, b));
    assert forall|h: Marks| #[trigger] su.closed(h) implies within(
        d & resting(b),
        h.of(Kind::Found)[s],
    ) && within(d, h.of(Kind::Plain)[s]) by {
        let dh = lemma_closed_slot(su, h, s);
        lemma_common_fall_below(su, s, h, dh);
        lemma_within(d, dh, resting(b));
        lemma_within(d & resting(b), dh & resting(b), h.found[s]);
        lemma_within(d, dh, h.plain[s]);
    }
    lemma_into_common(su, Kind::Found, s, d & resting(b));
    lemma_into_common(su, Kind::Plain, s, d);
}

/// A step from what every closed family holds leads into what every closed
/// family holds.
proof fn lemma_meet_shifts(su: Setup, s: int, t: int)
    requires
        0 <= s < 40,
        0 <= t < 40,
        t == s - 4 || t == s + 4,
    ensures
        su.shift_ok(t, su.meet().found[s], su.meet()),
{
    let f = su.meet().found[s];
    assert forall|h: Marks| #[trigger] su.closed(h) implies within(
        f & !su.shut(t),
        h.of(Kind::Found)[t],
    ) && within(f & !su.blocked(t), h.of(Kind::Plain)[t]) by {
        let dh = lemma_closed_slot(su, h, s);
        lemma_common_below(su, Kind::Found, s, h);
        assert(su.shift_ok(t, h.found[s], h));
        lemma_masked(f, h.found[s], !su.shut(t), 0, h.found[t]);
        lemma_masked(f, h.found[s], !su.blocked(t), 0, h.plain[t]);
    }
    lemma_into_common(su, Kind::Found, t, f & !su.shut(t));
    lemma_into_common(su, Kind::Plain, t, f & !su.blocked(t));
}

/// What lands with a kick from what every closed family holds lies within
/// any closed family.
proof fn lemma_kick_into(su: Setup, s: int, q: int, i: int, t: int, h: Marks)
    requires
        0 <= s < 40,
        1 <= q <= 3,
        0 <= i < Setup::kick_count(q),
        su.piece != Piece::O,
        su.closed(h),
        t == su.kick_slot(s, q, i),
        0 <= t < 40,
    ensures
        ({
            let l = su.landed(s, q, i, su.common(Kind::Found, s));
            let fm = su.full_mask(s, q, i);
            &&& within(l & !su.shut(t), h.found[t])
            &&& within(l & !su.spin(t), h.plain[t])
            &&& within(l & su.spin(t) & !fm, h.mini[t])
            &&& within(l & su.spin(t) & fm, h.full[t])
        }),
{
    let f = su.common(Kind::Found, s);
    let l = su.landed(s, q, i, f);
    let fm = su.full_mask(s, q, i);
    let dh = lemma_closed_slot(su, h, s);
    lemma_common_below(su, Kind::Found, s, h);
    assert(su.turn_ok(s, q, h.found[s], h));
    assert(su.kick_ok(s, q, i, h.found[s], h));
    lemma_landed_within(su, s, q, i, f, h.found[s]);
    let lb = su.landed(s, q, i, h.found[s]);
    lemma_masked(l, lb, !su.shut(t), 0, h.found[t]);
    lemma_masked(l, lb, !su.spin(t), 0, h.plain[t]);
    lemma_masked(l, lb, su.spin(t), !fm, h.mini[t]);
    lemma_masked(l, lb, su.spin(t), fm, h.full[t]);
}

/// A kick from what every closed family holds leads into what every closed
/// family holds.
proof fn lemma_meet_kicks(su: Setup, s: int, q: int, i: int)
    requires
        0 <= s < 40,
        1 <= q <= 3,
        0 <= i < Setup::kick_count(q),
        su.piece != Piece::O,
    ensures
        su.kick_ok(s, q, i, su.meet().found[s], su.meet()),
{
    lemma_kick_slot(su, s, q, i);
    let t = su.kick_slot(s, q, i);
    if t >= 0 {
        let f = su.common(Kind::Found, s);
        let l = su.landed(s, q, i, f);
        let fm = su.full_mask(s, q, i);
        let a = l & !su.shut(t);
        let b = l & !su.spin(t);
        let c = l & su.spin(t) & !fm;
        let d = l & su.spin(t) & fm;
        assert forall|h: Marks| #[trigger] su.closed(h) implies within(a, h.of(Kind::Found)[t])
            && within(b, h.of(Kind::Plain)[t]) && within(c, h.of(Kind::Mini)[t]) && within(
            d,
            h.of(Kind::Full)[t],
        ) by {
            lemma_kick_into(su, s, q, i, t, h);
        }
        lemma_into_common(su, Kind::Found, t, a);
        lemma_into_common(su, Kind::Plain, t, b);
        lemma_into_common(su, Kind::Mini, t, c);
        lemma_into_common(su, Kind::Full, t, d);
        assert(su.meet().found[s] == f);
    }
}

/// What every closed family holds is a closed family, and the least one.
pub proof fn lemma_meet_least(su: Setup)
    ensures
        su.least(su.meet()),
{
    let m = su.meet();
    assert forall|s: int| 0 <= s < 40 implies #[trigger] su.closed_at(m, s) by {
        assert forall|h: Marks| #[trigger] su.closed(h) implies within(
            su.seed(s),
            h.of(Kind::Found)[s],
        ) && within(su.seed(s), h.of(Kind::Plain)[s]) by {
            assert(su.closed_at(h, s));
        }
        lemma_into_common(su, Kind::Found, s, su.seed(s));
        lemma_into_common(su, Kind::Plain, s, su.seed(s));
        lemma_meet_sinks(su, s);
        if s >= 4 {
            lemma_meet_shifts(su, s, s - 4);
        }
        if s < 36 {
            lemma_meet_shifts(su, s, s + 4);
        }
        if su.piece != Piece::O {
            assert forall|q: int, i: int|
                1 <= q <= 3 && 0 <= i < Setup::kick_count(q) implies #[trigger] su.kick_ok(
                s,
                q,
                i,
                m.found[s],
                m,
            ) by {
                lemma_meet_kicks(su, s, q, i);
            }
        }
        assert(su.slot_ok(s, m.found[s], su.common_fall(s), m));
    }
    assert forall|h: Marks| #[trigger] su.closed(h) implies m.below(h) by {
        assert forall|t: int| 0 <= t < 40 implies #[trigger] m.below_at(h, t) by {
            lemma_common_below(su, Kind::Found, t, h);
            lemma_common_below(su, Kind::Plain, t, h);
            lemma_common_below(su, Kind::Mini, t, h);
            lemma_common_below(su, Kind::Full, t, h);
        }
    }
}

/// What a piece reaches is the least closed family: it holds the rows where
/// the piece starts, every move from a row that it holds leads to a row that
/// it holds, and every family of which this is true holds all of its rows.
pub proof fn lemma_reach_least(su: Setup)
    ensures
        su.least(su.reach()),
{
    lemma_meet_least(su);
}

} // verus!
