//! Filling the queue of pieces to come, one shuffled bag of seven at a time.
use crate::data::Piece;
use rand::seq::SliceRandom;
use vstd::prelude::*;

verus! {

/// The seven pieces, one of each.
pub open spec fn full_bag() -> Seq<Piece> {
    seq![Piece::I, Piece::J, Piece::L, Piece::O, Piece::S, Piece::T, Piece::Z]
}

/// Whether `s` holds each of the seven pieces once, in any order.
pub open spec fn is_bag(s: Seq<Piece>) -> bool {
    s.len() == 7 && s.to_multiset() == full_bag().to_multiset()
}

/// Shuffles `bag` in place with `rand::seq::SliceRandom::shuffle`, drawing
/// from the generator that `rand::rng` hands out. Which order comes out is
/// left open; what is claimed is that the pieces are the same, each as often
/// as before.
#[verifier::external_body]
fn shuffle(bag: &mut Vec<Piece>)
    ensures
        final(bag)@.len() == old(bag)@.len(),
        final(bag)@.to_multiset() == old(bag)@.to_multiset(),
{
    let mut rng = rand::rng();
    bag.shuffle(&mut rng);
}

/// Appends the seven pieces of `bag` to the queue, in the order of `bag`.
pub fn append_bag(queue: &mut Vec<Piece>, bag: &Vec<Piece>)
    requires
        bag.len() == 7,
    ensures
        final(queue)@ == old(queue)@ + bag@,
{
    let mut i: usize = 0;
    while i < 7
        invariant
            i <= 7,
            bag.len() == 7,
            queue@ == old(queue)@ + bag@.subrange(0, i as int),
        decreases 7 - i,
    {
        queue.push(bag[i]);
        proof {
            assert(queue@ =~= old(queue)@ + bag@.subrange(0, i + 1));
        }
        i += 1;
    }
    proof {
        assert(bag@.subrange(0, 7) =~= bag@);
    }
}

/// Appends `bags` bags to the queue: each holds the seven pieces once, in an
/// order drawn at random. What was in the queue stays in front.
pub fn extend_queue(queue: &mut Vec<Piece>, bags: usize)
    ensures
        final(queue)@.len() == old(queue)@.len() + 7 * bags,
        final(queue)@.subrange(0, old(queue)@.len() as int) == old(queue)@,
        forall|k: int|
            0 <= k < bags ==> is_bag(
                #[trigger] final(queue)@.subrange(
                    old(queue)@.len() + 7 * k,
                    old(queue)@.len() + 7 * k + 7,
                ),
            ),
{
    let ghost start = queue@.len() as int;
    let mut n: usize = 0;
    while n < bags
        invariant
            n <= bags,
            start == old(queue)@.len(),
            queue@.len() == start + 7 * n,
            queue@.subrange(0, start) == old(queue)@,
            forall|k: int|
                0 <= k < n ==> is_bag(#[trigger] queue@.subrange(start + 7 * k, start + 7 * k + 7)),
        decreases bags - n,
    {
        let mut bag: Vec<Piece> = vec![
            Piece::I,
            Piece::J,
            Piece::L,
            Piece::O,
            Piece::S,
            Piece::T,
            Piece::Z,
        ];
        proof {
            assert(bag@ =~= full_bag());
        }
        shuffle(&mut bag);
        let ghost before = queue@;
        append_bag(queue, &bag);
        proof {
            assert(queue@.subrange(0, start) =~= before.subrange(0, start));
            assert(queue@.subrange(start + 7 * n, start + 7 * n + 7) =~= bag@);
            assert forall|k: int| 0 <= k < n + 1 implies is_bag(
                #[trigger] queue@.subrange(start + 7 * k, start + 7 * k + 7),
            ) by {
                if k < n {
                    assert(queue@.subrange(start + 7 * k, start + 7 * k + 7) =~= before.subrange(
                        start + 7 * k,
                        start + 7 * k + 7,
                    ));
                }
            }
        }
        n += 1;
    }
}

} // verus!
