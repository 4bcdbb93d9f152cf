//! What the functions of a picker do, said of their arguments and results alone.
use crate::bits::Bitfield;
use crate::picker::{
    has_piece_at, is_news, law_update_adds_the_announced_pieces, news_is_numbered, PickerView,
    PiecePicker,
};
use vstd::prelude::*;

verus! {

/// A new picker knows no piece, and has the bits that it was given.
pub proof fn law_a_new_picker_knows_no_piece(n: u32, completed: Bitfield, r: PiecePicker)
    ensures
        4 * n <= isize::MAX ==> call_requires(PiecePicker::new, (n, completed)),
        call_ensures(PiecePicker::new, (n, completed), r) ==> {
            &&& r.wf()
            &&& r@.peers.dom() == Set::<u32>::empty()
            &&& r@.queue.len() == 0
            &&& r@.completed == completed@
        },
{
}

/// Whether each bit that is set in `bits` has a counterpart in `completed`.
pub open spec fn has_counterparts(bits: Seq<bool>, completed: Seq<bool>) -> bool {
    forall|i: int| completed.len() <= i < bits.len() ==> !#[trigger] bits[i]
}

/// Whether `bits` announce `piece` to a picker with the bits `completed`: its bit is set
/// there and clear here.
pub open spec fn brings(bits: Seq<bool>, completed: Seq<bool>, piece: u32) -> bool {
    piece < bits.len() && bits[piece as int] && !completed[piece as int]
}

/// An announcement can be taken in, and it is known that it can, exactly if it is of known
/// pieces. Each piece that it brings gains the peer, behind those that it has; pieces that
/// were not known before join the queue behind the others, in the order of their indices;
/// and nothing else changes.
pub proof fn law_an_announcement_is_taken_in(
    p: &mut PiecePicker,
    peer: u8,
    bits: Bitfield,
    known: bool,
)
    requires
        old(p).wf(),
        news_is_numbered(old(p)@.completed, bits@),
    ensures
        call_requires(PiecePicker::covers, (&*old(p), &bits)),
        call_ensures(PiecePicker::covers, (&*old(p), &bits), known) ==> known == has_counterparts(
            bits@,
            old(p)@.completed,
        ),
        has_counterparts(bits@, old(p)@.completed) ==> call_requires(
            PiecePicker::update,
            (p, peer, bits),
        ),
        call_ensures(PiecePicker::update, (p, peer, bits), ()) ==> {
            let (before, after) = (old(p)@, final(p)@);
            let waiting = before.queue.len() as int;
            &&& after.completed == before.completed
            &&& forall|q: u32| #[trigger]
                after.peers.contains_key(q) <==> before.peers.contains_key(q) || brings(
                    bits@,
                    before.completed,
                    q,
                )
            &&& forall|q: u32|
                after.peers.contains_key(q) ==> #[trigger] after.peers[q] == if !brings(
                    bits@,
                    before.completed,
                    q,
                ) {
                    before.peers[q]
                } else if before.peers.contains_key(q) {
                    before.peers[q].push(peer)
                } else {
                    seq![peer]
                }
            &&& after.queue.len() >= waiting
            &&& after.queue.take(waiting) == before.queue
            &&& forall|i: int, j: int|
                waiting <= i < j < after.queue.len() ==> after.queue[i] < after.queue[j]
            &&& forall|q: u32| #[trigger]
                after.queue.skip(waiting).contains(q) <==> brings(bits@, before.completed, q)
                    && !before.peers.contains_key(q)
        },
{
    let n = bits@.len() as int;
    law_update_adds_the_announced_pieces(old(p)@, peer, bits@);
    assert forall|q: u32| #[trigger] brings(bits@, old(p)@.completed, q) == is_news(
        old(p)@,
        bits@,
        n,
        q,
    ) by {}
    if has_counterparts(bits@, old(p)@.completed) {
        assert forall|i: int| 0 <= i < bits@.len() && #[trigger] bits@[i] implies i < old(
            p,
        )@.completed.len() by {}
    }
}

/// Whether the piece at place `i` of the queue is one that `peer` has announced.
pub open spec fn offers(picker: PickerView, peer: u8, i: int) -> bool {
    &&& 0 <= i < picker.queue.len()
    &&& picker.peers[picker.queue[i]].contains(peer)
}

/// Whether `after` is `before` without the piece at place `i` of its queue, whose bit is set.
pub open spec fn is_picked(before: PickerView, after: PickerView, i: int) -> bool {
    let piece = before.queue[i] as int;
    &&& after.peers == before.peers
    &&& after.queue.len() == before.queue.len() - 1
    &&& forall|j: int| 0 <= j < i ==> #[trigger] after.queue[j] == before.queue[j]
    &&& forall|j: int| i <= j < after.queue.len() ==> #[trigger] after.queue[j] == before.queue[j
        + 1]
    &&& after.completed.len() == before.completed.len()
    &&& after.completed[piece]
    &&& forall|b: int|
        0 <= b < before.completed.len() && b != piece ==> #[trigger] after.completed[b]
            == before.completed[b]
}

/// A peer can be asked, and it is known that it can, exactly if a piece waits that it has
/// announced. The first such piece is returned, leaves the queue and has its bit set, and
/// nothing else changes.
pub proof fn law_the_first_piece_of_a_peer_is_picked(
    p: &mut PiecePicker,
    peer: u8,
    r: u32,
    some: bool,
)
    requires
        old(p).wf(),
    ensures
        call_requires(PiecePicker::has_next, (&*old(p), peer)),
        call_ensures(PiecePicker::has_next, (&*old(p), peer), some) ==> some == exists|i: int|
            offers(old(p)@, peer, i),
        (exists|i: int| offers(old(p)@, peer, i)) ==> call_requires(PiecePicker::next, (p, peer)),
        call_ensures(PiecePicker::next, (p, peer), r) ==> exists|i: int|
            {
                &&& #[trigger] offers(old(p)@, peer, i)
                &&& forall|j: int| 0 <= j < i ==> !#[trigger] offers(old(p)@, peer, j)
                &&& r == old(p)@.queue[i]
                &&& is_picked(old(p)@, final(p)@, i)
            },
{
    assert forall|i: int| #[trigger] offers(old(p)@, peer, i) == has_piece_at(
        old(p)@,
        peer,
        i,
    ) by {}
    if exists|i: int| offers(old(p)@, peer, i) {
        let i = choose|i: int| offers(old(p)@, peer, i);
        assert(has_piece_at(old(p)@, peer, i));
    }
    if exists|i: int| has_piece_at(old(p)@, peer, i) {
        let i = choose|i: int| has_piece_at(old(p)@, peer, i);
        assert(offers(old(p)@, peer, i));
    }
    if call_ensures(PiecePicker::next, (p, peer), r) {
        let i = crate::picker::first_place(old(p)@, peer);
        assert(offers(old(p)@, peer, i));
        assert forall|j: int| 0 <= j < i implies !#[trigger] offers(old(p)@, peer, j) by {
            assert(!has_piece_at(old(p)@, peer, j));
        }
        assert(old(p)@.queue.contains(old(p)@.queue[i]));
        assert(is_picked(old(p)@, final(p)@, i));
    }
}

/// A picker is complete exactly if no bit of it is clear, and that a piece has come in changes
/// nothing.
pub proof fn law_a_picker_is_complete_without_clear_bits(
    p: &mut PiecePicker,
    index: u32,
    r: bool,
)
    ensures
        call_ensures(PiecePicker::completed, (&*old(p),), r) ==> r == !old(p)@.completed.contains(
            false,
        ),
        call_requires(PiecePicker::completed, (&*old(p),)),
        call_requires(PiecePicker::finished, (p, index)),
        call_ensures(PiecePicker::finished, (p, index), ()) ==> final(p)@ == old(p)@,
{
    let bits = old(p)@.completed;
    if call_ensures(PiecePicker::completed, (&*old(p),), r) {
        if r {
            assert(forall|i: int| 0 <= i < bits.len() ==> bits[i]);
        } else {
            let i = choose|i: int| 0 <= i < bits.len() && !bits[i];
            assert(bits[i] == false);
        }
    }
}

/// Every call leaves a picker well formed.
pub proof fn law_calls_keep_a_picker_well_formed(
    p: &mut PiecePicker,
    peer: u8,
    bits: Bitfield,
    index: u32,
    r: u32,
)
    requires
        old(p).wf(),
        call_ensures(PiecePicker::update, (p, peer, bits), ()) || call_ensures(
            PiecePicker::next,
            (p, peer),
            r,
        ) || call_ensures(PiecePicker::finished, (p, index), ()),
    ensures
        final(p).wf(),
{
}

/// What one more bit adds to an announcement: nothing, where it is clear or its piece needs no
/// picking; otherwise the piece of its index, in 32 bits, gains the peer, and joins the
/// queue at its end if it was not known. No bits add nothing.
pub proof fn law_one_more_bit_announces_one_more_piece(
    p: &mut PiecePicker,
    q: &mut PiecePicker,
    peer: u8,
    bits: Bitfield,
    more: Bitfield,
    bit: bool,
)
    requires
        old(p).wf(),
        old(q)@ == old(p)@,
        more@ == bits@.push(bit),
        call_ensures(PiecePicker::update, (p, peer, bits), ()),
        call_ensures(PiecePicker::update, (q, peer, more), ()),
    ensures
        bits@.len() == 0 ==> final(p)@ == old(p)@,
        ({
            let (less, all) = (final(p)@, final(q)@);
            let k = bits@.len() as int;
            let piece = (k % 0x1_0000_0000) as u32;
            if !bit || old(p)@.completed[k] {
                all == less
            } else {
                &&& all.completed == less.completed
                &&& all.peers == less.peers.insert(
                    piece,
                    if less.peers.contains_key(piece) {
                        less.peers[piece].push(peer)
                    } else {
                        seq![peer]
                    },
                )
                &&& all.queue == if less.peers.contains_key(piece) {
                    less.queue
                } else {
                    less.queue.push(piece)
                }
            }
        }),
{
    assert(bits@ =~= more@.take(bits@.len() as int));
    lemma_same_prefix(old(p)@, peer, bits@, more@, bits@.len() as int);
}

proof fn lemma_same_prefix(
    picker: PickerView,
    peer: u8,
    bits: Seq<bool>,
    more: Seq<bool>,
    n: int,
)
    requires
        0 <= n <= bits.len(),
        bits.len() <= more.len(),
        bits == more.take(bits.len() as int),
    ensures
        crate::picker::updated(picker, peer, bits, n) == crate::picker::updated(
            picker,
            peer,
            more,
            n,
        ),
    decreases n,
{
    if n > 0 {
        lemma_same_prefix(picker, peer, bits, more, n - 1);
        assert(bits[n - 1] == more[n - 1]);
    }
}

} // verus!
