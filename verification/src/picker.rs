//! The choice of the piece to download next.
use crate::bits::{all_set, Bitfield};
use crate::wrap::{usize_as_u32, wrap_u32};
use std::collections::{HashMap, VecDeque};
use vstd::prelude::*;

verus! {

/// Which peers have which pieces, which pieces wait to be picked, in the order
/// in which they were first announced, and which need no picking any more.
pub struct PiecePicker {
    pieces: HashMap<u32, Vec<u8>>,
    pieces_by_rarity: VecDeque<u32>,
    completed: Bitfield,
}

/// What a `PiecePicker` stands for.
#[verifier::ext_equal]
pub struct PickerView {
    pub peers: Map<u32, Seq<u8>>,
    pub queue: Seq<u32>,
    pub completed: Seq<bool>,
}

impl View for PiecePicker {
    type V = PickerView;

    closed spec fn view(&self) -> PickerView {
        PickerView {
            peers: self.pieces@.map_values(|peers: Vec<u8>| peers@),
            queue: self.pieces_by_rarity@,
            completed: self.completed@,
        }
    }
}

/// A piece that is known has a peer. A piece waits only once, some peer has
/// announced it, and it has a bit. Where each clear bit has a piece of its own, the
/// pieces that wait are exactly those that were announced and need picking.
pub open spec fn picker_is_well_formed(picker: PickerView) -> bool {
    &&& forall|p: u32| #[trigger] picker.peers.contains_key(p) ==> picker.peers[p].len() > 0
    &&& picker.queue.no_duplicates()
    &&& forall|p: u32| #[trigger]
        picker.queue.contains(p) ==> picker.peers.contains_key(p) && p < picker.completed.len()
    &&& each_clear_bit_has_a_piece(picker) ==> waiting_need_picking(picker)
}

/// Whether the pieces that wait are exactly those that were announced and need picking.
pub open spec fn waiting_need_picking(picker: PickerView) -> bool {
    forall|p: u32| #[trigger]
        picker.queue.contains(p) <==> picker.peers.contains_key(p) && !needs_no_picking(picker, p)
}

/// Whether 32 bits are enough to number the clear bits of a picker.
pub open spec fn each_clear_bit_has_a_piece(picker: PickerView) -> bool {
    forall|i: int|
        0 <= i < picker.completed.len() && !#[trigger] picker.completed[i] ==> i < 0x1_0000_0000
}

/// Whether the bit of `piece` is set.
pub open spec fn needs_no_picking(picker: PickerView, piece: u32) -> bool {
    piece < picker.completed.len() && picker.completed[piece as int]
}

/// A picker to which nothing was announced, with the bits `completed`.
pub open spec fn fresh(completed: Seq<bool>) -> PickerView {
    PickerView { peers: Map::empty(), queue: Seq::empty(), completed }
}

/// The picker after `peer` has announced `piece`. At its first announcement a
/// piece goes to the end of the queue.
pub open spec fn announced(picker: PickerView, peer: u8, piece: u32) -> PickerView {
    if picker.peers.contains_key(piece) {
        PickerView {
            peers: picker.peers.insert(piece, picker.peers[piece].push(peer)),
            ..picker
        }
    } else {
        PickerView {
            peers: picker.peers.insert(piece, seq![peer]),
            queue: picker.queue.push(piece),
            ..picker
        }
    }
}

/// The picker after `peer` has announced the first `n` of `bits`: each that is
/// set announces the piece of its index, unless that needs no picking any more.
pub open spec fn updated(picker: PickerView, peer: u8, bits: Seq<bool>, n: int) -> PickerView
    decreases n,
{
    if n <= 0 {
        picker
    } else {
        let before = updated(picker, peer, bits, n - 1);
        if bits[n - 1] && !picker.completed[n - 1] {
            announced(before, peer, wrap_u32(n - 1))
        } else {
            before
        }
    }
}

/// Whether every bit that is set in `bits` has a counterpart in the picker.
pub open spec fn announces_known_pieces(picker: PickerView, bits: Seq<bool>) -> bool {
    forall|i: int| 0 <= i < bits.len() && #[trigger] bits[i] ==> i < picker.completed.len()
}

/// Whether the piece at place `i` of the queue was announced by `peer`.
pub open spec fn has_piece_at(picker: PickerView, peer: u8, i: int) -> bool {
    &&& 0 <= i < picker.queue.len()
    &&& picker.peers[picker.queue[i]].contains(peer)
}

/// Whether a piece that `peer` has announced waits to be picked.
pub open spec fn has_piece(picker: PickerView, peer: u8) -> bool {
    exists|i: int| has_piece_at(picker, peer, i)
}

/// Whether place `i` of the queue is the first with a piece of `peer`.
pub open spec fn is_first_piece_at(picker: PickerView, peer: u8, i: int) -> bool {
    &&& has_piece_at(picker, peer, i)
    &&& forall|j: int| 0 <= j < i ==> !#[trigger] has_piece_at(picker, peer, j)
}

/// The first place of the queue with a piece of `peer`, if there is one.
pub open spec fn first_place(picker: PickerView, peer: u8) -> int {
    choose|i: int| is_first_piece_at(picker, peer, i)
}

/// The piece that is picked for `peer`: the first waiting one that it has announced.
pub open spec fn next_piece(picker: PickerView, peer: u8) -> u32 {
    picker.queue[first_place(picker, peer)]
}

/// The picker after the piece at place `i` of the queue was picked.
pub open spec fn picked(picker: PickerView, i: int) -> PickerView {
    PickerView {
        queue: picker.queue.remove(i),
        completed: picker.completed.update(picker.queue[i] as int, true),
        ..picker
    }
}

proof fn lemma_announced_is_well_formed(picker: PickerView, peer: u8, piece: u32)
    requires
        picker_is_well_formed(picker),
        piece < picker.completed.len(),
        each_clear_bit_has_a_piece(picker) ==> !needs_no_picking(picker, piece),
    ensures
        picker_is_well_formed(announced(picker, peer, piece)),
        waiting_need_picking(picker) && !needs_no_picking(picker, piece) ==> waiting_need_picking(
            announced(picker, peer, piece),
        ),
{
    let after = announced(picker, peer, piece);
    if !picker.peers.contains_key(piece) {
        assert(!picker.queue.contains(piece));
        assert forall|p: u32| #[trigger]
            after.queue.contains(p) == (picker.queue.contains(p) || p == piece) by {
            lemma_push_contains(picker.queue, piece, p);
        }
    }
}

proof fn lemma_push_contains(queue: Seq<u32>, piece: u32, p: u32)
    ensures
        queue.push(piece).contains(p) == (queue.contains(p) || p == piece),
{
    let longer = queue.push(piece);
    if queue.contains(p) {
        let i = choose|i: int| 0 <= i < queue.len() && queue[i] == p;
        assert(longer[i] == p);
    }
    assert(longer[queue.len() as int] == piece);
}

proof fn lemma_remove_contains(queue: Seq<u32>, i: int, p: u32)
    requires
        queue.no_duplicates(),
        0 <= i < queue.len(),
    ensures
        queue.remove(i).contains(p) == (queue.contains(p) && p != queue[i]),
{
    let shorter = queue.remove(i);
    if queue.contains(p) && p != queue[i] {
        let j = choose|j: int| 0 <= j < queue.len() && queue[j] == p;
        if j < i {
            assert(shorter[j] == p);
        } else {
            assert(shorter[j - 1] == p);
        }
    }
    if shorter.contains(p) {
        let j = choose|j: int| 0 <= j < shorter.len() && shorter[j] == p;
        if j < i {
            assert(queue[j] == p);
        } else {
            assert(queue[j + 1] == p);
        }
    }
}

proof fn lemma_picked_is_well_formed(picker: PickerView, i: int)
    requires
        picker_is_well_formed(picker),
        0 <= i < picker.queue.len(),
    ensures
        picker_is_well_formed(picked(picker, i)),
        waiting_need_picking(picker) ==> waiting_need_picking(picked(picker, i)),
{
    let after = picked(picker, i);
    if each_clear_bit_has_a_piece(after) {
        assert forall|j: int|
            0 <= j < picker.completed.len() && !#[trigger] picker.completed[j] implies j
            < 0x1_0000_0000 by {
            if j >= 0x1_0000_0000 {
                assert(!after.completed[j]);
            }
        }
    }
    assert forall|p: u32| #[trigger]
        after.queue.contains(p) == (picker.queue.contains(p) && p != picker.queue[i]) by {
        lemma_remove_contains(picker.queue, i, p);
    }
    assert(picker.queue.contains(picker.queue[i]));
}

proof fn lemma_first_place(picker: PickerView, peer: u8, i: int)
    requires
        is_first_piece_at(picker, peer, i),
    ensures
        first_place(picker, peer) == i,
{
    let j = first_place(picker, peer);
    assert(is_first_piece_at(picker, peer, j));
    assert(has_piece_at(picker, peer, i) && has_piece_at(picker, peer, j));
}

proof fn lemma_a_first_place_exists(picker: PickerView, peer: u8, i: int)
    requires
        has_piece_at(picker, peer, i),
    ensures
        is_first_piece_at(picker, peer, first_place(picker, peer)),
    decreases i,
{
    if forall|j: int| 0 <= j < i ==> !#[trigger] has_piece_at(picker, peer, j) {
        assert(is_first_piece_at(picker, peer, i));
    } else {
        let j = choose|j: int| 0 <= j < i && #[trigger] has_piece_at(picker, peer, j);
        lemma_a_first_place_exists(picker, peer, j);
    }
}

fn contains_peer(peers: &Vec<u8>, peer: u8) -> (r: bool)
    ensures
        r == peers@.contains(peer),
{
    for i in 0..peers.len()
        invariant
            forall|j: int| 0 <= j < i ==> peers@[j] != peer,
    {
        if peers[i] == peer {
            return true;
        }
    }
    false
}

impl PiecePicker {
    /// See `picker_is_well_formed`.
    pub open spec fn wf(&self) -> bool {
        picker_is_well_formed(self@)
    }

    /// A picker for `num_of_pieces` pieces, of which those in `completed` need
    /// no picking.
    pub fn new(num_of_pieces: u32, completed: Bitfield) -> (r: PiecePicker)
        requires
            num_of_pieces * 4 <= isize::MAX,
        ensures
            r.wf(),
            r@ == fresh(completed@),
    {
        broadcast use vstd::std_specs::hash::group_hash_axioms;

        let r = PiecePicker {
            pieces: HashMap::new(),
            pieces_by_rarity: VecDeque::with_capacity(num_of_pieces as usize),
            completed,
        };
        assert(r@.peers =~= Map::empty());
        r
    }

    /// Whether every bit that is set in `bits` has a counterpart here.
    pub fn covers(&self, bits: &Bitfield) -> (r: bool)
        ensures
            r == announces_known_pieces(self@, bits@),
    {
        let count = bits.len();
        let known = self.completed.len();
        for idx in 0..count
            invariant
                count == bits@.len(),
                known == self@.completed.len(),
                forall|i: int| 0 <= i < idx && #[trigger] bits@[i] ==> i < known,
        {
            if idx >= known && bits.get(idx) {
                return false;
            }
        }
        true
    }

    /// Takes in the pieces that the peer `peer_id` announces.
    pub fn update(&mut self, peer_id: u8, bits: Bitfield)
        requires
            old(self).wf(),
            announces_known_pieces(old(self)@, bits@),
        ensures
            final(self).wf(),
            final(self)@ == updated(old(self)@, peer_id, bits@, bits@.len() as int),
    {
        let ghost before = self@;
        let count = bits.len();
        for idx in 0..count
            invariant
                self.wf(),
                count == bits@.len(),
                before == old(self)@,
                self@ == updated(before, peer_id, bits@, idx as int),
                self@.completed == before.completed,
                announces_known_pieces(before, bits@),
        {
            if bits.get(idx) && !self.completed.get(idx) {
                self.announce(peer_id, usize_as_u32(idx));
            }
        }
    }

    /// Takes in that the peer `peer_id` has `piece`.
    fn announce(&mut self, peer_id: u8, piece: u32)
        requires
            old(self).wf(),
            piece < old(self)@.completed.len(),
            each_clear_bit_has_a_piece(old(self)@) ==> !needs_no_picking(old(self)@, piece),
        ensures
            final(self).wf(),
            final(self)@ == announced(old(self)@, peer_id, piece),
    {
        broadcast use vstd::std_specs::hash::group_hash_axioms;

        let ghost before = self@;
        proof {
            lemma_announced_is_well_formed(before, peer_id, piece);
        }
        assert(before.peers.contains_key(piece) == self.pieces@.contains_key(piece));
        match self.pieces.remove(&piece) {
            Some(mut peers) => {
                peers.push(peer_id);
                self.pieces.insert(piece, peers);
                proof {
                    assert(self@.peers =~= announced(before, peer_id, piece).peers);
                }
            },
            None => {
                let peers = vec![peer_id];
                self.pieces.insert(piece, peers);
                self.pieces_by_rarity.push_back(piece);
                proof {
                    assert(peers@ =~= seq![peer_id]);
                    assert(self@.peers =~= announced(before, peer_id, piece).peers);
                }
            },
        }
    }

    /// Takes in that a piece has come in. Pieces that were picked are held to
    /// come in, so there is nothing to note.
    pub fn finished(&mut self, _index: u32)
        ensures
            final(self)@ == old(self)@,
    {
    }

    /// Whether no piece needs picking any more.
    pub fn completed(&self) -> (r: bool)
        ensures
            r == all_set(self@.completed),
    {
        self.completed.all()
    }

    /// The first place of the queue with a piece of `peer`.
    fn find(&self, peer: u8) -> (r: Option<usize>)
        requires
            self.wf(),
        ensures
            r is Some <==> has_piece(self@, peer),
            r is Some ==> is_first_piece_at(self@, peer, r->0 as int),
    {
        broadcast use vstd::std_specs::hash::group_hash_axioms;

        for idx in 0..self.pieces_by_rarity.len()
            invariant
                self.wf(),
                forall|j: int| 0 <= j < idx ==> !#[trigger] has_piece_at(self@, peer, j),
        {
            let piece_idx = self.pieces_by_rarity[idx];
            assert(self@.queue.contains(self@.queue[idx as int]));
            if let Some(piece) = self.pieces.get(&piece_idx) {
                if contains_peer(piece, peer) {
                    assert(has_piece_at(self@, peer, idx as int));
                    return Some(idx);
                }
            }
            assert(!has_piece_at(self@, peer, idx as int));
        }
        None
    }

    /// Whether a piece that `peer` has announced waits to be picked.
    pub fn has_next(&self, peer: u8) -> (r: bool)
        requires
            self.wf(),
        ensures
            r == has_piece(self@, peer),
    {
        self.find(peer).is_some()
    }

    /// Picks the first waiting piece that `peer` has announced.
    pub fn next(&mut self, peer: u8) -> (r: u32)
        requires
            old(self).wf(),
            has_piece(old(self)@, peer),
        ensures
            final(self).wf(),
            is_first_piece_at(old(self)@, peer, first_place(old(self)@, peer)),
            r == next_piece(old(self)@, peer),
            final(self)@ == picked(old(self)@, first_place(old(self)@, peer)),
    {
        let ghost before = self@;
        let idx = self.find(peer).unwrap();
        let piece_idx = self.pieces_by_rarity[idx];
        proof {
            assert(before.queue.contains(before.queue[idx as int]));
            lemma_picked_is_well_formed(before, idx as int);
        }
        self.pieces_by_rarity.remove(idx);
        self.completed.set(piece_idx as usize, true);
        proof {
            assert(before.queue[idx as int] == piece_idx);
            assert(self@ =~= picked(before, idx as int));
            lemma_first_place(before, peer, idx as int);
        }
        piece_idx
    }
}

/// Whether the first `n` of `bits` announce `piece`: its bit is set, and it
/// needs picking.
pub open spec fn is_news(picker: PickerView, bits: Seq<bool>, n: int, piece: u32) -> bool {
    piece < n && bits[piece as int] && !picker.completed[piece as int]
}

/// Whether 32 bits are enough to number what `bits` announce: the bits that are set
/// where those of `completed` are clear.
pub open spec fn news_is_numbered(completed: Seq<bool>, bits: Seq<bool>) -> bool {
    forall|i: int|
        0 <= i < bits.len() && #[trigger] bits[i] && !completed[i] ==> i < 0x1_0000_0000
}

/// What an announcement changes: each announced piece gains the peer, and those
/// that no peer had announced before join the queue behind the others, in the
/// order of their indices.
pub proof fn law_update_adds_the_announced_pieces(picker: PickerView, peer: u8, bits: Seq<bool>)
    requires
        news_is_numbered(picker.completed, bits),
    ensures
        ({
            let n = bits.len() as int;
            let after = updated(picker, peer, bits, n);
            let before = picker.queue.len() as int;
            &&& after.completed == picker.completed
            &&& forall|p: u32| #[trigger]
                after.peers.contains_key(p) <==> picker.peers.contains_key(p) || is_news(
                    picker,
                    bits,
                    n,
                    p,
                )
            &&& forall|p: u32| #[trigger]
                after.peers.contains_key(p) ==> after.peers[p] == if !is_news(picker, bits, n, p) {
                    picker.peers[p]
                } else if picker.peers.contains_key(p) {
                    picker.peers[p].push(peer)
                } else {
                    seq![peer]
                }
            &&& before <= after.queue.len()
            &&& after.queue.take(before) == picker.queue
            &&& forall|i: int, j: int|
                before <= i < j < after.queue.len() ==> after.queue[i] < after.queue[j]
            &&& forall|p: u32| #[trigger]
                after.queue.skip(before).contains(p) <==> is_news(picker, bits, n, p)
                    && !picker.peers.contains_key(p)
        }),
{
    lemma_updated(picker, peer, bits, bits.len() as int);
}

proof fn lemma_updated(picker: PickerView, peer: u8, bits: Seq<bool>, n: int)
    requires
        0 <= n <= bits.len(),
        news_is_numbered(picker.completed, bits),
    ensures
        ({
            let after = updated(picker, peer, bits, n);
            let before = picker.queue.len() as int;
            &&& after.completed == picker.completed
            &&& forall|p: u32| #[trigger]
                after.peers.contains_key(p) <==> picker.peers.contains_key(p) || is_news(
                    picker,
                    bits,
                    n,
                    p,
                )
            &&& forall|p: u32| #[trigger]
                after.peers.contains_key(p) ==> after.peers[p] == if !is_news(picker, bits, n, p) {
                    picker.peers[p]
                } else if picker.peers.contains_key(p) {
                    picker.peers[p].push(peer)
                } else {
                    seq![peer]
                }
            &&& before <= after.queue.len()
            &&& after.queue.take(before) == picker.queue
            &&& forall|i: int| before <= i < after.queue.len() ==> #[trigger] after.queue[i] < n
            &&& forall|i: int, j: int|
                before <= i < j < after.queue.len() ==> after.queue[i] < after.queue[j]
            &&& forall|p: u32| #[trigger]
                after.queue.skip(before).contains(p) <==> is_news(picker, bits, n, p)
                    && !picker.peers.contains_key(p)
        }),
    decreases n,
{
    let before = picker.queue.len() as int;
    if n == 0 {
        assert(picker.queue.take(before) =~= picker.queue);
        assert(picker.queue.skip(before) =~= Seq::empty());
    } else {
        lemma_updated(picker, peer, bits, n - 1);
        let mid = updated(picker, peer, bits, n - 1);
        let after = updated(picker, peer, bits, n);
        if bits[n - 1] && !picker.completed[n - 1] {
            let last = (n - 1) as u32;
            assert(wrap_u32(n - 1) == last);
            assert forall|p: u32|
                #![trigger is_news(picker, bits, n, p)]
                is_news(picker, bits, n, p) == (is_news(picker, bits, n - 1, p) || p == last) by {}
            assert(!is_news(picker, bits, n - 1, last));
            if !mid.peers.contains_key(last) {
                assert(after.queue.take(before) =~= mid.queue.take(before));
                assert(after.queue.skip(before) =~= mid.queue.skip(before).push(last));
                assert forall|p: u32| #[trigger]
                    after.queue.skip(before).contains(p) == (mid.queue.skip(before).contains(p)
                        || p == last) by {
                    lemma_push_contains(mid.queue.skip(before), last, p);
                }
            }
        } else {
            assert forall|p: u32|
                #![trigger is_news(picker, bits, n, p)]
                is_news(picker, bits, n, p) == is_news(picker, bits, n - 1, p) by {}
        }
    }
}

/// Whether `piece` was picked: some peer has announced it, and it does not wait.
pub open spec fn was_picked(picker: PickerView, piece: u32) -> bool {
    picker.peers.contains_key(piece) && !picker.queue.contains(piece)
}

/// No piece is picked twice: what is picked was not picked before, and it stays
/// picked whatever is picked after it.
pub proof fn law_no_piece_is_picked_twice(picker: PickerView, i: int, piece: u32)
    requires
        picker_is_well_formed(picker),
        0 <= i < picker.queue.len(),
    ensures
        picker_is_well_formed(picked(picker, i)),
        !was_picked(picker, picker.queue[i]),
        was_picked(picked(picker, i), picker.queue[i]),
        was_picked(picker, piece) ==> was_picked(picked(picker, i), piece),
{
    lemma_picked_is_well_formed(picker, i);
    lemma_remove_contains(picker.queue, i, piece);
    lemma_remove_contains(picker.queue, i, picker.queue[i]);
    assert(picker.queue.contains(picker.queue[i]));
}

/// A piece that was picked stays so whatever is announced.
pub proof fn law_announcements_bring_no_picked_piece_back(
    picker: PickerView,
    peer: u8,
    bits: Seq<bool>,
    n: int,
    piece: u32,
)
    requires
        0 <= n <= bits.len(),
        was_picked(picker, piece),
    ensures
        was_picked(updated(picker, peer, bits, n), piece),
    decreases n,
{
    if n > 0 {
        law_announcements_bring_no_picked_piece_back(picker, peer, bits, n - 1, piece);
        let mid = updated(picker, peer, bits, n - 1);
        lemma_push_contains(mid.queue, wrap_u32(n - 1), piece);
    }
}

/// A piece that is picked needed picking, and needs none afterwards.
pub proof fn law_picking_sets_the_bit(picker: PickerView, i: int)
    requires
        picker_is_well_formed(picker),
        waiting_need_picking(picker),
        0 <= i < picker.queue.len(),
    ensures
        !needs_no_picking(picker, picker.queue[i]),
        needs_no_picking(picked(picker, i), picker.queue[i]),
{
    assert(picker.queue.contains(picker.queue[i]));
}

/// When no piece waits and every piece was announced or needs no picking, the
/// download is complete.
pub proof fn law_complete_when_nothing_waits(picker: PickerView)
    requires
        picker_is_well_formed(picker),
        each_clear_bit_has_a_piece(picker),
        picker.queue.len() == 0,
        forall|p: u32|
            p < picker.completed.len() ==> needs_no_picking(picker, p)
                || #[trigger] picker.peers.contains_key(p),
    ensures
        all_set(picker.completed),
{
    assert forall|i: int| 0 <= i < picker.completed.len() implies picker.completed[i] by {
        if !picker.completed[i] {
            let p = i as u32;
            assert(picker.peers.contains_key(p) || needs_no_picking(picker, p));
            assert(!picker.queue.contains(p));
        }
    }
}

/// A call of a picker.
pub enum PickerCall {
    Update { peer: u8, bits: Seq<bool> },
    Next { peer: u8 },
    Finished { index: u32 },
}

/// Whether `call` can be made: an announcement is of known pieces, and a peer that is
/// asked has announced a piece that waits.
pub open spec fn can_call(picker: PickerView, call: PickerCall) -> bool {
    match call {
        PickerCall::Update { peer, bits } => announces_known_pieces(picker, bits),
        PickerCall::Next { peer } => has_piece(picker, peer),
        PickerCall::Finished { index } => true,
    }
}

/// The picker after `call`.
pub open spec fn after_call(picker: PickerView, call: PickerCall) -> PickerView {
    match call {
        PickerCall::Update { peer, bits } => updated(picker, peer, bits, bits.len() as int),
        PickerCall::Next { peer } => picked(picker, first_place(picker, peer)),
        PickerCall::Finished { index } => picker,
    }
}

/// The picker after `calls`, one after the other.
pub open spec fn after_calls(picker: PickerView, calls: Seq<PickerCall>) -> PickerView
    decreases calls.len(),
{
    if calls.len() == 0 {
        picker
    } else {
        after_call(after_calls(picker, calls.drop_last()), calls.last())
    }
}

/// Whether all of `calls` can be made, one after the other.
pub open spec fn can_call_all(picker: PickerView, calls: Seq<PickerCall>) -> bool
    decreases calls.len(),
{
    calls.len() > 0 ==> {
        &&& can_call_all(picker, calls.drop_last())
        &&& can_call(after_calls(picker, calls.drop_last()), calls.last())
    }
}

/// What the call at place `k` returns, if it asks for a piece.
pub open spec fn returned(picker: PickerView, calls: Seq<PickerCall>, k: int) -> u32 {
    next_piece(after_calls(picker, calls.take(k)), calls[k]->Next_peer)
}

/// The number of pieces that `calls` ask for.
pub open spec fn picks_in(calls: Seq<PickerCall>) -> nat
    decreases calls.len(),
{
    if calls.len() == 0 {
        0
    } else if calls.last() is Next {
        picks_in(calls.drop_last()) + 1
    } else {
        picks_in(calls.drop_last())
    }
}

/// The number of `bits` that are not set.
pub open spec fn clear_bits(bits: Seq<bool>) -> nat
    decreases bits.len(),
{
    if bits.len() == 0 {
        0
    } else if bits.last() {
        clear_bits(bits.drop_last())
    } else {
        clear_bits(bits.drop_last()) + 1
    }
}

/// Whether `call` takes in from `peer` a bit that is set, that is clear in `completed`
/// and that stands for `piece`.
pub open spec fn call_announces(
    completed: Seq<bool>,
    call: PickerCall,
    peer: u8,
    piece: u32,
) -> bool {
    &&& call is Update
    &&& call->Update_peer == peer
    &&& exists|b: int|
        0 <= b < call->bits.len() && #[trigger] call->bits[b] && !completed[b] && wrap_u32(b)
            == piece
}

/// Whether one of `calls` takes in from `peer` that it has `piece`.
pub open spec fn was_announced(
    completed: Seq<bool>,
    calls: Seq<PickerCall>,
    peer: u8,
    piece: u32,
) -> bool {
    exists|j: int|
        0 <= j < calls.len() && #[trigger] call_announces(completed, calls[j], peer, piece)
}

/// Whether 32 bits are enough to number what each of `calls` announces.
pub open spec fn calls_are_numbered(completed: Seq<bool>, calls: Seq<PickerCall>) -> bool {
    forall|j: int|
        0 <= j < calls.len() && (#[trigger] calls[j]) is Update ==> news_is_numbered(
            completed,
            calls[j]->bits,
        )
}

/// Whether `call` takes in from `peer` a bitfield with the bit at `piece` set.
pub open spec fn call_has_bit(call: PickerCall, peer: u8, piece: u32) -> bool {
    &&& call is Update
    &&& call->Update_peer == peer
    &&& piece < call->bits.len()
    &&& call->bits[piece as int]
}

/// Whether `call` takes in from `peer` that it has every one of `n` pieces.
pub open spec fn call_announces_all(call: PickerCall, peer: u8, n: nat) -> bool {
    &&& call is Update
    &&& call->Update_peer == peer
    &&& call->bits.len() == n
    &&& all_set(call->bits)
}

proof fn lemma_updated_peers(
    picker: PickerView,
    peer: u8,
    bits: Seq<bool>,
    n: int,
    p: u32,
    other: u8,
)
    requires
        0 <= n <= bits.len(),
    ensures
        ({
            let after = updated(picker, peer, bits, n);
            let had = picker.peers.contains_key(p) && picker.peers[p].contains(other);
            let has = after.peers.contains_key(p) && after.peers[p].contains(other);
            &&& after.completed == picker.completed
            &&& had ==> has
            &&& has ==> had || call_announces(
                picker.completed,
                PickerCall::Update { peer, bits },
                other,
                p,
            )
        }),
    decreases n,
{
    if n > 0 {
        lemma_updated_peers(picker, peer, bits, n - 1, p, other);
        let mid = updated(picker, peer, bits, n - 1);
        let piece = wrap_u32(n - 1);
        if bits[n - 1] && !picker.completed[n - 1] {
            let call = PickerCall::Update { peer, bits };
            assert(call->bits[n - 1]);
            if mid.peers.contains_key(piece) {
                let peers = mid.peers[piece];
                let more = peers.push(peer);
                if p == piece && peers.contains(other) {
                    let i = choose|i: int| 0 <= i < peers.len() && peers[i] == other;
                    assert(more[i] == other);
                }
            }
        }
    }
}

proof fn lemma_updated_is_well_formed(picker: PickerView, peer: u8, bits: Seq<bool>, n: int)
    requires
        picker_is_well_formed(picker),
        announces_known_pieces(picker, bits),
        0 <= n <= bits.len(),
    ensures
        picker_is_well_formed(updated(picker, peer, bits, n)),
        updated(picker, peer, bits, n).completed == picker.completed,
        waiting_need_picking(picker) && news_is_numbered(picker.completed, bits)
            ==> waiting_need_picking(updated(picker, peer, bits, n)),
    decreases n,
{
    if n > 0 {
        lemma_updated_is_well_formed(picker, peer, bits, n - 1);
        if bits[n - 1] && !picker.completed[n - 1] {
            lemma_announced_is_well_formed(
                updated(picker, peer, bits, n - 1),
                peer,
                wrap_u32(n - 1),
            );
        }
    }
}

proof fn lemma_a_next_call(picker: PickerView, peer: u8)
    requires
        picker_is_well_formed(picker),
        has_piece(picker, peer),
    ensures
        is_first_piece_at(picker, peer, first_place(picker, peer)),
        picker.queue.contains(next_piece(picker, peer)),
        picker.peers.contains_key(next_piece(picker, peer)),
        picker.peers[next_piece(picker, peer)].contains(peer),
        next_piece(picker, peer) < picker.completed.len(),
{
    let i = choose|i: int| has_piece_at(picker, peer, i);
    lemma_a_first_place_exists(picker, peer, i);
    assert(picker.queue.contains(next_piece(picker, peer)));
}

proof fn lemma_calls_before(picker: PickerView, calls: Seq<PickerCall>, k: int)
    requires
        can_call_all(picker, calls),
        0 <= k <= calls.len(),
    ensures
        can_call_all(picker, calls.take(k)),
        k < calls.len() ==> can_call(after_calls(picker, calls.take(k)), calls[k]),
        k < calls.len() ==> after_calls(picker, calls.take(k + 1)) == after_call(
            after_calls(picker, calls.take(k)),
            calls[k],
        ),
    decreases calls.len(),
{
    if k == calls.len() {
        assert(calls.take(k) =~= calls);
    } else {
        assert(calls.take(k + 1).drop_last() =~= calls.take(k));
        assert(calls.take(k + 1).last() == calls[k]);
        if k + 1 == calls.len() {
            assert(calls.take(k + 1) =~= calls);
        } else {
            lemma_calls_before(picker, calls.drop_last(), k);
            assert(calls.drop_last().take(k) =~= calls.take(k));
        }
    }
}

proof fn lemma_numbered_before(completed: Seq<bool>, calls: Seq<PickerCall>, k: int)
    requires
        calls_are_numbered(completed, calls),
        0 <= k <= calls.len(),
    ensures
        calls_are_numbered(completed, calls.take(k)),
{
    let less = calls.take(k);
    assert forall|j: int|
        0 <= j < less.len() && (#[trigger] less[j]) is Update implies news_is_numbered(
        completed,
        less[j]->bits,
    ) by {
        assert(less[j] == calls[j]);
    }
}

/// Whatever calls are made of a new picker, it stays well formed, and no bit that is
/// set is cleared. While 32 bits are enough to number what is announced, the pieces that
/// wait are exactly those that were announced and need picking.
pub proof fn law_a_picker_stays_well_formed(completed: Seq<bool>, calls: Seq<PickerCall>)
    requires
        can_call_all(fresh(completed), calls),
    ensures
        ({
            let now = after_calls(fresh(completed), calls);
            &&& picker_is_well_formed(now)
            &&& now.completed.len() == completed.len()
            &&& forall|i: int| 0 <= i < completed.len() && completed[i] ==> now.completed[i]
            &&& calls_are_numbered(completed, calls) ==> waiting_need_picking(now)
        }),
    decreases calls.len(),
{
    if calls.len() > 0 {
        law_a_picker_stays_well_formed(completed, calls.drop_last());
        let before = after_calls(fresh(completed), calls.drop_last());
        if calls_are_numbered(completed, calls) {
            lemma_numbered_before(completed, calls, calls.len() - 1);
            assert(calls.take(calls.len() - 1) =~= calls.drop_last());
            if calls.last() is Update {
                assert(calls[calls.len() - 1] is Update);
                assert(news_is_numbered(before.completed, calls.last()->bits));
            }
        }
        match calls.last() {
            PickerCall::Update { peer, bits } => {
                lemma_updated_is_well_formed(before, peer, bits, bits.len() as int);
            },
            PickerCall::Next { peer } => {
                lemma_a_next_call(before, peer);
                lemma_picked_is_well_formed(before, first_place(before, peer));
            },
            PickerCall::Finished { index } => {},
        }
    }
}

proof fn lemma_picks_stay(completed: Seq<bool>, calls: Seq<PickerCall>, k: int, m: int)
    requires
        can_call_all(fresh(completed), calls),
        0 <= k < m <= calls.len(),
        calls[k] is Next,
    ensures
        was_picked(
            after_calls(fresh(completed), calls.take(m)),
            returned(fresh(completed), calls, k),
        ),
    decreases m,
{
    let start = fresh(completed);
    let piece = returned(start, calls, k);
    lemma_calls_before(start, calls, m - 1);
    law_a_picker_stays_well_formed(completed, calls.take(m - 1));
    let before = after_calls(start, calls.take(m - 1));
    if k < m - 1 {
        lemma_picks_stay(completed, calls, k, m - 1);
    }
    match calls[m - 1] {
        PickerCall::Update { peer, bits } => {
            law_announcements_bring_no_picked_piece_back(
                before,
                peer,
                bits,
                bits.len() as int,
                piece,
            );
        },
        PickerCall::Next { peer } => {
            lemma_a_next_call(before, peer);
            law_no_piece_is_picked_twice(before, first_place(before, peer), piece);
        },
        PickerCall::Finished { index } => {},
    }
}

/// Whatever calls are made of a new picker, by whichever peers, no two of them return
/// the same piece.
pub proof fn law_no_two_calls_return_the_same_piece(
    completed: Seq<bool>,
    calls: Seq<PickerCall>,
    i: int,
    j: int,
)
    requires
        can_call_all(fresh(completed), calls),
        0 <= i < j < calls.len(),
        calls[i] is Next,
        calls[j] is Next,
    ensures
        returned(fresh(completed), calls, i) != returned(fresh(completed), calls, j),
{
    let start = fresh(completed);
    lemma_picks_stay(completed, calls, i, j);
    lemma_calls_before(start, calls, j);
    law_a_picker_stays_well_formed(completed, calls.take(j));
    lemma_a_next_call(after_calls(start, calls.take(j)), calls[j]->Next_peer);
}

proof fn lemma_peers_were_announced(
    completed: Seq<bool>,
    calls: Seq<PickerCall>,
    peer: u8,
    piece: u32,
)
    requires
        can_call_all(fresh(completed), calls),
        after_calls(fresh(completed), calls).peers.contains_key(piece),
        after_calls(fresh(completed), calls).peers[piece].contains(peer),
    ensures
        was_announced(completed, calls, peer, piece),
    decreases calls.len(),
{
    if calls.len() > 0 {
        let less = calls.drop_last();
        let before = after_calls(fresh(completed), less);
        law_a_picker_stays_well_formed(completed, less);
        if let PickerCall::Update { peer: teller, bits } = calls.last() {
            lemma_updated_peers(before, teller, bits, bits.len() as int, piece, peer);
        }
        if before.peers.contains_key(piece) && before.peers[piece].contains(peer) {
            lemma_peers_were_announced(completed, less, peer, piece);
            let j = choose|j: int|
                0 <= j < less.len() && #[trigger] call_announces(completed, less[j], peer, piece);
            assert(call_announces(completed, calls[j], peer, piece));
        } else {
            let last = calls[calls.len() - 1];
            let b = choose|b: int|
                0 <= b < last->bits.len() && #[trigger] last->bits[b] && !before.completed[b]
                    && wrap_u32(b) == piece;
            assert(last->bits[b] && !completed[b]);
            assert(call_announces(completed, last, peer, piece));
        }
    }
}

/// A piece that is returned was announced by the peer that is asked, in an earlier call.
/// Where 32 bits are enough to number what was announced, its bit was clear at the start,
/// and it was set in what the peer announced.
pub proof fn law_a_returned_piece_was_announced(
    completed: Seq<bool>,
    calls: Seq<PickerCall>,
    k: int,
)
    requires
        can_call_all(fresh(completed), calls),
        0 <= k < calls.len(),
        calls[k] is Next,
    ensures
        ({
            let peer = calls[k]->Next_peer;
            let piece = returned(fresh(completed), calls, k);
            &&& was_announced(completed, calls.take(k), peer, piece)
            &&& calls_are_numbered(completed, calls.take(k)) ==> {
                &&& piece < completed.len()
                &&& !completed[piece as int]
                &&& exists|j: int| 0 <= j < k && #[trigger] call_has_bit(calls[j], peer, piece)
            }
        }),
{
    let start = fresh(completed);
    let peer = calls[k]->Next_peer;
    let piece = returned(start, calls, k);
    let earlier = calls.take(k);
    lemma_calls_before(start, calls, k);
    law_a_picker_stays_well_formed(completed, earlier);
    let now = after_calls(start, earlier);
    lemma_a_next_call(now, peer);
    lemma_peers_were_announced(completed, earlier, peer, piece);
    if calls_are_numbered(completed, earlier) {
        let j = choose|j: int|
            0 <= j < earlier.len() && #[trigger] call_announces(completed, earlier[j], peer, piece);
        let bits = earlier[j]->bits;
        let b = choose|b: int|
            0 <= b < bits.len() && #[trigger] bits[b] && !completed[b] && wrap_u32(b) == piece;
        assert(news_is_numbered(completed, bits));
        assert(b == piece);
        assert(call_has_bit(calls[j], peer, piece));
    }
}

proof fn lemma_no_bit_is_clear(bits: Seq<bool>)
    ensures
        all_set(bits) <==> clear_bits(bits) == 0,
    decreases bits.len(),
{
    if bits.len() > 0 {
        let less = bits.drop_last();
        lemma_no_bit_is_clear(less);
        assert forall|i: int| 0 <= i < less.len() implies less[i] == bits[i] by {}
        if all_set(bits) {
            assert(bits.last());
            assert(all_set(less));
        }
        if clear_bits(bits) == 0 {
            assert(all_set(less) && bits.last());
            assert forall|i: int| 0 <= i < bits.len() implies bits[i] by {
                if i < less.len() {
                    assert(less[i]);
                }
            }
        }
    }
}

proof fn lemma_setting_a_clear_bit(bits: Seq<bool>, i: int)
    requires
        0 <= i < bits.len(),
        !bits[i],
    ensures
        clear_bits(bits.update(i, true)) + 1 == clear_bits(bits),
    decreases bits.len(),
{
    let more = bits.update(i, true);
    if i == bits.len() - 1 {
        assert(more.drop_last() =~= bits.drop_last());
    } else {
        assert(more.drop_last() =~= bits.drop_last().update(i, true));
        lemma_setting_a_clear_bit(bits.drop_last(), i);
    }
}

proof fn lemma_each_pick_sets_a_bit(completed: Seq<bool>, calls: Seq<PickerCall>)
    requires
        can_call_all(fresh(completed), calls),
        calls_are_numbered(completed, calls),
    ensures
        clear_bits(after_calls(fresh(completed), calls).completed) + picks_in(calls) == clear_bits(
            completed,
        ),
    decreases calls.len(),
{
    if calls.len() > 0 {
        let less = calls.drop_last();
        lemma_numbered_before(completed, calls, calls.len() - 1);
        assert(calls.take(calls.len() - 1) =~= less);
        lemma_each_pick_sets_a_bit(completed, less);
        law_a_picker_stays_well_formed(completed, less);
        let before = after_calls(fresh(completed), less);
        match calls.last() {
            PickerCall::Update { peer, bits } => {
                lemma_updated_is_well_formed(before, peer, bits, bits.len() as int);
            },
            PickerCall::Next { peer } => {
                lemma_a_next_call(before, peer);
                law_picking_sets_the_bit(before, first_place(before, peer));
                lemma_setting_a_clear_bit(before.completed, next_piece(before, peer) as int);
            },
            PickerCall::Finished { index } => {},
        }
    }
}

/// Whatever calls are made of a new picker, it is complete exactly when as many pieces
/// were picked as bits were clear at the start, and never are more picked.
pub proof fn law_complete_when_every_clear_bit_was_picked(
    completed: Seq<bool>,
    calls: Seq<PickerCall>,
)
    requires
        can_call_all(fresh(completed), calls),
        calls_are_numbered(completed, calls),
    ensures
        picks_in(calls) <= clear_bits(completed),
        all_set(after_calls(fresh(completed), calls).completed) <==> picks_in(calls)
            == clear_bits(completed),
{
    lemma_each_pick_sets_a_bit(completed, calls);
    lemma_no_bit_is_clear(after_calls(fresh(completed), calls).completed);
}

proof fn lemma_all_clear_bits_are_offered(
    completed: Seq<bool>,
    calls: Seq<PickerCall>,
    j: int,
    peer: u8,
    p: u32,
)
    requires
        can_call_all(fresh(completed), calls),
        calls_are_numbered(completed, calls),
        0 <= j < calls.len(),
        call_announces_all(calls[j], peer, completed.len()),
        p < completed.len(),
        !after_calls(fresh(completed), calls).completed[p as int],
    ensures
        after_calls(fresh(completed), calls).peers.contains_key(p),
        after_calls(fresh(completed), calls).peers[p].contains(peer),
    decreases calls.len(),
{
    let less = calls.drop_last();
    lemma_numbered_before(completed, calls, calls.len() - 1);
    assert(calls.take(calls.len() - 1) =~= less);
    law_a_picker_stays_well_formed(completed, less);
    let before = after_calls(fresh(completed), less);
    match calls.last() {
        PickerCall::Update { peer: teller, bits } => {
            lemma_updated_peers(before, teller, bits, bits.len() as int, p, peer);
            if j == calls.len() - 1 {
                assert(news_is_numbered(completed, calls[j]->bits));
                law_update_adds_the_announced_pieces(before, peer, bits);
                let after = after_calls(fresh(completed), calls);
                assert(bits[p as int]);
                assert(is_news(before, bits, bits.len() as int, p));
                assert(after.peers.contains_key(p));
                assert(after.peers[p].last() == peer);
            }
        },
        PickerCall::Next { peer: asked } => {
            lemma_a_next_call(before, asked);
        },
        PickerCall::Finished { index } => {},
    }
    if j < calls.len() - 1 {
        assert(less[j] == calls[j]);
        lemma_all_clear_bits_are_offered(completed, less, j, peer, p);
    }
}

/// A peer that has announced every piece can be asked until as many pieces were picked
/// as bits were clear at the start.
pub proof fn law_a_peer_with_every_piece_can_be_asked(
    completed: Seq<bool>,
    calls: Seq<PickerCall>,
    j: int,
    peer: u8,
)
    requires
        can_call_all(fresh(completed), calls),
        calls_are_numbered(completed, calls),
        0 <= j < calls.len(),
        call_announces_all(calls[j], peer, completed.len()),
    ensures
        can_call(after_calls(fresh(completed), calls), PickerCall::Next { peer }) <==> picks_in(
            calls,
        ) < clear_bits(completed),
{
    let now = after_calls(fresh(completed), calls);
    law_a_picker_stays_well_formed(completed, calls);
    law_complete_when_every_clear_bit_was_picked(completed, calls);
    if picks_in(calls) < clear_bits(completed) {
        let i = choose|i: int| 0 <= i < now.completed.len() && !now.completed[i];
        assert(news_is_numbered(completed, calls[j]->bits));
        assert(calls[j]->bits[i] && !completed[i]);
        let p = i as u32;
        lemma_all_clear_bits_are_offered(completed, calls, j, peer, p);
        assert(now.queue.contains(p));
        let k = choose|k: int| 0 <= k < now.queue.len() && now.queue[k] == p;
        assert(has_piece_at(now, peer, k));
    } else if has_piece(now, peer) {
        lemma_a_next_call(now, peer);
        assert(now.completed[next_piece(now, peer) as int]);
    }
}

} // verus!
