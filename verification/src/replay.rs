//! The replay engine: applies to one word the merges and splits of the tables
//! in the order of their ranks.
//!
//! Events wait in a queue. The event of lowest rank leaves first; of several
//! with that rank, the one at the lowest position; at one rank and position a
//! merge before a split; of several that agree in all three, the one that
//! waited longest. An event that no longer fits the word when it leaves the
//! queue is dropped. Whatever an applied event enqueues has a higher rank
//! than its own.

use crate::tables::{
    lemma_lowest_above, lowest_above, merge_candidate, merge_listed, merge_ranks, split_candidate,
    split_listed, split_ranks, MergeEntries, MergeMap, SplitEntries, SplitMap,
};
use crate::word::Symbol;
use crate::word::Pair;
use vstd::prelude::*;

verus! {

/// An event that waits in the queue.
pub enum Event {
    Merge { pos: usize, rank: u32, new_id: u32 },
    Split { pos: usize, rank: u32, pieces: Vec<u32> },
}

/// An event as a mathematical value.
pub enum EventView {
    Merge { pos: usize, rank: u32, new_id: u32 },
    Split { pos: usize, rank: u32, pieces: Seq<u32> },
}

impl View for Event {
    type V = EventView;

    open spec fn view(&self) -> EventView {
        match *self {
            Event::Merge { pos, rank, new_id } => EventView::Merge { pos, rank, new_id },
            Event::Split { pos, rank, pieces } => EventView::Split { pos, rank, pieces: pieces@ },
        }
    }
}

impl EventView {
    /// The rank of the event in the log of training.
    pub open spec fn rank(self) -> u32 {
        match self {
            EventView::Merge { rank, .. } => rank,
            EventView::Split { rank, .. } => rank,
        }
    }

    /// The slot at which the event applies.
    pub open spec fn pos(self) -> usize {
        match self {
            EventView::Merge { pos, .. } => pos,
            EventView::Split { pos, .. } => pos,
        }
    }
}

impl Event {
    /// The rank of the event in the log of training.
    pub fn rank(&self) -> (r: u32)
        ensures
            r == self@.rank(),
    {
        match self {
            Event::Merge { rank, .. } => *rank,
            Event::Split { rank, .. } => *rank,
        }
    }

    /// The slot at which the event applies.
    pub fn pos(&self) -> (p: usize)
        ensures
            p == self@.pos(),
    {
        match self {
            Event::Merge { pos, .. } => *pos,
            Event::Split { pos, .. } => *pos,
        }
    }

    /// Whether the event is a split.
    pub fn is_split(&self) -> (b: bool)
        ensures
            b == (self@ is Split),
    {
        match self {
            Event::Merge { .. } => false,
            Event::Split { .. } => true,
        }
    }

    /// Whether this event leaves the queue before `other`, where the two
    /// differ in rank, position or kind.
    pub fn comes_before(&self, other: &Event) -> (b: bool)
        ensures
            b == comes_before(self@, other@),
    {
        let (rank, other_rank) = (self.rank(), other.rank());
        let (pos, other_pos) = (self.pos(), other.pos());
        rank < other_rank || (rank == other_rank && (pos < other_pos || (pos == other_pos
            && !self.is_split() && other.is_split())))
    }
}

/// The order in which events leave the queue: by rank, then by position, then
/// merges before splits.
pub open spec fn comes_before(a: EventView, b: EventView) -> bool {
    a.rank() < b.rank() || (a.rank() == b.rank() && (a.pos() < b.pos() || (a.pos() == b.pos()
        && a is Merge && b is Split)))
}

/// The index of the event that leaves a queue next: the first of those that
/// no other comes before.
pub open spec fn first_event(q: Seq<EventView>) -> int
    decreases q.len(),
{
    if q.len() <= 1 {
        0
    } else {
        let m = first_event(q.drop_last());
        if comes_before(q.last(), q[m]) {
            q.len() - 1
        } else {
            m
        }
    }
}

/// The events of a queue as mathematical values.
pub open spec fn queue_view(q: Seq<Event>) -> Seq<EventView> {
    Seq::new(q.len(), |i: int| q[i]@)
}

/// The word and the queue while events are replayed.
pub struct Replay {
    pub syms: Seq<Symbol>,
    pub queue: Seq<EventView>,
}

/// The merge events that a fresh word starts with: for each adjacent pair
/// among the first `n + 1` symbols, the merge of lowest rank that the table
/// holds for it.
pub open spec fn seeds(s: Seq<Symbol>, merges: Map<Pair, MergeEntries>, n: int) -> Seq<EventView>
    decreases n,
{
    if n <= 0 {
        Seq::empty()
    } else {
        let i = n - 1;
        seeds(s, merges, i) + (match merge_candidate(merges, (s[i].c, s[i + 1].c), -1) {
            Some((rank, new_id)) => seq![EventView::Merge { pos: i as usize, rank, new_id }],
            None => Seq::empty(),
        })
    }
}

/// Whether the merge `(rank, new_id)` at `pos` can be applied: the slot is
/// live, it has a right neighbour inside the word, the table still lists the
/// merge for the pair that the two form, and the fused length fits.
pub open spec fn merge_fires(
    s: Seq<Symbol>,
    pos: int,
    rank: u32,
    new_id: u32,
    merges: Map<Pair, MergeEntries>,
) -> bool {
    &&& 0 <= pos < s.len()
    &&& s[pos].len != 0
    &&& 0 <= s[pos].next < s.len()
    &&& merge_listed(merges, (s[pos].c, s[s[pos].next as int].c), rank, new_id)
    &&& s[pos].len + s[s[pos].next as int].len <= usize::MAX
}

/// The word after the symbol at `pos` has taken in its right neighbour: it
/// has the new id, both lengths and the neighbour's `next`; the neighbour's
/// slot has length zero; the symbol behind the neighbour points back to
/// `pos`.
pub open spec fn apply_merge(s: Seq<Symbol>, pos: int, new_id: u32) -> Seq<Symbol> {
    let next_pos = s[pos].next as int;
    let right = s[next_pos];
    let s1 = s.update(
        pos,
        Symbol { c: new_id, prev: s[pos].prev, next: right.next, len: (s[pos].len + right.len) as usize },
    );
    let s2 = s1.update(next_pos, Symbol { len: 0, ..s1[next_pos] });
    if 0 <= right.next < s.len() {
        s2.update(right.next as int, Symbol { prev: pos as isize, ..s2[right.next as int] })
    } else {
        s2
    }
}

/// Whether the split `(rank, pieces)` at `pos` can be applied: the slot is
/// live and not the end of its chain, the table still lists the split for the
/// id in it, there is at least one piece, and the pieces do not run over the
/// end of the word.
pub open spec fn split_fires(
    s: Seq<Symbol>,
    pos: int,
    rank: u32,
    pieces: Seq<u32>,
    splits: Map<u32, SplitEntries>,
) -> bool {
    &&& 0 <= pos < s.len()
    &&& s[pos].len != 0
    &&& s[pos].next != -1
    &&& split_listed(splits, s[pos].c, rank, pieces)
    &&& pieces.len() >= 1
    &&& pos + pieces.len() <= s.len()
}

/// The word after the pieces have been written over the slots from `pos` on:
/// one id for each slot, each with length 1 and linked to the slots beside
/// it; the first keeps the `prev` of the slot it replaces; the slot behind the
/// last points back to it.
pub open spec fn apply_split(s: Seq<Symbol>, pos: int, pieces: Seq<u32>) -> Seq<Symbol> {
    Seq::new(
        s.len(),
        |j: int|
            if pos <= j < pos + pieces.len() {
                Symbol {
                    c: pieces[j - pos],
                    prev: if j == pos {
                        s[pos].prev
                    } else {
                        (j - 1) as isize
                    },
                    next: if j < s.len() - 1 {
                        (j + 1) as isize
                    } else {
                        -1isize
                    },
                    len: 1,
                }
            } else if j == pos + pieces.len() {
                Symbol { prev: (j - 1) as isize, ..s[j] }
            } else {
                s[j]
            },
    )
}

/// The merge above `floor` for the symbol at `pos` and the one before it.
pub open spec fn left_followup(
    s: Seq<Symbol>,
    pos: int,
    floor: u32,
    merges: Map<Pair, MergeEntries>,
) -> Seq<EventView> {
    let prev = s[pos].prev as int;
    if 0 <= prev < s.len() {
        match merge_candidate(merges, (s[prev].c, s[pos].c), floor as int) {
            Some((rank, new_id)) => seq![EventView::Merge { pos: prev as usize, rank, new_id }],
            None => Seq::empty(),
        }
    } else {
        Seq::empty()
    }
}

/// The merge above `floor` for the symbol at `pos` and the one behind it.
pub open spec fn right_followup(
    s: Seq<Symbol>,
    pos: int,
    floor: u32,
    merges: Map<Pair, MergeEntries>,
) -> Seq<EventView> {
    let next = s[pos].next as int;
    if 0 <= next < s.len() {
        match merge_candidate(merges, (s[pos].c, s[next].c), floor as int) {
            Some((rank, new_id)) => seq![EventView::Merge { pos: pos as usize, rank, new_id }],
            None => Seq::empty(),
        }
    } else {
        Seq::empty()
    }
}

/// The split above `floor` for the id at `pos`.
pub open spec fn split_followup(
    s: Seq<Symbol>,
    pos: int,
    floor: u32,
    splits: Map<u32, SplitEntries>,
) -> Seq<EventView> {
    match split_candidate(splits, s[pos].c, floor as int) {
        Some((rank, pieces)) => seq![EventView::Split { pos: pos as usize, rank, pieces }],
        None => Seq::empty(),
    }
}

/// The merges above `floor` for the adjacent pairs among the first `n + 1`
/// pieces, written from `pos` on.
pub open spec fn inner_followups(
    pieces: Seq<u32>,
    pos: int,
    floor: u32,
    merges: Map<Pair, MergeEntries>,
    n: int,
) -> Seq<EventView>
    decreases n,
{
    if n <= 0 {
        Seq::empty()
    } else {
        let i = n - 1;
        inner_followups(pieces, pos, floor, merges, i) + (match merge_candidate(
            merges,
            (pieces[i], pieces[i + 1]),
            floor as int,
        ) {
            Some((rank, new_id)) => seq![EventView::Merge { pos: (pos + i) as usize, rank, new_id }],
            None => Seq::empty(),
        })
    }
}

/// What an applied merge enqueues.
pub open spec fn merge_followups(
    s: Seq<Symbol>,
    pos: int,
    floor: u32,
    merges: Map<Pair, MergeEntries>,
    splits: Map<u32, SplitEntries>,
) -> Seq<EventView> {
    left_followup(s, pos, floor, merges) + right_followup(s, pos, floor, merges) + split_followup(
        s,
        pos,
        floor,
        splits,
    )
}

/// What an applied split of `k` pieces enqueues.
pub open spec fn split_followups(
    s: Seq<Symbol>,
    pos: int,
    pieces: Seq<u32>,
    floor: u32,
    merges: Map<Pair, MergeEntries>,
    splits: Map<u32, SplitEntries>,
) -> Seq<EventView> {
    left_followup(s, pos, floor, merges) + inner_followups(
        pieces,
        pos,
        floor,
        merges,
        pieces.len() - 1,
    ) + right_followup(s, pos + pieces.len() - 1, floor, merges) + split_followup(
        s,
        pos,
        floor,
        splits,
    )
}

/// The word after the event `e` has left the queue.
pub open spec fn event_symbols(
    s: Seq<Symbol>,
    e: EventView,
    merges: Map<Pair, MergeEntries>,
    splits: Map<u32, SplitEntries>,
) -> Seq<Symbol> {
    match e {
        EventView::Merge { pos, rank, new_id } => if merge_fires(s, pos as int, rank, new_id, merges) {
            apply_merge(s, pos as int, new_id)
        } else {
            s
        },
        EventView::Split { pos, rank, pieces } => if split_fires(s, pos as int, rank, pieces, splits) {
            apply_split(s, pos as int, pieces)
        } else {
            s
        },
    }
}

/// What the event `e` enqueues when it leaves the queue.
pub open spec fn event_followups(
    s: Seq<Symbol>,
    e: EventView,
    merges: Map<Pair, MergeEntries>,
    splits: Map<u32, SplitEntries>,
) -> Seq<EventView> {
    match e {
        EventView::Merge { pos, rank, new_id } => if merge_fires(s, pos as int, rank, new_id, merges) {
            merge_followups(apply_merge(s, pos as int, new_id), pos as int, rank, merges, splits)
        } else {
            Seq::empty()
        },
        EventView::Split { pos, rank, pieces } => if split_fires(s, pos as int, rank, pieces, splits) {
            split_followups(
                apply_split(s, pos as int, pieces),
                pos as int,
                pieces,
                rank,
                merges,
                splits,
            )
        } else {
            Seq::empty()
        },
    }
}

/// One step: the next event leaves the queue, is applied or dropped, and what
/// it enqueues joins the end of the queue.
pub open spec fn replay_step(
    st: Replay,
    merges: Map<Pair, MergeEntries>,
    splits: Map<u32, SplitEntries>,
) -> Replay {
    let k = first_event(st.queue);
    let e = st.queue[k];
    Replay {
        syms: event_symbols(st.syms, e, merges, splits),
        queue: st.queue.remove(k) + event_followups(st.syms, e, merges, splits),
    }
}

/// How many events of a queue have the rank `r`.
pub open spec fn count_rank(q: Seq<EventView>, r: u32) -> int
    decreases q.len(),
{
    if q.len() == 0 {
        0
    } else {
        count_rank(q.drop_last(), r) + (if q.last().rank() == r {
            1int
        } else {
            0int
        })
    }
}

/// How many ranks lie at or above that of the next event.
pub open spec fn rank_room(q: Seq<EventView>) -> int {
    if q.len() == 0 {
        0
    } else {
        0x1_0000_0000 - q[first_event(q)].rank()
    }
}

/// How many events share the rank of the next event.
pub open spec fn lowest_count(q: Seq<EventView>) -> int {
    if q.len() == 0 {
        0
    } else {
        count_rank(q, q[first_event(q)].rank())
    }
}

/// The word when the queue has run empty.
pub open spec fn replay_run(
    st: Replay,
    merges: Map<Pair, MergeEntries>,
    splits: Map<u32, SplitEntries>,
) -> Seq<Symbol>
    decreases rank_room(st.queue), lowest_count(st.queue),
{
    if st.queue.len() == 0 {
        st.syms
    } else {
        proof {
            lemma_step_decreases(st, merges, splits);
        }
        replay_run(replay_step(st, merges, splits), merges, splits)
    }
}

/// The symbols of nonzero length, in order.
pub open spec fn live_symbols(s: Seq<Symbol>) -> Seq<Symbol>
    decreases s.len(),
{
    if s.len() == 0 {
        Seq::empty()
    } else {
        live_symbols(s.drop_last()) + (if s.last().len != 0 {
            seq![s.last()]
        } else {
            Seq::empty()
        })
    }
}

/// The symbols with their links set anew: each leads to the one before it
/// and to the one behind it, the first and the last to nothing.
pub open spec fn relinked(s: Seq<Symbol>) -> Seq<Symbol> {
    Seq::new(
        s.len(),
        |i: int|
            Symbol {
                c: s[i].c,
                prev: (i - 1) as isize,
                next: if i == s.len() - 1 {
                    -1isize
                } else {
                    (i + 1) as isize
                },
                len: s[i].len,
            },
    )
}

/// Whether the links of a word fit together: every `next` that leads
/// somewhere leads to a symbol of the word whose `prev` leads back, and every
/// `prev` that leads somewhere to one whose `next` leads back.
pub open spec fn links_hold(s: Seq<Symbol>) -> bool {
    forall|i: int|
        0 <= i < s.len() ==> {
            &&& (#[trigger] s[i]).next >= 0 ==> s[i].next < s.len() && s[s[i].next as int].prev == i
            &&& s[i].prev >= 0 ==> s[i].prev < s.len() && s[s[i].prev as int].next == i
        }
}

/// Links that are set anew fit together, and the symbols keep their ids and
/// lengths.
pub proof fn lemma_relinked(s: Seq<Symbol>)
    requires
        s.len() <= isize::MAX,
    ensures
        links_hold(relinked(s)),
        relinked(s).len() == s.len(),
        forall|i: int|
            0 <= i < s.len() ==> (#[trigger] relinked(s)[i]).c == s[i].c && relinked(s)[i].len
                == s[i].len,
{
}

/// The word without its consumed slots is no longer than the word.
pub proof fn lemma_live_symbols_len(s: Seq<Symbol>)
    ensures
        live_symbols(s).len() <= s.len(),
    decreases s.len(),
{
    if s.len() > 0 {
        lemma_live_symbols_len(s.drop_last());
    }
}

/// The word after all events have been replayed, the consumed slots have
/// been dropped, and the links have been set anew.
pub open spec fn replayed(
    s: Seq<Symbol>,
    merges: Map<Pair, MergeEntries>,
    splits: Map<u32, SplitEntries>,
) -> Seq<Symbol> {
    relinked(
        live_symbols(
            replay_run(Replay { syms: s, queue: seeds(s, merges, s.len() - 1) }, merges, splits),
        ),
    )
}

/// The next event is in the queue, and none comes before it.
pub proof fn lemma_first_event(q: Seq<EventView>)
    requires
        q.len() > 0,
    ensures
        0 <= first_event(q) < q.len(),
        forall|j: int| 0 <= j < q.len() ==> !comes_before(#[trigger] q[j], q[first_event(q)]),
        forall|j: int| 0 <= j < q.len() ==> (#[trigger] q[j]).rank() >= q[first_event(q)].rank(),
    decreases q.len(),
{
    if q.len() > 1 {
        let p = q.drop_last();
        lemma_first_event(p);
        assert forall|j: int| 0 <= j < q.len() implies !comes_before(
            #[trigger] q[j],
            q[first_event(q)],
        ) by {
            if j < q.len() - 1 {
                assert(q[j] == p[j]);
            }
        }
    }
}

/// No more events have a rank than there are events.
pub proof fn lemma_count_rank_bounds(q: Seq<EventView>, r: u32)
    ensures
        0 <= count_rank(q, r) <= q.len(),
    decreases q.len(),
{
    if q.len() > 0 {
        lemma_count_rank_bounds(q.drop_last(), r);
    }
}

/// Of queues in a row as many events have a rank as of the two parts.
pub proof fn lemma_count_rank_concat(a: Seq<EventView>, b: Seq<EventView>, r: u32)
    ensures
        count_rank(a + b, r) == count_rank(a, r) + count_rank(b, r),
    decreases b.len(),
{
    if b.len() == 0 {
        assert(a + b =~= a);
    } else {
        lemma_count_rank_concat(a, b.drop_last(), r);
        assert((a + b).drop_last() =~= a + b.drop_last());
    }
}

/// Taking an event out of a queue takes one from the count of its rank.
pub proof fn lemma_count_rank_remove(q: Seq<EventView>, k: int, r: u32)
    requires
        0 <= k < q.len(),
    ensures
        count_rank(q.remove(k), r) == count_rank(q, r) - (if q[k].rank() == r {
            1int
        } else {
            0int
        }),
    decreases q.len(),
{
    if k == q.len() - 1 {
        assert(q.remove(k) =~= q.drop_last());
    } else {
        lemma_count_rank_remove(q.drop_last(), k, r);
        assert(q.remove(k).drop_last() =~= q.drop_last().remove(k));
        assert(q.remove(k).last() == q.last());
    }
}

/// A rank that no event has is counted zero times.
pub proof fn lemma_count_rank_none(q: Seq<EventView>, r: u32)
    requires
        forall|j: int| 0 <= j < q.len() ==> (#[trigger] q[j]).rank() != r,
    ensures
        count_rank(q, r) == 0,
    decreases q.len(),
{
    if q.len() > 0 {
        assert forall|j: int| 0 <= j < q.drop_last().len() implies (#[trigger] q.drop_last()[j]).rank()
            != r by {
            assert(q.drop_last()[j] == q[j]);
        }
        lemma_count_rank_none(q.drop_last(), r);
    }
}

/// The merges that stand for the inner pairs of a split have ranks above the
/// floor.
pub proof fn lemma_inner_followups(
    pieces: Seq<u32>,
    pos: int,
    floor: u32,
    merges: Map<Pair, MergeEntries>,
    n: int,
)
    ensures
        forall|j: int|
            0 <= j < inner_followups(pieces, pos, floor, merges, n).len() ==> (
            #[trigger] inner_followups(pieces, pos, floor, merges, n)[j]).rank() > floor,
    decreases n,
{
    if n > 0 {
        let i = n - 1;
        lemma_inner_followups(pieces, pos, floor, merges, i);
        lemma_merge_candidate(merges, (pieces[i], pieces[i + 1]), floor as int);
        let head = inner_followups(pieces, pos, floor, merges, i);
        let all = inner_followups(pieces, pos, floor, merges, n);
        assert forall|j: int| 0 <= j < all.len() implies (#[trigger] all[j]).rank() > floor by {
            if j < head.len() {
                assert(all[j] == head[j]);
            }
        }
    }
}

/// A merge candidate has a rank above the floor.
pub proof fn lemma_merge_candidate(merges: Map<Pair, MergeEntries>, pair: Pair, floor: int)
    ensures
        match merge_candidate(merges, pair, floor) {
            Some((rank, new_id)) => rank > floor && merges.contains_key(pair)
                && merges[pair].contains((rank, new_id)),
            None => true,
        },
{
    if merges.contains_key(pair) {
        lemma_lowest_above(merge_ranks(merges[pair]), floor);
        match lowest_above(merge_ranks(merges[pair]), floor) {
            Some(i) => {
                assert(merge_ranks(merges[pair])[i] == merges[pair][i].0);
                assert(merges[pair][i] == merges[pair][i]);
            },
            None => {},
        }
    }
}

/// A split candidate has a rank above the floor.
pub proof fn lemma_split_candidate(splits: Map<u32, SplitEntries>, id: u32, floor: int)
    ensures
        match split_candidate(splits, id, floor) {
            Some((rank, pieces)) => rank > floor && splits.contains_key(id) && splits[id].contains(
                (rank, pieces),
            ),
            None => true,
        },
{
    if splits.contains_key(id) {
        lemma_lowest_above(split_ranks(splits[id]), floor);
        match lowest_above(split_ranks(splits[id]), floor) {
            Some(i) => {
                assert(split_ranks(splits[id])[i] == splits[id][i].0);
                assert(splits[id][i] == splits[id][i]);
            },
            None => {},
        }
    }
}

/// Whatever an event enqueues has a higher rank than the event.
pub proof fn lemma_followups_above(
    s: Seq<Symbol>,
    e: EventView,
    merges: Map<Pair, MergeEntries>,
    splits: Map<u32, SplitEntries>,
)
    ensures
        forall|j: int|
            0 <= j < event_followups(s, e, merges, splits).len() ==> (#[trigger] event_followups(
                s,
                e,
                merges,
                splits,
            )[j]).rank() > e.rank(),
{
    let f = event_followups(s, e, merges, splits);
    match e {
        EventView::Merge { pos, rank, new_id } => {
            if merge_fires(s, pos as int, rank, new_id, merges) {
                let t = apply_merge(s, pos as int, new_id);
                let prev = t[pos as int].prev as int;
                let next = t[pos as int].next as int;
                lemma_merge_candidate(merges, (t[prev].c, t[pos as int].c), rank as int);
                lemma_merge_candidate(merges, (t[pos as int].c, t[next].c), rank as int);
                lemma_split_candidate(splits, t[pos as int].c, rank as int);
            }
        },
        EventView::Split { pos, rank, pieces } => {
            if split_fires(s, pos as int, rank, pieces, splits) {
                let t = apply_split(s, pos as int, pieces);
                let last = pos + pieces.len() - 1;
                let prev = t[pos as int].prev as int;
                let next = t[last].next as int;
                lemma_merge_candidate(merges, (t[prev].c, t[pos as int].c), rank as int);
                lemma_merge_candidate(merges, (t[last].c, t[next].c), rank as int);
                lemma_split_candidate(splits, t[pos as int].c, rank as int);
                lemma_inner_followups(pieces, pos as int, rank, merges, pieces.len() - 1);
            }
        },
    }
}

/// A step brings the queue nearer to empty: the rank of the next event
/// rises, or fewer events share it.
pub proof fn lemma_step_decreases(
    st: Replay,
    merges: Map<Pair, MergeEntries>,
    splits: Map<u32, SplitEntries>,
)
    requires
        st.queue.len() > 0,
    ensures
        rank_room(replay_step(st, merges, splits).queue) < rank_room(st.queue) || (rank_room(
            replay_step(st, merges, splits).queue,
        ) == rank_room(st.queue) && 0 <= lowest_count(replay_step(st, merges, splits).queue)
            < lowest_count(st.queue)),
{
    let q = st.queue;
    let k = first_event(q);
    lemma_first_event(q);
    let e = q[k];
    let r = e.rank();
    let rest = q.remove(k);
    let f = event_followups(st.syms, e, merges, splits);
    let q2 = rest + f;
    lemma_followups_above(st.syms, e, merges, splits);
    assert(replay_step(st, merges, splits).queue == q2);
    if q2.len() > 0 {
        lemma_first_event(q2);
        let k2 = first_event(q2);
        let r2 = q2[k2].rank();
        assert(r2 >= r) by {
            if k2 < rest.len() {
                assert(q2[k2] == rest[k2]);
                if k2 < k {
                    assert(rest[k2] == q[k2]);
                } else {
                    assert(rest[k2] == q[k2 + 1]);
                }
            } else {
                assert(q2[k2] == f[k2 - rest.len()]);
            }
        }
        if r2 == r {
            lemma_count_rank_concat(rest, f, r);
            lemma_count_rank_remove(q, k, r);
            lemma_count_rank_none(f, r);
            lemma_count_rank_bounds(q2, r);
        }
    }
}

/// Takes the next event out of the queue.
pub fn pop_first(queue: &mut Vec<Event>) -> (e: Event)
    requires
        old(queue)@.len() > 0,
    ensures
        e@ == queue_view(old(queue)@)[first_event(queue_view(old(queue)@))],
        queue_view(final(queue)@) == queue_view(old(queue)@).remove(
            first_event(queue_view(old(queue)@)),
        ),
{
    let n = queue.len();
    let mut best: usize = 0;
    let mut i: usize = 1;
    while i < n
        invariant
            n == queue@.len(),
            1 <= i <= n,
            best < i,
            best == first_event(queue_view(queue@).take(i as int)),
        decreases n - i,
    {
        proof {
            let cur = queue_view(queue@).take(i + 1);
            assert(cur.drop_last() =~= queue_view(queue@).take(i as int));
            assert(cur.last() == queue@[i as int]@);
            assert(cur[best as int] == queue@[best as int]@);
        }
        if queue[i].comes_before(&queue[best]) {
            best = i;
        }
        i = i + 1;
    }
    proof {
        assert(queue_view(queue@).take(n as int) =~= queue_view(queue@));
    }
    let e = queue.remove(best);
    proof {
        assert(queue_view(queue@) =~= queue_view(old(queue)@).remove(best as int));
    }
    e
}

/// Puts a merge at the end of the queue if the table holds one.
fn push_candidate(queue: &mut Vec<Event>, pos: usize, found: Option<(u32, u32)>)
    ensures
        queue_view(final(queue)@) == queue_view(old(queue)@) + (match found {
            Some((rank, new_id)) => seq![EventView::Merge { pos, rank, new_id }],
            None => Seq::empty(),
        }),
{
    match found {
        Some((rank, new_id)) => {
            queue.push(Event::Merge { pos, rank, new_id });
            assert(queue_view(queue@) =~= queue_view(old(queue)@) + seq![
                EventView::Merge { pos, rank, new_id },
            ]);
        },
        None => {
            assert(queue_view(queue@) =~= queue_view(old(queue)@) + Seq::<EventView>::empty());
        },
    }
}

/// The events that a fresh word starts with.
pub fn seed_queue(symbols: &Vec<Symbol>, merges: &MergeMap) -> (queue: Vec<Event>)
    ensures
        queue_view(queue@) == seeds(symbols@, merges@, symbols@.len() - 1),
{
    let mut queue: Vec<Event> = Vec::new();
    let n = symbols.len();
    let mut i: usize = 0;
    assert(queue_view(queue@) =~= seeds(symbols@, merges@, 0));
    while n > 0 && i < n - 1
        invariant
            n == symbols@.len(),
            n > 0 ==> i <= n - 1,
            n == 0 ==> i == 0,
            queue_view(queue@) == seeds(symbols@, merges@, i as int),
        decreases n - i,
    {
        let found = merges.candidate((symbols[i].c, symbols[i + 1].c), None);
        push_candidate(&mut queue, i, found);
        i = i + 1;
    }
    proof {
        if n == 0 {
            assert(seeds(symbols@, merges@, -1) =~= seeds(symbols@, merges@, 0));
        }
    }
    queue
}

/// Enqueues the merge above `floor` for the symbol at `pos` and the one
/// before it.
fn push_left(
    symbols: &Vec<Symbol>,
    queue: &mut Vec<Event>,
    pos: usize,
    floor: u32,
    merges: &MergeMap,
)
    requires
        pos < symbols@.len(),
    ensures
        queue_view(final(queue)@) == queue_view(old(queue)@) + left_followup(
            symbols@,
            pos as int,
            floor,
            merges@,
        ),
{
    let cur = symbols[pos];
    if cur.prev >= 0 && (cur.prev as usize) < symbols.len() {
        let prev = cur.prev as usize;
        let found = merges.candidate((symbols[prev].c, cur.c), Some(floor));
        push_candidate(queue, prev, found);
    } else {
        assert(queue_view(queue@) =~= queue_view(old(queue)@) + Seq::<EventView>::empty());
    }
}

/// Enqueues the merge above `floor` for the symbol at `pos` and the one
/// behind it.
fn push_right(
    symbols: &Vec<Symbol>,
    queue: &mut Vec<Event>,
    pos: usize,
    floor: u32,
    merges: &MergeMap,
)
    requires
        pos < symbols@.len(),
    ensures
        queue_view(final(queue)@) == queue_view(old(queue)@) + right_followup(
            symbols@,
            pos as int,
            floor,
            merges@,
        ),
{
    let cur = symbols[pos];
    if cur.next >= 0 && (cur.next as usize) < symbols.len() {
        let next = cur.next as usize;
        let found = merges.candidate((cur.c, symbols[next].c), Some(floor));
        push_candidate(queue, pos, found);
    } else {
        assert(queue_view(queue@) =~= queue_view(old(queue)@) + Seq::<EventView>::empty());
    }
}

/// A copy of an id sequence.
pub fn copy_ids(ids: &Vec<u32>) -> (out: Vec<u32>)
    ensures
        out@ == ids@,
{
    let mut out: Vec<u32> = Vec::new();
    let mut i: usize = 0;
    while i < ids.len()
        invariant
            i <= ids@.len(),
            out@ == ids@.take(i as int),
        decreases ids@.len() - i,
    {
        out.push(ids[i]);
        assert(out@ =~= ids@.take(i + 1));
        i = i + 1;
    }
    assert(ids@.take(i as int) =~= ids@);
    out
}

/// Enqueues the split above `floor` for the id at `pos`.
fn push_split(
    symbols: &Vec<Symbol>,
    queue: &mut Vec<Event>,
    pos: usize,
    floor: u32,
    splits: &SplitMap,
)
    requires
        pos < symbols@.len(),
    ensures
        queue_view(final(queue)@) == queue_view(old(queue)@) + split_followup(
            symbols@,
            pos as int,
            floor,
            splits@,
        ),
{
    match splits.candidate(symbols[pos].c, floor) {
        Some((rank, pieces)) => {
            let pieces = copy_ids(pieces);
            queue.push(Event::Split { pos, rank, pieces });
            assert(queue_view(queue@) =~= queue_view(old(queue)@) + seq![
                EventView::Split { pos, rank, pieces: pieces@ },
            ]);
        },
        None => {
            assert(queue_view(queue@) =~= queue_view(old(queue)@) + Seq::<EventView>::empty());
        },
    }
}

/// Applies or drops a merge that has left the queue.
fn replay_merge(
    symbols: &mut Vec<Symbol>,
    queue: &mut Vec<Event>,
    pos: usize,
    rank: u32,
    new_id: u32,
    merges: &MergeMap,
    splits: &SplitMap,
)
    requires
        old(symbols)@.len() <= isize::MAX,
    ensures
        final(symbols)@ == event_symbols(
            old(symbols)@,
            EventView::Merge { pos, rank, new_id },
            merges@,
            splits@,
        ),
        queue_view(final(queue)@) == queue_view(old(queue)@) + event_followups(
            old(symbols)@,
            EventView::Merge { pos, rank, new_id },
            merges@,
            splits@,
        ),
{
    let n = symbols.len();
    let ghost q0 = queue_view(queue@);
    proof {
        assert(q0 + Seq::<EventView>::empty() =~= q0);
    }
    if pos >= n {
        return ;
    }
    let cur = symbols[pos];
    if cur.len == 0 || cur.next < 0 || cur.next as usize >= n {
        return ;
    }
    let next_pos = cur.next as usize;
    let right = symbols[next_pos];
    if !merges.lists((cur.c, right.c), rank, new_id) {
        return ;
    }
    if cur.len > usize::MAX - right.len {
        return ;
    }
    assert(merge_fires(symbols@, pos as int, rank, new_id, merges@));
    let mut merged = cur;
    merged.merge_with(&right, new_id);
    symbols.set(pos, merged);
    let t = symbols[next_pos];
    symbols.set(next_pos, Symbol { len: 0, ..t });
    if right.next >= 0 && (right.next as usize) < n {
        let behind = right.next as usize;
        let u = symbols[behind];
        symbols.set(behind, Symbol { prev: pos as isize, ..u });
    }
    assert(symbols@ == apply_merge(old(symbols)@, pos as int, new_id));
    push_left(symbols, queue, pos, rank, merges);
    push_right(symbols, queue, pos, rank, merges);
    push_split(symbols, queue, pos, rank, splits);
    proof {
        let f1 = left_followup(symbols@, pos as int, rank, merges@);
        let f2 = right_followup(symbols@, pos as int, rank, merges@);
        let f3 = split_followup(symbols@, pos as int, rank, splits@);
        assert(q0 + f1 + f2 + f3 =~= q0 + (f1 + f2 + f3));
    }
}

/// Applies or drops a split that has left the queue.
fn replay_split(
    symbols: &mut Vec<Symbol>,
    queue: &mut Vec<Event>,
    pos: usize,
    rank: u32,
    pieces: &Vec<u32>,
    merges: &MergeMap,
    splits: &SplitMap,
)
    requires
        old(symbols)@.len() <= isize::MAX,
    ensures
        final(symbols)@ == event_symbols(
            old(symbols)@,
            EventView::Split { pos, rank, pieces: pieces@ },
            merges@,
            splits@,
        ),
        queue_view(final(queue)@) == queue_view(old(queue)@) + event_followups(
            old(symbols)@,
            EventView::Split { pos, rank, pieces: pieces@ },
            merges@,
            splits@,
        ),
{
    let n = symbols.len();
    let k = pieces.len();
    let ghost q0 = queue_view(queue@);
    let ghost s0 = symbols@;
    proof {
        assert(q0 + Seq::<EventView>::empty() =~= q0);
    }
    if pos >= n {
        return ;
    }
    let cur = symbols[pos];
    if cur.len == 0 || cur.next == -1 {
        return ;
    }
    if !splits.lists(cur.c, rank, pieces) {
        return ;
    }
    if k == 0 || k > n - pos {
        return ;
    }
    assert(split_fires(s0, pos as int, rank, pieces@, splits@));
    let ghost goal = apply_split(s0, pos as int, pieces@);
    let mut i: usize = 0;
    while i < k
        invariant
            n == symbols@.len(),
            n == s0.len(),
            n <= isize::MAX,
            k == pieces@.len(),
            pos + k <= n,
            i <= k,
            cur == s0[pos as int],
            goal == apply_split(s0, pos as int, pieces@),
            forall|j: int| 0 <= j < pos + i ==> #[trigger] symbols@[j] == goal[j],
            forall|j: int| pos + i <= j < n ==> #[trigger] symbols@[j] == s0[j],
        decreases k - i,
    {
        let at = pos + i;
        let prev = if i == 0 {
            cur.prev
        } else {
            (at - 1) as isize
        };
        let next = if at < n - 1 {
            (at + 1) as isize
        } else {
            -1
        };
        symbols.set(at, Symbol { c: pieces[i], prev, next, len: 1 });
        i = i + 1;
    }
    if pos + k < n {
        let u = symbols[pos + k];
        symbols.set(pos + k, Symbol { prev: (pos + k - 1) as isize, ..u });
    }
    assert(symbols@ =~= goal);
    push_left(symbols, queue, pos, rank, merges);
    let ghost q1 = queue_view(queue@);
    let mut j: usize = 0;
    assert(q1 + inner_followups(pieces@, pos as int, rank, merges@, 0) =~= q1);
    while j < k - 1
        invariant
            k == pieces@.len(),
            k >= 1,
            j <= k - 1,
            pos + k <= isize::MAX,
            queue_view(queue@) == q1 + inner_followups(pieces@, pos as int, rank, merges@, j as int),
        decreases k - j,
    {
        let found = merges.candidate((pieces[j], pieces[j + 1]), Some(rank));
        let ghost before = queue_view(queue@);
        push_candidate(queue, pos + j, found);
        proof {
            let head = inner_followups(pieces@, pos as int, rank, merges@, j as int);
            let step = inner_followups(pieces@, pos as int, rank, merges@, j + 1);
            assert(queue_view(queue@) =~= q1 + step);
        }
        j = j + 1;
    }
    push_right(symbols, queue, pos + k - 1, rank, merges);
    push_split(symbols, queue, pos, rank, splits);
    proof {
        let f1 = left_followup(symbols@, pos as int, rank, merges@);
        let f2 = inner_followups(pieces@, pos as int, rank, merges@, k - 1);
        let f3 = right_followup(symbols@, pos + k - 1, rank, merges@);
        let f4 = split_followup(symbols@, pos as int, rank, splits@);
        assert(q0 + f1 + f2 + f3 + f4 =~= q0 + (f1 + f2 + f3 + f4));
    }
}

/// Drops the slots of length zero.
fn compact(symbols: &mut Vec<Symbol>)
    ensures
        final(symbols)@ == live_symbols(old(symbols)@),
{
    let mut out: Vec<Symbol> = Vec::new();
    let mut i: usize = 0;
    while i < symbols.len()
        invariant
            i <= symbols@.len(),
            out@ == live_symbols(symbols@.take(i as int)),
        decreases symbols@.len() - i,
    {
        proof {
            assert(symbols@.take(i + 1).drop_last() =~= symbols@.take(i as int));
        }
        if symbols[i].len != 0 {
            out.push(symbols[i]);
        }
        i = i + 1;
    }
    proof {
        assert(symbols@.take(i as int) =~= symbols@);
    }
    *symbols = out;
}

/// Sets the links anew: each symbol leads to the one before it and to the
/// one behind it.
fn relink(symbols: &mut Vec<Symbol>)
    requires
        old(symbols)@.len() <= isize::MAX,
    ensures
        final(symbols)@ == relinked(old(symbols)@),
{
    let n = symbols.len();
    let mut i: usize = 0;
    while i < n
        invariant
            i <= n,
            n == symbols@.len(),
            n == old(symbols)@.len(),
            n <= isize::MAX,
            forall|j: int| 0 <= j < i ==> symbols@[j] == #[trigger] relinked(old(symbols)@)[j],
            forall|j: int| i <= j < n ==> symbols@[j] == #[trigger] old(symbols)@[j],
        decreases n - i,
    {
        let sym = symbols[i];
        let next: isize = if i + 1 == n {
            -1
        } else {
            (i + 1) as isize
        };
        symbols.set(i, Symbol { c: sym.c, prev: i as isize - 1, next, len: sym.len });
        i = i + 1;
    }
    proof {
        assert(symbols@ =~= relinked(old(symbols)@));
    }
}

/// Replays on `symbols` the events of the tables, drops the consumed slots,
/// and sets the links anew.
pub fn replay(symbols: &mut Vec<Symbol>, merges: &MergeMap, splits: &SplitMap)
    requires
        old(symbols)@.len() <= isize::MAX,
    ensures
        final(symbols)@ == replayed(old(symbols)@, merges@, splits@),
        links_hold(final(symbols)@),
{
    let mut queue = seed_queue(symbols, merges);
    let ghost start = Replay { syms: symbols@, queue: queue_view(queue@) };
    while queue.len() > 0
        invariant
            symbols@.len() == old(symbols)@.len(),
            symbols@.len() <= isize::MAX,
            replay_run(Replay { syms: symbols@, queue: queue_view(queue@) }, merges@, splits@)
                == replay_run(start, merges@, splits@),
        decreases rank_room(queue_view(queue@)), lowest_count(queue_view(queue@)),
    {
        let ghost st = Replay { syms: symbols@, queue: queue_view(queue@) };
        proof {
            lemma_step_decreases(st, merges@, splits@);
        }
        let e = pop_first(&mut queue);
        match e {
            Event::Merge { pos, rank, new_id } => {
                replay_merge(symbols, &mut queue, pos, rank, new_id, merges, splits);
            },
            Event::Split { pos, rank, pieces } => {
                replay_split(symbols, &mut queue, pos, rank, &pieces, merges, splits);
            },
        }
        proof {
            let next = Replay { syms: symbols@, queue: queue_view(queue@) };
            assert(next == replay_step(st, merges@, splits@));
        }
    }
    proof {
        assert(queue_view(queue@).len() == 0);
        lemma_live_symbols_len(symbols@);
        lemma_relinked(live_symbols(symbols@));
    }
    compact(symbols);
    relink(symbols);
}

/// Every id of the word is in `allowed`.
pub open spec fn ids_within(s: Seq<Symbol>, allowed: Set<u32>) -> bool {
    forall|i: int| 0 <= i < s.len() ==> allowed.contains((#[trigger] s[i]).c)
}

/// Every id that a merge of the table produces is in `allowed`.
pub open spec fn merges_within(merges: Map<Pair, MergeEntries>, allowed: Set<u32>) -> bool {
    forall|pair: Pair, i: int|
        merges.contains_key(pair) && 0 <= i < merges[pair].len() ==> allowed.contains(
            (#[trigger] merges[pair][i]).1,
        )
}

/// Every piece of a split of the table is in `allowed`.
pub open spec fn splits_within(splits: Map<u32, SplitEntries>, allowed: Set<u32>) -> bool {
    forall|id: u32, i: int, j: int|
        splits.contains_key(id) && 0 <= i < splits[id].len() && 0 <= j < splits[id][i].1.len()
            ==> allowed.contains(#[trigger] splits[id][i].1[j])
}

/// Every id that an event of the queue would write is in `allowed`.
pub open spec fn events_within(q: Seq<EventView>, allowed: Set<u32>) -> bool {
    forall|i: int|
        0 <= i < q.len() ==> match #[trigger] q[i] {
            EventView::Merge { new_id, .. } => allowed.contains(new_id),
            EventView::Split { pieces, .. } => forall|j: int|
                0 <= j < pieces.len() ==> allowed.contains(#[trigger] pieces[j]),
        }
}

/// A merge candidate produces an id of the table.
proof fn lemma_candidate_within(
    merges: Map<Pair, MergeEntries>,
    pair: Pair,
    floor: int,
    allowed: Set<u32>,
)
    requires
        merges_within(merges, allowed),
    ensures
        match merge_candidate(merges, pair, floor) {
            Some((rank, new_id)) => allowed.contains(new_id),
            None => true,
        },
{
    if merges.contains_key(pair) {
        lemma_lowest_above(merge_ranks(merges[pair]), floor);
        match lowest_above(merge_ranks(merges[pair]), floor) {
            Some(i) => {
                assert(allowed.contains(merges[pair][i].1));
            },
            None => {},
        }
    }
}

/// A split candidate has pieces of the table.
proof fn lemma_split_candidate_within(
    splits: Map<u32, SplitEntries>,
    id: u32,
    floor: int,
    allowed: Set<u32>,
)
    requires
        splits_within(splits, allowed),
    ensures
        match split_candidate(splits, id, floor) {
            Some((rank, pieces)) => forall|j: int|
                0 <= j < pieces.len() ==> allowed.contains(#[trigger] pieces[j]),
            None => true,
        },
{
    if splits.contains_key(id) {
        lemma_lowest_above(split_ranks(splits[id]), floor);
        match lowest_above(split_ranks(splits[id]), floor) {
            Some(i) => {
                assert forall|j: int| 0 <= j < splits[id][i].1.len() implies allowed.contains(
                    #[trigger] splits[id][i].1[j],
                ) by {}
            },
            None => {},
        }
    }
}

/// The merges of the inner pairs of a split produce ids of the table.
proof fn lemma_inner_within(
    pieces: Seq<u32>,
    pos: int,
    floor: u32,
    merges: Map<Pair, MergeEntries>,
    n: int,
    allowed: Set<u32>,
)
    requires
        merges_within(merges, allowed),
    ensures
        events_within(inner_followups(pieces, pos, floor, merges, n), allowed),
    decreases n,
{
    if n > 0 {
        let i = n - 1;
        lemma_inner_within(pieces, pos, floor, merges, i, allowed);
        lemma_candidate_within(merges, (pieces[i], pieces[i + 1]), floor as int, allowed);
        let head = inner_followups(pieces, pos, floor, merges, i);
        let all = inner_followups(pieces, pos, floor, merges, n);
        assert forall|j: int| 0 <= j < all.len() implies match #[trigger] all[j] {
            EventView::Merge { new_id, .. } => allowed.contains(new_id),
            EventView::Split { pieces, .. } => forall|t: int|
                0 <= t < pieces.len() ==> allowed.contains(#[trigger] pieces[t]),
        } by {
            if j < head.len() {
                assert(all[j] == head[j]);
            }
        }
    }
}

/// A step writes and enqueues only ids of the tables.
proof fn lemma_step_within(
    st: Replay,
    merges: Map<Pair, MergeEntries>,
    splits: Map<u32, SplitEntries>,
    allowed: Set<u32>,
)
    requires
        st.queue.len() > 0,
        ids_within(st.syms, allowed),
        events_within(st.queue, allowed),
        merges_within(merges, allowed),
        splits_within(splits, allowed),
    ensures
        ids_within(replay_step(st, merges, splits).syms, allowed),
        events_within(replay_step(st, merges, splits).queue, allowed),
{
    let q = st.queue;
    let k = first_event(q);
    lemma_first_event(q);
    let e = q[k];
    let s = st.syms;
    let t = event_symbols(s, e, merges, splits);
    let f = event_followups(s, e, merges, splits);
    let rest = q.remove(k);
    match e {
        EventView::Merge { pos, rank, new_id } => {
            if merge_fires(s, pos as int, rank, new_id, merges) {
                let prev = t[pos as int].prev as int;
                let next = t[pos as int].next as int;
                lemma_candidate_within(merges, (t[prev].c, t[pos as int].c), rank as int, allowed);
                lemma_candidate_within(merges, (t[pos as int].c, t[next].c), rank as int, allowed);
                lemma_split_candidate_within(splits, t[pos as int].c, rank as int, allowed);
                assert forall|i: int| 0 <= i < t.len() implies allowed.contains((#[trigger] t[i]).c) by {
                    assert(allowed.contains(s[i].c));
                }
            }
        },
        EventView::Split { pos, rank, pieces } => {
            if split_fires(s, pos as int, rank, pieces, splits) {
                let last = pos + pieces.len() - 1;
                let prev = t[pos as int].prev as int;
                let next = t[last].next as int;
                lemma_candidate_within(merges, (t[prev].c, t[pos as int].c), rank as int, allowed);
                lemma_candidate_within(merges, (t[last].c, t[next].c), rank as int, allowed);
                lemma_split_candidate_within(splits, t[pos as int].c, rank as int, allowed);
                lemma_inner_within(pieces, pos as int, rank, merges, pieces.len() - 1, allowed);
                assert forall|i: int| 0 <= i < t.len() implies allowed.contains((#[trigger] t[i]).c) by {
                    assert(allowed.contains(s[i].c));
                    if pos <= i < pos + pieces.len() {
                        assert(allowed.contains(pieces[i - pos]));
                    }
                }
            }
        },
    }
    assert(events_within(f, allowed));
    let q2 = rest + f;
    assert forall|i: int| 0 <= i < q2.len() implies match #[trigger] q2[i] {
        EventView::Merge { new_id, .. } => allowed.contains(new_id),
        EventView::Split { pieces, .. } => forall|j: int|
            0 <= j < pieces.len() ==> allowed.contains(#[trigger] pieces[j]),
    } by {
        if i < rest.len() {
            if i < k {
                assert(q2[i] == q[i]);
            } else {
                assert(q2[i] == q[i + 1]);
            }
        } else {
            assert(q2[i] == f[i - rest.len()]);
        }
    }
}

/// The replay writes only ids of the tables.
pub proof fn lemma_run_within(
    st: Replay,
    merges: Map<Pair, MergeEntries>,
    splits: Map<u32, SplitEntries>,
    allowed: Set<u32>,
)
    requires
        ids_within(st.syms, allowed),
        events_within(st.queue, allowed),
        merges_within(merges, allowed),
        splits_within(splits, allowed),
    ensures
        ids_within(replay_run(st, merges, splits), allowed),
    decreases rank_room(st.queue), lowest_count(st.queue),
{
    if st.queue.len() > 0 {
        lemma_step_decreases(st, merges, splits);
        lemma_step_within(st, merges, splits, allowed);
        lemma_run_within(replay_step(st, merges, splits), merges, splits, allowed);
    }
}

/// The live symbols of a word are symbols of the word, in order.
pub proof fn lemma_live_within(s: Seq<Symbol>, allowed: Set<u32>)
    requires
        ids_within(s, allowed),
    ensures
        ids_within(live_symbols(s), allowed),
    decreases s.len(),
{
    if s.len() > 0 {
        lemma_live_within(s.drop_last(), allowed);
        let head = live_symbols(s.drop_last());
        let all = live_symbols(s);
        assert forall|i: int| 0 <= i < all.len() implies allowed.contains((#[trigger] all[i]).c) by {
            if i < head.len() {
                assert(all[i] == head[i]);
            } else {
                assert(all[i] == s.last());
            }
        }
    }
}

/// The events that a word starts with produce ids of the table.
proof fn lemma_seeds_within(s: Seq<Symbol>, merges: Map<Pair, MergeEntries>, n: int, allowed: Set<u32>)
    requires
        merges_within(merges, allowed),
    ensures
        events_within(seeds(s, merges, n), allowed),
    decreases n,
{
    if n > 0 {
        let i = n - 1;
        lemma_seeds_within(s, merges, i, allowed);
        lemma_candidate_within(merges, (s[i].c, s[i + 1].c), -1, allowed);
        let head = seeds(s, merges, i);
        let all = seeds(s, merges, n);
        assert forall|j: int| 0 <= j < all.len() implies match #[trigger] all[j] {
            EventView::Merge { new_id, .. } => allowed.contains(new_id),
            EventView::Split { pieces, .. } => forall|t: int|
                0 <= t < pieces.len() ==> allowed.contains(#[trigger] pieces[t]),
        } by {
            if j < head.len() {
                assert(all[j] == head[j]);
            }
        }
    }
}

/// A replayed word holds only ids that it held before or that the tables
/// name.
pub proof fn lemma_replayed_within(
    s: Seq<Symbol>,
    merges: Map<Pair, MergeEntries>,
    splits: Map<u32, SplitEntries>,
    allowed: Set<u32>,
)
    requires
        ids_within(s, allowed),
        merges_within(merges, allowed),
        splits_within(splits, allowed),
    ensures
        ids_within(replayed(s, merges, splits), allowed),
{
    lemma_seeds_within(s, merges, s.len() - 1, allowed);
    let st = Replay { syms: s, queue: seeds(s, merges, s.len() - 1) };
    lemma_run_within(st, merges, splits, allowed);
    lemma_live_within(replay_run(st, merges, splits), allowed);
    let live = live_symbols(replay_run(st, merges, splits));
    assert forall|i: int| 0 <= i < relinked(live).len() implies allowed.contains(
        (#[trigger] relinked(live)[i]).c,
    ) by {
        assert(relinked(live)[i].c == live[i].c);
    }
}

} // verus!
