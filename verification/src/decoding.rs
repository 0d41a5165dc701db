//! Decoding: the text that the tokens of an encoded word spell.
//!
//! Where every character of a word is in the vocabulary, every merged token
//! is spelled as its two parents in a row, and every split token as its
//! pieces in a row, one character each, the tokens of the encoded word spell
//! the word.

use crate::lengths::items_have_bytes;
use crate::model::{
    draft_upto, encoded_word, initial_items, surface, text_or_empty, Draft, Item, Lexicon,
};
use crate::replay::{
    apply_merge, apply_split, first_event, lemma_first_event, lemma_step_decreases,
    live_symbols, lowest_count, merge_fires, rank_room, relinked, replay_run, replay_step,
    seeds, split_fires, EventView, Replay,
};
use crate::tables::{merge_listed, MergeEntries, SplitEntries};
use crate::text::{lemma_encode_one, utf8_len};
use crate::training::{begins_with, strip_prefix};
use crate::word::{chain_of, Pair, Symbol};
use vstd::prelude::*;

verus! {

/// What decoding reads of a symbol: its token and its length.
pub type Face = (u32, usize);

/// The tokens and lengths of a word.
pub open spec fn faces(s: Seq<Symbol>) -> Seq<Face> {
    Seq::new(s.len(), |i: int| (s[i].c, s[i].len))
}

/// Whether any of the slots is live.
pub open spec fn any_live(f: Seq<Face>) -> bool
    decreases f.len(),
{
    f.len() > 0 && (any_live(f.drop_last()) || f.last().1 != 0)
}

/// What a slot adds to the decoded text: nothing if it is consumed; else the
/// string of its token, without the continuing prefix if a live slot stands
/// before it.
pub open spec fn slot_text(face: Face, seen: bool, vocab_r: Map<u32, Seq<char>>, prefix: Option<Seq<char>>) -> Seq<
    char,
> {
    if face.1 == 0 {
        Seq::empty()
    } else if seen {
        strip_prefix(vocab_r[face.0], prefix)
    } else {
        vocab_r[face.0]
    }
}

/// The text that the slots spell, where `seen` says whether a live slot
/// stands before them.
pub open spec fn spelled(f: Seq<Face>, seen: bool, vocab_r: Map<u32, Seq<char>>, prefix: Option<Seq<char>>) -> Seq<
    char,
>
    decreases f.len(),
{
    if f.len() == 0 {
        Seq::empty()
    } else {
        spelled(f.drop_last(), seen, vocab_r, prefix) + slot_text(
            f.last(),
            seen || any_live(f.drop_last()),
            vocab_r,
            prefix,
        )
    }
}

/// The text that the tokens of a word spell: the string of the first, then
/// the strings of the others without the continuing prefix.
pub open spec fn decoded(s: Seq<Symbol>, vocab_r: Map<u32, Seq<char>>, prefix: Option<Seq<char>>) -> Seq<char> {
    spelled(faces(s), false, vocab_r, prefix)
}

/// `text` without the suffix, if it ends with it.
pub open spec fn without_suffix(text: Seq<char>, suffix: Option<Seq<char>>) -> Seq<char> {
    match suffix {
        Some(s) => if s.len() <= text.len() && text.skip(text.len() - s.len()) == s {
            text.take(text.len() - s.len())
        } else {
            text
        },
        None => text,
    }
}

/// Slots in a row are live where one of the two parts is.
pub proof fn lemma_any_live_concat(a: Seq<Face>, b: Seq<Face>)
    ensures
        any_live(a + b) == (any_live(a) || any_live(b)),
    decreases b.len(),
{
    if b.len() == 0 {
        assert(a + b =~= a);
    } else {
        lemma_any_live_concat(a, b.drop_last());
        assert((a + b).drop_last() =~= a + b.drop_last());
    }
}

/// Slots in a row spell what the first part spells, then what the second
/// does behind it.
pub proof fn lemma_spelled_concat(
    a: Seq<Face>,
    b: Seq<Face>,
    seen: bool,
    vocab_r: Map<u32, Seq<char>>,
    prefix: Option<Seq<char>>,
)
    ensures
        spelled(a + b, seen, vocab_r, prefix) == spelled(a, seen, vocab_r, prefix) + spelled(
            b,
            seen || any_live(a),
            vocab_r,
            prefix,
        ),
    decreases b.len(),
{
    if b.len() == 0 {
        assert(a + b =~= a);
        assert(spelled(a, seen, vocab_r, prefix) + Seq::<char>::empty() =~= spelled(
            a,
            seen,
            vocab_r,
            prefix,
        ));
    } else {
        lemma_spelled_concat(a, b.drop_last(), seen, vocab_r, prefix);
        lemma_any_live_concat(a, b.drop_last());
        assert((a + b).drop_last() =~= a + b.drop_last());
        assert(spelled(a + b, seen, vocab_r, prefix) =~= spelled(a, seen, vocab_r, prefix)
            + spelled(b, seen || any_live(a), vocab_r, prefix));
    }
}

/// Consumed slots spell nothing.
pub proof fn lemma_dead_spell_nothing(
    f: Seq<Face>,
    seen: bool,
    vocab_r: Map<u32, Seq<char>>,
    prefix: Option<Seq<char>>,
)
    requires
        forall|i: int| 0 <= i < f.len() ==> (#[trigger] f[i]).1 == 0,
    ensures
        !any_live(f),
        spelled(f, seen, vocab_r, prefix) == Seq::<char>::empty(),
    decreases f.len(),
{
    if f.len() > 0 {
        assert forall|i: int| 0 <= i < f.drop_last().len() implies (#[trigger] f.drop_last()[i]).1
            == 0 by {
            assert(f.drop_last()[i] == f[i]);
        }
        lemma_dead_spell_nothing(f.drop_last(), seen, vocab_r, prefix);
        assert(f.last() == f[f.len() - 1]);
        assert(spelled(f, seen, vocab_r, prefix) =~= Seq::<char>::empty());
    }
}

/// A live slot makes its word live.
pub proof fn lemma_live_slot(f: Seq<Face>, i: int)
    requires
        0 <= i < f.len(),
        f[i].1 != 0,
    ensures
        any_live(f),
    decreases f.len(),
{
    if i < f.len() - 1 {
        lemma_live_slot(f.drop_last(), i);
    }
}

/// The `next` of every live slot leads to the next live slot.
pub open spec fn links_live(s: Seq<Symbol>) -> bool {
    forall|i: int|
        0 <= i < s.len() && (#[trigger] s[i]).len != 0 && s[i].next != -1 ==> i < s[i].next < s.len()
            && s[s[i].next as int].len != 0 && forall|j: int|
            i < j < s[i].next ==> (#[trigger] s[j]).len == 0
}

/// Every live slot behind another begins with the continuing prefix.
pub open spec fn later_slots_prefixed(
    f: Seq<Face>,
    vocab_r: Map<u32, Seq<char>>,
    prefix: Option<Seq<char>>,
) -> bool {
    prefix matches Some(p) ==> forall|i: int|
        0 <= i < f.len() && (#[trigger] f[i]).1 != 0 && any_live(f.take(i)) ==> begins_with(
            vocab_r[f[i].0],
            p,
        )
}

/// Every merged token is spelled as its two parents in a row, the second
/// without the continuing prefix.
pub open spec fn merges_spell(
    merges: Map<Pair, MergeEntries>,
    vocab_r: Map<u32, Seq<char>>,
    prefix: Option<Seq<char>>,
) -> bool {
    forall|pair: Pair, i: int|
        merges.contains_key(pair) && 0 <= i < merges[pair].len() ==> vocab_r[(
        #[trigger] merges[pair][i]).1] == vocab_r[pair.0] + strip_prefix(vocab_r[pair.1], prefix)
}

/// A text that begins with the prefix still does with more behind it, and
/// loses the same.
pub proof fn lemma_strip_longer(a: Seq<char>, b: Seq<char>, p: Seq<char>)
    requires
        begins_with(a, p),
    ensures
        begins_with(a + b, p),
        strip_prefix(a + b, Some(p)) == strip_prefix(a, Some(p)) + b,
{
    assert((a + b).take(p.len() as int) =~= a.take(p.len() as int));
    assert((a + b).skip(p.len() as int) =~= a.skip(p.len() as int) + b);
}

/// A merge keeps every live slot linked to the next live slot.
pub proof fn lemma_merge_keeps_links(
    s: Seq<Symbol>,
    pos: int,
    rank: u32,
    new_id: u32,
    merges: Map<Pair, MergeEntries>,
)
    requires
        links_live(s),
        merge_fires(s, pos, rank, new_id, merges),
    ensures
        links_live(apply_merge(s, pos, new_id)),
{
    let t = apply_merge(s, pos, new_id);
    let next = s[pos].next as int;
    assert(s[pos].len != 0 && s[pos].next != -1);
    assert(pos < next < s.len() && s[next].len != 0);
    assert forall|i: int|
        0 <= i < t.len() && (#[trigger] t[i]).len != 0 && t[i].next != -1 implies i < t[i].next
        < t.len() && t[t[i].next as int].len != 0 && forall|j: int|
        i < j < t[i].next ==> (#[trigger] t[j]).len == 0 by {
        if i == pos {
            assert(s[next].len != 0 && s[next].next != -1);
            let far = s[next].next as int;
            assert(next < far < s.len() && s[far].len != 0);
            assert forall|j: int| pos < j < far implies (#[trigger] t[j]).len == 0 by {
                if j < next {
                    assert(s[j].len == 0);
                } else if j > next {
                    assert(s[j].len == 0);
                }
            }
        } else {
            assert(s[i].len != 0 && s[i].next != -1);
            let to = s[i].next as int;
            assert(i < to < s.len() && s[to].len != 0);
            if to == next {
                if i < pos {
                    assert(s[pos].len == 0);
                } else {
                    assert(s[i].len == 0);
                }
            }
            assert forall|j: int| i < j < to implies (#[trigger] t[j]).len == 0 by {
                assert(s[j].len == 0);
            }
        }
    }
}

/// What a merge does to the tokens and lengths of a word: the slot takes
/// the new token and both lengths, its neighbour the length zero, and no slot
/// between the two is live.
pub proof fn lemma_merge_faces(
    s: Seq<Symbol>,
    pos: int,
    rank: u32,
    new_id: u32,
    merges: Map<Pair, MergeEntries>,
)
    requires
        links_live(s),
        merge_fires(s, pos, rank, new_id, merges),
    ensures
        ({
            let next = s[pos].next as int;
            let f = faces(s);
            &&& pos < next < s.len()
            &&& f[pos].1 != 0
            &&& f[next].1 != 0
            &&& forall|j: int| pos < j < next ==> (#[trigger] f[j]).1 == 0
            &&& faces(apply_merge(s, pos, new_id)) == f.update(
                pos,
                (new_id, (f[pos].1 + f[next].1) as usize),
            ).update(next, (f[next].0, 0usize))
            &&& (f[pos].1 + f[next].1) as usize != 0
            &&& merge_listed(merges, (f[pos].0, f[next].0), rank, new_id)
        }),
{
    let next = s[pos].next as int;
    let f = faces(s);
    assert(s[pos].len != 0 && s[pos].next != -1);
    assert(pos < next < s.len() && s[next].len != 0);
    assert forall|j: int| pos < j < next implies (#[trigger] f[j]).1 == 0 by {
        assert(s[j].len == 0);
    }
    assert(faces(apply_merge(s, pos, new_id)) =~= f.update(
        pos,
        (new_id, (f[pos].1 + f[next].1) as usize),
    ).update(next, (f[next].0, 0usize)));
}

/// Fusing a live slot with the next live slot leaves the text as it is,
/// where the new token is spelled as the two in a row.
pub proof fn lemma_fusing_keeps_spelling(
    f: Seq<Face>,
    pos: int,
    next: int,
    x2: Face,
    vocab_r: Map<u32, Seq<char>>,
    prefix: Option<Seq<char>>,
)
    requires
        0 <= pos < next < f.len(),
        f[pos].1 != 0,
        f[next].1 != 0,
        x2.1 != 0,
        forall|j: int| pos < j < next ==> (#[trigger] f[j]).1 == 0,
        later_slots_prefixed(f, vocab_r, prefix),
        vocab_r[x2.0] == vocab_r[f[pos].0] + strip_prefix(vocab_r[f[next].0], prefix),
    ensures
        spelled(f.update(pos, x2).update(next, (f[next].0, 0usize)), false, vocab_r, prefix)
            == spelled(f, false, vocab_r, prefix),
{
    let x = f[pos];
    let y = f[next];
    let y2: Face = (y.0, 0usize);
    let g = f.update(pos, x2).update(next, y2);
    let a = f.take(pos);
    let b = f.subrange(pos + 1, next);
    let c = f.skip(next + 1);
    assert(f =~= a + seq![x] + b + seq![y] + c);
    assert(g =~= a + seq![x2] + b + seq![y2] + c);
    assert forall|i: int| 0 <= i < b.len() implies (#[trigger] b[i]).1 == 0 by {
        assert(b[i] == f[pos + 1 + i]);
    }
    let seen_a = any_live(a);
    lemma_spelled_pieces(a, x, b, y, c, vocab_r, prefix);
    lemma_spelled_pieces(a, x2, b, y2, c, vocab_r, prefix);
    let sx = vocab_r[x.0];
    let sy = vocab_r[y.0];
    match prefix {
        Some(p) => {
            if seen_a {
                assert(f.take(pos) == a);
                assert(begins_with(sx, p));
                lemma_strip_longer(sx, strip_prefix(sy, prefix), p);
            }
        },
        None => {},
    }
    assert(slot_text(x2, seen_a, vocab_r, prefix) =~= slot_text(x, seen_a, vocab_r, prefix)
        + slot_text(y, true, vocab_r, prefix));
    let before = spelled(a, false, vocab_r, prefix);
    let after = spelled(c, true, vocab_r, prefix);
    assert(before + slot_text(x2, seen_a, vocab_r, prefix) + slot_text(y2, true, vocab_r, prefix)
        + after =~= before + slot_text(x, seen_a, vocab_r, prefix) + slot_text(
        y,
        true,
        vocab_r,
        prefix,
    ) + after);
}

/// Fusing a live slot with the next live slot keeps every live slot behind
/// another beginning with the continuing prefix.
pub proof fn lemma_fusing_keeps_prefixes(
    f: Seq<Face>,
    pos: int,
    next: int,
    x2: Face,
    vocab_r: Map<u32, Seq<char>>,
    prefix: Option<Seq<char>>,
)
    requires
        0 <= pos < next < f.len(),
        f[pos].1 != 0,
        x2.1 != 0,
        later_slots_prefixed(f, vocab_r, prefix),
        vocab_r[x2.0] == vocab_r[f[pos].0] + strip_prefix(vocab_r[f[next].0], prefix),
    ensures
        later_slots_prefixed(f.update(pos, x2).update(next, (f[next].0, 0usize)), vocab_r, prefix),
{
    let g = f.update(pos, x2).update(next, (f[next].0, 0usize));
    match prefix {
        Some(p) => {
            assert forall|i: int|
                0 <= i < g.len() && (#[trigger] g[i]).1 != 0 && any_live(g.take(i)) implies begins_with(
                vocab_r[g[i].0],
                p,
            ) by {
                if i == pos {
                    assert(g.take(pos) =~= f.take(pos));
                    assert(begins_with(vocab_r[f[pos].0], p));
                    lemma_strip_longer(
                        vocab_r[f[pos].0],
                        strip_prefix(vocab_r[f[next].0], prefix),
                        p,
                    );
                } else {
                    assert(g[i] == f[i]);
                    if i < pos {
                        assert(g.take(i) =~= f.take(i));
                    } else {
                        lemma_live_slot(f.take(i), pos);
                    }
                }
            }
        },
        None => {},
    }
}

/// A merge leaves the decoded text as it is.
pub proof fn lemma_merge_keeps_text(
    s: Seq<Symbol>,
    pos: int,
    rank: u32,
    new_id: u32,
    merges: Map<Pair, MergeEntries>,
    vocab_r: Map<u32, Seq<char>>,
    prefix: Option<Seq<char>>,
)
    requires
        links_live(s),
        later_slots_prefixed(faces(s), vocab_r, prefix),
        merges_spell(merges, vocab_r, prefix),
        merge_fires(s, pos, rank, new_id, merges),
    ensures
        links_live(apply_merge(s, pos, new_id)),
        later_slots_prefixed(faces(apply_merge(s, pos, new_id)), vocab_r, prefix),
        decoded(apply_merge(s, pos, new_id), vocab_r, prefix) == decoded(s, vocab_r, prefix),
{
    let next = s[pos].next as int;
    let f = faces(s);
    lemma_merge_keeps_links(s, pos, rank, new_id, merges);
    lemma_merge_faces(s, pos, rank, new_id, merges);
    let x2: Face = (new_id, (f[pos].1 + f[next].1) as usize);
    let pair = (f[pos].0, f[next].0);
    assert(merges[pair].contains((rank, new_id)));
    let w = choose|w: int| 0 <= w < merges[pair].len() && merges[pair][w] == (rank, new_id);
    assert(vocab_r[merges[pair][w].1] == vocab_r[pair.0] + strip_prefix(vocab_r[pair.1], prefix));
    lemma_fusing_keeps_spelling(f, pos, next, x2, vocab_r, prefix);
    lemma_fusing_keeps_prefixes(f, pos, next, x2, vocab_r, prefix);
}

/// The text of a word in five pieces: what stands before a slot, the slot,
/// what stands between it and a second slot, the second slot, and the rest.
pub proof fn lemma_spelled_pieces(
    a: Seq<Face>,
    x: Face,
    b: Seq<Face>,
    y: Face,
    c: Seq<Face>,
    vocab_r: Map<u32, Seq<char>>,
    prefix: Option<Seq<char>>,
)
    requires
        forall|i: int| 0 <= i < b.len() ==> (#[trigger] b[i]).1 == 0,
    ensures
        spelled(a + seq![x] + b + seq![y] + c, false, vocab_r, prefix) == spelled(
            a,
            false,
            vocab_r,
            prefix,
        ) + slot_text(x, any_live(a), vocab_r, prefix) + slot_text(
            y,
            any_live(a) || x.1 != 0,
            vocab_r,
            prefix,
        ) + spelled(c, any_live(a) || x.1 != 0 || y.1 != 0, vocab_r, prefix),
{
    let ax = a + seq![x];
    let axb = ax + b;
    let axby = axb + seq![y];
    lemma_spelled_concat(axby, c, false, vocab_r, prefix);
    lemma_spelled_concat(axb, seq![y], false, vocab_r, prefix);
    lemma_spelled_concat(ax, b, false, vocab_r, prefix);
    lemma_spelled_concat(a, seq![x], false, vocab_r, prefix);
    lemma_any_live_concat(axb, seq![y]);
    lemma_any_live_concat(ax, b);
    lemma_any_live_concat(a, seq![x]);
    lemma_dead_spell_nothing(b, any_live(ax), vocab_r, prefix);
    lemma_one_slot(x, any_live(a), vocab_r, prefix);
    lemma_one_slot(y, any_live(axb), vocab_r, prefix);
    assert(spelled(ax, false, vocab_r, prefix) + Seq::<char>::empty() =~= spelled(
        ax,
        false,
        vocab_r,
        prefix,
    ));
}

/// The text of one slot.
pub proof fn lemma_one_slot(x: Face, seen: bool, vocab_r: Map<u32, Seq<char>>, prefix: Option<Seq<char>>)
    ensures
        spelled(seq![x], seen, vocab_r, prefix) == slot_text(x, seen, vocab_r, prefix),
        any_live(seq![x]) == (x.1 != 0),
{
    reveal_with_fuel(spelled, 2);
    reveal_with_fuel(any_live, 2);
    assert(seq![x].drop_last() =~= Seq::<Face>::empty());
    assert(seq![x].last() == x);
    assert(spelled(seq![x], seen, vocab_r, prefix) =~= slot_text(x, seen, vocab_r, prefix));
}

/// Whether the first slot of a word is live.
pub open spec fn first_live(s: Seq<Symbol>) -> bool {
    s.len() > 0 ==> s[0].len != 0
}

/// Whether every live slot but the last of its chain stands for as many
/// slots as its token spells characters.
pub open spec fn aligned(s: Seq<Symbol>, vocab_r: Map<u32, Seq<char>>, prefix: Option<Seq<char>>) -> bool {
    forall|i: int|
        0 <= i < s.len() && (#[trigger] s[i]).len != 0 && s[i].next != -1 ==> slot_text(
            (s[i].c, s[i].len),
            i > 0,
            vocab_r,
            prefix,
        ).len() == s[i].next - i
}

/// Where the first slot is live, a live slot stands before every other.
pub proof fn lemma_seen(f: Seq<Face>, i: int)
    requires
        0 <= i <= f.len(),
        f.len() > 0,
        f[0].1 != 0,
    ensures
        any_live(f.take(i)) == (i > 0),
{
    if i > 0 {
        lemma_live_slot(f.take(i), 0);
    } else {
        assert(f.take(0) =~= Seq::<Face>::empty());
    }
}

/// A merge keeps the first slot live and every live slot as wide as its
/// token spells.
pub proof fn lemma_merge_keeps_alignment(
    s: Seq<Symbol>,
    pos: int,
    rank: u32,
    new_id: u32,
    merges: Map<Pair, MergeEntries>,
    vocab_r: Map<u32, Seq<char>>,
    prefix: Option<Seq<char>>,
)
    requires
        links_live(s),
        first_live(s),
        later_slots_prefixed(faces(s), vocab_r, prefix),
        aligned(s, vocab_r, prefix),
        merges_spell(merges, vocab_r, prefix),
        merge_fires(s, pos, rank, new_id, merges),
    ensures
        first_live(apply_merge(s, pos, new_id)),
        aligned(apply_merge(s, pos, new_id), vocab_r, prefix),
{
    let t = apply_merge(s, pos, new_id);
    let next = s[pos].next as int;
    let f = faces(s);
    lemma_merge_faces(s, pos, rank, new_id, merges);
    let pair = (s[pos].c, s[next].c);
    assert(merges[pair].contains((rank, new_id)));
    let w = choose|w: int| 0 <= w < merges[pair].len() && merges[pair][w] == (rank, new_id);
    assert(vocab_r[merges[pair][w].1] == vocab_r[pair.0] + strip_prefix(vocab_r[pair.1], prefix));
    let sx = vocab_r[pair.0];
    let sy = strip_prefix(vocab_r[pair.1], prefix);
    assert(s[pos].len != 0 && s[pos].next != -1);
    assert(s[next].len != 0);
    assert forall|i: int|
        0 <= i < t.len() && (#[trigger] t[i]).len != 0 && t[i].next != -1 implies slot_text(
        (t[i].c, t[i].len),
        i > 0,
        vocab_r,
        prefix,
    ).len() == t[i].next - i by {
        if i == pos {
            assert(s[next].next != -1);
            let own = slot_text((s[pos].c, s[pos].len), pos > 0, vocab_r, prefix);
            let other = slot_text((s[next].c, s[next].len), next > 0, vocab_r, prefix);
            assert(own.len() == next - pos);
            assert(other.len() == s[next].next - next);
            assert(other == sy);
            match prefix {
                Some(p) => {
                    if pos > 0 {
                        lemma_seen(f, pos);
                        assert(f[pos].1 != 0);
                        assert(begins_with(vocab_r[f[pos].0], p));
                        lemma_strip_longer(sx, sy, p);
                    }
                },
                None => {},
            }
            assert(slot_text((t[pos].c, t[pos].len), pos > 0, vocab_r, prefix) =~= own + other);
        } else if i == next {
        } else {
            assert(t[i].c == s[i].c && t[i].len == s[i].len && t[i].next == s[i].next);
            assert(s[i].len != 0);
        }
    }
}

/// The tokens of the pieces of a split, each live.
pub open spec fn piece_faces(pieces: Seq<u32>) -> Seq<Face> {
    Seq::new(pieces.len(), |j: int| (pieces[j], 1usize))
}

/// Whether the pieces in a row spell what the token `id` spells, each piece
/// one character, where `seen` says whether a live slot stands before them.
pub open spec fn pieces_spell(
    id: u32,
    pieces: Seq<u32>,
    seen: bool,
    vocab_r: Map<u32, Seq<char>>,
    prefix: Option<Seq<char>>,
) -> bool {
    &&& spelled(piece_faces(pieces), seen, vocab_r, prefix) == slot_text(
        (id, 1usize),
        seen,
        vocab_r,
        prefix,
    )
    &&& forall|j: int|
        0 <= j < pieces.len() ==> slot_text(
            #[trigger] piece_faces(pieces)[j],
            seen || j > 0,
            vocab_r,
            prefix,
        ).len() == 1
    &&& prefix matches Some(p) ==> forall|j: int|
        0 <= j < pieces.len() && (seen || j > 0) ==> begins_with(
            vocab_r[(#[trigger] piece_faces(pieces)[j]).0],
            p,
        )
}

/// Every token that is split is spelled as its pieces in a row, each piece
/// one character: at the head of a word, and behind another token wherever
/// it can stand there.
pub open spec fn splits_spell(
    splits: Map<u32, SplitEntries>,
    vocab_r: Map<u32, Seq<char>>,
    prefix: Option<Seq<char>>,
) -> bool {
    forall|id: u32, i: int|
        splits.contains_key(id) && 0 <= i < splits[id].len() ==> pieces_spell(
            id,
            (#[trigger] splits[id][i]).1,
            false,
            vocab_r,
            prefix,
        ) && ((prefix matches Some(p) ==> begins_with(vocab_r[id], p)) ==> pieces_spell(
            id,
            splits[id][i].1,
            true,
            vocab_r,
            prefix,
        ))
}

/// Pieces of one character each spell as many characters as there are
/// pieces.
pub proof fn lemma_pieces_length(
    f: Seq<Face>,
    seen: bool,
    vocab_r: Map<u32, Seq<char>>,
    prefix: Option<Seq<char>>,
)
    requires
        forall|j: int|
            0 <= j < f.len() ==> (#[trigger] f[j]).1 != 0 && slot_text(
                f[j],
                seen || j > 0,
                vocab_r,
                prefix,
            ).len() == 1,
    ensures
        spelled(f, seen, vocab_r, prefix).len() == f.len(),
        any_live(f) == (f.len() > 0),
    decreases f.len(),
{
    if f.len() > 0 {
        let head = f.drop_last();
        assert forall|j: int| 0 <= j < head.len() implies (#[trigger] head[j]).1 != 0 && slot_text(
            head[j],
            seen || j > 0,
            vocab_r,
            prefix,
        ).len() == 1 by {
            assert(head[j] == f[j]);
        }
        lemma_pieces_length(head, seen, vocab_r, prefix);
        assert(f.last() == f[f.len() - 1]);
        assert(any_live(head) == (f.len() - 1 > 0));
    }
}

/// What a split does to the tokens and lengths of a word whose slot is as
/// wide as the pieces are many: the pieces stand in place of the slot and of
/// the consumed slots behind it.
pub proof fn lemma_split_faces(s: Seq<Symbol>, pos: int, pieces: Seq<u32>)
    requires
        0 <= pos < s.len(),
        pieces.len() >= 1,
        pos + pieces.len() <= s.len(),
        forall|j: int| pos < j < pos + pieces.len() ==> (#[trigger] s[j]).len == 0,
    ensures
        faces(s) == faces(s).take(pos) + seq![faces(s)[pos]] + faces(s).subrange(
            pos + 1,
            pos + pieces.len(),
        ) + faces(s).skip(pos + pieces.len()),
        faces(apply_split(s, pos, pieces)) == faces(s).take(pos) + piece_faces(pieces) + faces(
            s,
        ).skip(pos + pieces.len()),
        forall|j: int|
            0 <= j < pieces.len() - 1 ==> (#[trigger] faces(s).subrange(
                pos + 1,
                pos + pieces.len(),
            )[j]).1 == 0,
{
    let f = faces(s);
    let k = pieces.len() as int;
    assert(f =~= f.take(pos) + seq![f[pos]] + f.subrange(pos + 1, pos + k) + f.skip(pos + k));
    assert(faces(apply_split(s, pos, pieces)) =~= f.take(pos) + piece_faces(pieces) + f.skip(
        pos + k,
    ));
    assert forall|j: int| 0 <= j < k - 1 implies (#[trigger] f.subrange(pos + 1, pos + k)[j]).1
        == 0 by {
        assert(s[pos + 1 + j].len == 0);
    }
}

/// What the replay keeps true of a word while it decodes as it did.
pub open spec fn keeps_text(
    s: Seq<Symbol>,
    vocab_r: Map<u32, Seq<char>>,
    prefix: Option<Seq<char>>,
    target: Seq<char>,
) -> bool {
    &&& links_live(s)
    &&& first_live(s)
    &&& later_slots_prefixed(faces(s), vocab_r, prefix)
    &&& aligned(s, vocab_r, prefix)
    &&& decoded(s, vocab_r, prefix) == target
}

/// The pieces of a split that can be applied spell the token in the slot,
/// and the slot is as wide as the pieces are many.
pub proof fn lemma_split_fits(
    s: Seq<Symbol>,
    pos: int,
    rank: u32,
    pieces: Seq<u32>,
    splits: Map<u32, SplitEntries>,
    vocab_r: Map<u32, Seq<char>>,
    prefix: Option<Seq<char>>,
)
    requires
        links_live(s),
        first_live(s),
        later_slots_prefixed(faces(s), vocab_r, prefix),
        aligned(s, vocab_r, prefix),
        splits_spell(splits, vocab_r, prefix),
        split_fires(s, pos, rank, pieces, splits),
    ensures
        pieces_spell(s[pos].c, pieces, pos > 0, vocab_r, prefix),
        s[pos].next == pos + pieces.len(),
        pos + pieces.len() < s.len(),
        s[pos + pieces.len()].len != 0,
        forall|j: int| pos < j < pos + pieces.len() ==> (#[trigger] s[j]).len == 0,
{
    let id = s[pos].c;
    let f = faces(s);
    assert(splits[id].contains((rank, pieces)));
    let w = choose|w: int| 0 <= w < splits[id].len() && splits[id][w] == (rank, pieces);
    assert(splits[id][w].1 == pieces);
    if pos > 0 {
        lemma_seen(f, pos);
        match prefix {
            Some(p) => {
                assert(f[pos].1 != 0);
                assert(begins_with(vocab_r[f[pos].0], p));
            },
            None => {},
        }
    }
    assert(pieces_spell(id, pieces, pos > 0, vocab_r, prefix));
    let pf = piece_faces(pieces);
    assert forall|j: int| 0 <= j < pf.len() implies (#[trigger] pf[j]).1 != 0 && slot_text(
        pf[j],
        pos > 0 || j > 0,
        vocab_r,
        prefix,
    ).len() == 1 by {}
    lemma_pieces_length(pf, pos > 0, vocab_r, prefix);
    assert(s[pos].len != 0 && s[pos].next != -1);
    assert(slot_text((s[pos].c, s[pos].len), pos > 0, vocab_r, prefix) == slot_text(
        (id, 1usize),
        pos > 0,
        vocab_r,
        prefix,
    ));
    let next = s[pos].next as int;
    assert(pos < next < s.len() && s[next].len != 0);
}

/// A split whose pieces spell the token in the slot leaves the decoded text
/// as it is.
pub proof fn lemma_split_keeps_spelling(
    s: Seq<Symbol>,
    pos: int,
    pieces: Seq<u32>,
    vocab_r: Map<u32, Seq<char>>,
    prefix: Option<Seq<char>>,
)
    requires
        0 <= pos < s.len(),
        first_live(s),
        s[pos].len != 0,
        pieces.len() >= 1,
        pos + pieces.len() <= s.len(),
        forall|j: int| pos < j < pos + pieces.len() ==> (#[trigger] s[j]).len == 0,
        pieces_spell(s[pos].c, pieces, pos > 0, vocab_r, prefix),
    ensures
        decoded(apply_split(s, pos, pieces), vocab_r, prefix) == decoded(s, vocab_r, prefix),
{
    let f = faces(s);
    let k = pieces.len() as int;
    let a = f.take(pos);
    let x = f[pos];
    let dead = f.subrange(pos + 1, pos + k);
    let c = f.skip(pos + k);
    let pf = piece_faces(pieces);
    let seen = pos > 0;
    lemma_split_faces(s, pos, pieces);
    lemma_seen(f, pos);
    assert forall|j: int| 0 <= j < pf.len() implies (#[trigger] pf[j]).1 != 0 && slot_text(
        pf[j],
        seen || j > 0,
        vocab_r,
        prefix,
    ).len() == 1 by {}
    lemma_pieces_length(pf, seen, vocab_r, prefix);
    // the word before
    let ax = a + seq![x];
    let axd = ax + dead;
    lemma_spelled_concat(axd, c, false, vocab_r, prefix);
    lemma_spelled_concat(ax, dead, false, vocab_r, prefix);
    lemma_spelled_concat(a, seq![x], false, vocab_r, prefix);
    lemma_any_live_concat(ax, dead);
    lemma_any_live_concat(a, seq![x]);
    lemma_one_slot(x, seen, vocab_r, prefix);
    lemma_dead_spell_nothing(dead, any_live(ax), vocab_r, prefix);
    // the word after
    let ap = a + pf;
    lemma_spelled_concat(ap, c, false, vocab_r, prefix);
    lemma_spelled_concat(a, pf, false, vocab_r, prefix);
    lemma_any_live_concat(a, pf);
    let before = spelled(a, false, vocab_r, prefix);
    let own = slot_text(x, seen, vocab_r, prefix);
    let after = spelled(c, true, vocab_r, prefix);
    assert(own == slot_text((s[pos].c, 1usize), seen, vocab_r, prefix));
    assert(spelled(f, false, vocab_r, prefix) =~= before + own + after);
    assert(spelled(faces(apply_split(s, pos, pieces)), false, vocab_r, prefix) =~= before + own
        + after);
}

/// A split whose slot is as wide as its pieces are many keeps every live
/// slot linked to the next live slot, and the first slot live.
pub proof fn lemma_split_keeps_links(s: Seq<Symbol>, pos: int, pieces: Seq<u32>)
    requires
        links_live(s),
        first_live(s),
        0 <= pos < s.len(),
        s[pos].len != 0,
        pieces.len() >= 1,
        s[pos].next == pos + pieces.len(),
    ensures
        links_live(apply_split(s, pos, pieces)),
        first_live(apply_split(s, pos, pieces)),
{
    let t = apply_split(s, pos, pieces);
    let k = pieces.len() as int;
    let next = pos + k;
    assert(s[pos].len != 0 && s[pos].next != -1);
    assert(next < s.len() && s[next].len != 0);
    assert forall|i: int|
        0 <= i < t.len() && (#[trigger] t[i]).len != 0 && t[i].next != -1 implies i < t[i].next
        < t.len() && t[t[i].next as int].len != 0 && forall|j: int|
        i < j < t[i].next ==> (#[trigger] t[j]).len == 0 by {
        if pos <= i < next {
            assert(t[i].next == i + 1);
        } else {
            assert(s[i].len != 0 && s[i].next != -1);
            let to = s[i].next as int;
            assert(t[i].next == to);
            assert(i < to < s.len() && s[to].len != 0);
            if i < pos {
                if to > pos {
                    assert(s[pos].len == 0);
                }
                assert forall|j: int| i < j < to implies (#[trigger] t[j]).len == 0 by {
                    assert(s[j].len == 0);
                }
            } else {
                assert forall|j: int| i < j < to implies (#[trigger] t[j]).len == 0 by {
                    assert(s[j].len == 0);
                }
            }
        }
    }
}

/// A split whose pieces spell the token in the slot keeps every live slot
/// behind another beginning with the continuing prefix, and every live slot
/// as wide as its token spells.
pub proof fn lemma_split_keeps_alignment(
    s: Seq<Symbol>,
    pos: int,
    pieces: Seq<u32>,
    vocab_r: Map<u32, Seq<char>>,
    prefix: Option<Seq<char>>,
)
    requires
        0 <= pos < s.len(),
        first_live(s),
        later_slots_prefixed(faces(s), vocab_r, prefix),
        aligned(s, vocab_r, prefix),
        s[pos].len != 0,
        pieces.len() >= 1,
        pos + pieces.len() < s.len(),
        s[pos].next == pos + pieces.len(),
        forall|j: int| pos < j < pos + pieces.len() ==> (#[trigger] s[j]).len == 0,
        pieces_spell(s[pos].c, pieces, pos > 0, vocab_r, prefix),
    ensures
        later_slots_prefixed(faces(apply_split(s, pos, pieces)), vocab_r, prefix),
        aligned(apply_split(s, pos, pieces), vocab_r, prefix),
{
    let t = apply_split(s, pos, pieces);
    let f = faces(s);
    let g = faces(t);
    let k = pieces.len() as int;
    let pf = piece_faces(pieces);
    assert forall|i: int|
        0 <= i < t.len() && (#[trigger] t[i]).len != 0 && t[i].next != -1 implies slot_text(
        (t[i].c, t[i].len),
        i > 0,
        vocab_r,
        prefix,
    ).len() == t[i].next - i by {
        if pos <= i < pos + k {
            assert(pf[i - pos] == (t[i].c, t[i].len));
            assert(t[i].next == i + 1);
        } else {
            assert(t[i].c == s[i].c && t[i].len == s[i].len && t[i].next == s[i].next);
        }
    }
    match prefix {
        Some(p) => {
            assert forall|i: int|
                0 <= i < g.len() && (#[trigger] g[i]).1 != 0 && any_live(g.take(i)) implies begins_with(
                vocab_r[g[i].0],
                p,
            ) by {
                if i == 0 {
                    assert(g.take(0) =~= Seq::<Face>::empty());
                } else if pos <= i < pos + k {
                    assert(pf[i - pos] == g[i]);
                } else {
                    assert(g[i] == f[i]);
                    lemma_seen(f, i);
                }
            }
        },
        None => {},
    }
}

/// A split leaves the decoded text as it is.
pub proof fn lemma_split_keeps_text(
    s: Seq<Symbol>,
    pos: int,
    rank: u32,
    pieces: Seq<u32>,
    splits: Map<u32, SplitEntries>,
    vocab_r: Map<u32, Seq<char>>,
    prefix: Option<Seq<char>>,
    target: Seq<char>,
)
    requires
        splits_spell(splits, vocab_r, prefix),
        keeps_text(s, vocab_r, prefix, target),
        split_fires(s, pos, rank, pieces, splits),
    ensures
        keeps_text(apply_split(s, pos, pieces), vocab_r, prefix, target),
{
    lemma_split_fits(s, pos, rank, pieces, splits, vocab_r, prefix);
    lemma_split_keeps_spelling(s, pos, pieces, vocab_r, prefix);
    lemma_split_keeps_links(s, pos, pieces);
    lemma_split_keeps_alignment(s, pos, pieces, vocab_r, prefix);
}

/// A step leaves the decoded text as it is.
pub proof fn lemma_step_keeps_text(
    st: Replay,
    merges: Map<Pair, MergeEntries>,
    splits: Map<u32, SplitEntries>,
    vocab_r: Map<u32, Seq<char>>,
    prefix: Option<Seq<char>>,
    target: Seq<char>,
)
    requires
        st.queue.len() > 0,
        merges_spell(merges, vocab_r, prefix),
        splits_spell(splits, vocab_r, prefix),
        keeps_text(st.syms, vocab_r, prefix, target),
    ensures
        keeps_text(replay_step(st, merges, splits).syms, vocab_r, prefix, target),
{
    let k = first_event(st.queue);
    lemma_first_event(st.queue);
    let s = st.syms;
    match st.queue[k] {
        EventView::Merge { pos, rank, new_id } => {
            if merge_fires(s, pos as int, rank, new_id, merges) {
                lemma_merge_keeps_text(s, pos as int, rank, new_id, merges, vocab_r, prefix);
                lemma_merge_keeps_alignment(s, pos as int, rank, new_id, merges, vocab_r, prefix);
            }
        },
        EventView::Split { pos, rank, pieces } => {
            if split_fires(s, pos as int, rank, pieces, splits) {
                lemma_split_keeps_text(s, pos as int, rank, pieces, splits, vocab_r, prefix, target);
            }
        },
    }
}

/// The replay leaves the decoded text as it is.
pub proof fn lemma_run_keeps_text(
    st: Replay,
    merges: Map<Pair, MergeEntries>,
    splits: Map<u32, SplitEntries>,
    vocab_r: Map<u32, Seq<char>>,
    prefix: Option<Seq<char>>,
    target: Seq<char>,
)
    requires
        merges_spell(merges, vocab_r, prefix),
        splits_spell(splits, vocab_r, prefix),
        keeps_text(st.syms, vocab_r, prefix, target),
    ensures
        decoded(replay_run(st, merges, splits), vocab_r, prefix) == target,
    decreases rank_room(st.queue), lowest_count(st.queue),
{
    if st.queue.len() > 0 {
        lemma_step_decreases(st, merges, splits);
        lemma_step_keeps_text(st, merges, splits, vocab_r, prefix, target);
        lemma_run_keeps_text(replay_step(st, merges, splits), merges, splits, vocab_r, prefix, target);
    }
}

/// Dropping the consumed slots leaves the decoded text as it is.
pub proof fn lemma_live_keeps_text(
    s: Seq<Symbol>,
    seen: bool,
    vocab_r: Map<u32, Seq<char>>,
    prefix: Option<Seq<char>>,
)
    ensures
        spelled(faces(live_symbols(s)), seen, vocab_r, prefix) == spelled(
            faces(s),
            seen,
            vocab_r,
            prefix,
        ),
        any_live(faces(live_symbols(s))) == any_live(faces(s)),
    decreases s.len(),
{
    if s.len() > 0 {
        lemma_live_keeps_text(s.drop_last(), seen, vocab_r, prefix);
        let head = live_symbols(s.drop_last());
        assert(faces(s).drop_last() =~= faces(s.drop_last()));
        assert(faces(s).last() == (s.last().c, s.last().len));
        if s.last().len != 0 {
            let all = live_symbols(s);
            assert(all =~= head.push(s.last()));
            assert(faces(all).drop_last() =~= faces(head));
            assert(faces(all).last() == (s.last().c, s.last().len));
        } else {
            assert(live_symbols(s) =~= head);
            assert(spelled(faces(s), seen, vocab_r, prefix) =~= spelled(
                faces(s.drop_last()),
                seen,
                vocab_r,
                prefix,
            ));
        }
    }
}

/// Symbols whose links are set anew keep their tokens and lengths.
pub proof fn lemma_relinked_faces(s: Seq<Symbol>)
    ensures
        faces(relinked(s)) == faces(s),
{
    assert(faces(relinked(s)) =~= faces(s));
}

/// The string under which the character at `i` of a text is looked up.
pub open spec fn surface_at(text: Seq<char>, i: int, lex: Lexicon) -> Seq<char> {
    surface(text[i], i == 0, i == text.len() - 1, lex)
}

/// Whether every character of a text is in the vocabulary under the string
/// that it is looked up with.
pub open spec fn all_in_vocab(text: Seq<char>, lex: Lexicon) -> bool {
    forall|i: int| 0 <= i < text.len() ==> lex.vocab.contains_key(#[trigger] surface_at(text, i, lex))
}

/// The strings under which the first `n` characters of a text are looked
/// up, each with the byte length of its character.
pub open spec fn plain_items(text: Seq<char>, lex: Lexicon, n: int) -> Seq<Item> {
    Seq::new(
        n as nat,
        |i: int|
            (
                lex.vocab[surface(text[i], i == 0, i == text.len() - 1, lex)],
                utf8_len(text[i]) as usize,
            ),
    )
}

/// Where every character is in the vocabulary, the word of a text has one
/// symbol for each character.
pub proof fn lemma_plain_draft(text: Seq<char>, lex: Lexicon, n: int)
    requires
        0 <= n <= text.len(),
        all_in_vocab(text, lex),
    ensures
        draft_upto(text, n, lex) == (Draft { items: plain_items(text, lex, n), unk: None, failed: false }),
    decreases n,
{
    if n > 0 {
        lemma_plain_draft(text, lex, n - 1);
        let i = n - 1;
        assert(lex.vocab.contains_key(surface_at(text, i, lex)));
        assert(plain_items(text, lex, n) =~= plain_items(text, lex, n - 1).push(
            (
                lex.vocab[surface(text[i], i == 0, i == text.len() - 1, lex)],
                utf8_len(text[i]) as usize,
            ),
        ));
    } else {
        assert(plain_items(text, lex, 0) =~= Seq::<Item>::empty());
    }
}

/// The text that the first `n` characters are looked up as spells the
/// characters, with the suffix behind the last of the text.
pub proof fn lemma_plain_text(text: Seq<char>, lex: Lexicon, vocab_r: Map<u32, Seq<char>>, n: int)
    requires
        0 <= n <= text.len(),
        text.len() <= isize::MAX,
        all_in_vocab(text, lex),
        forall|k: Seq<char>| #[trigger]
            lex.vocab.contains_key(k) ==> vocab_r[lex.vocab[k]] == k,
    ensures
        spelled(faces(chain_of(plain_items(text, lex, n))), false, vocab_r, lex.prefix) == text.take(
            n,
        ) + (if n == text.len() && n > 0 {
            text_or_empty(lex.suffix)
        } else {
            Seq::empty()
        }),
        any_live(faces(chain_of(plain_items(text, lex, n)))) == (n > 0),
        later_slots_prefixed(faces(chain_of(plain_items(text, lex, n))), vocab_r, lex.prefix),
    decreases n,
{
    let f = faces(chain_of(plain_items(text, lex, n)));
    if n == 0 {
        assert(f =~= Seq::<Face>::empty());
        assert(text.take(0) =~= Seq::<char>::empty());
        assert(spelled(f, false, vocab_r, lex.prefix) =~= text.take(0) + Seq::<char>::empty());
    } else {
        lemma_plain_text(text, lex, vocab_r, n - 1);
        let i = n - 1;
        let head = faces(chain_of(plain_items(text, lex, n - 1)));
        let s = surface(text[i], i == 0, i == text.len() - 1, lex);
        assert(lex.vocab.contains_key(surface_at(text, i, lex)));
        lemma_encode_one(text[i]);
        assert(f.drop_last() =~= head);
        assert(f.last() == (lex.vocab[s], utf8_len(text[i]) as usize));
        assert(vocab_r[lex.vocab[s]] == s);
        let tail = if n == text.len() {
            text_or_empty(lex.suffix)
        } else {
            Seq::empty()
        };
        match lex.prefix {
            Some(p) => {
                if i > 0 {
                    assert(s =~= p + (seq![text[i]] + tail));
                    assert(s.take(p.len() as int) =~= p);
                    assert(s.skip(p.len() as int) =~= seq![text[i]] + tail);
                } else {
                    assert(s =~= seq![text[i]] + tail);
                }
            },
            None => {
                assert(s =~= seq![text[i]] + tail);
            },
        }
        assert(slot_text(f.last(), i > 0, vocab_r, lex.prefix) =~= seq![text[i]] + tail);
        assert(text.take(n) =~= text.take(n - 1) + seq![text[i]]);
        assert(spelled(f, false, vocab_r, lex.prefix) =~= text.take(n) + tail);
        match lex.prefix {
            Some(p) => {
                assert forall|j: int|
                    0 <= j < f.len() && (#[trigger] f[j]).1 != 0 && any_live(f.take(j)) implies begins_with(
                    vocab_r[f[j].0],
                    p,
                ) by {
                    if j < n - 1 {
                        assert(f[j] == head[j]);
                        assert(f.take(j) =~= head.take(j));
                    } else {
                        assert(f.take(j) =~= head);
                    }
                }
            },
            None => {},
        }
    }
}

/// The word that `add` builds from items of at least one byte each links
/// every slot to the next.
pub proof fn lemma_chain_links_live(items: Seq<Item>)
    requires
        items.len() <= isize::MAX,
        items_have_bytes(items),
    ensures
        links_live(chain_of(items)),
{
    let s = chain_of(items);
    assert forall|i: int|
        0 <= i < s.len() && (#[trigger] s[i]).len != 0 && s[i].next != -1 implies i < s[i].next
        < s.len() && s[s[i].next as int].len != 0 && forall|j: int|
        i < j < s[i].next ==> (#[trigger] s[j]).len == 0 by {
        assert(items[i + 1].1 >= 1);
    }
}

/// The word of a text whose characters are all in the vocabulary has one
/// live slot for each character, each as wide as its token spells.
pub proof fn lemma_plain_aligned(text: Seq<char>, lex: Lexicon, vocab_r: Map<u32, Seq<char>>)
    requires
        0 < text.len() <= isize::MAX,
        all_in_vocab(text, lex),
        forall|k: Seq<char>| #[trigger]
            lex.vocab.contains_key(k) ==> vocab_r[lex.vocab[k]] == k,
    ensures
        first_live(chain_of(plain_items(text, lex, text.len() as int))),
        aligned(chain_of(plain_items(text, lex, text.len() as int)), vocab_r, lex.prefix),
{
    let n = text.len() as int;
    let s = chain_of(plain_items(text, lex, n));
    lemma_encode_one(text[0]);
    assert forall|i: int|
        0 <= i < s.len() && (#[trigger] s[i]).len != 0 && s[i].next != -1 implies slot_text(
        (s[i].c, s[i].len),
        i > 0,
        vocab_r,
        lex.prefix,
    ).len() == s[i].next - i by {
        let key = surface(text[i], i == 0, i == text.len() - 1, lex);
        assert(lex.vocab.contains_key(surface_at(text, i, lex)));
        assert(vocab_r[lex.vocab[key]] == key);
        assert(i < n - 1);
        match lex.prefix {
            Some(p) => {
                if i > 0 {
                    assert(key =~= p + seq![text[i]]);
                    assert(key.take(p.len() as int) =~= p);
                    assert(key.skip(p.len() as int) =~= seq![text[i]]);
                } else {
                    assert(key =~= seq![text[i]]);
                }
            },
            None => {
                assert(key =~= seq![text[i]]);
            },
        }
        assert(slot_text((s[i].c, s[i].len), i > 0, vocab_r, lex.prefix) =~= seq![text[i]]);
    }
}

/// Where every character of a text is in the vocabulary, the reversed
/// vocabulary leads back from every id of the vocabulary, every merged token
/// is spelled as its two parents in a row, and every split token as its
/// pieces in a row, one character each, the tokens of the encoded text spell
/// the text, with the end-of-word suffix behind it.
pub proof fn lemma_decoding_gives_text(
    text: Seq<char>,
    lex: Lexicon,
    merges: Map<Pair, MergeEntries>,
    splits: Map<u32, SplitEntries>,
    vocab_r: Map<u32, Seq<char>>,
)
    requires
        0 < text.len() <= isize::MAX,
        all_in_vocab(text, lex),
        forall|k: Seq<char>| #[trigger]
            lex.vocab.contains_key(k) ==> vocab_r[lex.vocab[k]] == k,
        merges_spell(merges, vocab_r, lex.prefix),
        splits_spell(splits, vocab_r, lex.prefix),
    ensures
        encoded_word(text, lex, merges, splits) matches Some(w) && decoded(w, vocab_r, lex.prefix)
            == text + text_or_empty(lex.suffix) && without_suffix(
            decoded(w, vocab_r, lex.prefix),
            lex.suffix,
        ) == text,
{
    let n = text.len() as int;
    lemma_plain_draft(text, lex, n);
    let items = plain_items(text, lex, n);
    assert(initial_items(text, lex) == Some(items));
    lemma_plain_text(text, lex, vocab_r, n);
    lemma_plain_aligned(text, lex, vocab_r);
    assert(text.take(n) =~= text);
    assert forall|i: int| 0 <= i < items.len() implies (#[trigger] items[i]).1 >= 1 by {
        lemma_encode_one(text[i]);
    }
    lemma_chain_links_live(items);
    let s = chain_of(items);
    let target = text + text_or_empty(lex.suffix);
    let st = Replay { syms: s, queue: seeds(s, merges, s.len() - 1) };
    lemma_run_keeps_text(st, merges, splits, vocab_r, lex.prefix, target);
    let run = replay_run(st, merges, splits);
    lemma_live_keeps_text(run, false, vocab_r, lex.prefix);
    lemma_relinked_faces(live_symbols(run));
    match lex.suffix {
        Some(sfx) => {
            assert(target.skip(target.len() - sfx.len()) =~= sfx);
            assert(target.take(target.len() - sfx.len()) =~= text);
        },
        None => {
            assert(target =~= text);
        },
    }
}

} // verus!
