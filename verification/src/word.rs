//! The symbol chain: one input word as a sequence of symbols, each with a
//! token id, a byte length and the indices of its neighbours.

use crate::replay::{links_hold, replay, replayed};
use crate::tables::{MergeMap, SplitMap};
use vstd::prelude::*;

verus! {

/// An ordered pair of token ids.
pub type Pair = (u32, u32);

/// One symbol of a word. `prev` and `next` are indices into the word, `-1`
/// for "no neighbour". A `len` of zero marks a slot that a merge has consumed.
#[derive(Clone, Copy, Debug, PartialEq, Eq, Structural)]
pub struct Symbol {
    pub c: u32,
    pub prev: isize,
    pub next: isize,
    pub len: usize,
}

impl Symbol {
    /// Merges `other`, the right neighbour, into this symbol.
    pub fn merge_with(&mut self, other: &Self, new_c: u32)
        requires
            old(self).len + other.len <= usize::MAX,
        ensures
            final(self).c == new_c,
            final(self).len == old(self).len + other.len,
            final(self).next == other.next,
            final(self).prev == old(self).prev,
    {
        self.c = new_c;
        self.len = self.len + other.len;
        self.next = other.next;
    }
}

/// The token ids of a symbol sequence, in order.
pub open spec fn chars_of(s: Seq<Symbol>) -> Seq<u32> {
    Seq::new(s.len(), |i: int| s[i].c)
}

/// The summed byte length of a symbol sequence.
pub open spec fn total_len(s: Seq<Symbol>) -> int
    decreases s.len(),
{
    if s.len() == 0 {
        0
    } else {
        total_len(s.drop_last()) + s.last().len
    }
}

/// The byte offsets of a symbol sequence: symbol `i` covers the bytes from the
/// summed length of the symbols before it up to that sum plus its own length.
pub open spec fn offsets_of(s: Seq<Symbol>) -> Seq<(int, int)> {
    Seq::new(s.len(), |i: int| (total_len(s.take(i)), total_len(s.take(i)) + s[i].len))
}

/// A change of a pair's count: the pair and `+1` or `-1`.
pub type Change = (Pair, i32);

/// The symbol that replaces the adjacent symbols `a` and `b`.
pub open spec fn fused(a: Symbol, b: Symbol, replacement: u32) -> Symbol {
    Symbol { c: replacement, prev: a.prev, next: b.next, len: (a.len + b.len) as usize }
}

/// Whether `s` starts with the pair `(c1, c2)`.
pub open spec fn starts_with_pair(s: Seq<Symbol>, c1: u32, c2: u32) -> bool {
    s.len() >= 2 && s[0].c == c1 && s[1].c == c2
}

/// `s` after every occurrence of the pair `(c1, c2)` has been fused, scanning
/// from the left; a fused symbol is not looked at again.
pub open spec fn merged_symbols(s: Seq<Symbol>, c1: u32, c2: u32, replacement: u32) -> Seq<Symbol>
    decreases s.len(),
{
    if s.len() == 0 {
        Seq::empty()
    } else if starts_with_pair(s, c1, c2) {
        seq![fused(s[0], s[1], replacement)] + merged_symbols(s.skip(2), c1, c2, replacement)
    } else {
        seq![s[0]] + merged_symbols(s.skip(1), c1, c2, replacement)
    }
}

/// The count changes at one fused site: the pair with the left neighbour
/// goes, and the pair of that neighbour with the new symbol comes if the two
/// together stay under `max_length`; the same to the right.
pub open spec fn merge_site_changes(
    left: Option<Symbol>,
    new_s: Symbol,
    right: Option<Symbol>,
    c1: u32,
    c2: u32,
    replacement: u32,
    max_length: usize,
) -> Seq<Change> {
    let on_left: Seq<Change> = match left {
        Some(l) => seq![((l.c, c1), -1i32)] + (if l.len + new_s.len < max_length {
            seq![((l.c, replacement), 1i32)]
        } else {
            Seq::empty()
        }),
        None => Seq::empty(),
    };
    let on_right: Seq<Change> = match right {
        Some(r) => seq![((c2, r.c), -1i32)] + (if r.len + new_s.len < max_length {
            seq![((replacement, r.c), 1i32)]
        } else {
            Seq::empty()
        }),
        None => Seq::empty(),
    };
    on_left + on_right
}

/// The count changes of the fused sites of `s`, in order, where `left` is the
/// symbol that stands before `s` in the result so far.
pub open spec fn merge_changes_from(
    left: Option<Symbol>,
    s: Seq<Symbol>,
    c1: u32,
    c2: u32,
    replacement: u32,
    max_length: usize,
) -> Seq<Change>
    decreases s.len(),
{
    if s.len() == 0 {
        Seq::empty()
    } else if starts_with_pair(s, c1, c2) {
        let new_s = fused(s[0], s[1], replacement);
        let right = if s.len() > 2 { Some(s[2]) } else { None };
        merge_site_changes(left, new_s, right, c1, c2, replacement, max_length)
            + merge_changes_from(Some(new_s), s.skip(2), c1, c2, replacement, max_length)
    } else {
        merge_changes_from(Some(s[0]), s.skip(1), c1, c2, replacement, max_length)
    }
}

/// All count changes of a merge: one `-1` for the merged pair itself, then
/// those of the fused sites.
pub open spec fn merge_changes(
    s: Seq<Symbol>,
    c1: u32,
    c2: u32,
    replacement: u32,
    max_length: usize,
) -> Seq<Change> {
    seq![((c1, c2), -1i32)] + merge_changes_from(None, s, c1, c2, replacement, max_length)
}

/// Every two adjacent symbols have a summed length that fits in `usize`.
pub open spec fn adjacent_lens_fit(s: Seq<Symbol>) -> bool {
    forall|i: int| 0 <= i < s.len() - 1 ==> (#[trigger] s[i]).len + s[i + 1].len <= usize::MAX
}

/// The symbol before index `i`, if there is one.
pub open spec fn left_of(s: Seq<Symbol>, i: int) -> Option<Symbol> {
    if 0 < i <= s.len() {
        Some(s[i - 1])
    } else {
        None
    }
}

/// Piece `j` of a retracted symbol `sym`, standing at index `index` of the
/// word: it has the id `id`, the byte length and `prev` of `sym`, and points to
/// the slot after its own.
pub open spec fn split_piece(sym: Symbol, id: usize, index: int) -> Symbol {
    Symbol { c: id as u32, prev: sym.prev, next: (index + 1) as isize, len: sym.len }
}

/// The pieces that replace `sym`, the first of them at index `base`.
pub open spec fn split_pieces(sym: Symbol, split: Seq<usize>, base: int) -> Seq<Symbol> {
    Seq::new(split.len(), |j: int| split_piece(sym, split[j], base + j))
}

/// `s` after every symbol with the id `removed` has been replaced by its
/// pieces, where `base` is the index at which `s` starts in the result.
pub open spec fn removed_symbols(base: int, s: Seq<Symbol>, removed: u32, split: Seq<usize>) -> Seq<
    Symbol,
>
    decreases s.len(),
{
    if s.len() == 0 {
        Seq::empty()
    } else if s[0].c == removed {
        split_pieces(s[0], split, base) + removed_symbols(
            base + split.len(),
            s.skip(1),
            removed,
            split,
        )
    } else {
        seq![s[0]] + removed_symbols(base + 1, s.skip(1), removed, split)
    }
}

/// The pairs that the first `n` pieces bring with the symbol before each:
/// before piece 0 stands `left`, if there is one; before piece `j` stands
/// piece `j - 1`, which has the byte length `len`. A pair counts only if the
/// two lengths stay under `max_length`.
pub open spec fn piece_changes(
    left: Option<Symbol>,
    len: usize,
    split: Seq<usize>,
    max_length: usize,
    n: int,
) -> Seq<Change>
    decreases n,
{
    if n <= 0 {
        Seq::empty()
    } else {
        let j = n - 1;
        let comes: Seq<Change> = if j == 0 {
            match left {
                Some(l) => if l.len + len < max_length {
                    seq![((l.c, split[0] as u32), 1i32)]
                } else {
                    Seq::empty()
                },
                None => Seq::empty(),
            }
        } else if len + len < max_length {
            seq![((split[j - 1] as u32, split[j] as u32), 1i32)]
        } else {
            Seq::empty()
        };
        piece_changes(left, len, split, max_length, j) + comes
    }
}

/// The count changes at one retracted site. The pairs of the retracted symbol
/// with its neighbours go. The pairs that the pieces form with what stands
/// before each come: that of the first piece with the left neighbour, where
/// there is one, and those among the pieces. Where there is a right
/// neighbour, the pair of the last piece with it comes.
pub open spec fn remove_site_changes(
    left: Option<Symbol>,
    sym: Symbol,
    right: Option<Symbol>,
    removed: u32,
    split: Seq<usize>,
    max_length: usize,
) -> Seq<Change> {
    let gone_left: Seq<Change> = match left {
        Some(l) => seq![((l.c, removed), -1i32)],
        None => Seq::empty(),
    };
    let gone_right: Seq<Change> = match right {
        Some(r) => seq![((removed, r.c), -1i32)],
        None => Seq::empty(),
    };
    let come_left = piece_changes(left, sym.len, split, max_length, split.len() as int);
    let come_right: Seq<Change> = match right {
        Some(r) => if sym.len + r.len < max_length {
            seq![((split.last() as u32, r.c), 1i32)]
        } else {
            Seq::empty()
        },
        None => Seq::empty(),
    };
    gone_left + gone_right + come_left + come_right
}

/// The count changes of the retracted sites of `s`, in order, where `base` is
/// the index at which `s` starts in the result and `left` is the symbol that
/// stands before it there.
pub open spec fn remove_changes_from(
    base: int,
    left: Option<Symbol>,
    s: Seq<Symbol>,
    removed: u32,
    split: Seq<usize>,
    max_length: usize,
) -> Seq<Change>
    decreases s.len(),
{
    if s.len() == 0 {
        Seq::empty()
    } else if s[0].c == removed {
        let right = if s.len() > 1 { Some(s[1]) } else { None };
        let last_piece = split_piece(s[0], split.last(), base + split.len() - 1);
        remove_site_changes(left, s[0], right, removed, split, max_length) + remove_changes_from(
            base + split.len(),
            Some(last_piece),
            s.skip(1),
            removed,
            split,
            max_length,
        )
    } else {
        remove_changes_from(base + 1, Some(s[0]), s.skip(1), removed, split, max_length)
    }
}

/// What `remove` asks of the pieces: there is at least one, each is a token
/// id, and none but the first is the retracted id itself.
pub open spec fn split_is_valid(removed: u32, split: Seq<usize>) -> bool {
    &&& split.len() >= 1
    &&& forall|j: int| 0 <= j < split.len() ==> #[trigger] split[j] <= u32::MAX
    &&& forall|j: int| 1 <= j < split.len() ==> #[trigger] split[j] != removed
}

/// Whether a symbol with the id `id` stands in `s`.
pub open spec fn occurs(s: Seq<Symbol>, id: u32) -> bool {
    exists|i: int| 0 <= i < s.len() && (#[trigger] s[i]).c == id
}

/// A word in which the retracted id does not stand stays as it is, and no
/// count changes.
pub proof fn lemma_remove_nothing(
    base: int,
    left: Option<Symbol>,
    s: Seq<Symbol>,
    removed: u32,
    split: Seq<usize>,
    max_length: usize,
)
    requires
        !occurs(s, removed),
    ensures
        removed_symbols(base, s, removed, split) == s,
        remove_changes_from(base, left, s, removed, split, max_length) == Seq::<Change>::empty(),
    decreases s.len(),
{
    if s.len() > 0 {
        assert(s[0].c != removed);
        assert forall|i: int| 0 <= i < s.skip(1).len() implies (#[trigger] s.skip(1)[i]).c
            != removed by {
            assert(s.skip(1)[i] == s[i + 1]);
        }
        lemma_remove_nothing(base + 1, Some(s[0]), s.skip(1), removed, split, max_length);
        assert(seq![s[0]] + s.skip(1) =~= s);
    } else {
        assert(s =~= Seq::<Symbol>::empty());
    }
}

/// Retracting the token of a merge into the two ids of its pair gives back
/// the ids that the word had before the merge, where the token did not stand
/// in the word.
pub proof fn lemma_remove_undoes_merge(base: int, s: Seq<Symbol>, c1: u32, c2: u32, r: u32)
    requires
        !occurs(s, r),
    ensures
        chars_of(
            removed_symbols(
                base,
                merged_symbols(s, c1, c2, r),
                r,
                seq![c1 as usize, c2 as usize],
            ),
        ) == chars_of(s),
    decreases s.len(),
{
    let split = seq![c1 as usize, c2 as usize];
    let merged = merged_symbols(s, c1, c2, r);
    if s.len() > 0 {
        assert(s[0].c != r);
        if starts_with_pair(s, c1, c2) {
            let rest = s.skip(2);
            assert forall|i: int| 0 <= i < rest.len() implies (#[trigger] rest[i]).c != r by {
                assert(rest[i] == s[i + 2]);
            }
            lemma_remove_undoes_merge(base + 2, rest, c1, c2, r);
            assert(merged[0].c == r);
            assert(merged.skip(1) =~= merged_symbols(rest, c1, c2, r));
            let tail = removed_symbols(base + 2, merged.skip(1), r, split);
            let pieces = split_pieces(merged[0], split, base);
            assert(removed_symbols(base, merged, r, split) == pieces + tail);
            assert(chars_of(pieces + tail) =~= seq![c1, c2] + chars_of(tail));
            assert(chars_of(s) =~= seq![c1, c2] + chars_of(rest));
        } else {
            let rest = s.skip(1);
            assert forall|i: int| 0 <= i < rest.len() implies (#[trigger] rest[i]).c != r by {
                assert(rest[i] == s[i + 1]);
            }
            lemma_remove_undoes_merge(base + 1, rest, c1, c2, r);
            assert(merged[0] == s[0]);
            assert(merged.skip(1) =~= merged_symbols(rest, c1, c2, r));
            let tail = removed_symbols(base + 1, merged.skip(1), r, split);
            assert(removed_symbols(base, merged, r, split) == seq![s[0]] + tail);
            assert(chars_of(seq![s[0]] + tail) =~= seq![s[0].c] + chars_of(tail));
            assert(chars_of(s) =~= seq![s[0].c] + chars_of(rest));
        }
    } else {
        assert(chars_of(removed_symbols(base, merged, r, split)) =~= chars_of(s));
    }
}

/// Whether `a + b < m`, without overflow.
pub fn sum_below(a: usize, b: usize, m: usize) -> (r: bool)
    ensures
        r == (a + b < m),
{
    a < m && b < m - a
}

/// `s` with one more symbol at its end, linked behind the last one.
pub open spec fn added(s: Seq<Symbol>, c: u32, byte_len: usize) -> Seq<Symbol> {
    let n = s.len() as int;
    let linked = if n > 0 {
        s.update(n - 1, Symbol { next: n as isize, ..s[n - 1] })
    } else {
        s
    };
    linked.push(Symbol { c, prev: (n - 1) as isize, next: -1isize, len: byte_len })
}

/// The word that `add` builds from a list of ids and byte lengths.
pub open spec fn chain_of(items: Seq<(u32, usize)>) -> Seq<Symbol> {
    Seq::new(
        items.len(),
        |i: int|
            Symbol {
                c: items[i].0,
                prev: (i - 1) as isize,
                next: if i == items.len() - 1 {
                    -1isize
                } else {
                    (i + 1) as isize
                },
                len: items[i].1,
            },
    )
}

/// Adding a symbol to the word of a list gives the word of the longer list.
pub proof fn lemma_added_chain(items: Seq<(u32, usize)>, c: u32, byte_len: usize)
    requires
        items.len() < isize::MAX,
    ensures
        added(chain_of(items), c, byte_len) == chain_of(items.push((c, byte_len))),
{
    assert(added(chain_of(items), c, byte_len) =~= chain_of(items.push((c, byte_len))));
}

/// One word as a sequence of symbols.
#[derive(Debug, PartialEq)]
pub struct Word {
    symbols: Vec<Symbol>,
}

impl View for Word {
    type V = Seq<Symbol>;

    closed spec fn view(&self) -> Seq<Symbol> {
        self.symbols@
    }
}

impl Word {
    /// A word without symbols.
    pub fn new() -> (w: Self)
        ensures
            w@ == Seq::<Symbol>::empty(),
    {
        Word { symbols: Vec::new() }
    }

    /// A word without symbols, with room for `capacity` of them.
    pub fn with_capacity(capacity: usize) -> (w: Self)
        ensures
            w@ == Seq::<Symbol>::empty(),
    {
        Word { symbols: Vec::with_capacity(capacity) }
    }

    /// The number of symbols.
    pub fn len(&self) -> (n: usize)
        ensures
            n == self@.len(),
    {
        self.symbols.len()
    }

    /// Appends a symbol and links it behind the previous last one.
    pub fn add(&mut self, c: u32, byte_len: usize)
        requires
            old(self)@.len() < isize::MAX,
        ensures
            final(self)@ == added(old(self)@, c, byte_len),
    {
        let n = self.symbols.len();
        let len = n as isize;
        if n > 0 {
            let last = self.symbols[n - 1];
            self.symbols.set(n - 1, Symbol { next: len, ..last });
        }
        self.symbols.push(Symbol { c, prev: len - 1, next: -1, len: byte_len });
    }

    /// Whether every two adjacent symbols have a summed length that fits.
    pub fn adjacent_lens_fit(&self) -> (r: bool)
        ensures
            r == adjacent_lens_fit(self@),
    {
        let n = self.symbols.len();
        let mut i: usize = 0;
        while n > 0 && i < n - 1
            invariant
                n == self.symbols@.len(),
                forall|j: int| 0 <= j < i ==> (#[trigger] self@[j]).len + self@[j + 1].len <= usize::MAX,
            decreases n - i,
        {
            if self.symbols[i].len > usize::MAX - self.symbols[i + 1].len {
                return false;
            }
            i = i + 1;
        }
        true
    }

    /// Fuses every occurrence of the pair `(c1, c2)` into one symbol with the
    /// id `replacement`, and returns the changes of the pair counts.
    pub fn merge(&mut self, c1: u32, c2: u32, replacement: u32, max_length: usize) -> (changes: Vec<
        Change,
    >)
        requires
            adjacent_lens_fit(old(self)@),
        ensures
            final(self)@ == merged_symbols(old(self)@, c1, c2, replacement),
            changes@ == merge_changes(old(self)@, c1, c2, replacement, max_length),
    {
        let mut changes: Vec<Change> = Vec::new();
        changes.push(((c1, c2), -1));
        let ghost head: Seq<Change> = changes@;
        let mut i: usize = 0;
        proof {
            assert(self.symbols@.skip(0) =~= self.symbols@);
            assert(self.symbols@.take(0) + merged_symbols(self.symbols@, c1, c2, replacement)
                =~= merged_symbols(self.symbols@, c1, c2, replacement));
            assert(changes@ =~= seq![((c1, c2), -1i32)]);
        }
        while i < self.symbols.len()
            invariant
                i <= self.symbols@.len(),
                head == seq![((c1, c2), -1i32)],
                merged_symbols(old(self)@, c1, c2, replacement) == self.symbols@.take(i as int)
                    + merged_symbols(self.symbols@.skip(i as int), c1, c2, replacement),
                merge_changes(old(self)@, c1, c2, replacement, max_length) == changes@
                    + merge_changes_from(
                    left_of(self.symbols@, i as int),
                    self.symbols@.skip(i as int),
                    c1,
                    c2,
                    replacement,
                    max_length,
                ),
                adjacent_lens_fit(self.symbols@.skip(i as int)),
            decreases self.symbols@.len() - i,
        {
            let ghost before = self.symbols@;
            let ghost rest = before.skip(i as int);
            let ghost changes_before = changes@;
            let n = self.symbols.len();
            assert(rest[0] == before[i as int]);
            if self.symbols[i].c == c1 && i + 1 < n && self.symbols[i + 1].c == c2 {
                let first = self.symbols[i];
                let second = self.symbols[i + 1];
                assert(rest[1] == before[i + 1]);
                assert(starts_with_pair(rest, c1, c2));
                assert(rest[0].len + rest[1].len <= usize::MAX);
                let new_s = Symbol {
                    c: replacement,
                    prev: first.prev,
                    next: second.next,
                    len: first.len + second.len,
                };
                assert(new_s == fused(rest[0], rest[1], replacement));
                if i > 0 {
                    let left = self.symbols[i - 1];
                    changes.push(((left.c, c1), -1));
                    if sum_below(left.len, new_s.len, max_length) {
                        changes.push(((left.c, replacement), 1));
                    }
                }
                self.symbols.set(i, new_s);
                self.symbols.remove(i + 1);
                if i + 1 < self.symbols.len() {
                    let right = self.symbols[i + 1];
                    assert(right == rest[2]);
                    changes.push(((c2, right.c), -1));
                    if sum_below(right.len, new_s.len, max_length) {
                        changes.push(((replacement, right.c), 1));
                    }
                }
                proof {
                    let right_opt = if rest.len() > 2 { Some(rest[2]) } else { None };
                    assert(changes@ =~= changes_before + merge_site_changes(
                        left_of(before, i as int),
                        new_s,
                        right_opt,
                        c1,
                        c2,
                        replacement,
                        max_length,
                    ));
                    assert(self.symbols@.take(i + 1) =~= before.take(i as int) + seq![new_s]);
                    assert(self.symbols@.skip(i + 1) =~= rest.skip(2));
                    assert(left_of(self.symbols@, i + 1) == Some(new_s));
                    assert forall|j: int| 0 <= j < rest.skip(2).len() - 1 implies (
                    #[trigger] rest.skip(2)[j]).len + rest.skip(2)[j + 1].len <= usize::MAX by {
                        assert(rest.skip(2)[j] == rest[j + 2]);
                        assert(rest.skip(2)[j + 1] == rest[j + 2 + 1]);
                    }
                }
            } else {
                proof {
                    assert(i + 1 < n ==> rest[1] == before[i + 1]);
                    assert(!starts_with_pair(rest, c1, c2));
                    assert(self.symbols@.take(i + 1) =~= before.take(i as int) + seq![rest[0]]);
                    assert(self.symbols@.skip(i + 1) =~= rest.skip(1));
                    assert(left_of(self.symbols@, i + 1) == Some(rest[0]));
                    assert forall|j: int| 0 <= j < rest.skip(1).len() - 1 implies (
                    #[trigger] rest.skip(1)[j]).len + rest.skip(1)[j + 1].len <= usize::MAX by {
                        assert(rest.skip(1)[j] == rest[j + 1]);
                        assert(rest.skip(1)[j + 1] == rest[j + 1 + 1]);
                    }
                }
            }
            i = i + 1;
        }
        proof {
            assert(self.symbols@.take(i as int) =~= self.symbols@);
            assert(self.symbols@.skip(i as int) =~= Seq::<Symbol>::empty());
        }
        changes
    }

    /// Replaces every symbol with the id `removed_token` by one symbol for
    /// each id of `split`, and returns the changes of the pair counts. A word
    /// in which the id does not stand stays as it is, whatever `split` is.
    #[verifier::rlimit(40)]
    pub fn remove(&mut self, removed_token: u32, split: &Vec<usize>, max_length: usize) -> (changes:
        Vec<Change>)
        requires
            occurs(old(self)@, removed_token) ==> split_is_valid(removed_token, split@)
                && removed_symbols(0, old(self)@, removed_token, split@).len() <= isize::MAX,
        ensures
            final(self)@ == removed_symbols(0, old(self)@, removed_token, split@),
            changes@ == remove_changes_from(
                0,
                None,
                old(self)@,
                removed_token,
                split@,
                max_length,
            ),
            !occurs(old(self)@, removed_token) ==> final(self)@ == old(self)@ && changes@
                == Seq::<Change>::empty(),
    {
        let mut changes: Vec<Change> = Vec::new();
        let k = split.len();
        let mut i: usize = 0;
        let ghost mut done: int = 0;
        proof {
            assert(self.symbols@.skip(0) =~= self.symbols@);
            assert(self.symbols@.take(0) + removed_symbols(0, self.symbols@, removed_token, split@)
                =~= removed_symbols(0, self.symbols@, removed_token, split@));
            assert(changes@ + remove_changes_from(
                0,
                None,
                self.symbols@,
                removed_token,
                split@,
                max_length,
            ) =~= remove_changes_from(0, None, self.symbols@, removed_token, split@, max_length));
            if !occurs(self.symbols@, removed_token) {
                lemma_remove_nothing(0, None, self.symbols@, removed_token, split@, max_length);
            }
        }
        while i < self.symbols.len()
            invariant
                k == split@.len(),
                occurs(old(self)@, removed_token) ==> split_is_valid(removed_token, split@)
                    && removed_symbols(0, old(self)@, removed_token, split@).len() <= isize::MAX,
                i <= self.symbols@.len(),
                0 <= done <= old(self)@.len(),
                self.symbols@.skip(i as int) == old(self)@.skip(done),
                removed_symbols(0, old(self)@, removed_token, split@) == self.symbols@.take(
                    i as int,
                ) + removed_symbols(i as int, self.symbols@.skip(i as int), removed_token, split@),
                remove_changes_from(0, None, old(self)@, removed_token, split@, max_length)
                    == changes@ + remove_changes_from(
                    i as int,
                    left_of(self.symbols@, i as int),
                    self.symbols@.skip(i as int),
                    removed_token,
                    split@,
                    max_length,
                ),
            decreases self.symbols@.len() - i,
        {
            let ghost before = self.symbols@;
            let ghost rest = before.skip(i as int);
            let ghost changes_before = changes@;
            assert(rest[0] == before[i as int]);
            assert(rest[0] == old(self)@[done]) by {
                assert(old(self)@.skip(done)[0] == old(self)@[done]);
            }
            if self.symbols[i].c == removed_token {
                assert(occurs(old(self)@, removed_token));
                let sym = self.symbols[i];
                let ghost pieces = split_pieces(sym, split@, i as int);
                let ghost tail = removed_symbols(i + k, rest.skip(1), removed_token, split@);
                assert(removed_symbols(i as int, rest, removed_token, split@) == pieces + tail);
                assert(i + k <= isize::MAX) by {
                    assert((before.take(i as int) + (pieces + tail)).len() == i + k + tail.len());
                }
                let ghost left = left_of(before, i as int);
                let ghost right = if rest.len() > 1 { Some(rest[1]) } else { None };
                if i > 0 {
                    changes.push(((self.symbols[i - 1].c, removed_token), -1));
                }
                if i + 1 < self.symbols.len() {
                    assert(rest[1] == before[i + 1]);
                    changes.push(((removed_token, self.symbols[i + 1].c), -1));
                }
                let ghost changes_gone = changes@;
                self.symbols.remove(i);
                let ghost cut = self.symbols@;
                let mut j: usize = 0;
                while j < k
                    invariant
                        k == split@.len(),
                        j <= k,
                        i + k <= isize::MAX,
                        split_is_valid(removed_token, split@),
                        i < before.len(),
                        sym == before[i as int],
                        cut == before.remove(i as int),
                        pieces == split_pieces(sym, split@, i as int),
                        self.symbols@ == cut.take(i as int) + pieces.take(j as int) + cut.skip(
                            i as int,
                        ),
                        left == left_of(before, i as int),
                        changes@ == changes_gone + piece_changes(
                            left,
                            sym.len,
                            split@,
                            max_length,
                            j as int,
                        ),
                    decreases k - j,
                {
                    let id = split[j] as u32;
                    let new_s = Symbol {
                        c: id,
                        prev: sym.prev,
                        next: (i + j + 1) as isize,
                        len: sym.len,
                    };
                    assert(new_s == pieces[j as int]);
                    let ghost changes_here = changes@;
                    if i > 0 || j > 0 {
                        let before_s = self.symbols[i + j - 1];
                        proof {
                            if j == 0 {
                                assert(before_s == cut[i - 1]);
                                assert(left == Some(before_s));
                            } else {
                                assert(before_s == pieces[j - 1]);
                            }
                        }
                        if sum_below(before_s.len, sym.len, max_length) {
                            changes.push(((before_s.c, id), 1));
                        }
                    }
                    proof {
                        assert(changes@ =~= changes_gone + piece_changes(
                            left,
                            sym.len,
                            split@,
                            max_length,
                            j + 1,
                        ));
                    }
                    self.symbols.insert(i + j, new_s);
                    assert(self.symbols@ =~= cut.take(i as int) + pieces.take(j + 1) + cut.skip(
                        i as int,
                    ));
                    j = j + 1;
                }
                assert(pieces.take(k as int) =~= pieces);
                if i + k < self.symbols.len() {
                    let last = self.symbols[i + k - 1];
                    let next = self.symbols[i + k];
                    assert(last == pieces[k - 1]);
                    assert(next == rest[1]);
                    if sum_below(last.len, next.len, max_length) {
                        changes.push(((last.c, next.c), 1));
                    }
                }
                proof {
                    assert(changes@ =~= changes_before + remove_site_changes(
                        left,
                        sym,
                        right,
                        removed_token,
                        split@,
                        max_length,
                    ));
                    assert(self.symbols@.take(i + k) =~= before.take(i as int) + pieces);
                    assert(self.symbols@.skip(i + k) =~= rest.skip(1));
                    assert(rest.skip(1) =~= old(self)@.skip(done + 1));
                    assert(left_of(self.symbols@, i + k) == Some(
                        split_piece(sym, split@.last(), i + k - 1),
                    )) by {
                        assert(self.symbols@[i + k - 1] == pieces[k - 1]);
                    }
                    done = done + 1;
                }
                i = i + k;
            } else {
                proof {
                    assert(self.symbols@.take(i + 1) =~= before.take(i as int) + seq![rest[0]]);
                    assert(self.symbols@.skip(i + 1) =~= rest.skip(1));
                    assert(rest.skip(1) =~= old(self)@.skip(done + 1));
                    assert(left_of(self.symbols@, i + 1) == Some(rest[0]));
                    done = done + 1;
                }
                i = i + 1;
            }
        }
        proof {
            assert(self.symbols@.take(i as int) =~= self.symbols@);
            assert(self.symbols@.skip(i as int) =~= Seq::<Symbol>::empty());
        }
        changes
    }

    /// Replays the merges and splits of the tables on this word, in the
    /// order of their ranks, drops the slots that merges have consumed, and
    /// sets the links of the symbols that are left anew.
    pub fn merge_split_all(&mut self, merges: &MergeMap, splits: &SplitMap)
        requires
            old(self)@.len() <= isize::MAX,
        ensures
            final(self)@ == replayed(old(self)@, merges@, splits@),
            links_hold(final(self)@),
    {
        replay(&mut self.symbols, merges, splits);
    }

    /// The token ids, in order.
    pub fn get_chars_iter(&self) -> (chars: Vec<u32>)
        ensures
            chars@ == chars_of(self@),
    {
        self.get_chars()
    }

    /// Whether the summed byte length of the symbols fits in `usize`.
    pub fn lengths_fit(&self) -> (r: bool)
        ensures
            r == (total_len(self@) <= usize::MAX),
    {
        let mut sum: usize = 0;
        let mut i: usize = 0;
        while i < self.symbols.len()
            invariant
                i <= self.symbols@.len(),
                sum == total_len(self@.take(i as int)),
            decreases self.symbols@.len() - i,
        {
            proof {
                lemma_total_len_prefix(self@, i + 1);
                assert(self@.take(i + 1).drop_last() =~= self@.take(i as int));
            }
            match sum.checked_add(self.symbols[i].len) {
                Some(more) => {
                    sum = more;
                },
                None => {
                    return false;
                },
            }
            i = i + 1;
        }
        proof {
            assert(self@.take(i as int) =~= self@);
        }
        true
    }

    /// The byte offsets of the symbols, in order.
    pub fn get_offsets_iter(&self) -> (offsets: Vec<(usize, usize)>)
        requires
            total_len(self@) <= usize::MAX,
        ensures
            offsets@.len() == self@.len(),
            forall|i: int|
                0 <= i < self@.len() ==> (#[trigger] offsets@[i]).0 == offsets_of(self@)[i].0
                    && offsets@[i].1 == offsets_of(self@)[i].1,
    {
        let mut offsets: Vec<(usize, usize)> = Vec::new();
        let mut pos: usize = 0;
        let mut i: usize = 0;
        while i < self.symbols.len()
            invariant
                i <= self.symbols@.len(),
                total_len(self@) <= usize::MAX,
                pos == total_len(self@.take(i as int)),
                offsets@.len() == i,
                forall|j: int|
                    0 <= j < i ==> (#[trigger] offsets@[j]).0 == offsets_of(self@)[j].0
                        && offsets@[j].1 == offsets_of(self@)[j].1,
            decreases self.symbols@.len() - i,
        {
            proof {
                lemma_total_len_prefix(self@, i + 1);
                assert(self@.take(i + 1).drop_last() =~= self@.take(i as int));
            }
            let new_pos = pos + self.symbols[i].len;
            offsets.push((pos, new_pos));
            pos = new_pos;
            i = i + 1;
        }
        offsets
    }

    /// The token ids, in order.
    pub fn get_chars(&self) -> (chars: Vec<u32>)
        ensures
            chars@ == chars_of(self@),
    {
        let mut chars: Vec<u32> = Vec::new();
        let mut i: usize = 0;
        while i < self.symbols.len()
            invariant
                i <= self.symbols.len(),
                chars@ == chars_of(self@.take(i as int)),
            decreases self.symbols.len() - i,
        {
            chars.push(self.symbols[i].c);
            i = i + 1;
            assert(chars@ =~= chars_of(self@.take(i as int)));
        }
        assert(self@.take(i as int) =~= self@);
        chars
    }
}

/// A prefix of a symbol sequence is no longer in bytes than the whole.
pub proof fn lemma_total_len_prefix(s: Seq<Symbol>, n: int)
    requires
        0 <= n <= s.len(),
    ensures
        0 <= total_len(s.take(n)) <= total_len(s),
    decreases s.len() - n,
{
    if n == s.len() {
        assert(s.take(n) =~= s);
        lemma_total_len_nonnegative(s);
    } else {
        lemma_total_len_prefix(s, n + 1);
        assert(s.take(n + 1).drop_last() =~= s.take(n));
        lemma_total_len_nonnegative(s.take(n));
    }
}

/// A summed byte length is not negative.
pub proof fn lemma_total_len_nonnegative(s: Seq<Symbol>)
    ensures
        0 <= total_len(s),
    decreases s.len(),
{
    if s.len() > 0 {
        lemma_total_len_nonnegative(s.drop_last());
    }
}

} // verus!
