//! The first stages of training: the special tokens and the alphabet get
//! their ids, and every word of the corpus is spelled in symbols.

use crate::keymap::{lemma_slot_of, slot_of, KeyMap};
use crate::model::Error;
use crate::naming::{id_of, is_named, named, Names, Naming};
use crate::strmap::StrMap;
use crate::text::chars_of_str;
use crate::word::{chain_of, lemma_added_chain, Symbol, Word};
use vstd::prelude::*;
use vstd::string::*;

verus! {

/// A character with its weight: how often it occurs in the corpus.
pub type Weighed = (char, u64);

/// The characters of the corpus with their weights, each under its code
/// point, in the order in which they were first met.
pub type Weights = Seq<(u64, Weighed)>;

/// The names after the first `n` of `texts` have been named.
pub open spec fn named_all(names: Names, texts: Seq<Seq<char>>, n: int) -> Option<Names>
    decreases n,
{
    if n <= 0 {
        Some(names)
    } else {
        match named_all(names, texts, n - 1) {
            Some(m) => named(m, texts[n - 1]),
            None => None,
        }
    }
}

/// The code point of a character as a key.
pub open spec fn char_key(c: char) -> u64 {
    c as u32 as u64
}

/// The weights after `w` more occurrences of `c`. A weight that would not
/// fit stays at the greatest.
pub open spec fn weigh(weights: Weights, c: char, w: u64) -> Weights {
    match slot_of(weights, char_key(c)) {
        Some(i) => weights.update(i, (char_key(c), (c, weights[i].1.1.saturating_add(w)))),
        None => weights.push((char_key(c), (c, w))),
    }
}

/// The weights after the first `n` characters of a word that occurs `w`
/// times.
pub open spec fn weigh_word(weights: Weights, chars: Seq<char>, w: u64, n: int) -> Weights
    decreases n,
{
    if n <= 0 {
        weights
    } else {
        weigh(weigh_word(weights, chars, w, n - 1), chars[n - 1], w)
    }
}

/// The weights after the first `n` words of the corpus.
pub open spec fn weigh_words(weights: Weights, corpus: Seq<(Seq<char>, u64)>, n: int) -> Weights
    decreases n,
{
    if n <= 0 {
        weights
    } else {
        let (chars, w) = corpus[n - 1];
        weigh_word(weigh_words(weights, corpus, n - 1), chars, w, chars.len() as int)
    }
}

/// The weights after `c` has been given the greatest weight.
pub open spec fn pin(weights: Weights, c: char) -> Weights {
    match slot_of(weights, char_key(c)) {
        Some(i) => weights.update(i, (char_key(c), (c, u64::MAX))),
        None => weights.push((char_key(c), (c, u64::MAX))),
    }
}

/// The weights after the first `n` of `chars` have been given the greatest
/// weight.
pub open spec fn pin_all(weights: Weights, chars: Seq<char>, n: int) -> Weights
    decreases n,
{
    if n <= 0 {
        weights
    } else {
        pin(pin_all(weights, chars, n - 1), chars[n - 1])
    }
}

/// The alphabet of a corpus with its weights: every character of a word,
/// weighed by the count of the word for each occurrence, and every character
/// of the initial alphabet with the greatest weight.
pub open spec fn char_weights(corpus: Seq<(Seq<char>, u64)>, initial: Seq<char>) -> Weights {
    pin_all(
        weigh_words(Seq::empty(), corpus, corpus.len() as int),
        initial,
        initial.len() as int,
    )
}

/// Whether `a` goes before `b` when the alphabet is cut: the lower weight
/// first, of equal weights the lower code point.
pub open spec fn lighter(a: Weighed, b: Weighed) -> bool {
    a.1 < b.1 || (a.1 == b.1 && (a.0 as u32) < (b.0 as u32))
}

/// How many of the first `n` characters go before the one at `i`.
pub open spec fn rank(weights: Weights, i: int, n: int) -> int
    decreases n,
{
    if n <= 0 {
        0
    } else {
        rank(weights, i, n - 1) + (if lighter(weights[n - 1].1, weights[i].1) {
            1int
        } else {
            0int
        })
    }
}

/// How many characters the limit cuts from an alphabet of `len`.
pub open spec fn cut(len: int, limit: Option<usize>) -> int {
    match limit {
        Some(l) => if len > l {
            len - l
        } else {
            0
        },
        None => 0,
    }
}

/// Whether the character at `i` stays in the alphabet: as many characters as
/// are to be cut go before it.
pub open spec fn is_kept(weights: Weights, i: int, limit: Option<usize>) -> bool {
    rank(weights, i, weights.len() as int) >= cut(weights.len() as int, limit)
}

/// The names after the characters of the alphabet with a code point below
/// `cp` that stay have been named, in the order of their code points.
pub open spec fn with_alphabet(names: Names, weights: Weights, limit: Option<usize>, cp: int) -> Option<
    Names,
>
    decreases cp,
{
    if cp <= 0 {
        Some(names)
    } else {
        match with_alphabet(names, weights, limit, cp - 1) {
            None => None,
            Some(m) => match slot_of(weights, (cp - 1) as u64) {
                Some(i) => if is_kept(weights, i, limit) {
                    named(m, seq![weights[i].1.0])
                } else {
                    Some(m)
                },
                None => Some(m),
            },
        }
    }
}

/// One more than the greatest code point.
pub open spec fn code_points() -> int {
    0x11_0000
}

/// The string under which a character of a word is named: behind the
/// continuing prefix unless it is the first of its word, before the
/// end-of-word suffix if it is the last.
pub open spec fn decorated(
    c: char,
    is_first: bool,
    is_last: bool,
    prefix: Option<Seq<char>>,
    suffix: Option<Seq<char>>,
) -> Seq<char> {
    (match prefix {
        Some(p) => if is_first {
            Seq::empty()
        } else {
            p
        },
        None => Seq::empty(),
    }) + seq![c] + (match suffix {
        Some(s) => if is_last {
            s
        } else {
            Seq::empty()
        },
        None => Seq::empty(),
    })
}

/// The names and the symbols of a word while it is spelled.
pub struct Spelling {
    pub names: Names,
    pub items: Seq<(u32, usize)>,
}

/// The spelling after one more character. A character of the alphabet adds
/// the symbol of its decorated string, which is named if it is new; any other
/// character is left out.
pub open spec fn spell_char(
    sp: Spelling,
    c: char,
    is_first: bool,
    is_last: bool,
    prefix: Option<Seq<char>>,
    suffix: Option<Seq<char>>,
) -> Option<Spelling> {
    if !is_named(sp.names, seq![c]) {
        Some(sp)
    } else {
        let s = decorated(c, is_first, is_last, prefix, suffix);
        match named(sp.names, s) {
            None => None,
            Some(m) => Some(Spelling { names: m, items: sp.items.push((id_of(m, s), 1usize)) }),
        }
    }
}

/// The spelling after the first `n` characters of a word.
pub open spec fn spell_upto(
    names: Names,
    chars: Seq<char>,
    n: int,
    prefix: Option<Seq<char>>,
    suffix: Option<Seq<char>>,
) -> Option<Spelling>
    decreases n,
{
    if n <= 0 {
        Some(Spelling { names, items: Seq::empty() })
    } else {
        match spell_upto(names, chars, n - 1, prefix, suffix) {
            None => None,
            Some(sp) => spell_char(sp, chars[n - 1], n == 1, n == chars.len(), prefix, suffix),
        }
    }
}

/// The names, the words and their counts while the corpus is spelled.
pub struct Spelled {
    pub names: Names,
    pub words: Seq<Seq<Symbol>>,
    pub counts: Seq<i64>,
}

/// The corpus after the first `n` words have been spelled. `None` if the
/// ids run out, a count does not fit in `i64`, or a word has more characters
/// than a word can have symbols.
pub open spec fn spell_words(
    names: Names,
    corpus: Seq<(Seq<char>, u64)>,
    n: int,
    prefix: Option<Seq<char>>,
    suffix: Option<Seq<char>>,
) -> Option<Spelled>
    decreases n,
{
    if n <= 0 {
        Some(Spelled { names, words: Seq::empty(), counts: Seq::empty() })
    } else {
        match spell_words(names, corpus, n - 1, prefix, suffix) {
            None => None,
            Some(done) => {
                let (chars, count) = corpus[n - 1];
                if count > i64::MAX || chars.len() >= isize::MAX {
                    None
                } else {
                    match spell_upto(done.names, chars, chars.len() as int, prefix, suffix) {
                        None => None,
                        Some(sp) => Some(
                            Spelled {
                                names: sp.names,
                                words: done.words.push(chain_of(sp.items)),
                                counts: done.counts.push(count as i64),
                            },
                        ),
                    }
                }
            },
        }
    }
}

/// The words of a list as symbol sequences.
pub open spec fn words_view(words: Seq<Word>) -> Seq<Seq<Symbol>> {
    Seq::new(words.len(), |i: int| words[i]@)
}

/// The texts of a list of strings.
pub open spec fn texts_view(texts: Seq<String>) -> Seq<Seq<char>> {
    Seq::new(texts.len(), |i: int| texts[i]@)
}

/// Names the strings of `texts`, in order.
pub fn name_all(naming: &mut Naming, texts: &Vec<String>) -> (r: Result<(), Error>)
    requires
        old(naming).wf(),
    ensures
        final(naming).wf(),
        match r {
            Ok(_) => named_all(old(naming)@, texts_view(texts@), texts@.len() as int) == Some(
                final(naming)@,
            ),
            Err(e) => named_all(old(naming)@, texts_view(texts@), texts@.len() as int) is None
                && e == Error::Overflow,
        },
{
    let mut i: usize = 0;
    while i < texts.len()
        invariant
            i <= texts@.len(),
            naming.wf(),
            named_all(old(naming)@, texts_view(texts@), i as int) == Some(naming@),
        decreases texts@.len() - i,
    {
        match naming.intern(texts[i].clone()) {
            Ok(_) => {},
            Err(e) => {
                proof {
                    lemma_named_all_stays_none(old(naming)@, texts_view(texts@), i + 1);
                }
                return Err(e);
            },
        }
        i = i + 1;
    }
    Ok(())
}

/// Once the ids have run out they stay run out.
pub proof fn lemma_named_all_stays_none(names: Names, texts: Seq<Seq<char>>, n: int)
    requires
        0 <= n <= texts.len(),
        named_all(names, texts, n) is None,
    ensures
        named_all(names, texts, texts.len() as int) is None,
    decreases texts.len() - n,
{
    if n < texts.len() {
        lemma_named_all_stays_none(names, texts, n + 1);
    }
}

/// Adds `w` occurrences of `c` to the weights.
fn weigh_char(weights: &mut KeyMap<Weighed>, c: char, w: u64)
    ensures
        final(weights).entries() == weigh(old(weights).entries(), c, w),
{
    let key = c as u32 as u64;
    proof {
        lemma_slot_of(weights.entries(), key);
    }
    match weights.find(key) {
        Some(i) => {
            let (_, entry) = weights.entry(i);
            let sum = entry.1.saturating_add(w);
            weights.set_at(i, (c, sum));
        },
        None => {
            weights.insert(key, (c, w));
        },
    }
}

/// Gives `c` the greatest weight.
fn pin_char(weights: &mut KeyMap<Weighed>, c: char)
    ensures
        final(weights).entries() == pin(old(weights).entries(), c),
{
    let key = c as u32 as u64;
    proof {
        lemma_slot_of(weights.entries(), key);
    }
    match weights.find(key) {
        Some(i) => {
            weights.set_at(i, (c, u64::MAX));
        },
        None => {
            weights.insert(key, (c, u64::MAX));
        },
    }
}

/// The alphabet of a corpus with its weights.
pub fn weigh_corpus(corpus: &StrMap<u64>, initial: &Vec<char>) -> (weights: KeyMap<Weighed>)
    ensures
        weights.entries() == char_weights(corpus.entries(), initial@),
{
    let mut weights: KeyMap<Weighed> = KeyMap::new();
    let n = corpus.len();
    let mut i: usize = 0;
    while i < n
        invariant
            i <= n,
            n == corpus.entries().len(),
            weights.entries() == weigh_words(Seq::empty(), corpus.entries(), i as int),
        decreases n - i,
    {
        let (word, count) = corpus.entry(i);
        let chars = chars_of_str(word.as_str());
        let ghost start = weights.entries();
        let mut j: usize = 0;
        while j < chars.len()
            invariant
                j <= chars@.len(),
                weights.entries() == weigh_word(start, chars@, *count, j as int),
            decreases chars@.len() - j,
        {
            weigh_char(&mut weights, chars[j], *count);
            j = j + 1;
        }
        i = i + 1;
    }
    let mut k: usize = 0;
    let ghost weighed = weights.entries();
    while k < initial.len()
        invariant
            k <= initial@.len(),
            weights.entries() == pin_all(weighed, initial@, k as int),
        decreases initial@.len() - k,
    {
        pin_char(&mut weights, initial[k]);
        k = k + 1;
    }
    weights
}

/// Whether `a` goes before `b` when the alphabet is cut.
fn is_lighter(a: &Weighed, b: &Weighed) -> (r: bool)
    ensures
        r == lighter(*a, *b),
{
    a.1 < b.1 || (a.1 == b.1 && (a.0 as u32) < (b.0 as u32))
}

/// Whether the character at `i` stays in the alphabet.
fn stays(weights: &KeyMap<Weighed>, i: usize, limit: Option<usize>) -> (r: bool)
    requires
        i < weights.entries().len(),
    ensures
        r == is_kept(weights.entries(), i as int, limit),
{
    let n = weights.len();
    let to_cut = match limit {
        Some(l) => if n > l {
            n - l
        } else {
            0
        },
        None => 0,
    };
    if to_cut == 0 {
        proof {
            lemma_rank_bounds(weights.entries(), i as int, n as int);
        }
        return true;
    }
    let (_, me) = weights.entry(i);
    let mut before: usize = 0;
    let mut j: usize = 0;
    while j < n
        invariant
            j <= n,
            n == weights.entries().len(),
            i < n,
            *me == weights.entries()[i as int].1,
            before == rank(weights.entries(), i as int, j as int),
            before <= j,
        decreases n - j,
    {
        let (_, other) = weights.entry(j);
        if is_lighter(other, me) {
            before = before + 1;
        }
        j = j + 1;
    }
    before >= to_cut
}

/// A rank is a count.
pub proof fn lemma_rank_bounds(weights: Weights, i: int, n: int)
    ensures
        0 <= rank(weights, i, n),
    decreases n,
{
    if n > 0 {
        lemma_rank_bounds(weights, i, n - 1);
    }
}

/// A string of one character.
pub fn char_string(c: char) -> (s: String)
    ensures
        s@ == seq![c],
{
    let mut s = String::new();
    s.push(c);
    assert(s@ =~= seq![c]);
    s
}

/// Names the characters of the alphabet that stay, in the order of their
/// code points.
pub fn name_alphabet(naming: &mut Naming, weights: &KeyMap<Weighed>, limit: Option<usize>) -> (r:
    Result<(), Error>)
    requires
        old(naming).wf(),
    ensures
        final(naming).wf(),
        match r {
            Ok(_) => with_alphabet(old(naming)@, weights.entries(), limit, code_points()) == Some(
                final(naming)@,
            ),
            Err(e) => with_alphabet(old(naming)@, weights.entries(), limit, code_points()) is None
                && e == Error::Overflow,
        },
{
    let mut cp: u64 = 0;
    while cp < 0x11_0000
        invariant
            cp <= 0x11_0000,
            naming.wf(),
            with_alphabet(old(naming)@, weights.entries(), limit, cp as int) == Some(naming@),
        decreases 0x11_0000 - cp,
    {
        match weights.find(cp) {
            Some(i) => {
                if stays(weights, i, limit) {
                    let (_, entry) = weights.entry(i);
                    match naming.intern(char_string(entry.0)) {
                        Ok(_) => {},
                        Err(e) => {
                            proof {
                                lemma_with_alphabet_stays_none(
                                    old(naming)@,
                                    weights.entries(),
                                    limit,
                                    cp + 1,
                                );
                            }
                            return Err(e);
                        },
                    }
                }
            },
            None => {},
        }
        cp = cp + 1;
    }
    Ok(())
}

/// Once the ids have run out they stay run out.
pub proof fn lemma_with_alphabet_stays_none(
    names: Names,
    weights: Weights,
    limit: Option<usize>,
    cp: int,
)
    requires
        0 <= cp <= code_points(),
        with_alphabet(names, weights, limit, cp) is None,
    ensures
        with_alphabet(names, weights, limit, code_points()) is None,
    decreases code_points() - cp,
{
    if cp < code_points() {
        lemma_with_alphabet_stays_none(names, weights, limit, cp + 1);
    }
}

/// The text of an optional string.
pub open spec fn opt_text(o: Option<String>) -> Option<Seq<char>> {
    match o {
        Some(s) => Some(s@),
        None => None,
    }
}

/// The string under which a character of a word is named.
fn decorate(c: char, is_first: bool, is_last: bool, prefix: &Option<String>, suffix: &Option<String>) -> (s:
    String)
    ensures
        s@ == decorated(c, is_first, is_last, opt_text(*prefix), opt_text(*suffix)),
{
    let mut s = String::new();
    if !is_first {
        match prefix {
            Some(p) => {
                s.append(p.as_str());
            },
            None => {},
        }
    }
    s.push(c);
    if is_last {
        match suffix {
            Some(x) => {
                s.append(x.as_str());
            },
            None => {},
        }
    }
    assert(s@ =~= decorated(c, is_first, is_last, opt_text(*prefix), opt_text(*suffix)));
    s
}

/// Spells one word.
fn spell_word(naming: &mut Naming, chars: &Vec<char>, prefix: &Option<String>, suffix: &Option<String>) -> (r:
    Result<Word, Error>)
    requires
        old(naming).wf(),
        chars@.len() < isize::MAX,
    ensures
        final(naming).wf(),
        match r {
            Ok(word) => match spell_upto(
                old(naming)@,
                chars@,
                chars@.len() as int,
                opt_text(*prefix),
                opt_text(*suffix),
            ) {
                Some(sp) => sp.names == final(naming)@ && word@ == chain_of(sp.items),
                None => false,
            },
            Err(e) => spell_upto(
                old(naming)@,
                chars@,
                chars@.len() as int,
                opt_text(*prefix),
                opt_text(*suffix),
            ) is None && e == Error::Overflow,
        },
{
    let mut word = Word::new();
    let n = chars.len();
    let ghost mut items: Seq<(u32, usize)> = Seq::empty();
    let ghost p = opt_text(*prefix);
    let ghost x = opt_text(*suffix);
    let mut i: usize = 0;
    proof {
        assert(chain_of(items) =~= Seq::<Symbol>::empty());
    }
    while i < n
        invariant
            i <= n,
            n == chars@.len(),
            n < isize::MAX,
            naming.wf(),
            p == opt_text(*prefix),
            x == opt_text(*suffix),
            spell_upto(old(naming)@, chars@, i as int, p, x) == Some(
                Spelling { names: naming@, items },
            ),
            word@ == chain_of(items),
            items.len() <= i,
        decreases n - i,
    {
        let c = chars[i];
        let plain = char_string(c);
        if naming.get(plain.as_str()).is_some() {
            let s = decorate(c, i == 0, i + 1 == n, prefix, suffix);
            match naming.intern(s) {
                Ok(id) => {
                    proof {
                        lemma_added_chain(items, id, 1);
                        items = items.push((id, 1usize));
                    }
                    word.add(id, 1);
                },
                Err(e) => {
                    proof {
                        lemma_spell_stays_none(old(naming)@, chars@, i + 1, p, x);
                    }
                    return Err(e);
                },
            }
        }
        i = i + 1;
    }
    Ok(word)
}

/// Once the ids have run out they stay run out.
pub proof fn lemma_spell_stays_none(
    names: Names,
    chars: Seq<char>,
    n: int,
    prefix: Option<Seq<char>>,
    suffix: Option<Seq<char>>,
)
    requires
        0 <= n <= chars.len(),
        spell_upto(names, chars, n, prefix, suffix) is None,
    ensures
        spell_upto(names, chars, chars.len() as int, prefix, suffix) is None,
    decreases chars.len() - n,
{
    if n < chars.len() {
        lemma_spell_stays_none(names, chars, n + 1, prefix, suffix);
    }
}

/// Spells every word of the corpus: its symbols, and its count.
pub fn tokenize_words(
    corpus: &StrMap<u64>,
    naming: &mut Naming,
    prefix: &Option<String>,
    suffix: &Option<String>,
) -> (r: Result<(Vec<Word>, Vec<i64>), Error>)
    requires
        old(naming).wf(),
    ensures
        final(naming).wf(),
        match r {
            Ok((words, counts)) => spell_words(
                old(naming)@,
                corpus.entries(),
                corpus.entries().len() as int,
                opt_text(*prefix),
                opt_text(*suffix),
            ) == Some(Spelled { names: final(naming)@, words: words_view(words@), counts: counts@ }),
            Err(e) => spell_words(
                old(naming)@,
                corpus.entries(),
                corpus.entries().len() as int,
                opt_text(*prefix),
                opt_text(*suffix),
            ) is None && e == Error::Overflow,
        },
{
    let mut words: Vec<Word> = Vec::new();
    let mut counts: Vec<i64> = Vec::new();
    let n = corpus.len();
    let ghost p = opt_text(*prefix);
    let ghost x = opt_text(*suffix);
    let mut i: usize = 0;
    proof {
        assert(words_view(words@) =~= Seq::<Seq<Symbol>>::empty());
    }
    while i < n
        invariant
            i <= n,
            n == corpus.entries().len(),
            naming.wf(),
            p == opt_text(*prefix),
            x == opt_text(*suffix),
            spell_words(old(naming)@, corpus.entries(), i as int, p, x) == Some(
                Spelled { names: naming@, words: words_view(words@), counts: counts@ },
            ),
        decreases n - i,
    {
        let (text, count) = corpus.entry(i);
        let chars = chars_of_str(text.as_str());
        if *count > i64::MAX as u64 || chars.len() >= isize::MAX as usize {
            proof {
                lemma_spell_words_stays_none(old(naming)@, corpus.entries(), i + 1, p, x);
            }
            return Err(Error::Overflow);
        }
        let ghost before = words_view(words@);
        match spell_word(naming, &chars, prefix, suffix) {
            Ok(word) => {
                words.push(word);
                counts.push(*count as i64);
                proof {
                    assert(words_view(words@) =~= before.push(word@));
                }
            },
            Err(e) => {
                proof {
                    lemma_spell_words_stays_none(old(naming)@, corpus.entries(), i + 1, p, x);
                }
                return Err(e);
            },
        }
        i = i + 1;
    }
    Ok((words, counts))
}

/// Once spelling has failed it stays failed.
pub proof fn lemma_spell_words_stays_none(
    names: Names,
    corpus: Seq<(Seq<char>, u64)>,
    n: int,
    prefix: Option<Seq<char>>,
    suffix: Option<Seq<char>>,
)
    requires
        0 <= n <= corpus.len(),
        spell_words(names, corpus, n, prefix, suffix) is None,
    ensures
        spell_words(names, corpus, corpus.len() as int, prefix, suffix) is None,
    decreases corpus.len() - n,
{
    if n < corpus.len() {
        lemma_spell_words_stays_none(names, corpus, n + 1, prefix, suffix);
    }
}

} // verus!
