//! The vocabulary while it grows: every string that gets a name gets the
//! next free id.

use crate::model::{Error, Vocab};
use crate::strmap::{keys_distinct, lemma_position_of, position_of, StrMap};
use vstd::prelude::*;

verus! {

/// Strings with their ids, in the order in which they were named.
pub type Names = Seq<(Seq<char>, u32)>;

/// Every string has its position as id, and no string stands twice.
pub open spec fn names_wf(names: Names) -> bool {
    &&& forall|i: int| 0 <= i < names.len() ==> (#[trigger] names[i]).1 == i
    &&& keys_distinct(names)
    &&& names.len() <= u32::MAX + 1
}

/// Whether `text` has a name.
pub open spec fn is_named(names: Names, text: Seq<char>) -> bool {
    position_of(names, text) is Some
}

/// The id of `text`.
pub open spec fn id_of(names: Names, text: Seq<char>) -> u32 {
    names[position_of(names, text)->0].1
}

/// The names after `text` has been named: a string that has a name keeps
/// it, a new one gets the next id. `None` if no id is left.
pub open spec fn named(names: Names, text: Seq<char>) -> Option<Names> {
    if is_named(names, text) {
        Some(names)
    } else if names.len() > u32::MAX {
        None
    } else {
        Some(names.push((text, names.len() as u32)))
    }
}

/// Naming keeps the names that are there, and their ids.
pub proof fn lemma_named(names: Names, text: Seq<char>)
    requires
        names_wf(names),
        named(names, text) is Some,
    ensures
        names_wf(named(names, text)->0),
        is_named(named(names, text)->0, text),
        names.len() <= named(names, text)->0.len() <= names.len() + 1,
        forall|i: int| 0 <= i < names.len() ==> named(names, text)->0[i] == names[i],
        forall|t: Seq<char>|
            is_named(names, t) ==> is_named(named(names, text)->0, t) && id_of(
                named(names, text)->0,
                t,
            ) == #[trigger] id_of(names, t),
        id_of(named(names, text)->0, text) < named(names, text)->0.len(),
{
    let after = named(names, text)->0;
    lemma_position_of(names, text);
    lemma_position_of(after, text);
    if !is_named(names, text) {
        assert(after.drop_last() =~= names);
        assert forall|i: int, j: int| 0 <= i < j < after.len() implies (#[trigger] after[i]).0 != (
        #[trigger] after[j]).0 by {
            if j < names.len() {
                assert(after[i] == names[i]);
                assert(after[j] == names[j]);
            } else {
                assert(after[i] == names[i]);
            }
        }
    }
    assert forall|t: Seq<char>| is_named(names, t) implies is_named(after, t) && id_of(after, t)
        == #[trigger] id_of(names, t) by {
        lemma_position_of(names, t);
        lemma_position_of(after, t);
    }
}

/// The vocabulary under construction.
pub struct Naming {
    pub ids: Vocab,
    pub texts: Vec<String>,
}

impl Naming {
    /// The strings with their ids, in the order in which they were named.
    pub open spec fn view(&self) -> Names {
        self.ids.entries()
    }

    /// The ids are the positions, and `texts` holds the string of each id.
    pub open spec fn wf(&self) -> bool {
        &&& names_wf(self@)
        &&& self.texts@.len() == self@.len()
        &&& forall|i: int| 0 <= i < self.texts@.len() ==> (#[trigger] self.texts@[i])@ == self@[i].0
    }

    /// A vocabulary with no names.
    pub fn new() -> (n: Self)
        ensures
            n.wf(),
            n@ == Seq::<(Seq<char>, u32)>::empty(),
    {
        Naming { ids: StrMap::new(), texts: Vec::new() }
    }

    /// How many strings have a name.
    pub fn len(&self) -> (n: usize)
        requires
            self.wf(),
        ensures
            n == self@.len(),
    {
        self.texts.len()
    }

    /// The id of `text`, if it has a name.
    pub fn get(&self, text: &str) -> (r: Option<u32>)
        ensures
            r == (if is_named(self@, text@) {
                Some(id_of(self@, text@))
            } else {
                None
            }),
    {
        match self.ids.get(text) {
            Some(id) => Some(*id),
            None => None,
        }
    }

    /// Names `text` and returns its id.
    pub fn intern(&mut self, text: String) -> (r: Result<u32, Error>)
        requires
            old(self).wf(),
        ensures
            final(self).wf(),
            match r {
                Ok(id) => named(old(self)@, text@) == Some(final(self)@) && id == id_of(
                    final(self)@,
                    text@,
                ),
                Err(e) => named(old(self)@, text@) is None && final(self)@ == old(self)@ && e
                    == Error::Overflow,
            },
    {
        proof {
            lemma_position_of(self@, text@);
        }
        match self.ids.get(text.as_str()) {
            Some(id) => Ok(*id),
            None => {
                let n = self.texts.len();
                if n > u32::MAX as usize {
                    return Err(Error::Overflow);
                }
                proof {
                    lemma_named(self@, text@);
                }
                let id = n as u32;
                self.texts.push(text.clone());
                self.ids.insert(text, id);
                proof {
                    lemma_position_of(self@, text@);
                }
                Ok(id)
            },
        }
    }
}

} // verus!
