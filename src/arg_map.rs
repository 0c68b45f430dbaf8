//! The result of a parse: flag names mapped to their holders.
use vstd::prelude::*;
use crate::error::{Failure, ParseErr};
use crate::tokens::Token;
use crate::value::{set_value, Args, Value};

verus! {

/// The map that a list of entries describes; a later entry for a name wins.
pub open spec fn map_of(entries: Seq<(char, Args)>) -> Map<char, Value>
    decreases entries.len(),
{
    if entries.len() == 0 {
        Map::empty()
    } else {
        map_of(entries.drop_last()).insert(entries.last().0, entries.last().1@)
    }
}

pub open spec fn names_unique(entries: Seq<(char, Args)>) -> bool {
    forall|i: int, j: int|
        0 <= i < j < entries.len() ==> #[trigger] entries[i].0 != #[trigger] entries[j].0
}

/// The flag that a modifier names: a modifier of one character names that character.
pub open spec fn flag_of(name: Seq<char>) -> Option<char> {
    if name.len() == 1 {
        Some(name[0])
    } else {
        None
    }
}

/// What binding one token to the holders `m` gives: the holder of the flag it names takes
/// its words; a flag that `m` does not hold is refused.
pub open spec fn bind_token(m: Map<char, Value>, t: (Seq<char>, Seq<Seq<char>>)) -> Result<
    Map<char, Value>,
    Failure,
> {
    match flag_of(t.0) {
        Some(k) if m.contains_key(k) => match set_value(m[k], t.1) {
            Ok(v) => Ok(m.insert(k, v)),
            Err(e) => Err(e),
        },
        _ => Err(Failure::UnknownArg(t.0)),
    }
}

pub proof fn lemma_map_of_domain(entries: Seq<(char, Args)>, k: char)
    ensures
        map_of(entries).contains_key(k) <==> exists|i: int|
            0 <= i < entries.len() && #[trigger] entries[i].0 == k,
    decreases entries.len(),
{
    if entries.len() > 0 {
        let init = entries.drop_last();
        lemma_map_of_domain(init, k);
        if map_of(init).contains_key(k) {
            let i = choose|i: int| 0 <= i < init.len() && #[trigger] init[i].0 == k;
            assert(entries[i].0 == k);
        }
        if exists|i: int| 0 <= i < entries.len() && #[trigger] entries[i].0 == k {
            let i = choose|i: int| 0 <= i < entries.len() && #[trigger] entries[i].0 == k;
            if i < entries.len() - 1 {
                assert(init[i].0 == k);
            }
        }
    }
}

pub proof fn lemma_map_of_value(entries: Seq<(char, Args)>, i: int)
    requires
        names_unique(entries),
        0 <= i < entries.len(),
    ensures
        map_of(entries).contains_key(entries[i].0),
        map_of(entries)[entries[i].0] == entries[i].1@,
    decreases entries.len(),
{
    let init = entries.drop_last();
    if i < entries.len() - 1 {
        assert(init[i] == entries[i]);
        lemma_map_of_value(init, i);
        assert(entries.last().0 != entries[i].0);
    }
}

pub proof fn lemma_map_of_update(entries: Seq<(char, Args)>, i: int, a: Args)
    requires
        names_unique(entries),
        0 <= i < entries.len(),
    ensures
        names_unique(entries.update(i, (entries[i].0, a))),
        map_of(entries.update(i, (entries[i].0, a))) == map_of(entries).insert(entries[i].0, a@),
    decreases entries.len(),
{
    let k = entries[i].0;
    let next = entries.update(i, (k, a));
    let init = entries.drop_last();
    assert(names_unique(next)) by {
        assert forall|x: int, y: int| 0 <= x < y < next.len() implies #[trigger] next[x].0
            != #[trigger] next[y].0 by {
            assert(next[x].0 == entries[x].0);
            assert(next[y].0 == entries[y].0);
        }
    }
    if i == entries.len() - 1 {
        assert(next.drop_last() =~= init);
        lemma_map_of_domain(init, k);
        assert(map_of(entries) =~= map_of(init).insert(k, entries[i].1@));
        assert(map_of(next) =~= map_of(entries).insert(k, a@));
    } else {
        lemma_map_of_update(init, i, a);
        assert(next.drop_last() =~= init.update(i, (k, a)));
        assert(entries.last().0 != k);
        assert(map_of(next) =~= map_of(entries).insert(k, a@));
    }
}

/// Flag names, each with its holder.
#[derive(Debug)]
pub struct ArgMap {
    entries: Vec<(char, Args)>,
}

impl View for ArgMap {
    type V = Map<char, Value>;

    closed spec fn view(&self) -> Map<char, Value> {
        map_of(self.entries@)
    }
}

impl ArgMap {
    /// Each name stands in one entry at most.
    pub closed spec fn wf(&self) -> bool {
        names_unique(self.entries@)
    }

    /// A map with no flags.
    pub fn new() -> (r: ArgMap)
        ensures
            r.wf(),
            r@ == Map::<char, Value>::empty(),
    {
        ArgMap { entries: Vec::new() }
    }

    fn index_of(&self, k: char) -> (r: Option<usize>)
        ensures
            match r {
                Some(i) => i < self.entries.len() && self.entries@[i as int].0 == k,
                None => forall|i: int| 0 <= i < self.entries.len() ==> self.entries@[i].0 != k,
            },
    {
        let mut i: usize = 0;
        while i < self.entries.len()
            invariant
                i <= self.entries.len(),
                forall|j: int| 0 <= j < i ==> self.entries@[j].0 != k,
            decreases self.entries.len() - i,
        {
            if self.entries[i].0 == k {
                return Some(i);
            }
            i = i + 1;
        }
        None
    }

    /// Binds `a` to `k`, in place of any holder that `k` had.
    pub fn insert(&mut self, k: char, a: Args)
        requires
            old(self).wf(),
        ensures
            final(self).wf(),
            final(self)@ == old(self)@.insert(k, a@),
    {
        match self.index_of(k) {
            Some(i) => {
                proof {
                    lemma_map_of_update(self.entries@, i as int, a);
                }
                self.entries.set(i, (k, a));
            },
            None => {
                let ghost before = self.entries@;
                self.entries.push((k, a));
                assert(self.entries@.drop_last() =~= before);
            },
        }
    }

    /// The holder of the flag that `name` names.
    pub fn get(&self, name: &str) -> (r: Option<&Args>)
        requires
            self.wf(),
        ensures
            match r {
                Some(a) => flag_of(name@) is Some && self@.contains_key(flag_of(name@)->0)
                    && a@ == self@[flag_of(name@)->0],
                None => !(flag_of(name@) is Some && self@.contains_key(flag_of(name@)->0)),
            },
    {
        let chars = crate::text::chars_of(name);
        if chars.len() != 1 {
            return None;
        }
        let k = chars[0];
        proof {
            lemma_map_of_domain(self.entries@, k);
        }
        match self.index_of(k) {
            Some(i) => {
                proof {
                    lemma_map_of_value(self.entries@, i as int);
                }
                Some(&self.entries[i].1)
            },
            None => None,
        }
    }

    /// Feeds one token's words to the holder of the flag it names.
    pub fn bind(&mut self, token: Token) -> (r: Result<(), ParseErr>)
        requires
            old(self).wf(),
        ensures
            final(self).wf(),
            match bind_token(old(self)@, token@) {
                Ok(m) => r is Ok && final(self)@ == m,
                Err(e) => r is Err && r->Err_0@ == e,
            },
    {
        let chars = crate::text::chars_of(token.modifier.as_str());
        if chars.len() != 1 {
            return Err(ParseErr::UnknownArg(token.modifier));
        }
        let k = chars[0];
        proof {
            lemma_map_of_domain(self.entries@, k);
        }
        match self.index_of(k) {
            Some(i) => {
                proof {
                    lemma_map_of_value(self.entries@, i as int);
                }
                let ghost old_entries = self.entries@;
                let result = self.entries[i].1.set(token.values);
                proof {
                    assert(self.entries@ =~= old_entries.update(i as int, (k, self.entries@[i as int].1)));
                    lemma_map_of_update(old_entries, i as int, self.entries@[i as int].1);
                }
                result
            },
            None => Err(ParseErr::UnknownArg(token.modifier)),
        }
    }
}

} // verus!
