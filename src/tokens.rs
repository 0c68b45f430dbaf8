//! Cuts an input line into flag tokens: one per non-empty `-`-delimited segment.
use vstd::prelude::*;
use crate::text::{chars_of, find_from, lemma_split_first, lemma_split_len, non_empty, split, views};

verus! {

/// One flag occurrence: the name after the `-` and the words that follow it.
#[derive(PartialEq, Debug)]
pub struct Token {
    pub modifier: String,
    pub values: Vec<String>,
}

impl View for Token {
    type V = (Seq<char>, Seq<Seq<char>>);

    open spec fn view(&self) -> (Seq<char>, Seq<Seq<char>>) {
        (self.modifier@, views(self.values@))
    }
}

/// The token of a segment: its first space-delimited word, then its other words that are
/// not empty.
pub open spec fn token_of(seg: Seq<char>) -> (Seq<char>, Seq<Seq<char>>) {
    let words = split(seg, ' ');
    (words[0], non_empty(words.drop_first()))
}

/// The tokens of a run of `-`-separated segments: one for each segment that is not empty.
pub open spec fn segment_tokens(s: Seq<char>) -> Seq<(Seq<char>, Seq<Seq<char>>)> {
    non_empty(split(s, '-')).map_values(|seg: Seq<char>| token_of(seg))
}

/// The tokens of an input line, in order: one for each non-empty segment that follows a
/// `-`. Text before the first `-` is ignored.
pub open spec fn tokens(s: Seq<char>) -> Seq<(Seq<char>, Seq<Seq<char>>)> {
    non_empty(split(s, '-').drop_first()).map_values(|seg: Seq<char>| token_of(seg))
}

/// Walks an input line, handing out its tokens one at a time.
pub struct TokensIterator {
    input: String,
    chars: Vec<char>,
    cursor: usize,
    done: bool,
}

impl TokensIterator {
    pub closed spec fn wf(&self) -> bool {
        &&& self.chars@ == self.input@
        &&& self.cursor <= self.chars.len()
    }

    /// The tokens not handed out yet.
    pub closed spec fn remaining(&self) -> Seq<(Seq<char>, Seq<Seq<char>>)> {
        if self.done {
            Seq::empty()
        } else {
            segment_tokens(self.chars@.skip(self.cursor as int))
        }
    }

    /// Starts at the beginning of `input`.
    pub fn from(input: String) -> (r: Self)
        ensures
            r.wf(),
            r.remaining() == tokens(input@),
    {
        let chars = chars_of(input.as_str());
        let n = chars.len();
        let j = find_from(&chars, 0, n, '-');
        proof {
            lemma_split_first(chars@, '-', j as int);
        }
        if j == n {
            assert(split(chars@, '-').drop_first() =~= Seq::<Seq<char>>::empty());
            TokensIterator { input, chars, cursor: n, done: true }
        } else {
            assert(split(chars@, '-').drop_first() =~= split(chars@.skip(j + 1), '-'));
            TokensIterator { input, chars, cursor: j + 1, done: false }
        }
    }

    /// The token of the segment `chars[a..b]`.
    fn token_at(&self, a: usize, b: usize) -> (t: Token)
        requires
            self.wf(),
            a <= b <= self.chars.len(),
        ensures
            t@ == token_of(self.chars@.subrange(a as int, b as int)),
    {
        let ghost seg = self.chars@.subrange(a as int, b as int);
        let j0 = find_from(&self.chars, a, b, ' ');
        proof {
            assert forall|k: int| 0 <= k < j0 - a implies seg[k] != ' ' by {
                assert(seg[k] == self.chars@[a + k]);
            }
            lemma_split_first(seg, ' ', j0 - a);
            lemma_split_len(seg, ' ');
        }
        let modifier = self.input.as_str().substring_char(a, j0).to_owned();
        assert(modifier@ =~= split(seg, ' ')[0]);
        let mut values: Vec<String> = Vec::new();
        if j0 == b {
            assert(split(seg, ' ').drop_first() =~= Seq::<Seq<char>>::empty());
            assert(views(values@) =~= Seq::<Seq<char>>::empty());
            return Token { modifier, values };
        }
        let ghost after = split(seg, ' ').drop_first();
        let mut p = j0 + 1;
        assert(seg.skip(j0 - a + 1) =~= self.chars@.subrange(p as int, b as int));
        assert(after =~= split(self.chars@.subrange(p as int, b as int), ' '));
        assert(views(values@) =~= Seq::<Seq<char>>::empty());
        loop
            invariant
                self.wf(),
                a <= p <= b <= self.chars.len(),
                seg == self.chars@.subrange(a as int, b as int),
                split(seg, ' ').len() >= 1,
                modifier@ == split(seg, ' ')[0],
                after == split(seg, ' ').drop_first(),
                views(values@) + non_empty(split(self.chars@.subrange(p as int, b as int), ' '))
                    == non_empty(after),
            decreases b - p,
        {
            let ghost sub = self.chars@.subrange(p as int, b as int);
            let j = find_from(&self.chars, p, b, ' ');
            proof {
                assert forall|k: int| 0 <= k < j - p implies sub[k] != ' ' by {
                    assert(sub[k] == self.chars@[p + k]);
                }
                lemma_split_first(sub, ' ', j - p);
            }
            let ghost piece = sub.take(j - p);
            let ghost next = if j == b {
                Seq::<Seq<char>>::empty()
            } else {
                split(self.chars@.subrange(j + 1, b as int), ' ')
            };
            assert(j < b ==> sub.skip(j - p + 1) =~= self.chars@.subrange(j + 1, b as int));
            assert(j == b ==> piece =~= sub);
            assert(split(sub, ' ') =~= seq![piece] + next);
            assert((seq![piece] + next).drop_first() =~= next);
            let ghost before = views(values@);
            if j > p {
                let word = self.input.as_str().substring_char(p, j).to_owned();
                assert(word@ =~= piece);
                values.push(word);
                assert(views(values@) =~= before.push(piece));
                assert(views(values@) + non_empty(next) =~= before + non_empty(split(sub, ' ')));
            } else {
                assert(piece.len() == 0);
                assert(views(values@) + non_empty(next) =~= before + non_empty(split(sub, ' ')));
            }
            if j == b {
                assert(non_empty(next) =~= Seq::<Seq<char>>::empty());
                assert(views(values@) =~= non_empty(after));
                return Token { modifier, values };
            }
            p = j + 1;
        }
    }

    /// Hands out the next token, or `None` once the line is used up (and from then on).
    pub fn next(&mut self) -> (r: Option<Token>)
        requires
            old(self).wf(),
        ensures
            final(self).wf(),
            match r {
                Some(t) => old(self).remaining().len() > 0 && t@ == old(self).remaining()[0]
                    && final(self).remaining() == old(self).remaining().drop_first(),
                None => old(self).remaining().len() == 0 && final(self).remaining().len() == 0,
            },
    {
        loop
            invariant
                self.wf(),
                self.input == old(self).input,
                self.remaining() == old(self).remaining(),
            decreases self.chars.len() - self.cursor + if self.done {
                0int
            } else {
                1int
            },
        {
            if self.done {
                return None;
            }
            let n = self.chars.len();
            let a = self.cursor;
            let ghost rest = self.chars@.skip(a as int);
            let ghost segs = split(rest, '-');
            let j = find_from(&self.chars, a, n, '-');
            proof {
                assert forall|k: int| 0 <= k < j - a implies rest[k] != '-' by {
                    assert(rest[k] == self.chars@[a + k]);
                }
                lemma_split_first(rest, '-', j - a);
            }
            let ghost seg = rest.take(j - a);
            let ghost later = if j == n {
                Seq::<Seq<char>>::empty()
            } else {
                split(self.chars@.skip(j + 1), '-')
            };
            assert(j < n ==> rest.skip(j - a + 1) =~= self.chars@.skip(j + 1));
            assert(j == n ==> seg =~= rest);
            assert(segs =~= seq![seg] + later);
            assert((seq![seg] + later).drop_first() =~= later);
            assert(seg =~= self.chars@.subrange(a as int, j as int));
            if j == n {
                self.done = true;
            } else {
                self.cursor = j + 1;
            }
            assert(self.remaining() =~= non_empty(later).map_values(
                |s: Seq<char>| token_of(s),
            ));
            if j > a {
                let t = self.token_at(a, j);
                assert(old(self).remaining() =~= seq![token_of(seg)] + self.remaining());
                return Some(t);
            }
        }
    }
}

} // verus!
