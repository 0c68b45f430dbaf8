//! Character-level building blocks: splitting on a delimiter, trimming white space,
//! joining, and conversion between integers and their decimal text.
use vstd::prelude::*;

verus! {

/// The pieces of `s` between occurrences of `d`, as `str::split` yields them:
/// `n` delimiters give `n + 1` pieces, empty pieces included.
pub open spec fn split(s: Seq<char>, d: char) -> Seq<Seq<char>>
    decreases s.len(),
{
    if s.len() == 0 {
        seq![Seq::<char>::empty()]
    } else {
        let rest = split(s.drop_first(), d);
        if s[0] == d {
            seq![Seq::<char>::empty()] + rest
        } else {
            rest.update(0, seq![s[0]] + rest[0])
        }
    }
}

/// The pieces of `ps` that are not empty, in order.
pub open spec fn non_empty(ps: Seq<Seq<char>>) -> Seq<Seq<char>>
    decreases ps.len(),
{
    if ps.len() == 0 {
        Seq::empty()
    } else if ps[0].len() == 0 {
        non_empty(ps.drop_first())
    } else {
        seq![ps[0]] + non_empty(ps.drop_first())
    }
}

/// The pieces of `ps` written one after the other, with no separator.
pub open spec fn concat(ps: Seq<Seq<char>>) -> Seq<char>
    decreases ps.len(),
{
    if ps.len() == 0 {
        Seq::empty()
    } else {
        concat(ps.drop_last()) + ps.last()
    }
}

/// The views of a sequence of strings.
pub open spec fn views(v: Seq<String>) -> Seq<Seq<char>> {
    v.map_values(|s: String| s@)
}

/// White space as `char::is_whitespace` defines it (the Unicode `White_Space` property).
pub open spec fn is_space(c: char) -> bool {
    ('\u{9}' <= c && c <= '\u{d}') || c == ' ' || c == '\u{85}' || c == '\u{a0}' || c
        == '\u{1680}' || ('\u{2000}' <= c && c <= '\u{200a}') || c == '\u{2028}' || c
        == '\u{2029}' || c == '\u{202f}' || c == '\u{205f}' || c == '\u{3000}'
}

/// `s` without its leading white space.
pub open spec fn trim_start(s: Seq<char>) -> Seq<char>
    decreases s.len(),
{
    if s.len() > 0 && is_space(s[0]) {
        trim_start(s.drop_first())
    } else {
        s
    }
}

/// `s` without its trailing white space.
pub open spec fn trim_end(s: Seq<char>) -> Seq<char>
    decreases s.len(),
{
    if s.len() > 0 && is_space(s.last()) {
        trim_end(s.drop_last())
    } else {
        s
    }
}

/// `s` without white space at either end, as `str::trim` leaves it.
pub open spec fn trim(s: Seq<char>) -> Seq<char> {
    trim_end(trim_start(s))
}

/// Splitting always yields at least one piece.
pub proof fn lemma_split_len(s: Seq<char>, d: char)
    ensures
        split(s, d).len() >= 1,
    decreases s.len(),
{
    if s.len() > 0 {
        lemma_split_len(s.drop_first(), d);
    }
}

/// When `s[..j]` holds no `d`, the first piece of `s` is `s[..j]`; if `s[j]` is `d`, the
/// pieces that follow are those of `s[j + 1..]`, and if `j` is the end there are none.
pub proof fn lemma_split_first(s: Seq<char>, d: char, j: int)
    requires
        0 <= j <= s.len(),
        forall|k: int| 0 <= k < j ==> s[k] != d,
        j < s.len() ==> s[j] == d,
    ensures
        j == s.len() ==> split(s, d) == seq![s],
        j < s.len() ==> split(s, d) == seq![s.take(j)] + split(s.skip(j + 1), d),
    decreases j,
{
    if j == 0 {
        if s.len() == 0 {
            assert(s =~= Seq::<char>::empty());
        } else {
            assert(s.skip(1) =~= s.drop_first());
            assert(s.take(0) =~= Seq::<char>::empty());
            assert(split(s, d) =~= seq![s.take(0)] + split(s.skip(1), d));
        }
    } else {
        let t = s.drop_first();
        lemma_split_first(t, d, j - 1);
        lemma_split_len(t, d);
        if j == s.len() {
            assert(seq![s[0]] + t =~= s);
            assert(split(s, d) =~= seq![s]);
        } else {
            assert(t.skip(j) =~= s.skip(j + 1));
            assert(seq![s[0]] + t.take(j - 1) =~= s.take(j));
            assert(split(s, d) =~= seq![s.take(j)] + split(s.skip(j + 1), d));
        }
    }
}

/// The first index at or after `from` and before `end` where `d` stands, or `end`.
pub fn find_from(s: &Vec<char>, from: usize, end: usize, d: char) -> (j: usize)
    requires
        from <= end <= s.len(),
    ensures
        from <= j <= end,
        forall|k: int| from <= k < j ==> s@[k] != d,
        j < end ==> s@[j as int] == d,
{
    let mut j = from;
    while j < end && s[j] != d
        invariant
            from <= j <= end <= s.len(),
            forall|k: int| from <= k < j ==> s@[k] != d,
        decreases end - j,
    {
        j = j + 1;
    }
    j
}

/// Copies the characters of `s` into a vector.
pub fn chars_of(s: &str) -> (r: Vec<char>)
    ensures
        r@ == s@,
{
    let mut r: Vec<char> = Vec::new();
    for c in it: s.chars()
        invariant
            r@ == it.seq().take(it.index() as int),
    {
        r.push(c);
    }
    r
}

/// The pieces of `ps` with `sep` between each two of them.
pub open spec fn join_with(ps: Seq<Seq<char>>, sep: char) -> Seq<char>
    decreases ps.len(),
{
    if ps.len() == 0 {
        Seq::empty()
    } else if ps.len() == 1 {
        ps[0]
    } else {
        join_with(ps.drop_last(), sep).push(sep) + ps.last()
    }
}

/// Splits `s` at each `d`, as `str::split` does.
pub fn split_str(s: &str, d: char) -> (r: Vec<String>)
    ensures
        views(r@) == split(s@, d),
{
    let chars = chars_of(s);
    let n = chars.len();
    let mut r: Vec<String> = Vec::new();
    let mut p: usize = 0;
    assert(chars@.skip(0) =~= chars@);
    assert(views(r@) + split(chars@.skip(0), d) =~= split(s@, d));
    loop
        invariant
            p <= n == chars.len(),
            chars@ == s@,
            views(r@) + split(chars@.skip(p as int), d) == split(s@, d),
        decreases n - p,
    {
        let j = find_from(&chars, p, n, d);
        let ghost rest = chars@.skip(p as int);
        proof {
            assert forall|k: int| 0 <= k < j - p implies rest[k] != d by {
                assert(rest[k] == chars@[p + k]);
            }
            lemma_split_first(rest, d, j - p);
        }
        let piece = s.substring_char(p, j).to_owned();
        assert(piece@ =~= rest.take(j - p));
        let ghost before = views(r@);
        r.push(piece);
        assert(views(r@) =~= before.push(piece@));
        if j == n {
            assert(views(r@) =~= before + split(rest, d));
            return r;
        }
        assert(rest.skip(j - p + 1) =~= chars@.skip(j + 1));
        assert(views(r@) + split(chars@.skip(j + 1), d) =~= before + split(rest, d));
        p = j + 1;
    }
}

/// The strings of `v` written one after the other.
pub fn concat_strings(v: &Vec<String>) -> (r: String)
    ensures
        r@ == concat(views(v@)),
{
    let mut r = String::new();
    let mut i: usize = 0;
    while i < v.len()
        invariant
            i <= v.len(),
            r@ == concat(views(v@).take(i as int)),
        decreases v.len() - i,
    {
        assert(views(v@).take(i + 1).drop_last() =~= views(v@).take(i as int));
        r.append(v[i].as_str());
        i = i + 1;
    }
    assert(views(v@).take(v.len() as int) =~= views(v@));
    r
}

/// The strings of `v` with `sep` between each two of them.
pub fn join_strings(v: &Vec<String>, sep: &str) -> (r: String)
    requires
        sep@.len() == 1,
    ensures
        r@ == join_with(views(v@), sep@[0]),
{
    let mut r = String::new();
    let mut i: usize = 0;
    while i < v.len()
        invariant
            i <= v.len(),
            sep@.len() == 1,
            r@ == join_with(views(v@).take(i as int), sep@[0]),
        decreases v.len() - i,
    {
        assert(views(v@).take(i + 1).drop_last() =~= views(v@).take(i as int));
        if i > 0 {
            r.append(sep);
        }
        r.append(v[i].as_str());
        assert(sep@ =~= seq![sep@[0]]);
        assert(r@ =~= join_with(views(v@).take(i + 1), sep@[0]));
        i = i + 1;
    }
    assert(views(v@).take(v.len() as int) =~= views(v@));
    r
}

/// Whether `c` is white space, as `char::is_whitespace` decides it.
pub fn is_space_char(c: char) -> (r: bool)
    ensures
        r == is_space(c),
{
    ('\u{9}' <= c && c <= '\u{d}') || c == ' ' || c == '\u{85}' || c == '\u{a0}' || c
        == '\u{1680}' || ('\u{2000}' <= c && c <= '\u{200a}') || c == '\u{2028}' || c
        == '\u{2029}' || c == '\u{202f}' || c == '\u{205f}' || c == '\u{3000}'
}

/// `s` without white space at either end.
pub fn trim_str(s: &str) -> (r: String)
    ensures
        r@ == trim(s@),
{
    let chars = chars_of(s);
    let n = chars.len();
    let mut a: usize = 0;
    assert(chars@.subrange(0, n as int) =~= s@);
    while a < n && is_space_char(chars[a])
        invariant
            a <= n == chars.len(),
            chars@ == s@,
            trim_start(s@) == trim_start(chars@.subrange(a as int, n as int)),
        decreases n - a,
    {
        assert(chars@.subrange(a as int, n as int).drop_first() =~= chars@.subrange(
            a + 1,
            n as int,
        ));
        a = a + 1;
    }
    let ghost front = chars@.subrange(a as int, n as int);
    assert(trim_start(s@) == front);
    let mut b: usize = n;
    while b > a && is_space_char(chars[b - 1])
        invariant
            a <= b <= n == chars.len(),
            chars@ == s@,
            trim_start(s@) == front,
            front == chars@.subrange(a as int, n as int),
            trim_end(front) == trim_end(chars@.subrange(a as int, b as int)),
        decreases b - a,
    {
        assert(chars@.subrange(a as int, b as int).drop_last() =~= chars@.subrange(
            a as int,
            b - 1,
        ));
        b = b - 1;
    }
    s.substring_char(a, b).to_owned()
}

/// Joining at least two pieces writes the first, the separator, then the others joined.
pub proof fn lemma_join_with_front(ps: Seq<Seq<char>>, sep: char)
    requires
        ps.len() >= 2,
    ensures
        join_with(ps, sep) == ps[0].push(sep) + join_with(ps.drop_first(), sep),
    decreases ps.len(),
{
    let rest = ps.drop_first();
    if ps.len() == 2 {
        assert(ps.drop_last() =~= seq![ps[0]]);
        assert(rest =~= seq![ps[1]]);
        assert(join_with(ps.drop_last(), sep) == ps[0]);
        assert(join_with(rest, sep) == ps[1]);
    } else {
        lemma_join_with_front(ps.drop_last(), sep);
        assert(ps.drop_last().drop_first() =~= rest.drop_last());
        assert(join_with(ps, sep) =~= ps[0].push(sep) + join_with(rest, sep));
    }
}

/// Splitting pieces joined by `d` gives them back, when none of them holds `d`.
pub proof fn lemma_split_join(ps: Seq<Seq<char>>, d: char)
    requires
        ps.len() >= 1,
        forall|i: int| 0 <= i < ps.len() ==> !(#[trigger] ps[i]).contains(d),
    ensures
        split(join_with(ps, d), d) == ps,
    decreases ps.len(),
{
    if ps.len() == 1 {
        let p = ps[0];
        assert forall|k: int| 0 <= k < p.len() implies p[k] != d by {
            if p[k] == d {
                assert(p.contains(d));
            }
        }
        lemma_split_first(p, d, p.len() as int);
        assert(seq![p] =~= ps);
    } else {
        let p = ps[0];
        let rest = ps.drop_first();
        lemma_join_with_front(ps, d);
        lemma_split_join(rest, d);
        let s = join_with(ps, d);
        assert forall|k: int| 0 <= k < p.len() implies s[k] != d by {
            assert(s[k] == p[k]);
            if p[k] == d {
                assert(p.contains(d));
            }
        }
        lemma_split_first(s, d, p.len() as int);
        assert(s.take(p.len() as int) =~= p);
        assert(s.skip(p.len() as int + 1) =~= join_with(rest, d));
        assert(seq![p] + rest =~= ps);
    }
}

} // verus!
