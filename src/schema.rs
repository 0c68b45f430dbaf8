//! Compiles a schema such as `"d*,p#,l"` into empty holders, one per declared flag.
use vstd::prelude::*;
use crate::arg_map::ArgMap;
use crate::error::{Failure, ParseErr};
use crate::text::{chars_of, split, split_str, trim, trim_str, views};
use crate::value::{Args, Value};

verus! {

/// The flag and empty holder that one trimmed schema token declares: a lone character is a
/// switch; after the name, `*` is a string, `#` a number, `[*]` a string array and `[#]` a
/// number array.
pub open spec fn schema_entry(tok: Seq<char>) -> Result<(char, Value), Failure> {
    if tok.len() == 0 {
        Err(Failure::InvalidSchema)
    } else if tok.len() == 1 {
        Ok((tok[0], Value::Bool(false)))
    } else {
        let suffix = tok.drop_first();
        if suffix == seq!['*'] {
            Ok((tok[0], Value::Str(None)))
        } else if suffix == seq!['#'] {
            Ok((tok[0], Value::Number(None)))
        } else if suffix == seq!['[', '*', ']'] {
            Ok((tok[0], Value::StrArray(Seq::empty())))
        } else if suffix == seq!['[', '#', ']'] {
            Ok((tok[0], Value::NumArray(Seq::empty())))
        } else {
            Err(Failure::UnsupportedArgType(suffix))
        }
    }
}

/// Adds the entries of the raw schema tokens `toks`, trimmed, to `m` in order; the first
/// token that declares nothing fails the whole schema. A name declared twice keeps the later
/// holder.
pub open spec fn compile_from(toks: Seq<Seq<char>>, m: Map<char, Value>) -> Result<
    Map<char, Value>,
    Failure,
>
    decreases toks.len(),
{
    if toks.len() == 0 {
        Ok(m)
    } else {
        match schema_entry(trim(toks[0])) {
            Ok(e) => compile_from(toks.drop_first(), m.insert(e.0, e.1)),
            Err(f) => Err(f),
        }
    }
}

/// The holders that a schema declares: its `,`-separated tokens, each trimmed.
pub open spec fn compile_spec(schema: Seq<char>) -> Result<Map<char, Value>, Failure> {
    compile_from(split(schema, ','), Map::empty())
}

/// The flag and empty holder that one trimmed schema token declares.
pub fn token_to_kv(token: &str) -> (r: Result<(char, Args), ParseErr>)
    ensures
        match schema_entry(token@) {
            Ok(e) => r is Ok && r->Ok_0.0 == e.0 && r->Ok_0.1@ == e.1,
            Err(f) => r is Err && r->Err_0@ == f,
        },
{
    let c = chars_of(token);
    let n = c.len();
    if n == 0 {
        return Err(ParseErr::InvalidSchema);
    }
    let name = c[0];
    if n == 1 {
        return Ok((name, Args::Bool(false)));
    }
    let ghost suffix = token@.drop_first();
    let ghost star = seq!['*'];
    let ghost hash = seq!['#'];
    let ghost stars = seq!['[', '*', ']'];
    let ghost hashes = seq!['[', '#', ']'];
    assert(star.len() == 1 && star[0] == '*' && hash.len() == 1 && hash[0] == '#');
    assert(stars.len() == 3 && stars[0] == '[' && stars[1] == '*' && stars[2] == ']');
    assert(hashes.len() == 3 && hashes[0] == '[' && hashes[1] == '#' && hashes[2] == ']');
    assert(suffix.len() == n - 1);
    assert(forall|k: int| 0 <= k < suffix.len() ==> suffix[k] == c@[k + 1]);
    if n == 2 && c[1] == '*' {
        assert(suffix =~= star);
        return Ok((name, Args::Str(None)));
    }
    if n == 2 && c[1] == '#' {
        assert(suffix =~= hash);
        assert(suffix != star) by {
            assert(suffix[0] != star[0]);
        }
        return Ok((name, Args::Number(None)));
    }
    if n == 4 && c[1] == '[' && c[3] == ']' && (c[2] == '*' || c[2] == '#') {
        let v: Vec<String> = Vec::new();
        let w: Vec<isize> = Vec::new();
        if c[2] == '*' {
            assert(suffix =~= stars);
            assert(views(v@) =~= Seq::<Seq<char>>::empty());
            return Ok((name, Args::StrArray(v)));
        } else {
            assert(suffix =~= hashes);
            assert(suffix != stars) by {
                assert(suffix[1] != stars[1]);
            }
            assert(w@ =~= Seq::<isize>::empty());
            return Ok((name, Args::NumArray(w)));
        }
    }
    assert(suffix != star && suffix != hash) by {
        if n == 2 {
            assert(suffix[0] != star[0] && suffix[0] != hash[0]);
        }
    }
    assert(suffix != stars && suffix != hashes) by {
        if n == 4 {
            if suffix == stars {
                assert(suffix[0] == stars[0] && suffix[1] == stars[1] && suffix[2] == stars[2]);
            }
            if suffix == hashes {
                assert(suffix[0] == hashes[0] && suffix[1] == hashes[1] && suffix[2]
                    == hashes[2]);
            }
        }
    }
    let rest = token.substring_char(1, n).to_owned();
    assert(rest@ =~= suffix);
    Err(ParseErr::UnsupportedArgType(rest))
}

/// Compiles a schema into a map from each declared flag to its empty holder.
pub fn compile(schema: &str) -> (r: Result<ArgMap, ParseErr>)
    ensures
        match compile_spec(schema@) {
            Ok(m) => r is Ok && r->Ok_0.wf() && r->Ok_0@ == m,
            Err(f) => r is Err && r->Err_0@ == f,
        },
{
    let pieces = split_str(schema, ',');
    let mut map = ArgMap::new();
    let mut i: usize = 0;
    assert(views(pieces@).skip(0) =~= views(pieces@));
    while i < pieces.len()
        invariant
            i <= pieces.len(),
            map.wf(),
            views(pieces@) == split(schema@, ','),
            compile_from(views(pieces@).skip(i as int), map@) == compile_spec(schema@),
        decreases pieces.len() - i,
    {
        let ghost rest = views(pieces@).skip(i as int);
        assert(rest[0] == pieces@[i as int]@);
        assert(rest.drop_first() =~= views(pieces@).skip(i + 1));
        let token = trim_str(pieces[i].as_str());
        match token_to_kv(token.as_str()) {
            Ok(entry) => {
                let (name, holder) = entry;
                map.insert(name, holder);
            },
            Err(e) => {
                return Err(e);
            },
        }
        i = i + 1;
    }
    Ok(map)
}

} // verus!
