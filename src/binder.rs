//! The entry point: compile the schema, then bind each token of the input in turn.
use vstd::prelude::*;
use crate::arg_map::{bind_token, ArgMap};
use crate::error::{Failure, ParseErr};
use crate::schema::{compile, compile_spec};
use crate::tokens::{tokens, TokensIterator};
use crate::value::Value;

verus! {

/// Binds the tokens `toks` to the holders `m` in order, stopping at the first failure.
pub open spec fn bind_all(m: Map<char, Value>, toks: Seq<(Seq<char>, Seq<Seq<char>>)>) -> Result<
    Map<char, Value>,
    Failure,
>
    decreases toks.len(),
{
    if toks.len() == 0 {
        Ok(m)
    } else {
        match bind_token(m, toks[0]) {
            Ok(next) => bind_all(next, toks.drop_first()),
            Err(f) => Err(f),
        }
    }
}

/// What parsing `input` against `schema` gives: the compiled holders with every token of the
/// input bound, or the first failure of either step.
pub open spec fn parse_spec(schema: Seq<char>, input: Seq<char>) -> Result<
    Map<char, Value>,
    Failure,
> {
    match compile_spec(schema) {
        Ok(m) => bind_all(m, tokens(input)),
        Err(f) => Err(f),
    }
}

/// Parses `input` against `schema` into a map from flag name to bound holder.
pub fn parse(schema: &str, input: &str) -> (r: Result<ArgMap, ParseErr>)
    ensures
        match parse_spec(schema@, input@) {
            Ok(m) => r is Ok && r->Ok_0.wf() && r->Ok_0@ == m,
            Err(f) => r is Err && r->Err_0@ == f,
        },
{
    let mut args = match compile(schema) {
        Ok(args) => args,
        Err(e) => {
            return Err(e);
        },
    };
    let mut iter = TokensIterator::from(input.to_owned());
    loop
        invariant
            iter.wf(),
            args.wf(),
            compile_spec(schema@) is Ok,
            bind_all(args@, iter.remaining()) == parse_spec(schema@, input@),
        decreases iter.remaining().len(),
    {
        match iter.next() {
            None => {
                return Ok(args);
            },
            Some(token) => {
                match args.bind(token) {
                    Ok(()) => {},
                    Err(e) => {
                        return Err(e);
                    },
                }
            },
        }
    }
}

} // verus!
