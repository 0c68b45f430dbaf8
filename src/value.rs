//! Typed value holders: what each flag kind accepts and how it reads back.
use vstd::prelude::*;
use crate::error::{Failure, ParseErr};
use crate::number::{decimal, decimal_string, isize_of, parse_isize};
use crate::text::{chars_of, concat, concat_strings, join_strings, join_with, split, split_str, views};

verus! {

/// The holder bound to one flag for one parse.
#[derive(Debug)]
pub enum Args {
    /// A switch; `false` until the flag is given.
    Bool(bool),
    /// A string; absent until the flag is given.
    Str(Option<String>),
    /// A signed integer; absent until the flag is given.
    Number(Option<isize>),
    /// Strings gathered over every occurrence of the flag.
    StrArray(Vec<String>),
    /// Integers gathered over every occurrence of the flag.
    NumArray(Vec<isize>),
}

/// What a holder holds, with texts as character sequences.
pub enum Value {
    Bool(bool),
    Str(Option<Seq<char>>),
    Number(Option<isize>),
    StrArray(Seq<Seq<char>>),
    NumArray(Seq<isize>),
}

impl View for Args {
    type V = Value;

    open spec fn view(&self) -> Value {
        match self {
            Args::Bool(b) => Value::Bool(*b),
            Args::Str(s) => Value::Str(
                match s {
                    Some(t) => Some(t@),
                    None => None,
                },
            ),
            Args::Number(n) => Value::Number(*n),
            Args::StrArray(v) => Value::StrArray(views(v@)),
            Args::NumArray(v) => Value::NumArray(v@),
        }
    }
}

/// `s` is `true` in any mix of upper and lower case.
pub open spec fn is_true_word(s: Seq<char>) -> bool {
    &&& s.len() == 4
    &&& (s[0] == 't' || s[0] == 'T')
    &&& (s[1] == 'r' || s[1] == 'R')
    &&& (s[2] == 'u' || s[2] == 'U')
    &&& (s[3] == 'e' || s[3] == 'E')
}

/// The integers that the texts of `ws` write, in order; texts that write none are left out.
pub open spec fn parsed_numbers(ws: Seq<Seq<char>>) -> Seq<isize>
    decreases ws.len(),
{
    if ws.len() == 0 {
        Seq::empty()
    } else {
        let before = parsed_numbers(ws.drop_last());
        match isize_of(ws.last()) {
            Some(n) => before.push(n),
            None => before,
        }
    }
}

/// The decimal texts of `ns`.
pub open spec fn decimals(ns: Seq<isize>) -> Seq<Seq<char>> {
    ns.map_values(|n: isize| decimal(n as int))
}

/// What binding the words `vals` to a holder holding `v` gives.
pub open spec fn set_value(v: Value, vals: Seq<Seq<char>>) -> Result<Value, Failure> {
    match v {
        Value::Bool(_) => Ok(Value::Bool(vals.len() == 0 || is_true_word(concat(vals)))),
        Value::Str(_) => Ok(Value::Str(Some(concat(vals)))),
        Value::Number(_) => match isize_of(concat(vals)) {
            Some(n) => Ok(Value::Number(Some(n))),
            None => Err(Failure::NumberFormatErr(concat(vals))),
        },
        Value::StrArray(xs) => Ok(Value::StrArray(xs + vals)),
        Value::NumArray(ns) => Ok(Value::NumArray(ns + parsed_numbers(vals))),
    }
}

pub open spec fn true_text() -> Seq<char> {
    seq!['t', 'r', 'u', 'e']
}

pub open spec fn false_text() -> Seq<char> {
    seq!['f', 'a', 'l', 's', 'e']
}

/// The canonical text of a holder: `true` or `false` for a switch, the string or the
/// decimal number if there is one, the elements joined by `,` for a non-empty array.
pub open spec fn canonical(v: Value) -> Option<Seq<char>> {
    match v {
        Value::Bool(b) => Some(
            if b {
                true_text()
            } else {
                false_text()
            },
        ),
        Value::Str(s) => s,
        Value::Number(n) => match n {
            Some(x) => Some(decimal(x as int)),
            None => None,
        },
        Value::StrArray(xs) => if xs.len() == 0 {
            None
        } else {
            Some(join_with(xs, ','))
        },
        Value::NumArray(ns) => if ns.len() == 0 {
            None
        } else {
            Some(join_with(decimals(ns), ','))
        },
    }
}

/// The canonical text read as a boolean (`true` or `false`, exactly).
pub open spec fn bool_reading(v: Value) -> Option<bool> {
    match canonical(v) {
        Some(s) => if s == true_text() {
            Some(true)
        } else if s == false_text() {
            Some(false)
        } else {
            None
        },
        None => None,
    }
}

/// The canonical text read as an integer.
pub open spec fn number_reading(v: Value) -> Option<isize> {
    match canonical(v) {
        Some(s) => isize_of(s),
        None => None,
    }
}

/// The canonical text split at each `,`; nothing where there is no text.
pub open spec fn str_array_reading(v: Value) -> Seq<Seq<char>> {
    match canonical(v) {
        Some(s) => split(s, ','),
        None => Seq::empty(),
    }
}

/// The pieces of the canonical text that are integers.
pub open spec fn num_array_reading(v: Value) -> Seq<isize> {
    parsed_numbers(str_array_reading(v))
}

/// Whether `s` is `true` in any mix of upper and lower case.
fn is_true_text(s: &str) -> (r: bool)
    ensures
        r == is_true_word(s@),
{
    let c = chars_of(s);
    c.len() == 4 && (c[0] == 't' || c[0] == 'T') && (c[1] == 'r' || c[1] == 'R') && (c[2]
        == 'u' || c[2] == 'U') && (c[3] == 'e' || c[3] == 'E')
}

/// The integer that `s` writes, where it writes an `isize`.
pub fn parse_number(s: &str) -> (r: Option<isize>)
    ensures
        r == isize_of(s@),
{
    let c = chars_of(s);
    let r = parse_isize(&c, 0, c.len());
    assert(c@.subrange(0, c@.len() as int) =~= s@);
    r
}

/// The integers that the strings of `ws` write, in order, skipping the others.
pub fn parse_numbers(ws: &Vec<String>) -> (r: Vec<isize>)
    ensures
        r@ == parsed_numbers(views(ws@)),
{
    let mut r: Vec<isize> = Vec::new();
    let mut i: usize = 0;
    while i < ws.len()
        invariant
            i <= ws.len(),
            r@ == parsed_numbers(views(ws@).take(i as int)),
        decreases ws.len() - i,
    {
        let ghost t = views(ws@).take(i + 1);
        assert(t.drop_last() =~= views(ws@).take(i as int));
        assert(t.last() == ws@[i as int]@);
        match parse_number(ws[i].as_str()) {
            Some(n) => r.push(n),
            None => {},
        }
        i = i + 1;
    }
    assert(views(ws@).take(ws.len() as int) =~= views(ws@));
    r
}

/// The decimal texts of `ns`.
fn decimal_strings(ns: &Vec<isize>) -> (r: Vec<String>)
    ensures
        views(r@) == decimals(ns@),
{
    let mut r: Vec<String> = Vec::new();
    let mut i: usize = 0;
    while i < ns.len()
        invariant
            i <= ns.len(),
            views(r@) == decimals(ns@).take(i as int),
        decreases ns.len() - i,
    {
        let ghost before = views(r@);
        r.push(decimal_string(ns[i]));
        assert(views(r@) =~= before.push(decimal(ns@[i as int] as int)));
        assert(views(r@) =~= decimals(ns@).take(i + 1));
        i = i + 1;
    }
    assert(decimals(ns@).take(ns.len() as int) =~= decimals(ns@));
    r
}

impl Args {
    /// Binds the words `values` of one occurrence of the flag. A switch turns on when no word
    /// follows or the words spell `true` in any case, and off otherwise; a string takes the
    /// words joined; a number takes the joined words as an integer, or fails and stays as it
    /// was; arrays append (a number array only the words that are integers).
    pub fn set(&mut self, values: Vec<String>) -> (r: Result<(), ParseErr>)
        ensures
            match set_value(old(self)@, views(values@)) {
                Ok(v) => r is Ok && final(self)@ == v,
                Err(e) => r is Err && r->Err_0@ == e && final(self)@ == old(self)@,
            },
    {
        match self {
            Args::Bool(b) => {
                if values.len() == 0 {
                    *b = true;
                } else {
                    let joined = concat_strings(&values);
                    *b = is_true_text(joined.as_str());
                }
                Ok(())
            },
            Args::Str(s) => {
                *s = Some(concat_strings(&values));
                Ok(())
            },
            Args::Number(n) => {
                let joined = concat_strings(&values);
                match parse_number(joined.as_str()) {
                    Some(x) => {
                        *n = Some(x);
                        Ok(())
                    },
                    None => Err(ParseErr::NumberFormatErr(joined)),
                }
            },
            Args::StrArray(xs) => {
                let ghost before = views(xs@);
                let mut more = values;
                xs.append(&mut more);
                assert(views(xs@) =~= before + views(values@));
                Ok(())
            },
            Args::NumArray(ns) => {
                let mut more = parse_numbers(&values);
                ns.append(&mut more);
                Ok(())
            },
        }
    }

    /// The canonical text of the holder.
    pub fn get(&self) -> (r: Option<String>)
        ensures
            match r {
                Some(s) => canonical(self@) == Some(s@),
                None => canonical(self@) is None,
            },
    {
        match self {
            Args::Bool(b) => {
                if *b {
                    let t = "true";
                    proof {
                        reveal_strlit("true");
                    }
                    assert(t@ =~= true_text());
                    Some(t.to_owned())
                } else {
                    let t = "false";
                    proof {
                        reveal_strlit("false");
                    }
                    assert(t@ =~= false_text());
                    Some(t.to_owned())
                }
            },
            Args::Str(s) => match s {
                Some(t) => Some(t.clone()),
                None => None,
            },
            Args::Number(n) => match n {
                Some(x) => Some(decimal_string(*x)),
                None => None,
            },
            Args::StrArray(xs) => {
                if xs.len() == 0 {
                    None
                } else {
                    Some(join_strings(xs, Self::comma()))
                }
            },
            Args::NumArray(ns) => {
                if ns.len() == 0 {
                    None
                } else {
                    let texts = decimal_strings(ns);
                    Some(join_strings(&texts, Self::comma()))
                }
            },
        }
    }

    fn comma() -> (r: &'static str)
        ensures
            r@ == seq![','],
    {
        let c = ",";
        proof {
            reveal_strlit(",");
        }
        assert(c@ =~= seq![',']);
        c
    }

    /// The canonical text read as a boolean.
    pub fn as_bool(&self) -> (r: Option<bool>)
        ensures
            r == bool_reading(self@),
    {
        match self.get() {
            Some(s) => {
                let t = "true";
                let f = "false";
                proof {
                    reveal_strlit("true");
                    reveal_strlit("false");
                }
                assert(t@ =~= true_text());
                assert(f@ =~= false_text());
                let owned_t = t.to_owned();
                let owned_f = f.to_owned();
                if s == owned_t {
                    Some(true)
                } else if s == owned_f {
                    Some(false)
                } else {
                    None
                }
            },
            None => None,
        }
    }

    /// The canonical text read as an integer.
    pub fn as_number(&self) -> (r: Option<isize>)
        ensures
            r == number_reading(self@),
    {
        match self.get() {
            Some(s) => parse_number(s.as_str()),
            None => None,
        }
    }

    /// The canonical text split at each `,`.
    pub fn as_str_array(&self) -> (r: Vec<String>)
        ensures
            views(r@) == str_array_reading(self@),
    {
        match self.get() {
            Some(s) => split_str(s.as_str(), ','),
            None => {
                let r: Vec<String> = Vec::new();
                assert(views(r@) =~= Seq::<Seq<char>>::empty());
                r
            },
        }
    }

    /// The pieces of the canonical text that are integers.
    pub fn as_num_array(&self) -> (r: Vec<isize>)
        ensures
            r@ == num_array_reading(self@),
    {
        let pieces = self.as_str_array();
        parse_numbers(&pieces)
    }
}

} // verus!
