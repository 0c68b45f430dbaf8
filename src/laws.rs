//! Properties that hold of every parse.
use vstd::prelude::*;
use crate::arg_map::{bind_token, flag_of};
use crate::binder::{bind_all, parse_spec};
use crate::error::Failure;
use crate::schema::{compile_from, compile_spec, schema_entry};
use crate::text::{concat, non_empty, split, trim, trim_end, trim_start};
use crate::tokens::tokens;
use crate::number::{decimal, digits_of, is_digit, lemma_decimal_reads_back, lemma_digits_of};
use crate::text::lemma_split_join;
use crate::value::{
    bool_reading, canonical, decimals, false_text, num_array_reading, number_reading,
    parsed_numbers, set_value, str_array_reading, true_text, Value,
};

verus! {

/// The value a holder has before any flag is bound: a switch off, a string or number absent,
/// an array empty.
pub open spec fn is_default(v: Value) -> bool {
    match v {
        Value::Bool(b) => !b,
        Value::Str(s) => s is None,
        Value::Number(n) => n is None,
        Value::StrArray(xs) => xs.len() == 0,
        Value::NumArray(ns) => ns.len() == 0,
    }
}

proof fn lemma_compile_defaults(toks: Seq<Seq<char>>, m: Map<char, Value>)
    requires
        forall|k: char| m.contains_key(k) ==> is_default(#[trigger] m[k]),
        compile_from(toks, m) is Ok,
    ensures
        forall|k: char|
            compile_from(toks, m)->Ok_0.contains_key(k) ==> is_default(
                #[trigger] compile_from(toks, m)->Ok_0[k],
            ),
    decreases toks.len(),
{
    if toks.len() > 0 {
        let e = schema_entry(trim(toks[0]))->Ok_0;
        let next = m.insert(e.0, e.1);
        assert forall|k: char| next.contains_key(k) implies is_default(#[trigger] next[k]) by {
            if k != e.0 {
                assert(m.contains_key(k));
            }
        }
        lemma_compile_defaults(toks.drop_first(), next);
    }
}

/// An empty input line yields no tokens.
pub proof fn lemma_no_tokens_in_empty_line()
    ensures
        tokens(Seq::<char>::empty()).len() == 0,
{
    let segs = split(Seq::<char>::empty(), '-');
    assert(segs =~= seq![Seq::<char>::empty()]);
    assert(segs.drop_first() =~= Seq::<Seq<char>>::empty());
    assert(non_empty(segs.drop_first()) =~= Seq::<Seq<char>>::empty());
}

/// Any schema that compiles parses an empty input line into its holders as declared, each
/// holding its default: switches off, strings and numbers absent, arrays empty.
pub proof fn law_empty_input_gives_defaults(schema: Seq<char>)
    requires
        compile_spec(schema) is Ok,
    ensures
        parse_spec(schema, Seq::empty()) == compile_spec(schema),
        forall|k: char|
            compile_spec(schema)->Ok_0.contains_key(k) ==> is_default(
                #[trigger] compile_spec(schema)->Ok_0[k],
            ),
{
    lemma_no_tokens_in_empty_line();
    lemma_compile_defaults(split(schema, ','), Map::empty());
}

/// An empty schema is refused as invalid, whatever the input.
pub proof fn law_empty_schema_is_invalid(input: Seq<char>)
    ensures
        parse_spec(Seq::empty(), input) == Err::<Map<char, Value>, Failure>(
            Failure::InvalidSchema,
        ),
{
    let toks = split(Seq::<char>::empty(), ',');
    assert(toks =~= seq![Seq::<char>::empty()]);
    assert(trim(toks[0]) =~= Seq::<char>::empty());
}

/// A schema token with an unknown type suffix is refused with that suffix, whatever the input.
pub proof fn law_unknown_suffix_is_refused(input: Seq<char>)
    ensures
        parse_spec(seq!['p', '!'], input) == Err::<Map<char, Value>, Failure>(
            Failure::UnsupportedArgType(seq!['!']),
        ),
{
    let s = seq!['p', '!'];
    let toks = split(s, ',');
    assert(split(s.drop_first(), ',') =~= seq![seq!['!']]) by {
        assert(s.drop_first().drop_first() =~= Seq::<char>::empty());
        assert(split(s.drop_first().drop_first(), ',') =~= seq![Seq::<char>::empty()]);
    }
    assert(seq![s[0]] + seq!['!'] =~= s);
    assert(toks =~= seq![s]);
    assert(trim_start(s) == s);
    assert(trim_end(s) == s);
    assert(trim(s) == s);
    assert(s.drop_first() =~= seq!['!']);
    assert(seq!['!'] != seq!['*']) by {
        assert(seq!['!'][0] != seq!['*'][0]);
    }
    assert(seq!['!'] != seq!['#']) by {
        assert(seq!['!'][0] != seq!['#'][0]);
    }
}

/// Binding two tokens is binding the first, then the second.
proof fn lemma_bind_two(
    m: Map<char, Value>,
    t1: (Seq<char>, Seq<Seq<char>>),
    t2: (Seq<char>, Seq<Seq<char>>),
)
    ensures
        bind_all(m, seq![t1, t2]) == match bind_token(m, t1) {
            Ok(m1) => bind_token(m1, t2),
            Err(f) => Err(f),
        },
{
    let toks = seq![t1, t2];
    assert(toks.drop_first() =~= seq![t2]);
    assert(toks.drop_first().drop_first() =~= Seq::<(Seq<char>, Seq<Seq<char>>)>::empty());
    if let Ok(m1) = bind_token(m, t1) {
        if let Ok(m2) = bind_token(m1, t2) {
            assert(bind_all(m2, toks.drop_first().drop_first()) == Ok::<Map<char, Value>, Failure>(m2));
        }
        assert(bind_all(m1, toks.drop_first()) == bind_token(m1, t2));
    }
}

/// Binding a string flag twice keeps the words of the second occurrence only.
pub proof fn law_string_rebinding_keeps_last(
    m: Map<char, Value>,
    k: char,
    first: Seq<Seq<char>>,
    second: Seq<Seq<char>>,
)
    requires
        m.contains_key(k),
        m[k] is Str,
    ensures
        bind_all(m, seq![(seq![k], first), (seq![k], second)]) == Ok::<
            Map<char, Value>,
            Failure,
        >(m.insert(k, Value::Str(Some(concat(second))))),
{
    lemma_bind_two(m, (seq![k], first), (seq![k], second));
    assert(seq![k].len() == 1 && seq![k][0] == k);
    let m1 = m.insert(k, Value::Str(Some(concat(first))));
    assert(bind_token(m, (seq![k], first)) == Ok::<Map<char, Value>, Failure>(m1));
    assert(m1.insert(k, Value::Str(Some(concat(second)))) =~= m.insert(
        k,
        Value::Str(Some(concat(second))),
    ));
}

/// Binding a number flag twice with integers keeps the second integer only.
pub proof fn law_number_rebinding_keeps_last(
    m: Map<char, Value>,
    k: char,
    first: Seq<Seq<char>>,
    second: Seq<Seq<char>>,
)
    requires
        m.contains_key(k),
        m[k] is Number,
        crate::number::isize_of(concat(first)) is Some,
        crate::number::isize_of(concat(second)) is Some,
    ensures
        bind_all(m, seq![(seq![k], first), (seq![k], second)]) == Ok::<
            Map<char, Value>,
            Failure,
        >(m.insert(k, Value::Number(crate::number::isize_of(concat(second))))),
{
    lemma_bind_two(m, (seq![k], first), (seq![k], second));
    assert(seq![k].len() == 1 && seq![k][0] == k);
    let m1 = m.insert(k, Value::Number(crate::number::isize_of(concat(first))));
    assert(bind_token(m, (seq![k], first)) == Ok::<Map<char, Value>, Failure>(m1));
    assert(m1.insert(k, Value::Number(crate::number::isize_of(concat(second)))) =~= m.insert(
        k,
        Value::Number(crate::number::isize_of(concat(second))),
    ));
}

/// Binding a string-array flag twice appends the words of both occurrences, in order.
pub proof fn law_string_array_rebinding_appends(
    m: Map<char, Value>,
    k: char,
    first: Seq<Seq<char>>,
    second: Seq<Seq<char>>,
)
    requires
        m.contains_key(k),
        m[k] is StrArray,
    ensures
        bind_all(m, seq![(seq![k], first), (seq![k], second)]) == Ok::<
            Map<char, Value>,
            Failure,
        >(m.insert(k, Value::StrArray(m[k]->StrArray_0 + first + second))),
{
    lemma_bind_two(m, (seq![k], first), (seq![k], second));
    assert(seq![k].len() == 1 && seq![k][0] == k);
    let xs = m[k]->StrArray_0;
    let m1 = m.insert(k, Value::StrArray(xs + first));
    assert(bind_token(m, (seq![k], first)) == Ok::<Map<char, Value>, Failure>(m1));
    assert(m1.insert(k, Value::StrArray(xs + first + second)) =~= m.insert(
        k,
        Value::StrArray(xs + first + second),
    ));
}

/// Binding a number-array flag twice appends the integers of both occurrences, in order.
pub proof fn law_number_array_rebinding_appends(
    m: Map<char, Value>,
    k: char,
    first: Seq<Seq<char>>,
    second: Seq<Seq<char>>,
)
    requires
        m.contains_key(k),
        m[k] is NumArray,
    ensures
        bind_all(m, seq![(seq![k], first), (seq![k], second)]) == Ok::<
            Map<char, Value>,
            Failure,
        >(
            m.insert(
                k,
                Value::NumArray(m[k]->NumArray_0 + parsed_numbers(first) + parsed_numbers(second)),
            ),
        ),
{
    lemma_bind_two(m, (seq![k], first), (seq![k], second));
    assert(seq![k].len() == 1 && seq![k][0] == k);
    let ns = m[k]->NumArray_0;
    let m1 = m.insert(k, Value::NumArray(ns + parsed_numbers(first)));
    assert(bind_token(m, (seq![k], first)) == Ok::<Map<char, Value>, Failure>(m1));
    assert(m1.insert(k, Value::NumArray(ns + parsed_numbers(first) + parsed_numbers(second)))
        =~= m.insert(k, Value::NumArray(ns + parsed_numbers(first) + parsed_numbers(second))));
}

/// A switch reads back as the boolean it holds, and a string holder as its string.
pub proof fn law_scalar_readings_give_back_the_value(b: bool, s: Seq<char>)
    ensures
        bool_reading(Value::Bool(b)) == Some(b),
        canonical(Value::Str(Some(s))) == Some(s),
{
    assert(true_text() != false_text()) by {
        assert(true_text().len() != false_text().len());
    }
}

/// A number holder reads back as the number it holds.
pub proof fn law_number_reading_gives_back_the_number(n: isize)
    ensures
        number_reading(Value::Number(Some(n))) == Some(n),
{
    lemma_decimal_reads_back(n);
}

/// A string array reads back as its elements, when none of them holds a `,`.
pub proof fn law_string_array_reading_gives_back_the_elements(xs: Seq<Seq<char>>)
    requires
        forall|i: int| 0 <= i < xs.len() ==> !(#[trigger] xs[i]).contains(','),
    ensures
        str_array_reading(Value::StrArray(xs)) == xs,
{
    if xs.len() > 0 {
        lemma_split_join(xs, ',');
    } else {
        assert(xs =~= Seq::<Seq<char>>::empty());
    }
}

proof fn lemma_decimal_has_no_comma(n: isize)
    ensures
        !decimal(n as int).contains(','),
{
    let s = decimal(n as int);
    if n < 0 {
        lemma_digits_of((-n) as nat);
        if s.contains(',') {
            let i = choose|i: int| 0 <= i < s.len() && s[i] == ',';
            assert(s[i] == digits_of((-n) as nat)[i - 1]);
        }
    } else {
        lemma_digits_of(n as nat);
        if s.contains(',') {
            let i = choose|i: int| 0 <= i < s.len() && s[i] == ',';
            assert(is_digit(s[i]));
        }
    }
}

proof fn lemma_parsed_decimals(ns: Seq<isize>)
    ensures
        parsed_numbers(decimals(ns)) == ns,
    decreases ns.len(),
{
    if ns.len() > 0 {
        lemma_parsed_decimals(ns.drop_last());
        assert(decimals(ns).drop_last() =~= decimals(ns.drop_last()));
        lemma_decimal_reads_back(ns.last());
        assert(ns.drop_last().push(ns.last()) =~= ns);
    } else {
        assert(decimals(ns) =~= Seq::<Seq<char>>::empty());
    }
}

/// A number array reads back as its elements.
pub proof fn law_number_array_reading_gives_back_the_elements(ns: Seq<isize>)
    ensures
        num_array_reading(Value::NumArray(ns)) == ns,
{
    let ds = decimals(ns);
    if ns.len() > 0 {
        assert forall|i: int| 0 <= i < ds.len() implies !(#[trigger] ds[i]).contains(',') by {
            lemma_decimal_has_no_comma(ns[i]);
        }
        lemma_split_join(ds, ',');
    } else {
        assert(ns =~= Seq::<isize>::empty());
    }
    lemma_parsed_decimals(ns);
}

/// Tokens for two different flags bind to the same holders in either order.
pub proof fn law_distinct_flags_bind_in_any_order(
    m: Map<char, Value>,
    t1: (Seq<char>, Seq<Seq<char>>),
    t2: (Seq<char>, Seq<Seq<char>>),
)
    requires
        flag_of(t1.0) is Some,
        flag_of(t2.0) is Some,
        flag_of(t1.0) != flag_of(t2.0),
        bind_all(m, seq![t1, t2]) is Ok,
    ensures
        bind_all(m, seq![t2, t1]) == bind_all(m, seq![t1, t2]),
{
    let k1 = flag_of(t1.0)->0;
    let k2 = flag_of(t2.0)->0;
    lemma_bind_two(m, t1, t2);
    lemma_bind_two(m, t2, t1);
    let m1 = bind_token(m, t1)->Ok_0;
    let v1 = set_value(m[k1], t1.1)->Ok_0;
    let v2 = set_value(m1[k2], t2.1)->Ok_0;
    assert(m1 == m.insert(k1, v1));
    assert(m1[k2] == m[k2]);
    let m2 = bind_token(m, t2)->Ok_0;
    assert(m2 == m.insert(k2, v2));
    assert(m2[k1] == m[k1]);
    assert(m.insert(k1, v1).insert(k2, v2) =~= m.insert(k2, v2).insert(k1, v1));
}

} // verus!
