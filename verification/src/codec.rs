//! The structured textual form of a dynamic value, used for the transcript.
//!
//! `encode` is the mathematical encoding; `encode_value` produces it
//! executably. The form is a single-line structured text: `null`, `true`,
//! `false`, decimal integers, quoted strings with `\"` and `\\` escapes,
//! `[..]` lists and `{"key":value,..}` dictionaries.

use vstd::prelude::*;

use crate::value::{items_model, pairs_model, ScriptValue, Val};

verus! {

broadcast use vstd::std_specs::vec::group_vec_axioms;

pub open spec fn is_digit_char(c: char) -> bool {
    c == '0' || c == '1' || c == '2' || c == '3' || c == '4' || c == '5' || c == '6' || c == '7'
        || c == '8' || c == '9'
}

/// The decimal digit character for `d`, which must lie in `0..10`.
pub open spec fn digit_char(d: int) -> char {
    if d == 0 {
        '0'
    } else if d == 1 {
        '1'
    } else if d == 2 {
        '2'
    } else if d == 3 {
        '3'
    } else if d == 4 {
        '4'
    } else if d == 5 {
        '5'
    } else if d == 6 {
        '6'
    } else if d == 7 {
        '7'
    } else if d == 8 {
        '8'
    } else {
        '9'
    }
}

/// The numeric value of a decimal digit character, `10` for any other char.
pub open spec fn digit_val(c: char) -> int {
    if c == '0' {
        0
    } else if c == '1' {
        1
    } else if c == '2' {
        2
    } else if c == '3' {
        3
    } else if c == '4' {
        4
    } else if c == '5' {
        5
    } else if c == '6' {
        6
    } else if c == '7' {
        7
    } else if c == '8' {
        8
    } else if c == '9' {
        9
    } else {
        10
    }
}

/// The decimal digit string of a natural number, most significant first.
pub open spec fn dec_digits(n: nat) -> Seq<char>
    decreases n,
{
    if n < 10 {
        seq![digit_char(n as int)]
    } else {
        dec_digits(n / 10) + seq![digit_char((n % 10) as int)]
    }
}

/// The decimal text of an integer, with a leading `-` when negative.
pub open spec fn int_chars(i: int) -> Seq<char> {
    if i < 0 {
        seq!['-'] + dec_digits((-i) as nat)
    } else {
        dec_digits(i as nat)
    }
}

/// The escaped form of one string character.
pub open spec fn esc_char(c: char) -> Seq<char> {
    if c == '"' || c == '\\' {
        seq!['\\', c]
    } else {
        seq![c]
    }
}

/// The escaped form of a whole string body.
pub open spec fn escape(s: Seq<char>) -> Seq<char>
    decreases s.len(),
{
    if s.len() == 0 {
        Seq::empty()
    } else {
        esc_char(s[0]) + escape(s.subrange(1, s.len() as int))
    }
}

/// The structured textual encoding of a model value.
pub open spec fn encode(v: Val) -> Seq<char>
    decreases v,
{
    match v {
        Val::Null => seq!['n', 'u', 'l', 'l'],
        Val::Bool(b) => if b {
            seq!['t', 'r', 'u', 'e']
        } else {
            seq!['f', 'a', 'l', 's', 'e']
        },
        Val::Int(i) => int_chars(i),
        Val::Str(s) => seq!['"'] + escape(s) + seq!['"'],
        Val::List(items) => seq!['['] + encode_items(items) + seq![']'],
        Val::Dict(pairs) => seq!['{'] + encode_pairs(pairs) + seq!['}'],
    }
}

/// The encoding of list elements, comma separated.
pub open spec fn encode_items(items: Seq<Val>) -> Seq<char>
    decreases items,
{
    if items.len() == 0 {
        Seq::empty()
    } else if items.len() == 1 {
        encode(items[0])
    } else {
        encode(items[0]) + seq![','] + encode_items(items.subrange(1, items.len() as int))
    }
}

/// The encoding of one dictionary entry: quoted key, colon, value.
pub open spec fn encode_pair(p: (Seq<char>, Val)) -> Seq<char>
    decreases p,
{
    seq!['"'] + escape(p.0) + seq!['"', ':'] + encode(p.1)
}

/// The encoding of dictionary entries, comma separated.
pub open spec fn encode_pairs(pairs: Seq<(Seq<char>, Val)>) -> Seq<char>
    decreases pairs,
{
    if pairs.len() == 0 {
        Seq::empty()
    } else if pairs.len() == 1 {
        encode_pair(pairs[0])
    } else {
        encode_pair(pairs[0]) + seq![','] + encode_pairs(pairs.subrange(1, pairs.len() as int))
    }
}

/// Relies on `String::push`: appends the given character to the string.
#[verifier::external_body]
fn push_char(out: &mut String, c: char)
    ensures
        final(out)@ == old(out)@.push(c),
{
    out.push(c);
}

/// Relies on `str::chars`: yields the characters of the string in order;
/// collecting them gives the string's characters as a vector.
#[verifier::external_body]
pub(crate) fn chars_of(s: &str) -> (r: Vec<char>)
    ensures
        r@ == s@,
{
    s.chars().collect()
}

/// Appends the decimal digits of `n`.
fn push_digits(n: u64, out: &mut String)
    ensures
        final(out)@ == old(out)@ + dec_digits(n as nat),
    decreases n,
{
    if n >= 10 {
        push_digits(n / 10, out);
    }
    let d = (n % 10) as u8;
    let c: char = if d == 0 {
        '0'
    } else if d == 1 {
        '1'
    } else if d == 2 {
        '2'
    } else if d == 3 {
        '3'
    } else if d == 4 {
        '4'
    } else if d == 5 {
        '5'
    } else if d == 6 {
        '6'
    } else if d == 7 {
        '7'
    } else if d == 8 {
        '8'
    } else {
        '9'
    };
    proof {
        assert(c == digit_char((n % 10) as int));
        if n < 10 {
            assert(dec_digits(n as nat) == seq![digit_char(n as int)]);
        }
    }
    push_char(out, c);
    proof {
        if n < 10 {
            assert(final(out)@ =~= old(out)@ + dec_digits(n as nat));
        } else {
            assert(final(out)@ =~= old(out)@ + dec_digits(n as nat));
        }
    }
}

/// Appends the decimal text of `i`, with a `-` sign when negative.
fn push_int(i: i64, out: &mut String)
    ensures
        final(out)@ == old(out)@ + int_chars(i as int),
{
    if i < 0 {
        push_char(out, '-');
        let m: u64 = (-(i as i128)) as u64;
        proof {
            assert(m as nat == (-(i as int)) as nat);
        }
        push_digits(m, out);
        proof {
            assert(final(out)@ =~= old(out)@ + int_chars(i as int));
        }
    } else {
        push_digits(i as u64, out);
    }
}

/// Appends the escaped form of the string characters from `j` on.
fn push_escaped_from(cs: &Vec<char>, j: usize, out: &mut String)
    requires
        j <= cs@.len(),
    ensures
        final(out)@ == old(out)@ + escape(cs@.subrange(j as int, cs@.len() as int)),
    decreases cs@.len() - j,
{
    if j == cs.len() {
        proof {
            assert(cs@.subrange(j as int, cs@.len() as int) =~= Seq::<char>::empty());
            assert(final(out)@ =~= old(out)@ + escape(cs@.subrange(j as int, cs@.len() as int)));
        }
        return ;
    }
    let c = cs[j];
    if c == '"' || c == '\\' {
        push_char(out, '\\');
    }
    push_char(out, c);
    push_escaped_from(cs, j + 1, out);
    proof {
        let rest = cs@.subrange(j as int, cs@.len() as int);
        assert(rest[0] == cs@[j as int]);
        assert(rest.subrange(1, rest.len() as int) =~= cs@.subrange(
            j as int + 1,
            cs@.len() as int,
        ));
        assert(final(out)@ =~= old(out)@ + escape(rest));
    }
}

/// Appends the encoding of `v`.
fn encode_into(v: &ScriptValue, out: &mut String)
    ensures
        final(out)@ == old(out)@ + encode(v@),
    decreases *v, 0nat,
{
    match v {
        ScriptValue::Null => {
            push_char(out, 'n');
            push_char(out, 'u');
            push_char(out, 'l');
            push_char(out, 'l');
            proof {
                assert(final(out)@ =~= old(out)@ + encode(v@));
            }
        },
        ScriptValue::Bool(b) => {
            if *b {
                push_char(out, 't');
                push_char(out, 'r');
                push_char(out, 'u');
                push_char(out, 'e');
            } else {
                push_char(out, 'f');
                push_char(out, 'a');
                push_char(out, 'l');
                push_char(out, 's');
                push_char(out, 'e');
            }
            proof {
                assert(final(out)@ =~= old(out)@ + encode(v@));
            }
        },
        ScriptValue::Int(i) => {
            push_int(*i, out);
        },
        ScriptValue::Str(s) => {
            push_char(out, '"');
            let cs = chars_of(s.as_str());
            push_escaped_from(&cs, 0, out);
            push_char(out, '"');
            proof {
                assert(cs@.subrange(0, cs@.len() as int) =~= s@);
                assert(final(out)@ =~= old(out)@ + encode(v@));
            }
        },
        ScriptValue::List(items) => {
            push_char(out, '[');
            encode_items_into(items, 0, out);
            push_char(out, ']');
            proof {
                assert(items_model(items@).subrange(0, items_model(items@).len() as int)
                    =~= items_model(items@));
                assert(final(out)@ =~= old(out)@ + encode(v@));
            }
        },
        ScriptValue::Dict(pairs) => {
            push_char(out, '{');
            encode_pairs_into(pairs, 0, out);
            push_char(out, '}');
            proof {
                assert(pairs_model(pairs@).subrange(0, pairs_model(pairs@).len() as int)
                    =~= pairs_model(pairs@));
                assert(final(out)@ =~= old(out)@ + encode(v@));
            }
        },
    }
}

/// Appends the encodings of the list elements from `j` on, comma separated.
fn encode_items_into(items: &Vec<ScriptValue>, j: usize, out: &mut String)
    requires
        j <= items@.len(),
    ensures
        final(out)@ == old(out)@ + encode_items(
            items_model(items@).subrange(j as int, items@.len() as int),
        ),
    decreases *items, items@.len() - j,
{
    let ghost suffix = items_model(items@).subrange(j as int, items@.len() as int);
    if j == items.len() {
        proof {
            assert(suffix =~= Seq::<Val>::empty());
            assert(final(out)@ =~= old(out)@ + encode_items(suffix));
        }
        return ;
    }
    proof {
        assert(decreases_to!(*items => items@));
        assert(decreases_to!(items@ => items@[j as int]));
        assert(suffix[0] == items@[j as int]@);
    }
    encode_into(&items[j], out);
    if j + 1 < items.len() {
        push_char(out, ',');
    }
    encode_items_into(items, j + 1, out);
    proof {
        assert(suffix.subrange(1, suffix.len() as int) =~= items_model(items@).subrange(
            j as int + 1,
            items@.len() as int,
        ));
        if j + 1 == items@.len() {
            assert(suffix.len() == 1);
            assert(final(out)@ =~= old(out)@ + encode_items(suffix));
        } else {
            assert(suffix.len() >= 2);
            assert(final(out)@ =~= old(out)@ + encode_items(suffix));
        }
    }
}

/// Appends the encodings of the dictionary entries from `j` on.
fn encode_pairs_into(pairs: &Vec<(String, ScriptValue)>, j: usize, out: &mut String)
    requires
        j <= pairs@.len(),
    ensures
        final(out)@ == old(out)@ + encode_pairs(
            pairs_model(pairs@).subrange(j as int, pairs@.len() as int),
        ),
    decreases *pairs, pairs@.len() - j,
{
    let ghost suffix = pairs_model(pairs@).subrange(j as int, pairs@.len() as int);
    if j == pairs.len() {
        proof {
            assert(suffix =~= Seq::<(Seq<char>, Val)>::empty());
            assert(final(out)@ =~= old(out)@ + encode_pairs(suffix));
        }
        return ;
    }
    proof {
        assert(decreases_to!(*pairs => pairs@));
        assert(decreases_to!(pairs@ => pairs@[j as int]));
        assert(decreases_to!(pairs@[j as int] => pairs@[j as int].1));
        assert(suffix[0] == crate::value::pair_model(pairs@[j as int]));
    }
    let (key, val) = &pairs[j];
    proof {
        assert(suffix[0].0 == key@);
        assert(suffix[0].1 == val@);
        assert(encode_pair(suffix[0]) == seq!['"'] + escape(key@) + seq!['"', ':'] + encode(
            val@,
        ));
    }
    push_char(out, '"');
    let cs = chars_of(key.as_str());
    push_escaped_from(&cs, 0, out);
    push_char(out, '"');
    push_char(out, ':');
    encode_into(val, out);
    if j + 1 < pairs.len() {
        push_char(out, ',');
    }
    encode_pairs_into(pairs, j + 1, out);
    proof {
        assert(cs@.subrange(0, cs@.len() as int) =~= key@);
        assert(suffix.subrange(1, suffix.len() as int) =~= pairs_model(pairs@).subrange(
            j as int + 1,
            pairs@.len() as int,
        ));
        if j + 1 == pairs@.len() {
            assert(suffix.len() == 1);
            assert(final(out)@ =~= old(out)@ + encode_pairs(suffix));
        } else {
            assert(suffix.len() >= 2);
            assert(final(out)@ =~= old(out)@ + encode_pairs(suffix));
        }
    }
}

/// The structured textual form of a value, exactly `encode` of its model.
pub fn encode_value(v: &ScriptValue) -> (r: String)
    ensures
        r@ == encode(v@),
{
    let mut out = String::new();
    encode_into(v, &mut out);
    proof {
        assert(out@ =~= encode(v@));
    }
    out
}

} // verus!
