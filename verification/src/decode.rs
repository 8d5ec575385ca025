//! The parser for the structured textual form produced by `codec`, and the
//! proof that encoding round-trips: the text of any well-formed value
//! parses back to that value exactly.

use vstd::prelude::*;

use crate::codec::{
    dec_digits, digit_char, digit_val, encode, encode_items, encode_pair, encode_pairs, esc_char,
    escape, is_digit_char,
};
use crate::value::{items_model, pairs_model, wf, ScriptValue, Val};

verus! {

broadcast use vstd::std_specs::vec::group_vec_axioms;

/// Ten to the power `k`.
pub open spec fn pow10(k: nat) -> nat
    decreases k,
{
    if k == 0 {
        1
    } else {
        10 * pow10((k - 1) as nat)
    }
}

/// The value of a digit string, most significant first.
pub open spec fn digits_val(ds: Seq<char>) -> nat
    decreases ds.len(),
{
    if ds.len() == 0 {
        0
    } else {
        digits_val(ds.subrange(0, ds.len() - 1)) * 10 + digit_val(ds.last()) as nat
    }
}

/// Consume the maximal digit run from `i` on, folding its value onto `acc`.
pub open spec fn parse_digits(s: Seq<char>, i: int, acc: nat) -> (nat, int)
    decreases s.len() - i, 0int,
{
    if i < 0 || i >= s.len() || !is_digit_char(s[i]) {
        (acc, i)
    } else {
        parse_digits(s, i + 1, acc * 10 + digit_val(s[i]) as nat)
    }
}

/// Consume a string body up to and including its closing quote, undoing
/// the `\"` and `\\` escapes.
pub open spec fn parse_str_body(s: Seq<char>, i: int) -> Option<(Seq<char>, int)>
    decreases s.len() - i, 0int,
{
    if i < 0 || i >= s.len() {
        None
    } else if s[i] == '"' {
        Some((Seq::empty(), i + 1))
    } else if s[i] == '\\' {
        if i + 1 < s.len() && (s[i + 1] == '"' || s[i + 1] == '\\') {
            match parse_str_body(s, i + 2) {
                Some((rest, j)) => Some((seq![s[i + 1]] + rest, j)),
                None => None,
            }
        } else {
            None
        }
    } else {
        match parse_str_body(s, i + 1) {
            Some((rest, j)) => Some((seq![s[i]] + rest, j)),
            None => None,
        }
    }
}

/// Parse one value at position `i`.
pub open spec fn parse_val(s: Seq<char>, i: int) -> Option<(Val, int)>
    decreases s.len() - i, 1int,
{
    if i < 0 || i >= s.len() {
        None
    } else {
        let c = s[i];
        if c == 'n' {
            if s.len() - i >= 4 && s[i + 1] == 'u' && s[i + 2] == 'l' && s[i + 3] == 'l' {
                Some((Val::Null, i + 4))
            } else {
                None
            }
        } else if c == 't' {
            if s.len() - i >= 4 && s[i + 1] == 'r' && s[i + 2] == 'u' && s[i + 3] == 'e' {
                Some((Val::Bool(true), i + 4))
            } else {
                None
            }
        } else if c == 'f' {
            if s.len() - i >= 5 && s[i + 1] == 'a' && s[i + 2] == 'l' && s[i + 3] == 's' && s[i
                + 4] == 'e' {
                Some((Val::Bool(false), i + 5))
            } else {
                None
            }
        } else if c == '"' {
            match parse_str_body(s, i + 1) {
                Some((body, j)) => Some((Val::Str(body), j)),
                None => None,
            }
        } else if c == '-' {
            if i + 1 < s.len() && is_digit_char(s[i + 1]) {
                let (n, j) = parse_digits(s, i + 1, 0);
                if -(n as int) >= i64::MIN {
                    Some((Val::Int(-(n as int)), j))
                } else {
                    None
                }
            } else {
                None
            }
        } else if is_digit_char(c) {
            let (n, j) = parse_digits(s, i, 0);
            if n <= i64::MAX {
                Some((Val::Int(n as int), j))
            } else {
                None
            }
        } else if c == '[' {
            match parse_items(s, i + 1) {
                Some((items, j)) => Some((Val::List(items), j)),
                None => None,
            }
        } else if c == '{' {
            match parse_pairs(s, i + 1) {
                Some((pairs, j)) => Some((Val::Dict(pairs), j)),
                None => None,
            }
        } else {
            None
        }
    }
}

/// Parse list elements up to and including the closing bracket.
pub open spec fn parse_items(s: Seq<char>, i: int) -> Option<(Seq<Val>, int)>
    decreases s.len() - i, 2int,
{
    if i < 0 || i >= s.len() {
        None
    } else if s[i] == ']' {
        Some((Seq::empty(), i + 1))
    } else {
        match parse_val(s, i) {
            Some((v, j)) => {
                if j < i || j >= s.len() {
                    None
                } else if s[j] == ',' {
                    match parse_items(s, j + 1) {
                        Some((rest, k)) => Some((seq![v] + rest, k)),
                        None => None,
                    }
                } else if s[j] == ']' {
                    Some((seq![v], j + 1))
                } else {
                    None
                }
            },
            None => None,
        }
    }
}

/// Parse dictionary entries up to and including the closing brace.
pub open spec fn parse_pairs(s: Seq<char>, i: int) -> Option<(Seq<(Seq<char>, Val)>, int)>
    decreases s.len() - i, 2int,
{
    if i < 0 || i >= s.len() {
        None
    } else if s[i] == '}' {
        Some((Seq::empty(), i + 1))
    } else if s[i] == '"' {
        match parse_str_body(s, i + 1) {
            Some((key, j)) => {
                if j < i || j >= s.len() {
                    None
                } else if s[j] == ':' {
                    match parse_val(s, j + 1) {
                        Some((v, k)) => {
                            if k < i || k >= s.len() {
                                None
                            } else if s[k] == ',' {
                                match parse_pairs(s, k + 1) {
                                    Some((rest, l)) => Some((seq![(key, v)] + rest, l)),
                                    None => None,
                                }
                            } else if s[k] == '}' {
                                Some((seq![(key, v)], k + 1))
                            } else {
                                None
                            }
                        },
                        None => None,
                    }
                } else {
                    None
                }
            },
            None => None,
        }
    } else {
        None
    }
}

/// Parse a whole text as one value: the parse must consume every character.
pub open spec fn decode_spec(t: Seq<char>) -> Option<Val> {
    match parse_val(t, 0) {
        Some((v, j)) => if j == t.len() {
            Some(v)
        } else {
            None
        },
        None => None,
    }
}

/// Parse a whole result document: the `--- ` marker, one value, and the
/// terminating newline.
pub open spec fn decode_document_spec(t: Seq<char>) -> Option<Val> {
    if t.len() >= 5 && t[0] == '-' && t[1] == '-' && t[2] == '-' && t[3] == ' ' {
        match parse_val(t, 4) {
            Some((v, j)) => if j + 1 == t.len() && t[j] == '\n' {
                Some(v)
            } else {
                None
            },
            None => None,
        }
    } else {
        None
    }
}


/// `e` stands at position `i` of `s`: the character at offset `k` is `e[k]`.
proof fn lemma_char_at(s: Seq<char>, i: int, e: Seq<char>, k: int)
    requires
        0 <= i,
        i + e.len() <= s.len(),
        s.subrange(i, i + e.len() as int) == e,
        0 <= k < e.len(),
    ensures
        s[i + k] == e[k],
{
    assert(s.subrange(i, i + e.len() as int)[k] == s[i + k]);
}

/// `e` stands at position `i` of `s`: the piece `[a, b)` of `e` stands at
/// position `i + a`.
proof fn lemma_sub_sub(s: Seq<char>, i: int, e: Seq<char>, a: int, b: int)
    requires
        0 <= i,
        i + e.len() <= s.len(),
        s.subrange(i, i + e.len() as int) == e,
        0 <= a <= b <= e.len(),
    ensures
        s.subrange(i + a, i + b) == e.subrange(a, b),
{
    assert forall|k: int| 0 <= k < b - a implies s.subrange(i + a, i + b)[k] == e.subrange(
        a,
        b,
    )[k] by {
        assert(s.subrange(i + a, i + b)[k] == s[i + a + k]);
        lemma_char_at(s, i, e, a + k);
        assert(e.subrange(a, b)[k] == e[a + k]);
    }
    assert(s.subrange(i + a, i + b) =~= e.subrange(a, b));
}

/// The digit string of `n` is nonempty, all digits, and carries value `n`.
proof fn lemma_dec_digits_props(n: nat)
    ensures
        dec_digits(n).len() >= 1,
        forall|k: int| 0 <= k < dec_digits(n).len() ==> is_digit_char(#[trigger] dec_digits(n)[k]),
        digits_val(dec_digits(n)) == n,
    decreases n,
{
    if n < 10 {
        assert(dec_digits(n) == seq![digit_char(n as int)]);
        assert(digits_val(dec_digits(n)) == digits_val(dec_digits(n).subrange(0, 0)) * 10
            + digit_val(digit_char(n as int)));
        assert(dec_digits(n).subrange(0, 0) =~= Seq::<char>::empty());
    } else {
        lemma_dec_digits_props(n / 10);
        let prefix = dec_digits(n / 10);
        let whole = dec_digits(n);
        assert(whole == prefix + seq![digit_char((n % 10) as int)]);
        assert(whole.subrange(0, whole.len() - 1) =~= prefix);
        assert(digits_val(whole) == digits_val(prefix) * 10 + digit_val(
            digit_char((n % 10) as int),
        ));
        assert(digits_val(whole) == (n / 10) * 10 + n % 10);
    }
}

/// Peeling the leading digit off a digit string.
proof fn lemma_digits_val_front(ds: Seq<char>)
    requires
        ds.len() >= 1,
    ensures
        digits_val(ds) == digit_val(ds[0]) * pow10((ds.len() - 1) as nat) + digits_val(
            ds.subrange(1, ds.len() as int),
        ),
    decreases ds.len(),
{
    if ds.len() == 1 {
        assert(ds.subrange(0, 0) =~= Seq::<char>::empty());
        assert(ds.subrange(1, 1) =~= Seq::<char>::empty());
        assert(ds.last() == ds[0]);
    } else {
        let front = ds.subrange(0, ds.len() - 1);
        lemma_digits_val_front(front);
        let tail = ds.subrange(1, ds.len() as int);
        assert(front.subrange(1, front.len() as int) =~= tail.subrange(0, tail.len() - 1));
        assert(tail.last() == ds.last());
        assert(front[0] == ds[0]);
        let a = digit_val(ds[0]);
        let p = pow10((ds.len() - 2) as nat);
        let m = digits_val(front.subrange(1, front.len() as int));
        assert(digits_val(front) == a * p + m);
        assert(digits_val(ds) == digits_val(front) * 10 + digit_val(ds.last()) as nat);
        assert(digits_val(tail) == m * 10 + digit_val(ds.last()) as nat);
        assert(pow10((ds.len() - 1) as nat) == 10 * p);
        assert((a * p + m) * 10 == a * (10 * p) + m * 10) by (nonlinear_arith);
    }
}

/// A maximal digit run parses to its folded value, ending at the run's end.
proof fn lemma_parse_digits_run(s: Seq<char>, i: int, j: int, acc: nat)
    requires
        0 <= i <= j <= s.len(),
        forall|k: int| i <= k < j ==> is_digit_char(#[trigger] s[k]),
        j == s.len() || !is_digit_char(s[j]),
    ensures
        parse_digits(s, i, acc).0 == acc * pow10((j - i) as nat) + digits_val(s.subrange(i, j)),
        parse_digits(s, i, acc).1 == j,
    decreases j - i,
{
    if i == j {
        assert(s.subrange(i, j) =~= Seq::<char>::empty());
        assert(digits_val(s.subrange(i, j)) == 0);
        assert(pow10((j - i) as nat) == 1);
        assert(acc * pow10((j - i) as nat) == acc * 1);
        assert(parse_digits(s, i, acc).0 == acc * pow10((j - i) as nat) + digits_val(
            s.subrange(i, j),
        ));
    } else {
        assert(is_digit_char(s[i]));
        let d = digit_val(s[i]) as nat;
        lemma_parse_digits_run(s, i + 1, j, acc * 10 + d);
        let ds = s.subrange(i, j);
        lemma_digits_val_front(ds);
        assert(ds[0] == s[i]);
        assert(ds.subrange(1, ds.len() as int) =~= s.subrange(i + 1, j));
        let p = pow10((j - i - 1) as nat);
        assert(pow10((j - i) as nat) == 10 * p);
        assert((acc * 10 + d) * p == acc * (10 * p) + d * p) by (nonlinear_arith);
        assert(parse_digits(s, i, acc) == parse_digits(s, i + 1, acc * 10 + d));
        assert(digits_val(ds) == d * p + digits_val(s.subrange(i + 1, j)));
        assert(parse_digits(s, i + 1, acc * 10 + d).0 == (acc * 10 + d) * p + digits_val(
            s.subrange(i + 1, j),
        ));
        assert(acc * pow10((j - i) as nat) + digits_val(ds) == (acc * 10 + d) * p + digits_val(
            s.subrange(i + 1, j),
        ));
        assert(parse_digits(s, i, acc).0 == acc * pow10((j - i) as nat) + digits_val(
            s.subrange(i, j),
        ));
        assert(parse_digits(s, i, acc).1 == j);
    }
}

/// An escaped string body followed by a closing quote parses back to the
/// body, ending past the quote.
proof fn lemma_parse_str_body_escape(body: Seq<char>, s: Seq<char>, i: int)
    requires
        0 <= i,
        i + escape(body).len() + 1 <= s.len(),
        s.subrange(i, i + escape(body).len() + 1) == escape(body) + seq!['"'],
    ensures
        parse_str_body(s, i) == Some((body, i + escape(body).len() + 1)),
    decreases body.len(),
{
    let e = escape(body) + seq!['"'];
    if body.len() == 0 {
        assert(escape(body).len() == 0);
        assert(e[0] == '"');
        lemma_char_at(s, i, e, 0);
        assert(s[i] == '"');
    } else {
        let c = body[0];
        let rest = body.subrange(1, body.len() as int);
        assert(escape(body) == esc_char(c) + escape(rest));
        if c == '"' || c == '\\' {
            assert(esc_char(c) == seq!['\\', c]);
            assert(escape(body)[0] == '\\');
            assert(escape(body)[1] == c);
            assert(e[0] == '\\');
            assert(e[1] == c);
            lemma_char_at(s, i, e, 0);
            lemma_char_at(s, i, e, 1);
            lemma_sub_sub(s, i, e, 2, e.len() as int);
            assert(e.subrange(2, e.len() as int) =~= escape(rest) + seq!['"']);
            lemma_parse_str_body_escape(rest, s, i + 2);
            assert(seq![s[i + 1]] + rest =~= body);
        } else {
            assert(esc_char(c) == seq![c]);
            assert(escape(body)[0] == c);
            assert(e[0] == c);
            lemma_char_at(s, i, e, 0);
            lemma_sub_sub(s, i, e, 1, e.len() as int);
            assert(e.subrange(1, e.len() as int) =~= escape(rest) + seq!['"']);
            lemma_parse_str_body_escape(rest, s, i + 1);
            assert(seq![s[i]] + rest =~= body);
        }
    }
}

/// An encoding is nonempty and never begins with a separator or closer.
proof fn lemma_encode_first(v: Val)
    ensures
        encode(v).len() >= 1,
        encode(v)[0] != ']',
        encode(v)[0] != '}',
        encode(v)[0] != ',',
        encode(v)[0] != ':',
        encode(v)[0] != '\n',
    decreases v,
{
    match v {
        Val::Int(n) => {
            if n < 0 {
                lemma_dec_digits_props((-n) as nat);
                assert(encode(v)[0] == '-');
            } else {
                lemma_dec_digits_props(n as nat);
                assert(encode(v) == dec_digits(n as nat));
                assert(is_digit_char(encode(v)[0]));
            }
        },
        _ => {},
    }
}

/// Within `s`, an encoded value followed by a non-digit parses back to
/// that value, ending exactly past its encoding.
pub proof fn lemma_parse_encode(v: Val, s: Seq<char>, i: int)
    requires
        wf(v),
        0 <= i,
        i + encode(v).len() <= s.len(),
        s.subrange(i, i + encode(v).len() as int) == encode(v),
        i + encode(v).len() == s.len() || !is_digit_char(s[i + encode(v).len()]),
    ensures
        parse_val(s, i) == Some((v, i + encode(v).len() as int)),
    decreases v,
{
    let e = encode(v);
    let len = e.len() as int;
    lemma_encode_first(v);
    match v {
        Val::Null => {
            assert(e[0] == 'n' && e[1] == 'u' && e[2] == 'l' && e[3] == 'l');
            lemma_char_at(s, i, e, 0);
            lemma_char_at(s, i, e, 1);
            lemma_char_at(s, i, e, 2);
            lemma_char_at(s, i, e, 3);
        },
        Val::Bool(b) => {
            if b {
                assert(e[0] == 't' && e[1] == 'r' && e[2] == 'u' && e[3] == 'e');
                lemma_char_at(s, i, e, 0);
                lemma_char_at(s, i, e, 1);
                lemma_char_at(s, i, e, 2);
                lemma_char_at(s, i, e, 3);
            } else {
                assert(e[0] == 'f' && e[1] == 'a' && e[2] == 'l' && e[3] == 's' && e[4] == 'e');
                lemma_char_at(s, i, e, 0);
                lemma_char_at(s, i, e, 1);
                lemma_char_at(s, i, e, 2);
                lemma_char_at(s, i, e, 3);
                lemma_char_at(s, i, e, 4);
            }
        },
        Val::Int(n) => {
            if n >= 0 {
                let m = n as nat;
                lemma_dec_digits_props(m);
                assert(e == dec_digits(m));
                assert forall|k: int| i <= k < i + len implies is_digit_char(#[trigger] s[k]) by {
                    lemma_char_at(s, i, e, k - i);
                }
                lemma_char_at(s, i, e, 0);
                assert(is_digit_char(s[i]));
                lemma_parse_digits_run(s, i, i + len, 0);
                assert(s.subrange(i, i + len) == e);
                assert(parse_digits(s, i, 0) == (0 * pow10(len as nat) + digits_val(e), i + len));
                assert(parse_digits(s, i, 0) == (m, i + len));
            } else {
                let m = (-n) as nat;
                lemma_dec_digits_props(m);
                assert(e == seq!['-'] + dec_digits(m));
                assert(e[0] == '-');
                lemma_char_at(s, i, e, 0);
                assert forall|k: int| i + 1 <= k < i + len implies is_digit_char(
                    #[trigger] s[k],
                ) by {
                    lemma_char_at(s, i, e, k - i);
                    assert(e[k - i] == dec_digits(m)[k - i - 1]);
                }
                lemma_char_at(s, i, e, 1);
                assert(is_digit_char(s[i + 1]));
                lemma_parse_digits_run(s, i + 1, i + len, 0);
                lemma_sub_sub(s, i, e, 1, len);
                assert(e.subrange(1, len) =~= dec_digits(m));
                assert(parse_digits(s, i + 1, 0) == (0 * pow10((len - 1) as nat) + digits_val(
                    dec_digits(m),
                ), i + len));
                assert(parse_digits(s, i + 1, 0) == (m, i + len));
                assert(-(m as int) == n);
            }
        },
        Val::Str(body) => {
            assert(e == seq!['"'] + escape(body) + seq!['"']);
            assert(e[0] == '"');
            lemma_char_at(s, i, e, 0);
            lemma_sub_sub(s, i, e, 1, len);
            assert(e.subrange(1, len) =~= escape(body) + seq!['"']);
            lemma_parse_str_body_escape(body, s, i + 1);
        },
        Val::List(items) => {
            assert(e == seq!['['] + encode_items(items) + seq![']']);
            assert(e[0] == '[');
            lemma_char_at(s, i, e, 0);
            lemma_sub_sub(s, i, e, 1, len);
            assert(e.subrange(1, len) =~= encode_items(items) + seq![']']);
            assert(decreases_to!(v => items));
            lemma_parse_encode_items(items, s, i + 1);
        },
        Val::Dict(pairs) => {
            assert(e == seq!['{'] + encode_pairs(pairs) + seq!['}']);
            assert(e[0] == '{');
            lemma_char_at(s, i, e, 0);
            lemma_sub_sub(s, i, e, 1, len);
            assert(e.subrange(1, len) =~= encode_pairs(pairs) + seq!['}']);
            assert(decreases_to!(v => pairs));
            lemma_parse_encode_pairs(pairs, s, i + 1);
        },
    }
}

/// Encoded list elements followed by a closing bracket parse back to the
/// elements, ending past the bracket.
proof fn lemma_parse_encode_items(items: Seq<Val>, s: Seq<char>, i: int)
    requires
        forall|k: int| 0 <= k < items.len() ==> wf(#[trigger] items[k]),
        0 <= i,
        i + encode_items(items).len() + 1 <= s.len(),
        s.subrange(i, i + encode_items(items).len() + 1) == encode_items(items) + seq![']'],
    ensures
        parse_items(s, i) == Some((items, i + encode_items(items).len() + 1)),
    decreases items,
{
    let e = encode_items(items) + seq![']'];
    if items.len() == 0 {
        assert(e[0] == ']');
        lemma_char_at(s, i, e, 0);
        assert(items =~= Seq::<Val>::empty());
    } else {
        let head = items[0];
        let e0 = encode(head);
        lemma_encode_first(head);
        let rest = items.subrange(1, items.len() as int);
        if items.len() == 1 {
            assert(encode_items(items) == e0);
            assert(e[e0.len() as int] == ']');
        } else {
            assert(encode_items(items) == e0 + seq![','] + encode_items(rest));
            assert(encode_items(items)[e0.len() as int] == ',');
            assert(e[e0.len() as int] == ',');
        }
        assert(e[0] == e0[0]);
        lemma_char_at(s, i, e, 0);
        assert(s[i] != ']');
        let j = i + e0.len() as int;
        lemma_char_at(s, i, e, e0.len() as int);
        lemma_sub_sub(s, i, e, 0, e0.len() as int);
        assert(e.subrange(0, e0.len() as int) =~= e0);
        assert(decreases_to!(items => items[0]));
        assert(wf(items[0]));
        lemma_parse_encode(head, s, i);
        if items.len() == 1 {
            assert(s[j] == ']');
            assert(parse_items(s, i) == Some((seq![head], j + 1)));
            assert(seq![head] =~= items);
        } else {
            assert(s[j] == ',');
            assert forall|k: int| 0 <= k < rest.len() implies wf(#[trigger] rest[k]) by {
                assert(rest[k] == items[k + 1]);
            }
            lemma_sub_sub(s, i, e, e0.len() as int + 1, e.len() as int);
            assert(e.subrange(e0.len() as int + 1, e.len() as int) =~= encode_items(rest)
                + seq![']']);
            lemma_parse_encode_items(rest, s, j + 1);
            assert(parse_items(s, i) == Some((seq![head] + rest, i + e.len() as int)));
            assert(seq![head] + rest =~= items);
        }
    }
}

/// Encoded dictionary entries followed by a closing brace parse back to
/// the entries, ending past the brace.
proof fn lemma_parse_encode_pairs(pairs: Seq<(Seq<char>, Val)>, s: Seq<char>, i: int)
    requires
        forall|k: int| 0 <= k < pairs.len() ==> wf(#[trigger] pairs[k].1),
        0 <= i,
        i + encode_pairs(pairs).len() + 1 <= s.len(),
        s.subrange(i, i + encode_pairs(pairs).len() + 1) == encode_pairs(pairs) + seq!['}'],
    ensures
        parse_pairs(s, i) == Some((pairs, i + encode_pairs(pairs).len() + 1)),
    decreases pairs,
{
    let e = encode_pairs(pairs) + seq!['}'];
    if pairs.len() == 0 {
        assert(e[0] == '}');
        lemma_char_at(s, i, e, 0);
        assert(pairs =~= Seq::<(Seq<char>, Val)>::empty());
    } else {
        let head = pairs[0];
        let ep = encode_pair(head);
        let lk = escape(head.0).len() as int;
        let lv = encode(head.1).len() as int;
        assert(ep == seq!['"'] + escape(head.0) + seq!['"', ':'] + encode(head.1));
        assert(ep.len() == lk + lv + 3);
        let rest = pairs.subrange(1, pairs.len() as int);
        if pairs.len() == 1 {
            assert(encode_pairs(pairs) == ep);
            assert(e[ep.len() as int] == '}');
        } else {
            assert(encode_pairs(pairs) == ep + seq![','] + encode_pairs(rest));
            assert(encode_pairs(pairs)[ep.len() as int] == ',');
            assert(e[ep.len() as int] == ',');
        }
        assert(ep[0] == '"');
        assert(e[0] == ep[0]);
        lemma_char_at(s, i, e, 0);
        lemma_sub_sub(s, i, e, 1, lk + 2);
        assert(e.subrange(1, lk + 2) =~= escape(head.0) + seq!['"']);
        lemma_parse_str_body_escape(head.0, s, i + 1);
        let j = i + lk + 2;
        assert(e[lk + 2] == ':');
        lemma_char_at(s, i, e, lk + 2);
        assert(s[j] == ':');
        lemma_sub_sub(s, i, e, lk + 3, lk + 3 + lv);
        assert(e.subrange(lk + 3, lk + 3 + lv) =~= encode(head.1));
        let k0 = j + 1 + lv;
        lemma_char_at(s, i, e, ep.len() as int);
        assert(decreases_to!(pairs => pairs[0]));
        assert(decreases_to!(pairs[0] => pairs[0].1));
        assert(wf(pairs[0].1));
        lemma_parse_encode(head.1, s, j + 1);
        if pairs.len() == 1 {
            assert(s[k0] == '}');
            assert(parse_pairs(s, i) == Some((seq![(head.0, head.1)], k0 + 1)));
            assert(seq![(head.0, head.1)] =~= pairs);
        } else {
            assert(s[k0] == ',');
            assert forall|k: int| 0 <= k < rest.len() implies wf(#[trigger] rest[k].1) by {
                assert(rest[k] == pairs[k + 1]);
            }
            lemma_sub_sub(s, i, e, ep.len() as int + 1, e.len() as int);
            assert(e.subrange(ep.len() as int + 1, e.len() as int) =~= encode_pairs(rest)
                + seq!['}']);
            lemma_parse_encode_pairs(rest, s, k0 + 1);
            assert(parse_pairs(s, i) == Some((seq![(head.0, head.1)] + rest, i + e.len() as int)));
            assert(seq![(head.0, head.1)] + rest =~= pairs);
        }
    }
}

/// Law: encoding round-trips. The structured text of any well-formed value
/// parses back to exactly that value.
pub proof fn lemma_encode_round_trip(v: Val)
    requires
        wf(v),
    ensures
        decode_spec(encode(v)) == Some(v),
{
    let t = encode(v);
    assert(t.subrange(0, t.len() as int) =~= t);
    lemma_parse_encode(v, t, 0);
}

/// Relies on `String::from_iter`: collecting characters builds the string
/// holding exactly those characters in order.
#[verifier::external_body]
fn string_from_chars(cs: &Vec<char>) -> (r: String)
    ensures
        r@ == cs@,
{
    cs.iter().collect()
}

/// Whether `c` is a decimal digit, as `is_digit_char` says.
fn is_digit_exec(c: char) -> (r: bool)
    ensures
        r == is_digit_char(c),
{
    c == '0' || c == '1' || c == '2' || c == '3' || c == '4' || c == '5' || c == '6' || c == '7'
        || c == '8' || c == '9'
}

/// The numeric value of a digit character.
fn digit_val_exec(c: char) -> (r: u8)
    requires
        is_digit_char(c),
    ensures
        r as int == digit_val(c),
{
    if c == '0' {
        0
    } else if c == '1' {
        1
    } else if c == '2' {
        2
    } else if c == '3' {
        3
    } else if c == '4' {
        4
    } else if c == '5' {
        5
    } else if c == '6' {
        6
    } else if c == '7' {
        7
    } else if c == '8' {
        8
    } else {
        9
    }
}

/// Consume the maximal digit run from `start` on. `Some(m)` is the run's
/// exact value; `None` reports a value too large for any integer here.
fn parse_digits_exec(s: &Vec<char>, start: usize) -> (r: (Option<u64>, usize))
    requires
        start <= s@.len(),
    ensures
        r.1 as int == parse_digits(s@, start as int, 0).1,
        start <= r.1 <= s@.len(),
        match r.0 {
            Some(m) => parse_digits(s@, start as int, 0).0 == m as nat && m
                <= 0x8000_0000_0000_0000u64,
            None => parse_digits(s@, start as int, 0).0 > 0x8000_0000_0000_0000u64,
        },
{
    let mut j = start;
    let mut acc: u64 = 0;
    let ghost mut acc_true: nat = 0nat;
    let mut over = false;
    loop
        invariant
            start <= j <= s@.len(),
            parse_digits(s@, start as int, 0) == parse_digits(s@, j as int, acc_true),
            !over ==> acc_true == acc as nat && acc <= 0x8000_0000_0000_0000u64,
            over ==> acc_true > 0x8000_0000_0000_0000u64,
        decreases s@.len() - j,
    {
        if j >= s.len() || !is_digit_exec(s[j]) {
            proof {
                assert(parse_digits(s@, j as int, acc_true) == (acc_true, j as int));
            }
            if over {
                return (None, j);
            } else {
                return (Some(acc), j);
            }
        }
        let d = digit_val_exec(s[j]);
        proof {
            assert(parse_digits(s@, j as int, acc_true) == parse_digits(
                s@,
                j as int + 1,
                acc_true * 10 + digit_val(s@[j as int]) as nat,
            ));
            acc_true = acc_true * 10 + digit_val(s@[j as int]) as nat;
        }
        if !over {
            let wide: u128 = (acc as u128) * 10 + (d as u128);
            if wide > 0x8000_0000_0000_0000u128 {
                over = true;
            } else {
                acc = wide as u64;
            }
        }
        j = j + 1;
    }
}

/// What a parsed string-body prefix contributes to the whole parse.
spec fn str_cont(pre: Seq<char>, o: Option<(Seq<char>, int)>) -> Option<(Seq<char>, int)> {
    match o {
        Some((rest, j)) => Some((pre + rest, j)),
        None => None,
    }
}

/// Consume a string body as `parse_str_body` does.
fn parse_str_exec(s: &Vec<char>, i: usize) -> (r: Option<(Vec<char>, usize)>)
    requires
        i <= s@.len(),
    ensures
        match r {
            Some(p) => parse_str_body(s@, i as int) == Some((p.0@, p.1 as int)) && i <= p.1
                <= s@.len(),
            None => parse_str_body(s@, i as int) is None,
        },
{
    let mut acc: Vec<char> = Vec::new();
    let mut k = i;
    proof {
        assert(acc@ =~= Seq::<char>::empty());
    }
    loop
        invariant
            i <= k <= s@.len(),
            parse_str_body(s@, i as int) == str_cont(acc@, parse_str_body(s@, k as int)),
        decreases s@.len() - k,
    {
        if k >= s.len() {
            return None;
        }
        let c = s[k];
        if c == '"' {
            proof {
                assert(parse_str_body(s@, k as int) == Some(
                    (Seq::<char>::empty(), k as int + 1),
                ));
                assert(acc@ + Seq::<char>::empty() =~= acc@);
            }
            return Some((acc, k + 1));
        } else if c == '\\' {
            if k + 1 < s.len() && (s[k + 1] == '"' || s[k + 1] == '\\') {
                let ghost pre = acc@;
                let c2 = s[k + 1];
                acc.push(c2);
                proof {
                    assert(acc@ =~= pre + seq![c2]);
                    match parse_str_body(s@, k as int + 2) {
                        Some((rest, j)) => {
                            assert(parse_str_body(s@, k as int) == Some(
                                (seq![c2] + rest, j),
                            ));
                            assert(pre + (seq![c2] + rest) =~= (pre + seq![c2]) + rest);
                        },
                        None => {
                            assert(parse_str_body(s@, k as int) is None);
                        },
                    }
                }
                k = k + 2;
            } else {
                return None;
            }
        } else {
            let ghost pre = acc@;
            acc.push(c);
            proof {
                assert(acc@ =~= pre + seq![c]);
                match parse_str_body(s@, k as int + 1) {
                    Some((rest, j)) => {
                        assert(parse_str_body(s@, k as int) == Some((seq![c] + rest, j)));
                        assert(pre + (seq![c] + rest) =~= (pre + seq![c]) + rest);
                    },
                    None => {
                        assert(parse_str_body(s@, k as int) is None);
                    },
                }
            }
            k = k + 1;
        }
    }
}

/// Parse one value as `parse_val` does.
fn parse_val_exec(s: &Vec<char>, i: usize) -> (r: Option<(ScriptValue, usize)>)
    requires
        i <= s@.len(),
    ensures
        match r {
            Some(p) => parse_val(s@, i as int) == Some((p.0@, p.1 as int)) && i <= p.1 <= s@.len(),
            None => parse_val(s@, i as int) is None,
        },
    decreases s@.len() - i, 1int,
{
    if i >= s.len() {
        return None;
    }
    let c = s[i];
    if c == 'n' {
        if s.len() - i >= 4 && s[i + 1] == 'u' && s[i + 2] == 'l' && s[i + 3] == 'l' {
            Some((ScriptValue::Null, i + 4))
        } else {
            None
        }
    } else if c == 't' {
        if s.len() - i >= 4 && s[i + 1] == 'r' && s[i + 2] == 'u' && s[i + 3] == 'e' {
            Some((ScriptValue::Bool(true), i + 4))
        } else {
            None
        }
    } else if c == 'f' {
        if s.len() - i >= 5 && s[i + 1] == 'a' && s[i + 2] == 'l' && s[i + 3] == 's' && s[i + 4]
            == 'e' {
            Some((ScriptValue::Bool(false), i + 5))
        } else {
            None
        }
    } else if c == '"' {
        match parse_str_exec(s, i + 1) {
            Some((body, j)) => {
                let text = string_from_chars(&body);
                Some((ScriptValue::Str(text), j))
            },
            None => None,
        }
    } else if c == '-' {
        if i + 1 < s.len() && is_digit_exec(s[i + 1]) {
            let (m, j) = parse_digits_exec(s, i + 1);
            match m {
                Some(m) => {
                    let value = (-(m as i128)) as i64;
                    proof {
                        assert(value as int == -(parse_digits(s@, i as int + 1, 0).0 as int));
                    }
                    Some((ScriptValue::Int(value), j))
                },
                None => None,
            }
        } else {
            None
        }
    } else if is_digit_exec(c) {
        let (m, j) = parse_digits_exec(s, i);
        match m {
            Some(m) => {
                if m <= 0x7FFF_FFFF_FFFF_FFFFu64 {
                    Some((ScriptValue::Int(m as i64), j))
                } else {
                    None
                }
            },
            None => None,
        }
    } else if c == '[' {
        match parse_items_exec(s, i + 1) {
            Some((items, j)) => Some((ScriptValue::List(items), j)),
            None => None,
        }
    } else if c == '{' {
        match parse_pairs_exec(s, i + 1) {
            Some((pairs, j)) => Some((ScriptValue::Dict(pairs), j)),
            None => None,
        }
    } else {
        None
    }
}

/// Parse list elements as `parse_items` does.
fn parse_items_exec(s: &Vec<char>, i: usize) -> (r: Option<(Vec<ScriptValue>, usize)>)
    requires
        i <= s@.len(),
    ensures
        match r {
            Some(p) => parse_items(s@, i as int) == Some((items_model(p.0@), p.1 as int)) && i
                <= p.1 <= s@.len(),
            None => parse_items(s@, i as int) is None,
        },
    decreases s@.len() - i, 2int,
{
    if i >= s.len() {
        return None;
    }
    if s[i] == ']' {
        let items: Vec<ScriptValue> = Vec::new();
        proof {
            assert(items_model(items@) =~= Seq::<Val>::empty());
        }
        return Some((items, i + 1));
    }
    match parse_val_exec(s, i) {
        Some((v, j)) => {
            if j >= s.len() {
                None
            } else if s[j] == ',' {
                match parse_items_exec(s, j + 1) {
                    Some((mut rest, k)) => {
                        let ghost tail = rest@;
                        let ghost head = v@;
                        rest.insert(0, v);
                        proof {
                            assert forall|q: int| 0 <= q < rest@.len() implies items_model(
                                rest@,
                            )[q] == (seq![head] + items_model(tail))[q] by {
                                if q > 0 {
                                    assert(rest@[q] == tail[q - 1]);
                                }
                            }
                            assert(items_model(rest@) =~= seq![head] + items_model(tail));
                        }
                        Some((rest, k))
                    },
                    None => None,
                }
            } else if s[j] == ']' {
                let items = vec![v];
                proof {
                    assert(items_model(items@) =~= seq![items@[0]@]);
                }
                Some((items, j + 1))
            } else {
                None
            }
        },
        None => None,
    }
}

/// Parse dictionary entries as `parse_pairs` does.
fn parse_pairs_exec(s: &Vec<char>, i: usize) -> (r: Option<(Vec<(String, ScriptValue)>, usize)>)
    requires
        i <= s@.len(),
    ensures
        match r {
            Some(p) => parse_pairs(s@, i as int) == Some((pairs_model(p.0@), p.1 as int)) && i
                <= p.1 <= s@.len(),
            None => parse_pairs(s@, i as int) is None,
        },
    decreases s@.len() - i, 2int,
{
    if i >= s.len() {
        return None;
    }
    if s[i] == '}' {
        let pairs: Vec<(String, ScriptValue)> = Vec::new();
        proof {
            assert(pairs_model(pairs@) =~= Seq::<(Seq<char>, Val)>::empty());
        }
        return Some((pairs, i + 1));
    }
    if s[i] != '"' {
        return None;
    }
    match parse_str_exec(s, i + 1) {
        Some((key_chars, j)) => {
            if j >= s.len() {
                None
            } else if s[j] == ':' {
                match parse_val_exec(s, j + 1) {
                    Some((v, k)) => {
                        if k >= s.len() {
                            None
                        } else if s[k] == ',' {
                            match parse_pairs_exec(s, k + 1) {
                                Some((mut rest, l)) => {
                                    let ghost tail = rest@;
                                    let key = string_from_chars(&key_chars);
                                    let ghost entry = (key@, v@);
                                    rest.insert(0, (key, v));
                                    proof {
                                        assert forall|q: int| 0 <= q < rest@.len() implies
                                            pairs_model(rest@)[q] == (seq![entry] + pairs_model(
                                            tail,
                                        ))[q] by {
                                            if q > 0 {
                                                assert(rest@[q] == tail[q - 1]);
                                            }
                                        }
                                        assert(pairs_model(rest@) =~= seq![entry] + pairs_model(
                                            tail,
                                        ));
                                    }
                                    Some((rest, l))
                                },
                                None => None,
                            }
                        } else if s[k] == '}' {
                            let key = string_from_chars(&key_chars);
                            let pairs = vec![(key, v)];
                            proof {
                                assert(pairs_model(pairs@) =~= seq![
                                    (pairs@[0].0@, pairs@[0].1@),
                                ]);
                            }
                            Some((pairs, k + 1))
                        } else {
                            None
                        }
                    },
                    None => None,
                }
            } else {
                None
            }
        },
        None => None,
    }
}

/// Parse a whole text as one value, exactly as `decode_spec` says: the
/// parse must consume every character.
pub fn decode_value(text: &str) -> (r: Option<ScriptValue>)
    ensures
        match r {
            Some(w) => decode_spec(text@) == Some(w@),
            None => decode_spec(text@) is None,
        },
{
    let cs = crate::codec::chars_of(text);
    match parse_val_exec(&cs, 0) {
        Some((w, j)) => {
            if j == cs.len() {
                Some(w)
            } else {
                None
            }
        },
        None => None,
    }
}

/// Parse a whole result document, exactly as `decode_document_spec` says.
pub fn decode_document(text: &str) -> (r: Option<ScriptValue>)
    ensures
        match r {
            Some(w) => decode_document_spec(text@) == Some(w@),
            None => decode_document_spec(text@) is None,
        },
{
    let cs = crate::codec::chars_of(text);
    if cs.len() < 5 || cs[0] != '-' || cs[1] != '-' || cs[2] != '-' || cs[3] != ' ' {
        return None;
    }
    match parse_val_exec(&cs, 4) {
        Some((w, j)) => {
            if cs.len() - j == 1 && cs[j] == '\n' {
                Some(w)
            } else {
                None
            }
        },
        None => None,
    }
}

/// Law: the serialized result embedded in a transcript decodes back to an
/// equal value: the whole result document round-trips.
pub proof fn lemma_document_round_trip(v: Val)
    requires
        wf(v),
    ensures
        decode_document_spec(crate::dispatch::result_document(v)) == Some(v),
{
    reveal_strlit("--- ");
    reveal_strlit("\n");
    let t = crate::dispatch::result_document(v);
    lemma_encode_first(v);
    assert(t.len() == 4 + encode(v).len() + 1);
    assert(t[0] == '-' && t[1] == '-' && t[2] == '-' && t[3] == ' ');
    assert(t.subrange(4, 4 + encode(v).len() as int) =~= encode(v));
    assert(t[4 + encode(v).len() as int] == '\n');
    lemma_parse_encode(v, t, 4);
}

} // verus!
