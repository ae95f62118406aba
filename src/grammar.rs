use vstd::prelude::*;
use crate::ir::{JsonValue, ParseError};

verus! {

/// Space, tab, newline and carriage return separate tokens.
pub open spec fn is_ws(c: char) -> bool {
    c == ' ' || c == '\t' || c == '\n' || c == '\r'
}

pub open spec fn is_digit(c: char) -> bool {
    '0' <= c <= '9'
}


/// Length of the longest run of characters satisfying `p` that starts at `i`.
pub open spec fn span(s: Seq<char>, i: int, p: spec_fn(char) -> bool) -> nat
    decreases s.len() - i,
{
    if 0 <= i < s.len() && p(s[i]) {
        1 + span(s, i + 1, p)
    } else {
        0
    }
}

pub open spec fn ws_class() -> spec_fn(char) -> bool {
    |c: char| is_ws(c)
}

pub open spec fn digit_class() -> spec_fn(char) -> bool {
    |c: char| is_digit(c)
}

pub open spec fn text_class() -> spec_fn(char) -> bool {
    |c: char| c != '"'
}

/// Number of whitespace characters starting at `i`.
pub open spec fn ws(s: Seq<char>, i: int) -> nat {
    span(s, i, ws_class())
}

/// Number of digits starting at `i`.
pub open spec fn digit_run(s: Seq<char>, i: int) -> nat {
    span(s, i, digit_class())
}

/// Number of characters other than a double quote starting at `i`.
pub open spec fn text_run(s: Seq<char>, i: int) -> nat {
    span(s, i, text_class())
}

/// Decimal value of a sequence of digits.
pub open spec fn digits_value(d: Seq<char>) -> nat
    decreases d.len(),
{
    if d.len() == 0 {
        0
    } else {
        digits_value(d.drop_last()) * 10 + (d.last() as nat - '0' as nat) as nat
    }
}

/// Whether the character `c` stands at position `i`.
pub open spec fn expect_char(s: Seq<char>, i: int, c: char) -> Result<(), ParseError> {
    if i < 0 || i >= s.len() {
        Err(ParseError::UnexpectedEndOfInput)
    } else if s[i] == c {
        Ok(())
    } else {
        Err(ParseError::UnexpectedToken { expected: c, found: s[i], position: i as usize })
    }
}

/// Object members with `key` bound to `v`: the earlier value of `key` is replaced in
/// place, a new key is appended.
pub open spec fn upsert(
    m: Seq<(Seq<char>, JsonValue)>,
    key: Seq<char>,
    v: JsonValue,
) -> Seq<(Seq<char>, JsonValue)> {
    if exists|j: int| 0 <= j < m.len() && (#[trigger] m[j]).0 == key {
        let j = choose|j: int| 0 <= j < m.len() && (#[trigger] m[j]).0 == key;
        m.update(j, (key, v))
    } else {
        m.push((key, v))
    }
}

pub open spec fn keys_distinct(m: Seq<(Seq<char>, JsonValue)>) -> bool {
    forall|a: int, b: int| 0 <= a < b < m.len() ==> (#[trigger] m[a]).0 != (#[trigger] m[b]).0
}

/// A quoted string at `i`: its content and the number of characters read, quotes
/// included.
pub open spec fn string_at(s: Seq<char>, i: int) -> Result<(Seq<char>, nat), ParseError> {
    match expect_char(s, i, '"') {
        Err(e) => Err(e),
        Ok(_) => {
            let n = text_run(s, i + 1);
            if i + 1 + n >= s.len() {
                Err(ParseError::UnexpectedEndOfInput)
            } else {
                Ok((s.subrange(i + 1, i + 1 + n), n + 2))
            }
        },
    }
}

/// A run of digits at `i`: its value and its length.
pub open spec fn number_at(s: Seq<char>, i: int) -> Result<(i64, nat), ParseError> {
    let n = digit_run(s, i);
    let v = digits_value(s.subrange(i, i + n));
    if n == 0 || v > i64::MAX {
        Err(ParseError::InvalidNumber)
    } else {
        Ok((v as i64, n))
    }
}

/// The characters of `w` from its index `k` on, read at `i + k`.
pub open spec fn word_at(s: Seq<char>, i: int, w: Seq<char>, k: int) -> Result<(), ParseError>
    decreases w.len() - k,
{
    if k < 0 || k >= w.len() {
        Ok(())
    } else {
        match expect_char(s, i + k, w[k]) {
            Err(e) => Err(e),
            Ok(_) => word_at(s, i, w, k + 1),
        }
    }
}

pub open spec fn keyword_at(s: Seq<char>, i: int, w: Seq<char>, v: JsonValue) -> Result<
    (JsonValue, nat),
    ParseError,
> {
    match word_at(s, i, w, 0) {
        Err(e) => Err(e),
        Ok(_) => Ok((v, w.len())),
    }
}

/// Adds `k` leading characters to a successful read.
pub open spec fn after(k: nat, r: Result<(JsonValue, nat), ParseError>) -> Result<
    (JsonValue, nat),
    ParseError,
> {
    match r {
        Ok((v, n)) => Ok((v, k + n)),
        Err(e) => Err(e),
    }
}

/// A value at `i`, leading whitespace included: the value and the number of characters
/// read. A character that starts no value reads as `Null`, reading nothing.
pub open spec fn value_at(s: Seq<char>, i: int) -> Result<(JsonValue, nat), ParseError>
    decreases s.len() - i, 2int,
{
    let w = ws(s, i);
    let j = i + w;
    if 0 <= j < s.len() {
        let c = s[j];
        if c == '{' {
            after(w, object_at(s, j))
        } else if c == '[' {
            after(w, array_at(s, j))
        } else if c == '"' {
            match string_at(s, j) {
                Ok((t, n)) => Ok((JsonValue::Str(t), w + n)),
                Err(e) => Err(e),
            }
        } else if is_digit(c) {
            match number_at(s, j) {
                Ok((x, n)) => Ok((JsonValue::Number(x), w + n)),
                Err(e) => Err(e),
            }
        } else if c == 't' {
            after(w, keyword_at(s, j, seq!['t', 'r', 'u', 'e'], JsonValue::Bool(true)))
        } else if c == 'f' {
            after(w, keyword_at(s, j, seq!['f', 'a', 'l', 's', 'e'], JsonValue::Bool(false)))
        } else if c == 'n' {
            after(w, keyword_at(s, j, seq!['n', 'u', 'l', 'l'], JsonValue::Null))
        } else {
            Ok((JsonValue::Null, w))
        }
    } else {
        Ok((JsonValue::Null, w))
    }
}

/// An object at `i`, from its `{` to its `}`.
pub open spec fn object_at(s: Seq<char>, i: int) -> Result<(JsonValue, nat), ParseError>
    decreases s.len() - i, 1int,
{
    match expect_char(s, i, '{') {
        Err(e) => Err(e),
        Ok(_) => {
            let a = i + 1 + ws(s, i + 1);
            if a < s.len() && s[a] == '}' {
                Ok((JsonValue::Object(seq![]), (a + 1 - i) as nat))
            } else {
                match members_at(s, i + 1, seq![]) {
                    Err(e) => Err(e),
                    Ok((m, e)) => match expect_char(s, e, '}') {
                        Err(err) => Err(err),
                        Ok(_) => Ok((JsonValue::Object(m), (e + 1 - i) as nat)),
                    },
                }
            }
        },
    }
}

/// Object members from `k` on, added to `acc`: the members and the position where the
/// closing `}` is due.
pub open spec fn members_at(s: Seq<char>, k: int, acc: Seq<(Seq<char>, JsonValue)>) -> Result<
    (Seq<(Seq<char>, JsonValue)>, int),
    ParseError,
>
    decreases s.len() - k, 3int,
{
    let a = k + ws(s, k);
    if a < 0 || a >= s.len() {
        Err(ParseError::UnexpectedEndOfInput)
    } else if s[a] != '"' {
        Err(ParseError::InvalidKey)
    } else {
        match string_at(s, a) {
            Err(e) => Err(e),
            Ok((key, n)) => {
                let b = a + n;
                let c = b + ws(s, b);
                match expect_char(s, c, ':') {
                    Err(e) => Err(e),
                    Ok(_) => match value_at(s, c + 1) {
                        Err(e) => Err(e),
                        Ok((v, m)) => {
                            let d = c + 1 + m;
                            let e = d + ws(s, d);
                            let acc2 = upsert(acc, key, v);
                            if e < s.len() && s[e] == ',' {
                                members_at(s, e + 1, acc2)
                            } else {
                                Ok((acc2, e))
                            }
                        },
                    },
                }
            },
        }
    }
}

/// An array at `i`, from its `[` to its `]`.
pub open spec fn array_at(s: Seq<char>, i: int) -> Result<(JsonValue, nat), ParseError>
    decreases s.len() - i, 1int,
{
    match expect_char(s, i, '[') {
        Err(e) => Err(e),
        Ok(_) => {
            let a = i + 1 + ws(s, i + 1);
            if a < s.len() && s[a] == ']' {
                Ok((JsonValue::Array(seq![]), (a + 1 - i) as nat))
            } else {
                match elements_at(s, i + 1, seq![]) {
                    Err(e) => Err(e),
                    Ok((items, e)) => match expect_char(s, e, ']') {
                        Err(err) => Err(err),
                        Ok(_) => Ok((JsonValue::Array(items), (e + 1 - i) as nat)),
                    },
                }
            }
        },
    }
}

/// Array elements from `k` on, appended to `acc`: the elements and the position where
/// the closing `]` is due.
pub open spec fn elements_at(s: Seq<char>, k: int, acc: Seq<JsonValue>) -> Result<
    (Seq<JsonValue>, int),
    ParseError,
>
    decreases s.len() - k, 3int,
{
    match value_at(s, k) {
        Err(e) => Err(e),
        Ok((v, m)) => {
            let d = k + m;
            let e = d + ws(s, d);
            if e < s.len() && s[e] == ',' {
                elements_at(s, e + 1, acc.push(v))
            } else {
                Ok((acc.push(v), e))
            }
        },
    }
}

/// What a whole text denotes: the value at its start; what follows it is not read.
pub open spec fn parse_spec(s: Seq<char>) -> Result<JsonValue, ParseError> {
    match value_at(s, 0) {
        Ok((v, _)) => Ok(v),
        Err(e) => Err(e),
    }
}

} // verus!
