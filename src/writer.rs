use vstd::prelude::*;
use crate::grammar::{
    after, digit_class, digit_run, digits_value, elements_at, is_digit, is_ws, keys_distinct,
    keyword_at, members_at, span, string_at, text_class, upsert, value_at, word_at, ws, ws_class,
};
use crate::parser::lemma_value_skip;
use crate::ir::JsonValue;

verus! {

broadcast use vstd::seq::group_seq_axioms;

/// Every character of `p` is whitespace.
pub open spec fn all_ws(p: Seq<char>) -> bool {
    forall|i: int| 0 <= i < p.len() ==> is_ws(#[trigger] p[i])
}

/// No character of `t` is a double quote.
pub open spec fn quote_free(t: Seq<char>) -> bool {
    forall|i: int| 0 <= i < t.len() ==> #[trigger] t[i] != '"'
}

pub open spec fn digit_char(d: nat) -> char {
    if d == 0 {
        '0'
    } else if d == 1 {
        '1'
    } else if d == 2 {
        '2'
    } else if d == 3 {
        '3'
    } else if d == 4 {
        '4'
    } else if d == 5 {
        '5'
    } else if d == 6 {
        '6'
    } else if d == 7 {
        '7'
    } else if d == 8 {
        '8'
    } else {
        '9'
    }
}

/// The decimal digits of `n`, without leading zeros.
pub open spec fn digits_of(n: nat) -> Seq<char>
    decreases n,
{
    if n < 10 {
        seq![digit_char(n)]
    } else {
        digits_of(n / 10).push(digit_char(n % 10))
    }
}

/// A value that some text denotes: whole numbers not below zero, strings without a
/// double quote, objects with distinct keys that hold no double quote.
pub open spec fn writable(v: JsonValue) -> bool
    decreases v,
{
    match v {
        JsonValue::Number(n) => n >= 0,
        JsonValue::Str(t) => quote_free(t),
        JsonValue::Array(items) => items_writable(items),
        JsonValue::Object(m) => keys_distinct(m) && members_writable(m),
        _ => true,
    }
}

pub open spec fn items_writable(items: Seq<JsonValue>) -> bool
    decreases items,
{
    if items.len() == 0 {
        true
    } else {
        writable(items[0]) && items_writable(items.subrange(1, items.len() as int))
    }
}

pub open spec fn members_writable(m: Seq<(Seq<char>, JsonValue)>) -> bool
    decreases m,
{
    if m.len() == 0 {
        true
    } else {
        quote_free(m[0].0) && writable(m[0].1) && members_writable(m.subrange(1, m.len() as int))
    }
}

/// The text of `v` with the run `pad` before each of its tokens but the first.
pub open spec fn written(v: JsonValue, pad: Seq<char>) -> Seq<char>
    decreases v,
{
    match v {
        JsonValue::Null => seq!['n', 'u', 'l', 'l'],
        JsonValue::Bool(b) => if b {
            seq!['t', 'r', 'u', 'e']
        } else {
            seq!['f', 'a', 'l', 's', 'e']
        },
        JsonValue::Number(n) => digits_of(n as nat),
        JsonValue::Str(t) => seq!['"'] + t + seq!['"'],
        JsonValue::Array(items) => if items.len() == 0 {
            seq!['['] + pad + seq![']']
        } else {
            seq!['['] + written_items(items, pad) + pad + seq![']']
        },
        JsonValue::Object(m) => if m.len() == 0 {
            seq!['{'] + pad + seq!['}']
        } else {
            seq!['{'] + written_members(m, pad) + pad + seq!['}']
        },
    }
}

/// Array elements separated by commas, each token after the run `pad`.
pub open spec fn written_items(items: Seq<JsonValue>, pad: Seq<char>) -> Seq<char>
    decreases items,
{
    if items.len() == 0 {
        seq![]
    } else {
        let first = pad + written(items[0], pad);
        if items.len() == 1 {
            first
        } else {
            first + pad + seq![','] + written_items(items.subrange(1, items.len() as int), pad)
        }
    }
}

/// Object members separated by commas, each token after the run `pad`.
pub open spec fn written_members(m: Seq<(Seq<char>, JsonValue)>, pad: Seq<char>) -> Seq<char>
    decreases m,
{
    if m.len() == 0 {
        seq![]
    } else {
        let first = pad + seq!['"'] + m[0].0 + seq!['"'] + pad + seq![':'] + pad + written(
            m[0].1,
            pad,
        );
        if m.len() == 1 {
            first
        } else {
            first + pad + seq![','] + written_members(m.subrange(1, m.len() as int), pad)
        }
    }
}

proof fn lemma_span_from(s: Seq<char>, i: int, e: int, p: spec_fn(char) -> bool)
    requires
        0 <= i <= e <= s.len(),
        forall|k: int| i <= k < e ==> p(#[trigger] s[k]),
        e == s.len() || !p(s[e]),
    ensures
        span(s, i, p) == e - i,
    decreases e - i,
{
    if i < e {
        lemma_span_from(s, i + 1, e, p);
    }
}

/// `s` holds `x` from `k` on.
pub open spec fn holds_at(s: Seq<char>, k: int, x: Seq<char>) -> bool {
    0 <= k && k + x.len() <= s.len() && s.subrange(k, k + x.len()) == x
}

proof fn lemma_holds_index(s: Seq<char>, k: int, x: Seq<char>, j: int)
    requires
        holds_at(s, k, x),
        0 <= j < x.len(),
    ensures
        s[k + j] == x[j],
{
    assert(s.subrange(k, k + x.len())[j] == x[j]);
}

proof fn lemma_holds_part(s: Seq<char>, k: int, x: Seq<char>, a: int, b: int)
    requires
        holds_at(s, k, x),
        0 <= a <= b <= x.len(),
    ensures
        holds_at(s, k + a, x.subrange(a, b)),
{
    assert(s.subrange(k + a, k + b) =~= x.subrange(a, b));
}

proof fn lemma_ws_pad(s: Seq<char>, k: int, pad: Seq<char>)
    requires
        holds_at(s, k, pad),
        all_ws(pad),
        k + pad.len() < s.len(),
        !is_ws(s[k + pad.len()]),
    ensures
        ws(s, k) == pad.len(),
{
    assert forall|j: int| k <= j < k + pad.len() implies (ws_class())(#[trigger] s[j]) by {
        lemma_holds_index(s, k, pad, j - k);
    }
    lemma_span_from(s, k, k + pad.len(), ws_class());
}

proof fn lemma_digit_char(d: nat)
    requires
        d < 10,
    ensures
        is_digit(digit_char(d)),
        (digit_char(d) as nat - '0' as nat) == d,
{
}

proof fn lemma_digits(n: nat)
    ensures
        digits_of(n).len() >= 1,
        forall|k: int| 0 <= k < digits_of(n).len() ==> is_digit(#[trigger] digits_of(n)[k]),
        digits_value(digits_of(n)) == n,
    decreases n,
{
    let d = digits_of(n);
    if n < 10 {
        lemma_digit_char(n);
        assert(d.drop_last() =~= seq![]);
        assert(digits_value(d.drop_last()) == 0);
        assert(d.last() == digit_char(n));
    } else {
        lemma_digits(n / 10);
        lemma_digit_char(n % 10);
        assert(d.drop_last() =~= digits_of(n / 10));
        assert(d.last() == digit_char(n % 10));
        assert(n == (n / 10) * 10 + n % 10);
        assert(digits_value(d) == digits_value(digits_of(n / 10)) * 10 + n % 10);
    }
}

proof fn lemma_word(s: Seq<char>, i: int, w: Seq<char>, k: int)
    requires
        holds_at(s, i, w),
        0 <= k <= w.len(),
    ensures
        word_at(s, i, w, k) == Ok::<(), crate::ir::ParseError>(()),
    decreases w.len() - k,
{
    if k < w.len() {
        lemma_holds_index(s, i, w, k);
        lemma_word(s, i, w, k + 1);
    }
}

proof fn lemma_string(s: Seq<char>, a: int, t: Seq<char>)
    requires
        holds_at(s, a, seq!['"'] + t + seq!['"']),
        quote_free(t),
    ensures
        string_at(s, a) == Ok::<_, crate::ir::ParseError>((t, t.len() + 2)),
{
    let x = seq!['"'] + t + seq!['"'];
    lemma_holds_index(s, a, x, 0);
    lemma_holds_index(s, a, x, t.len() as int + 1);
    assert forall|j: int| a + 1 <= j < a + 1 + t.len() implies (text_class())(#[trigger] s[j]) by {
        lemma_holds_index(s, a, x, j - a);
    }
    lemma_span_from(s, a + 1, a + 1 + t.len(), text_class());
    lemma_holds_part(s, a, x, 1, t.len() as int + 1);
    assert(x.subrange(1, t.len() as int + 1) =~= t);
}

/// The first character of a written value opens it: it is no whitespace, comma or
/// closing bracket.
proof fn lemma_write_start(v: JsonValue, pad: Seq<char>)
    requires
        writable(v),
    ensures
        written(v, pad).len() >= 1,
        !is_ws(written(v, pad)[0]),
        written(v, pad)[0] != ',',
        written(v, pad)[0] != ']',
        written(v, pad)[0] != '}',
{
    match v {
        JsonValue::Number(n) => {
            lemma_digits(n as nat);
            assert(is_digit(digits_of(n as nat)[0]));
        },
        _ => {},
    }
}

/// A written value, after the run `pad`, reads back as that value.
pub(crate) proof fn lemma_value_padded(v: JsonValue, pad: Seq<char>, s: Seq<char>, k: int)
    requires
        writable(v),
        all_ws(pad),
        holds_at(s, k, pad + written(v, pad)),
        k + pad.len() + written(v, pad).len() == s.len() || !is_digit(
            s[k + pad.len() + written(v, pad).len()],
        ),
    ensures
        value_at(s, k) == Ok::<_, crate::ir::ParseError>((v, pad.len() + written(v, pad).len())),
    decreases v, 1int,
{
    let x = pad + written(v, pad);
    lemma_write_start(v, pad);
    lemma_holds_part(s, k, x, 0, pad.len() as int);
    assert(x.subrange(0, pad.len() as int) =~= pad);
    lemma_holds_index(s, k, x, pad.len() as int);
    lemma_ws_pad(s, k, pad);
    lemma_value_skip(s, k);
    lemma_holds_part(s, k, x, pad.len() as int, x.len() as int);
    assert(x.subrange(pad.len() as int, x.len() as int) =~= written(v, pad));
    lemma_write(v, pad, s, k + pad.len());
}

/// A written value reads back as that value.
proof fn lemma_write(v: JsonValue, pad: Seq<char>, s: Seq<char>, i: int)
    requires
        writable(v),
        all_ws(pad),
        holds_at(s, i, written(v, pad)),
        i + written(v, pad).len() == s.len() || !is_digit(s[i + written(v, pad).len()]),
    ensures
        value_at(s, i) == Ok::<_, crate::ir::ParseError>((v, written(v, pad).len())),
    decreases v, 0int,
{
    let x = written(v, pad);
    lemma_write_start(v, pad);
    lemma_holds_index(s, i, x, 0);
    assert(ws(s, i) == 0);
    match v {
        JsonValue::Null => {
            assert(x[0] == 'n');
            lemma_word(s, i, x, 0);
            assert(keyword_at(s, i, seq!['n', 'u', 'l', 'l'], JsonValue::Null) == Ok::<
                _,
                crate::ir::ParseError,
            >((JsonValue::Null, 4nat)));
        },
        JsonValue::Bool(b) => {
            lemma_word(s, i, x, 0);
        },
        JsonValue::Number(n) => {
            lemma_digits(n as nat);
            assert forall|j: int| i <= j < i + x.len() implies (digit_class())(#[trigger] s[j]) by {
                lemma_holds_index(s, i, x, j - i);
            }
            lemma_span_from(s, i, i + x.len(), digit_class());
            assert(digit_run(s, i) == x.len());
        },
        JsonValue::Str(t) => {
            lemma_string(s, i, t);
        },
        JsonValue::Array(items) => {
            let body = if items.len() == 0 {
                seq![]
            } else {
                written_items(items, pad)
            };
            assert(x =~= seq!['['] + body + pad + seq![']']);
            
            lemma_holds_part(s, i, x, 1, 1 + pad.len() as int);
            if items.len() == 0 {
                assert(x.subrange(1, 1 + pad.len() as int) =~= pad);
                lemma_holds_index(s, i, x, 1 + pad.len() as int);
                lemma_ws_pad(s, i + 1, pad);
                assert(items =~= seq![]);
            } else {
                lemma_items_start(items, pad);
                assert(x.subrange(1, 1 + pad.len() as int) =~= pad);
                lemma_holds_index(s, i, x, 1 + pad.len() as int);
                lemma_ws_pad(s, i + 1, pad);
                lemma_holds_part(s, i, x, 1, x.len() as int);
                assert(x.subrange(1, x.len() as int) =~= written_items(items, pad) + pad + seq![']']);
                lemma_items(items, pad, s, i + 1, seq![]);
                assert(seq![] + items =~= items);
                lemma_holds_index(s, i, x, x.len() - 1);
            }
        },
        JsonValue::Object(m) => {
            let body = if m.len() == 0 {
                seq![]
            } else {
                written_members(m, pad)
            };
            assert(x =~= seq!['{'] + body + pad + seq!['}']);
            lemma_holds_part(s, i, x, 1, 1 + pad.len() as int);
            if m.len() == 0 {
                assert(x.subrange(1, 1 + pad.len() as int) =~= pad);
                lemma_holds_index(s, i, x, 1 + pad.len() as int);
                lemma_ws_pad(s, i + 1, pad);
                assert(m =~= seq![]);
            } else {
                lemma_members_start(m, pad);
                assert(x.subrange(1, 1 + pad.len() as int) =~= pad);
                lemma_holds_index(s, i, x, 1 + pad.len() as int);
                lemma_ws_pad(s, i + 1, pad);
                lemma_holds_part(s, i, x, 1, x.len() as int);
                assert(x.subrange(1, x.len() as int) =~= written_members(m, pad) + pad + seq!['}']);
                assert(seq![] + m =~= m);
                lemma_members(m, pad, s, i + 1, seq![]);
                lemma_holds_index(s, i, x, x.len() - 1);
            }
        },
    }
}

/// Written elements begin with the run `pad` and then an opening character.
proof fn lemma_items_start(items: Seq<JsonValue>, pad: Seq<char>)
    requires
        items.len() >= 1,
        items_writable(items),
    ensures
        written_items(items, pad).len() > pad.len(),
        written_items(items, pad).subrange(0, pad.len() as int) == pad,
        !is_ws(written_items(items, pad)[pad.len() as int]),
        written_items(items, pad)[pad.len() as int] != ']',
{
    let x = written_items(items, pad);
    lemma_write_start(items[0], pad);
    let w0 = written(items[0], pad);
    if items.len() == 1 {
        assert(x =~= pad + w0);
    } else {
        assert(x =~= pad + w0 + (pad + seq![','] + written_items(items.subrange(1, items.len() as int), pad)));
    }
    assert(x.subrange(0, pad.len() as int) =~= pad);
    assert(x[pad.len() as int] == w0[0]);
}

/// Written members begin with the run `pad` and then a double quote.
proof fn lemma_members_start(m: Seq<(Seq<char>, JsonValue)>, pad: Seq<char>)
    requires
        m.len() >= 1,
    ensures
        written_members(m, pad).len() > pad.len(),
        written_members(m, pad).subrange(0, pad.len() as int) == pad,
        written_members(m, pad)[pad.len() as int] == '"',
{
    let x = written_members(m, pad);
    let first = pad + seq!['"'] + m[0].0 + seq!['"'] + pad + seq![':'] + pad + written(m[0].1, pad);
    if m.len() == 1 {
        assert(x == first);
    } else {
        assert(x == first + pad + seq![','] + written_members(m.subrange(1, m.len() as int), pad));
    }
    assert(x.subrange(0, pad.len() as int) =~= pad);
    assert(x[pad.len() as int] == first[pad.len() as int]);
}

/// Written elements, then the run `pad` and `]`, read back as those elements.
proof fn lemma_items(items: Seq<JsonValue>, pad: Seq<char>, s: Seq<char>, k: int, acc: Seq<JsonValue>)
    requires
        items.len() >= 1,
        items_writable(items),
        all_ws(pad),
        holds_at(s, k, written_items(items, pad) + pad + seq![']']),
    ensures
        elements_at(s, k, acc) == Ok::<_, crate::ir::ParseError>(
            (acc + items, k + written_items(items, pad).len() + pad.len()),
        ),
    decreases items,
{
    let x = written_items(items, pad) + pad + seq![']'];
    let v0 = items[0];
    let w0 = written(v0, pad);
    let rest = items.subrange(1, items.len() as int);
    let tail = if items.len() == 1 {
        seq![]
    } else {
        pad + seq![','] + written_items(rest, pad)
    };
    assert(written_items(items, pad) =~= pad + w0 + tail);
    assert(x =~= pad + w0 + tail + pad + seq![']']);
    let p = pad.len() as int;
    let n0 = w0.len() as int;
    // the first element
    lemma_holds_part(s, k, x, 0, p + n0);
    assert(x.subrange(0, p + n0) =~= pad + w0);
    lemma_holds_index(s, k, x, p + n0);
    if pad.len() > 0 {
        assert(x[p + n0] == pad[0]);
    } else if items.len() == 1 {
        assert(x[p + n0] == ']');
    } else {
        assert(x[p + n0] == ',');
    }
    lemma_value_padded(v0, pad, s, k);
    // the run after it, then `,` or `]`
    let d = k + p + n0;
    lemma_holds_part(s, k, x, p + n0, p + n0 + p);
    assert(x.subrange(p + n0, p + n0 + p) =~= pad);
    lemma_holds_index(s, k, x, p + n0 + p);
    if items.len() == 1 {
        assert(x[p + n0 + p] == ']');
    } else {
        assert(x[p + n0 + p] == ',');
    }
    lemma_ws_pad(s, d, pad);
    let e = d + p;
    if items.len() == 1 {
        assert(acc.push(v0) =~= acc + items);
    } else {
        lemma_holds_part(s, k, x, p + n0 + p + 1, x.len() as int);
        assert(x.subrange(p + n0 + p + 1, x.len() as int) =~= written_items(rest, pad) + pad + seq![']']);
        lemma_items(rest, pad, s, e + 1, acc.push(v0));
        assert(acc.push(v0) + rest =~= acc + items);
    }
}

/// Written members, then the run `pad` and `}`, read back as those members.
#[verifier::spinoff_prover]
#[verifier::rlimit(100)]
proof fn lemma_members(
    m: Seq<(Seq<char>, JsonValue)>,
    pad: Seq<char>,
    s: Seq<char>,
    k: int,
    acc: Seq<(Seq<char>, JsonValue)>,
)
    requires
        m.len() >= 1,
        members_writable(m),
        keys_distinct(acc + m),
        all_ws(pad),
        holds_at(s, k, written_members(m, pad) + pad + seq!['}']),
    ensures
        members_at(s, k, acc) == Ok::<_, crate::ir::ParseError>(
            (acc + m, k + written_members(m, pad).len() + pad.len()),
        ),
    decreases m,
{
    let x = written_members(m, pad) + pad + seq!['}'];
    let key = m[0].0;
    let v0 = m[0].1;
    let w0 = written(v0, pad);
    let rest = m.subrange(1, m.len() as int);
    let tail = if m.len() == 1 {
        seq![]
    } else {
        pad + seq![','] + written_members(rest, pad)
    };
    let q = seq!['"'] + key + seq!['"'];
    assert(written_members(m, pad) =~= pad + q + pad + seq![':'] + pad + w0 + tail);
    assert(x =~= pad + q + pad + seq![':'] + pad + w0 + tail + pad + seq!['}']);
    let p = pad.len() as int;
    let nq = q.len() as int;
    let n0 = w0.len() as int;
    // the key
    lemma_holds_part(s, k, x, 0, p);
    assert(x.subrange(0, p) =~= pad);
    lemma_holds_index(s, k, x, p);
    lemma_ws_pad(s, k, pad);
    lemma_holds_part(s, k, x, p, p + nq);
    assert(x.subrange(p, p + nq) =~= q);
    lemma_string(s, k + p, key);
    // the colon
    let b = k + p + nq;
    lemma_holds_part(s, k, x, p + nq, p + nq + p);
    assert(x.subrange(p + nq, p + nq + p) =~= pad);
    lemma_holds_index(s, k, x, p + nq + p);
    lemma_ws_pad(s, b, pad);
    let c = b + p;
    // the value
    lemma_write_start(v0, pad);
    lemma_holds_part(s, k, x, p + nq + p + 1, p + nq + p + 1 + p + n0);
    assert(x.subrange(p + nq + p + 1, p + nq + p + 1 + p + n0) =~= pad + w0);
    let d = c + 1 + p + n0;
    lemma_holds_index(s, k, x, p + nq + p + 1 + p + n0);
    if pad.len() > 0 {
        assert(x[p + nq + p + 1 + p + n0] == pad[0]);
    } else if m.len() == 1 {
        assert(x[p + nq + p + 1 + p + n0] == '}');
    } else {
        assert(x[p + nq + p + 1 + p + n0] == ',');
    }
    lemma_value_padded(v0, pad, s, c + 1);
    // the run after it, then `,` or `}`
    let o = p + nq + p + 1 + p + n0;
    lemma_holds_part(s, k, x, o, o + p);
    assert(x.subrange(o, o + p) =~= pad);
    lemma_holds_index(s, k, x, o + p);
    if m.len() == 1 {
        assert(x[o + p] == '}');
    } else {
        assert(x[o + p] == ',');
    }
    lemma_ws_pad(s, d, pad);
    let e = d + p;
    // the key is new
    assert forall|j: int| 0 <= j < acc.len() implies (#[trigger] acc[j]).0 != key by {
        assert((acc + m)[j] == acc[j]);
        assert((acc + m)[acc.len() as int] == m[0]);
    }
    assert(upsert(acc, key, v0) == acc.push((key, v0)));
    if m.len() == 1 {
        assert(acc.push((key, v0)) =~= acc + m);
    } else {
        lemma_holds_part(s, k, x, o + p + 1, x.len() as int);
        assert(x.subrange(o + p + 1, x.len() as int) =~= written_members(rest, pad) + pad + seq!['}']);
        assert(acc.push((key, v0)) + rest =~= acc + m);
        lemma_members(rest, pad, s, e + 1, acc.push((key, v0)));
    }
}

} // verus!
