use vstd::prelude::*;
use crate::grammar::{keys_distinct, parse_spec, upsert};
use crate::ir::{JsonIR, JsonValue, ParseError};
use crate::parser::parsed_as;
use crate::writer::{all_ws, lemma_value_padded, writable, written};

verus! {

/// Parsing the same text twice gives structurally equal trees, or the same error.
pub proof fn law_parse_deterministic(
    s: Seq<char>,
    r1: Result<JsonIR, ParseError>,
    r2: Result<JsonIR, ParseError>,
)
    requires
        parsed_as(s, r1),
        parsed_as(s, r2),
    ensures
        r1 is Ok <==> r2 is Ok,
        r1 is Ok ==> r1->Ok_0@ == r2->Ok_0@,
        r1 is Err ==> r1 == r2,
{
}

/// Binding a key holds it in exactly one member, with the new value, and keeps keys
/// distinct; binding it twice is the same as binding it to the last value only.
pub proof fn law_last_value_wins(
    m: Seq<(Seq<char>, JsonValue)>,
    key: Seq<char>,
    v1: JsonValue,
    v2: JsonValue,
)
    requires
        keys_distinct(m),
    ensures
        keys_distinct(upsert(m, key, v1)),
        exists|j: int| 0 <= j < upsert(m, key, v1).len() && upsert(m, key, v1)[j] == (key, v1),
        forall|a: int, b: int|
            0 <= a < upsert(m, key, v1).len() && 0 <= b < upsert(m, key, v1).len()
                && (#[trigger] upsert(m, key, v1)[a]).0 == key && (#[trigger] upsert(
                m,
                key,
                v1,
            )[b]).0 == key ==> a == b,
        upsert(upsert(m, key, v1), key, v2) == upsert(m, key, v2),
{
    let u = upsert(m, key, v1);
    if exists|j: int| 0 <= j < m.len() && (#[trigger] m[j]).0 == key {
        let j = choose|j: int| 0 <= j < m.len() && (#[trigger] m[j]).0 == key;
        assert(u == m.update(j, (key, v1)));
        assert(u[j] == (key, v1));
        assert(u[j].0 == key);
        let j2 = choose|i: int| 0 <= i < u.len() && (#[trigger] u[i]).0 == key;
        assert(j2 == j) by {
            if j2 != j {
                assert(m[j2].0 == key);
            }
        }
        assert(u.update(j, (key, v2)) =~= m.update(j, (key, v2)));
    } else {
        let n = m.len() as int;
        assert(u == m.push((key, v1)));
        assert(u[n] == (key, v1));
        assert(u[n].0 == key);
        let j2 = choose|i: int| 0 <= i < u.len() && (#[trigger] u[i]).0 == key;
        assert(j2 == n) by {
            if j2 != n {
                assert(m[j2].0 == key);
            }
        }
        assert(u.update(n, (key, v2)) =~= m.push((key, v2)));
    }
}

/// A document written from a value, with one run of whitespace before each of its
/// tokens, parses back to exactly that value, at any depth of nesting: every node keeps
/// its kind and its contents, and the whitespace changes nothing in the result.
pub proof fn law_written_document_parses_back(v: JsonValue, pad: Seq<char>)
    requires
        writable(v),
        all_ws(pad),
    ensures
        parse_spec(pad + written(v, pad)) == Ok::<JsonValue, ParseError>(v),
        parse_spec(pad + written(v, pad)) == parse_spec(written(v, seq![])),
{
    let s = pad + written(v, pad);
    assert(s.subrange(0, s.len() as int) =~= s);
    lemma_value_padded(v, pad, s, 0);
    let t = written(v, seq![]);
    assert(seq![] + t =~= t);
    assert(t.subrange(0, t.len() as int) =~= t);
    lemma_value_padded(v, seq![], t, 0);
}

} // verus!
