use vstd::prelude::*;
use crate::grammar::{
    after, array_at, digit_class, digit_run, digits_value, elements_at, expect_char, is_digit,
    is_ws, keys_distinct, keyword_at, members_at, number_at, object_at, parse_spec, span,
    string_at, text_run, upsert, value_at, word_at, ws, ws_class,
};
use crate::ir::{
    items_view, lemma_array_view, lemma_object_view, members_view, JsonIR, JsonValue, ParseError,
};

verus! {

/// A text held as characters, with a read position.
pub struct Cursor {
    pub text: Vec<char>,
    pub pos: usize,
}

impl Cursor {
    /// The read position lies within the text or just past its end.
    pub open spec fn wf(&self) -> bool {
        self.pos <= self.text.len()
    }

    /// A cursor at the start of `s`.
    pub fn new(s: &str) -> (c: Cursor)
        ensures
            c.wf(),
            c.text@ == s@,
            c.pos == 0,
    {
        let mut text: Vec<char> = Vec::new();
        for ch in it: s.chars()
            invariant
                text@ == it.seq().subrange(0, it.index() as int),
        {
            text.push(ch);
        }
        assert(text@ =~= s@);
        Cursor { text, pos: 0 }
    }

    /// The character at the read position, if any.
    pub fn peek(&self) -> (r: Option<char>)
        requires
            self.wf(),
        ensures
            r == (if self.pos < self.text.len() {
                Some(self.text@[self.pos as int])
            } else {
                None
            }),
    {
        if self.pos < self.text.len() {
            Some(self.text[self.pos])
        } else {
            None
        }
    }

    /// Reads the character at the read position, if any.
    pub fn advance(&mut self) -> (r: Option<char>)
        requires
            old(self).wf(),
        ensures
            final(self).wf(),
            final(self).text@ == old(self).text@,
            r == (if old(self).pos < old(self).text.len() {
                Some(old(self).text@[old(self).pos as int])
            } else {
                None
            }),
            final(self).pos == (if old(self).pos < old(self).text.len() {
                old(self).pos + 1
            } else {
                old(self).pos as int
            }),
    {
        if self.pos < self.text.len() {
            let ch = self.text[self.pos];
            self.pos = self.pos + 1;
            Some(ch)
        } else {
            None
        }
    }
}

/// `r` is what `expected` describes, read from `start` up to `end`.
pub open spec fn reads_as(
    r: Result<JsonIR, ParseError>,
    start: int,
    end: int,
    expected: Result<(JsonValue, nat), ParseError>,
) -> bool {
    match expected {
        Ok((v, n)) => r matches Ok(x) && x@ == v && end == start + n,
        Err(e) => r == Err::<JsonIR, ParseError>(e),
    }
}

/// `c1` reads the same text as `c0`, at the same position or further on.
pub open spec fn moved_on(c0: Cursor, c1: Cursor) -> bool {
    c1.wf() && c1.text@ == c0.text@ && c0.pos <= c1.pos
}

proof fn lemma_span_stops(s: Seq<char>, i: int, p: spec_fn(char) -> bool)
    requires
        0 <= i,
    ensures
        span(s, i + span(s, i, p), p) == 0,
    decreases s.len() - i,
{
    if 0 <= i < s.len() && p(s[i]) {
        lemma_span_stops(s, i + 1, p);
    }
}

proof fn lemma_span_bound(s: Seq<char>, i: int, p: spec_fn(char) -> bool)
    requires
        0 <= i <= s.len(),
    ensures
        i + span(s, i, p) <= s.len(),
    decreases s.len() - i,
{
    if 0 <= i < s.len() && p(s[i]) {
        lemma_span_bound(s, i + 1, p);
    }
}

proof fn lemma_ws_stops(s: Seq<char>, i: int)
    requires
        0 <= i,
    ensures
        ws(s, i + ws(s, i)) == 0,
{
    lemma_span_stops(s, i, ws_class());
}

/// Relies on `String::push`: appends `ch` to the end of `s`.
#[verifier::external_body]
fn push_char(s: &mut String, ch: char)
    ensures
        final(s)@ == old(s)@.push(ch),
{
    s.push(ch)
}

fn is_ws_char(c: char) -> (r: bool)
    ensures
        r == is_ws(c),
{
    c == ' ' || c == '\t' || c == '\n' || c == '\r'
}

fn is_digit_char(c: char) -> (r: bool)
    ensures
        r == is_digit(c),
{
    '0' <= c && c <= '9'
}

proof fn lemma_digits_grow(d: Seq<char>, k: int)
    requires
        0 <= k <= d.len(),
    ensures
        digits_value(d.subrange(0, k)) <= digits_value(d),
    decreases d.len() - k,
{
    if k < d.len() {
        assert(d.subrange(0, k + 1).drop_last() =~= d.subrange(0, k));
        lemma_digits_grow(d, k + 1);
    } else {
        assert(d.subrange(0, k) =~= d);
    }
}

proof fn lemma_digits_step(s: Seq<char>, a: int, b: int)
    requires
        0 <= a <= b < s.len(),
    ensures
        digits_value(s.subrange(a, b + 1)) == digits_value(s.subrange(a, b)) * 10 + (s[b] as nat
            - '0' as nat) as nat,
{
    assert(s.subrange(a, b + 1).drop_last() =~= s.subrange(a, b));
}

proof fn lemma_digits_grow_at(s: Seq<char>, a: int, k: int, e: int)
    requires
        0 <= a <= k <= e <= s.len(),
    ensures
        digits_value(s.subrange(a, k)) <= digits_value(s.subrange(a, e)),
{
    lemma_digits_grow(s.subrange(a, e), k - a);
    assert(s.subrange(a, e).subrange(0, k - a) =~= s.subrange(a, k));
}

pub(crate) proof fn lemma_value_skip(s: Seq<char>, k: int)
    requires
        0 <= k,
    ensures
        value_at(s, k) == after(ws(s, k), value_at(s, k + ws(s, k))),
{
    lemma_ws_stops(s, k);
}

proof fn lemma_elements_skip(s: Seq<char>, k: int, acc: Seq<JsonValue>)
    requires
        0 <= k,
    ensures
        elements_at(s, k, acc) == elements_at(s, k + ws(s, k), acc),
{
    lemma_value_skip(s, k);
}

proof fn lemma_members_skip(s: Seq<char>, k: int, acc: Seq<(Seq<char>, JsonValue)>)
    requires
        0 <= k,
    ensures
        members_at(s, k, acc) == members_at(s, k + ws(s, k), acc),
{
    lemma_ws_stops(s, k);
}

impl JsonIR {
    /// Binds `key` to `value` in `entries`: an earlier value of `key` is replaced in
    /// place, a new key goes to the end.
    pub fn insert_member(entries: &mut Vec<(String, JsonIR)>, key: String, value: JsonIR)
        requires
            keys_distinct(members_view(old(entries)@)),
        ensures
            keys_distinct(members_view(final(entries)@)),
            members_view(final(entries)@) == upsert(members_view(old(entries)@), key@, value@),
    {
        let ghost m = members_view(entries@);
        let mut i: usize = 0;
        while i < entries.len()
            invariant
                entries@ == old(entries)@,
                m == members_view(entries@),
                keys_distinct(m),
                i <= entries.len(),
                forall|j: int| 0 <= j < i ==> (#[trigger] m[j]).0 != key@,
            decreases entries.len() - i,
        {
            if entries[i].0 == key {
                proof {
                    let kv = key@;
                    assert(m[i as int].0 == kv);
                    let j = choose|j: int| 0 <= j < m.len() && (#[trigger] m[j]).0 == kv;
                    assert(j == i);
                }
                let ghost vv = value@;
                let ghost kv = key@;
                entries.set(i, (key, value));
                proof {
                    assert(members_view(entries@) =~= m.update(i as int, (kv, vv)));
                }
                return;
            }
            i = i + 1;
        }
        let ghost vv = value@;
        let ghost kv = key@;
        entries.push((key, value));
        proof {
            assert(members_view(entries@) =~= m.push((kv, vv)));
        }
    }

    /// Reads one value, skipping the whitespace before it. A character that starts no
    /// value gives `Null` and is left unread.
    pub fn build(c: &mut Cursor) -> (r: Result<JsonIR, ParseError>)
        requires
            old(c).wf(),
        ensures
            moved_on(*old(c), *final(c)),
            reads_as(r, old(c).pos as int, final(c).pos as int, value_at(old(c).text@, old(c).pos as int)),
        decreases old(c).text@.len() - old(c).pos, 2int,
    {
        JsonIR::skip_whitespace(c);
        proof {
            lemma_ws_stops(old(c).text@, old(c).pos as int);
        }
        match c.peek() {
            Some('{') => JsonIR::build_object(c),
            Some('[') => JsonIR::build_array(c),
            Some('"') => JsonIR::build_string(c),
            Some(ch) => {
                if is_digit_char(ch) {
                    JsonIR::build_number(c)
                } else if ch == 't' {
                    let w: [char; 4] = ['t', 'r', 'u', 'e'];
                    proof {
                        assert(w@ =~= seq!['t', 'r', 'u', 'e']);
                    }
                    JsonIR::build_keyword(c, &w, JsonIR::Bool(true))
                } else if ch == 'f' {
                    let w: [char; 5] = ['f', 'a', 'l', 's', 'e'];
                    proof {
                        assert(w@ =~= seq!['f', 'a', 'l', 's', 'e']);
                    }
                    JsonIR::build_keyword(c, &w, JsonIR::Bool(false))
                } else if ch == 'n' {
                    let w: [char; 4] = ['n', 'u', 'l', 'l'];
                    proof {
                        assert(w@ =~= seq!['n', 'u', 'l', 'l']);
                    }
                    JsonIR::build_keyword(c, &w, JsonIR::Null)
                } else {
                    Ok(JsonIR::Null)
                }
            },
            None => Ok(JsonIR::Null),
        }
    }

    /// Reads an object, from its `{` to its `}`, skipping the whitespace before it.
    pub fn build_object(c: &mut Cursor) -> (r: Result<JsonIR, ParseError>)
        requires
            old(c).wf(),
        ensures
            moved_on(*old(c), *final(c)),
            reads_as(
                r,
                old(c).pos as int,
                final(c).pos as int,
                after(
                    ws(old(c).text@, old(c).pos as int),
                    object_at(old(c).text@, old(c).pos + ws(old(c).text@, old(c).pos as int)),
                ),
            ),
        decreases old(c).text@.len() - old(c).pos, 1int,
    {
        let ghost s = c.text@;
        JsonIR::skip_whitespace(c);
        let ghost begin = c.pos as int;
        match JsonIR::consume(c, '{') {
            Err(e) => {
                return Err(e);
            },
            Ok(_) => {},
        }
        JsonIR::skip_whitespace(c);
        let mut entries: Vec<(String, JsonIR)> = Vec::new();
        proof {
            lemma_object_view(entries);
            assert(members_view(entries@) =~= seq![]);
            lemma_members_skip(s, begin + 1, seq![]);
        }
        match c.peek() {
            Some('}') => {
                c.advance();
                return Ok(JsonIR::Object(entries));
            },
            _ => {},
        }
        loop
            invariant_except_break
                members_at(s, begin + 1, seq![]) == members_at(s, c.pos as int, members_view(entries@)),
            invariant
                c.wf(),
                c.text@ == s,
                s == old(c).text@,
                begin == old(c).pos + ws(s, old(c).pos as int),
                begin < c.pos,
                expect_char(s, begin, '{') == Ok::<(), ParseError>(()),
                !(begin + 1 + ws(s, begin + 1) < s.len() && s[begin + 1 + ws(s, begin + 1)] == '}'),
                keys_distinct(members_view(entries@)),
            ensures
                members_at(s, begin + 1, seq![]) == Ok::<_, ParseError>((members_view(entries@), c.pos as int)),
            decreases c.text.len() - c.pos,
        {
            JsonIR::skip_whitespace(c);
            match c.peek() {
                None => {
                    return Err(ParseError::UnexpectedEndOfInput);
                },
                Some(ch) => {
                    if ch != '"' {
                        return Err(ParseError::InvalidKey);
                    }
                },
            }
            let key = match JsonIR::read_text(c) {
                Ok(k) => k,
                Err(e) => {
                    return Err(e);
                },
            };
            JsonIR::skip_whitespace(c);
            match JsonIR::consume(c, ':') {
                Err(e) => {
                    return Err(e);
                },
                Ok(_) => {},
            }
            let value = match JsonIR::build(c) {
                Ok(v) => v,
                Err(e) => {
                    return Err(e);
                },
            };
            JsonIR::insert_member(&mut entries, key, value);
            JsonIR::skip_whitespace(c);
            match c.peek() {
                Some(',') => {
                    c.advance();
                },
                _ => {
                    break;
                },
            }
        }
        match JsonIR::consume(c, '}') {
            Err(e) => Err(e),
            Ok(_) => {
                proof {
                    lemma_object_view(entries);
                }
                Ok(JsonIR::Object(entries))
            },
        }
    }

    /// Reads an array, from its `[` to its `]`, skipping the whitespace before it.
    pub fn build_array(c: &mut Cursor) -> (r: Result<JsonIR, ParseError>)
        requires
            old(c).wf(),
        ensures
            moved_on(*old(c), *final(c)),
            reads_as(
                r,
                old(c).pos as int,
                final(c).pos as int,
                after(
                    ws(old(c).text@, old(c).pos as int),
                    array_at(old(c).text@, old(c).pos + ws(old(c).text@, old(c).pos as int)),
                ),
            ),
        decreases old(c).text@.len() - old(c).pos, 1int,
    {
        let ghost s = c.text@;
        JsonIR::skip_whitespace(c);
        let ghost begin = c.pos as int;
        match JsonIR::consume(c, '[') {
            Err(e) => {
                return Err(e);
            },
            Ok(_) => {},
        }
        JsonIR::skip_whitespace(c);
        let mut items: Vec<JsonIR> = Vec::new();
        proof {
            lemma_array_view(items);
            assert(items_view(items@) =~= seq![]);
            lemma_elements_skip(s, begin + 1, seq![]);
        }
        match c.peek() {
            Some(']') => {
                c.advance();
                return Ok(JsonIR::Array(items));
            },
            _ => {},
        }
        loop
            invariant_except_break
                elements_at(s, begin + 1, seq![]) == elements_at(s, c.pos as int, items_view(items@)),
            invariant
                c.wf(),
                c.text@ == s,
                s == old(c).text@,
                begin == old(c).pos + ws(s, old(c).pos as int),
                begin < c.pos,
                expect_char(s, begin, '[') == Ok::<(), ParseError>(()),
                !(begin + 1 + ws(s, begin + 1) < s.len() && s[begin + 1 + ws(s, begin + 1)] == ']'),
            ensures
                elements_at(s, begin + 1, seq![]) == Ok::<_, ParseError>((items_view(items@), c.pos as int)),
            decreases c.text.len() - c.pos,
        {
            let ghost before = items_view(items@);
            let value = match JsonIR::build(c) {
                Ok(v) => v,
                Err(e) => {
                    return Err(e);
                },
            };
            let ghost vv = value@;
            items.push(value);
            proof {
                assert(items_view(items@) =~= before.push(vv));
            }
            JsonIR::skip_whitespace(c);
            match c.peek() {
                Some(',') => {
                    c.advance();
                },
                _ => {
                    break;
                },
            }
        }
        match JsonIR::consume(c, ']') {
            Err(e) => Err(e),
            Ok(_) => {
                proof {
                    lemma_array_view(items);
                }
                Ok(JsonIR::Array(items))
            },
        }
    }

    /// Moves past a run of whitespace.
    pub fn skip_whitespace(c: &mut Cursor)
        requires
            old(c).wf(),
        ensures
            final(c).wf(),
            final(c).text@ == old(c).text@,
            final(c).pos == old(c).pos + ws(old(c).text@, old(c).pos as int),
    {
        let ghost s = c.text@;
        let ghost begin = c.pos as int;
        while c.pos < c.text.len() && is_ws_char(c.text[c.pos])
            invariant
                c.wf(),
                c.text@ == s,
                s == old(c).text@,
                begin == old(c).pos,
                begin <= c.pos,
                begin + ws(s, begin) == c.pos + ws(s, c.pos as int),
            decreases c.text.len() - c.pos,
        {
            c.pos = c.pos + 1;
        }
    }

    /// Reads `ch` at the read position.
    pub fn consume(c: &mut Cursor, ch: char) -> (r: Result<(), ParseError>)
        requires
            old(c).wf(),
        ensures
            final(c).wf(),
            final(c).text@ == old(c).text@,
            r == expect_char(old(c).text@, old(c).pos as int, ch),
            final(c).pos == match r {
                Ok(_) => old(c).pos + 1,
                Err(_) => old(c).pos as int,
            },
    {
        match c.peek() {
            None => Err(ParseError::UnexpectedEndOfInput),
            Some(found) => {
                if found == ch {
                    c.advance();
                    Ok(())
                } else {
                    Err(ParseError::UnexpectedToken { expected: ch, found, position: c.pos })
                }
            },
        }
    }

    /// Reads a quoted string and returns its content.
    pub fn read_text(c: &mut Cursor) -> (r: Result<String, ParseError>)
        requires
            old(c).wf(),
        ensures
            moved_on(*old(c), *final(c)),
            match string_at(old(c).text@, old(c).pos as int) {
                Ok((t, n)) => r matches Ok(x) && x@ == t && final(c).pos == old(c).pos + n,
                Err(e) => r == Err::<String, ParseError>(e),
            },
    {
        let ghost s = c.text@;
        let ghost begin = c.pos as int;
        match JsonIR::consume(c, '"') {
            Err(e) => { return Err(e); },
            Ok(_) => {},
        }
        let mut res = String::new();
        while c.pos < c.text.len() && c.text[c.pos] != '"'
            invariant
                c.wf(),
                c.text@ == s,
                s == old(c).text@,
                begin == old(c).pos,
                begin + 1 <= c.pos,
                res@ == s.subrange(begin + 1, c.pos as int),
                text_run(s, begin + 1) == (c.pos - (begin + 1)) + text_run(s, c.pos as int),
            decreases c.text.len() - c.pos,
        {
            let ch = c.text[c.pos];
            push_char(&mut res, ch);
            c.pos = c.pos + 1;
            assert(res@ =~= s.subrange(begin + 1, c.pos as int));
        }
        match JsonIR::consume(c, '"') {
            Err(e) => Err(e),
            Ok(_) => Ok(res),
        }
    }

    /// Reads a quoted string as a `String` node.
    pub fn build_string(c: &mut Cursor) -> (r: Result<JsonIR, ParseError>)
        requires
            old(c).wf(),
        ensures
            moved_on(*old(c), *final(c)),
            reads_as(
                r,
                old(c).pos as int,
                final(c).pos as int,
                match string_at(old(c).text@, old(c).pos as int) {
                    Ok((t, n)) => Ok((JsonValue::Str(t), n)),
                    Err(e) => Err(e),
                },
            ),
    {
        match JsonIR::read_text(c) {
            Ok(t) => Ok(JsonIR::String(t)),
            Err(e) => Err(e),
        }
    }

    /// Reads a run of digits as a `Number` node.
    pub fn build_number(c: &mut Cursor) -> (r: Result<JsonIR, ParseError>)
        requires
            old(c).wf(),
        ensures
            moved_on(*old(c), *final(c)),
            reads_as(
                r,
                old(c).pos as int,
                final(c).pos as int,
                match number_at(old(c).text@, old(c).pos as int) {
                    Ok((x, n)) => Ok((JsonValue::Number(x), n)),
                    Err(e) => Err(e),
                },
            ),
    {
        let ghost s = c.text@;
        let ghost begin = c.pos as int;
        let ghost run = digit_run(s, begin);
        let start = c.pos;
        let mut acc: i64 = 0;
        while c.pos < c.text.len() && is_digit_char(c.text[c.pos])
            invariant
                c.wf(),
                c.text@ == s,
                s == old(c).text@,
                begin == old(c).pos,
                begin <= c.pos,
                acc >= 0,
                acc == digits_value(s.subrange(begin, c.pos as int)),
                run == digit_run(s, begin),
                run == (c.pos - begin) + digit_run(s, c.pos as int),
            decreases c.text.len() - c.pos,
        {
            let d = (c.text[c.pos] as u32) - ('0' as u32);
            let next: i128 = (acc as i128) * 10 + (d as i128);
            proof {
                lemma_digits_step(s, begin, c.pos as int);
            }
            if next > (i64::MAX as i128) {
                proof {
                    assert(digit_run(s, c.pos as int) >= 1);
                    lemma_span_bound(s, begin, digit_class());
                    lemma_digits_grow_at(s, begin, c.pos + 1, begin + run);
                }
                return Err(ParseError::InvalidNumber);
            }
            acc = next as i64;
            c.pos = c.pos + 1;
        }
        if c.pos == start {
            return Err(ParseError::InvalidNumber);
        }
        Ok(JsonIR::Number(acc))
    }

    /// Reads the characters of `w`, giving `v` when all of them are there.
    pub fn build_keyword(c: &mut Cursor, w: &[char], v: JsonIR) -> (r: Result<JsonIR, ParseError>)
        requires
            old(c).wf(),
        ensures
            moved_on(*old(c), *final(c)),
            reads_as(r, old(c).pos as int, final(c).pos as int, keyword_at(old(c).text@, old(c).pos as int, w@, v@)),
    {
        let ghost s = c.text@;
        let ghost begin = c.pos as int;
        let mut k: usize = 0;
        while k < w.len()
            invariant
                c.wf(),
                c.text@ == s,
                s == old(c).text@,
                begin == old(c).pos,
                k <= w@.len(),
                c.pos == begin + k,
                word_at(s, begin, w@, 0) == word_at(s, begin, w@, k as int),
            decreases w@.len() - k,
        {
            match JsonIR::consume(c, w[k]) {
                Err(e) => {
                    return Err(e);
                },
                Ok(_) => {},
            }
            k = k + 1;
        }
        Ok(v)
    }
}

/// `r` is what the text `s` denotes.
pub open spec fn parsed_as(s: Seq<char>, r: Result<JsonIR, ParseError>) -> bool {
    match parse_spec(s) {
        Ok(v) => r matches Ok(x) && x@ == v,
        Err(e) => r == Err::<JsonIR, ParseError>(e),
    }
}

/// Parses the value at the start of `input`; what follows that value is not read.
pub fn parse(input: &str) -> (r: Result<JsonIR, ParseError>)
    ensures
        parsed_as(input@, r),
{
    let mut c = Cursor::new(input);
    JsonIR::build(&mut c)
}

impl JsonIR {
    /// Parses the value at the start of `s`.
    pub fn new(s: String) -> (r: Result<JsonIR, ParseError>)
        ensures
            parsed_as(s@, r),
    {
        parse(s.as_str())
    }
}

} // verus!
