use vstd::prelude::*;

verus! {

broadcast use vstd::std_specs::vec::group_vec_axioms;

/// A parsed JSON value: a tree that owns all of its children.
#[derive(Debug, PartialEq, Eq)]
pub enum JsonIR {
    Bool(bool),
    Number(i64),
    String(String),
    Array(Vec<JsonIR>),
    /// Members with distinct keys, in the order in which each key first appeared.
    Object(Vec<(String, JsonIR)>),
    Null,
}

/// The mathematical value of a `JsonIR` tree.
pub enum JsonValue {
    Bool(bool),
    Number(i64),
    Str(Seq<char>),
    Array(Seq<JsonValue>),
    Object(Seq<(Seq<char>, JsonValue)>),
    Null,
}

/// Why a text could not be parsed.
#[derive(Debug, Clone, PartialEq, Eq)]
pub enum ParseError {
    /// The text ended where a mandatory token was expected.
    UnexpectedEndOfInput,
    /// A required character was absent.
    UnexpectedToken { expected: char, found: char, position: usize },
    /// An object key did not begin with a double quote.
    InvalidKey,
    /// A run of digits does not fit in an `i64`.
    InvalidNumber,
}

impl JsonIR {
    /// The value that this tree stands for.
    pub open spec fn view(&self) -> JsonValue
        decreases self,
    {
        match self {
            JsonIR::Bool(b) => JsonValue::Bool(*b),
            JsonIR::Number(n) => JsonValue::Number(*n),
            JsonIR::String(s) => JsonValue::Str(s@),
            JsonIR::Array(items) => JsonValue::Array(
                Seq::new(
                    items.len() as nat,
                    |i: int|
                        if 0 <= i < items.len() {
                            items[i].view()
                        } else {
                            JsonValue::Null
                        },
                ),
            ),
            JsonIR::Object(members) => JsonValue::Object(
                Seq::new(
                    members.len() as nat,
                    |i: int|
                        if 0 <= i < members.len() {
                            (members[i].0@, members[i].1.view())
                        } else {
                            (Seq::empty(), JsonValue::Null)
                        },
                ),
            ),
            JsonIR::Null => JsonValue::Null,
        }
    }
}

/// The values of a sequence of trees.
pub open spec fn items_view(v: Seq<JsonIR>) -> Seq<JsonValue> {
    Seq::new(v.len(), |i: int| v[i]@)
}

/// The keys and values of a sequence of object members.
pub open spec fn members_view(m: Seq<(String, JsonIR)>) -> Seq<(Seq<char>, JsonValue)> {
    Seq::new(m.len(), |i: int| (m[i].0@, m[i].1@))
}

/// The value of an array node, element by element.
pub proof fn lemma_array_view(v: Vec<JsonIR>)
    ensures
        JsonIR::Array(v)@ == JsonValue::Array(items_view(v@)),
{
    let x = JsonIR::Array(v)@;
    assert(x matches JsonValue::Array(a) && a =~= items_view(v@));
}

/// The value of an object node, member by member.
pub proof fn lemma_object_view(m: Vec<(String, JsonIR)>)
    ensures
        JsonIR::Object(m)@ == JsonValue::Object(members_view(m@)),
{
    let x = JsonIR::Object(m)@;
    assert(x matches JsonValue::Object(a) && a =~= members_view(m@));
}

/// A copy of `a`, node by node.
pub fn clone_tree(a: &JsonIR) -> (r: JsonIR)
    ensures
        r@ == a@,
    decreases a,
{
    match a {
        JsonIR::Bool(b) => JsonIR::Bool(*b),
        JsonIR::Number(n) => JsonIR::Number(*n),
        JsonIR::String(t) => JsonIR::String(t.clone()),
        JsonIR::Null => JsonIR::Null,
        JsonIR::Array(xs) => {
            proof {
                lemma_array_view(*xs);
            }
            let ghost xv = items_view(xs@);
            let mut out: Vec<JsonIR> = Vec::new();
            let mut i: usize = 0;
            while i < xs.len()
                invariant
                    *a == JsonIR::Array(*xs),
                    a@ == JsonValue::Array(xv),
                    xv == items_view(xs@),
                    i <= xs.len(),
                    out.len() == i,
                    forall|k: int| 0 <= k < i ==> (#[trigger] out@[k])@ == xv[k],
                decreases xs.len() - i,
            {
                proof {
                    assert(decreases_to!(*xs => xs@[i as int]));
                }
                let x = clone_tree(&xs[i]);
                out.push(x);
                i = i + 1;
            }
            proof {
                lemma_array_view(out);
                assert(items_view(out@) =~= xv);
            }
            JsonIR::Array(out)
        },
        JsonIR::Object(ms) => {
            proof {
                lemma_object_view(*ms);
            }
            let ghost mv = members_view(ms@);
            let mut out: Vec<(String, JsonIR)> = Vec::new();
            let mut i: usize = 0;
            while i < ms.len()
                invariant
                    *a == JsonIR::Object(*ms),
                    a@ == JsonValue::Object(mv),
                    mv == members_view(ms@),
                    i <= ms.len(),
                    out.len() == i,
                    forall|k: int| 0 <= k < i ==> (#[trigger] out@[k]).0@ == mv[k].0 && out@[k].1@ == mv[k].1,
                decreases ms.len() - i,
            {
                proof {
                    assert(decreases_to!(*ms => ms@[i as int]));
                    assert(decreases_to!(ms@[i as int] => ms@[i as int].1));
                }
                let key = ms[i].0.clone();
                let v = clone_tree(&ms[i].1);
                out.push((key, v));
                i = i + 1;
            }
            proof {
                lemma_object_view(out);
                assert(members_view(out@) =~= mv);
            }
            JsonIR::Object(out)
        },
    }
}

impl Clone for JsonIR {
    fn clone(&self) -> (r: JsonIR)
        ensures
            r@ == self@,
    {
        clone_tree(self)
    }
}

} // verus!
