//! JSON values as the archive reads them.
//!
//! Reading and writing JSON text is `serde_json`'s work. What the rest of the
//! library reads is [`Json`], whose contents are plain values.

use vstd::prelude::*;

use crate::text::{decimal_int, same};

verus! {

// ---------------------------------------------------------------------------
// What a JSON value is
// ---------------------------------------------------------------------------

/// A JSON value, apart from how it is stored.
pub enum JsonV {
    Null,
    Bool(bool),
    Int(int),
    /// A number that is not a 64-bit integer.
    Float(serde_json::Number),
    Str(Seq<char>),
    Array(Seq<JsonV>),
    Object(Map<Seq<char>, JsonV>),
}

/// The value of a member of an object.
pub open spec fn field(v: JsonV, key: Seq<char>) -> Option<JsonV> {
    match v {
        JsonV::Object(m) => if m.contains_key(key) {
            Some(m[key])
        } else {
            None
        },
        _ => None,
    }
}

/// The text of a value: scalars as they read, containers as compact JSON.
pub open spec fn text_of(v: JsonV) -> Seq<char> {
    match v {
        JsonV::Null => "null"@,
        JsonV::Bool(b) => if b {
            "true"@
        } else {
            "false"@
        },
        JsonV::Int(n) => decimal_int(n),
        _ => json_text(v),
    }
}

/// What a value is written as: text between quotation marks, anything else as
/// its text.
pub open spec fn written(v: JsonV) -> Seq<char> {
    match v {
        JsonV::Str(_) => json_text(v),
        _ => text_of(v),
    }
}

/// Whether arrays and objects nest at most `depth` levels deep.
pub open spec fn nested_within(v: JsonV, depth: nat) -> bool
    decreases depth,
{
    match v {
        JsonV::Array(a) => depth > 0 && forall|i: int|
            0 <= i < a.len() ==> nested_within(#[trigger] a[i], (depth - 1) as nat),
        JsonV::Object(m) => depth > 0 && forall|k: Seq<char>|
            m.contains_key(k) ==> nested_within(#[trigger] m[k], (depth - 1) as nat),
        _ => true,
    }
}

/// Whether no number in the value is a float, down to `depth` levels.
pub open spec fn float_free(v: JsonV, depth: nat) -> bool
    decreases depth,
{
    match v {
        JsonV::Float(_) => false,
        JsonV::Array(a) => depth > 0 && forall|i: int|
            0 <= i < a.len() ==> float_free(#[trigger] a[i], (depth - 1) as nat),
        JsonV::Object(m) => depth > 0 && forall|k: Seq<char>|
            m.contains_key(k) ==> float_free(#[trigger] m[k], (depth - 1) as nat),
        _ => true,
    }
}

/// How deep JSON text may nest for it to be readable.
pub open spec fn max_depth() -> nat {
    127
}

/// A value that reads back from its own text unchanged.
pub open spec fn storable(v: JsonV) -> bool {
    nested_within(v, max_depth()) && float_free(v, max_depth())
}

/// No two entries have the same key.
pub open spec fn distinct_keys<T>(s: Seq<(String, T)>) -> bool {
    forall|i: int, j: int|
        0 <= i < j < s.len() ==> (#[trigger] s[i]).0@ != (#[trigger] s[j]).0@
}

pub open spec fn has_key<T>(s: Seq<(String, T)>, key: Seq<char>) -> bool {
    exists|i: int| 0 <= i < s.len() && (#[trigger] s[i]).0@ == key
}

pub open spec fn key_position<T>(s: Seq<(String, T)>, key: Seq<char>) -> int {
    choose|i: int| 0 <= i < s.len() && (#[trigger] s[i]).0@ == key
}

// ---------------------------------------------------------------------------
// serde_json
// ---------------------------------------------------------------------------

/// `serde_json::Value`, the tree that `serde_json` reads text into.
#[verifier::external_type_specification]
#[verifier::external_body]
pub struct ExValue(serde_json::Value);

/// `serde_json::Number`.
#[verifier::external_type_specification]
#[verifier::external_body]
pub struct ExNumber(serde_json::Number);

/// `serde_json::Error`.
#[verifier::external_type_specification]
#[verifier::external_body]
pub struct ExError(serde_json::Error);

/// What a `serde_json::Value` holds.
pub uninterp spec fn held(v: serde_json::Value) -> JsonV;

/// Whether a number is stored as a float rather than as a 64-bit integer.
pub uninterp spec fn fractional(n: serde_json::Number) -> bool;

/// A number cut toward zero and clamped to the range of `i64`.
pub uninterp spec fn whole_part(n: serde_json::Number) -> int;

/// The value that a JSON text denotes; `None` if it is not JSON.
pub uninterp spec fn json_parsed(text: Seq<char>) -> Option<JsonV>;

/// How a reader describes what is wrong with a text that is not JSON.
pub uninterp spec fn json_complaint(text: Seq<char>) -> Seq<char>;

/// The description that a `serde_json::Error` carries.
pub uninterp spec fn complaint_text(e: serde_json::Error) -> Seq<char>;

/// The compact JSON text of a value.
pub uninterp spec fn json_text(v: JsonV) -> Seq<char>;

/// The indented JSON text of a value; `None` if it cannot be written.
pub uninterp spec fn json_pretty(v: JsonV) -> Option<Seq<char>>;

/// One level of a `serde_json::Value`.
enum Node {
    Null,
    Bool(bool),
    Int(i64),
    UInt(u64),
    Float(serde_json::Number),
    Str(String),
    Array(Vec<serde_json::Value>),
    Object(Vec<(String, serde_json::Value)>),
}

spec fn held_array(s: Seq<serde_json::Value>) -> Seq<JsonV> {
    s.map_values(|v: serde_json::Value| held(v))
}

spec fn held_object(s: Seq<(String, serde_json::Value)>) -> Map<Seq<char>, JsonV> {
    Map::new(|k: Seq<char>| has_key(s, k), |k: Seq<char>| held(s[key_position(s, k)].1))
}

impl Node {
    spec fn view(&self) -> JsonV {
        match self {
            Node::Null => JsonV::Null,
            Node::Bool(b) => JsonV::Bool(*b),
            Node::Int(n) => JsonV::Int(*n as int),
            Node::UInt(n) => JsonV::Int(*n as int),
            Node::Float(n) => JsonV::Float(*n),
            Node::Str(s) => JsonV::Str(s@),
            Node::Array(a) => JsonV::Array(held_array(a@)),
            Node::Object(o) => JsonV::Object(held_object(o@)),
        }
    }

    spec fn sound(&self) -> bool {
        match self {
            Node::Float(n) => fractional(*n),
            Node::Object(o) => distinct_keys(o@),
            _ => true,
        }
    }
}

/// Calls `serde_json::from_str`. Claimed: whether the text is JSON, the value it
/// denotes and what is said against it depend on the text alone, and what was
/// read nests at most 127 levels deep, the limit that the reader enforces.
#[verifier::external_body]
fn read_value(text: &str) -> (r: Result<serde_json::Value, serde_json::Error>)
    ensures
        match r {
            Ok(v) => json_parsed(text@) == Some(held(v)) && nested_within(held(v), max_depth()),
            Err(e) => json_parsed(text@) is None && complaint_text(e) == json_complaint(text@),
        },
{
    serde_json::from_str::<serde_json::Value>(text)
}

/// Calls `to_string` of `serde_json::Error`. Claimed: the description depends on
/// the error alone.
#[verifier::external_body]
fn error_text(e: &serde_json::Error) -> (r: String)
    ensures
        r@ == complaint_text(*e),
{
    e.to_string()
}

/// Takes one level of a `serde_json::Value` apart. Claimed: the parts are what
/// the value held, a number that is neither an `i64` nor a `u64` is stored as a
/// float, and an object has each key once.
#[verifier::external_body]
fn open_value(v: serde_json::Value) -> (r: Node)
    ensures
        r@ == held(v),
        r.sound(),
        r matches Node::Float(n) ==> fractional(n),
{
    match v {
        serde_json::Value::Null => Node::Null,
        serde_json::Value::Bool(b) => Node::Bool(b),
        serde_json::Value::Number(n) => match (n.as_i64(), n.as_u64()) {
            (Some(i), _) => Node::Int(i),
            (None, Some(u)) => Node::UInt(u),
            (None, None) => Node::Float(n),
        },
        serde_json::Value::String(s) => Node::Str(s),
        serde_json::Value::Array(a) => Node::Array(a),
        serde_json::Value::Object(o) => Node::Object(o.into_iter().collect()),
    }
}

/// Puts one level of a `serde_json::Value` together. Claimed: the value holds
/// the parts.
#[verifier::external_body]
fn close_value(node: Node) -> (r: serde_json::Value)
    requires
        node.sound(),
    ensures
        held(r) == node@,
{
    match node {
        Node::Null => serde_json::Value::Null,
        Node::Bool(b) => serde_json::Value::Bool(b),
        Node::Int(n) => serde_json::Value::from(n),
        Node::UInt(n) => serde_json::Value::from(n),
        Node::Float(n) => serde_json::Value::Number(n),
        Node::Str(s) => serde_json::Value::String(s),
        Node::Array(a) => serde_json::Value::Array(a),
        Node::Object(o) => serde_json::Value::Object(o.into_iter().collect()),
    }
}

/// Calls `to_string` of `serde_json::Value`. Claimed: the text depends on what
/// the value holds alone; `null`, booleans and integers are written plainly;
/// and a value without floats that nests no deeper than the reader allows reads
/// back unchanged.
#[verifier::external_body]
fn value_text(v: &serde_json::Value) -> (r: String)
    ensures
        r@ == json_text(held(*v)),
        held(*v) is Null ==> r@ == "null"@,
        held(*v) == JsonV::Bool(true) ==> r@ == "true"@,
        held(*v) == JsonV::Bool(false) ==> r@ == "false"@,
        held(*v) matches JsonV::Int(n) ==> r@ == decimal_int(n),
        storable(held(*v)) ==> json_parsed(r@) == Some(held(*v)),
{
    v.to_string()
}

/// Calls `serde_json::to_string_pretty`. Claimed: the outcome depends on what
/// the value holds alone, and the text of a value without floats that nests no
/// deeper than the reader allows reads back unchanged.
#[verifier::external_body]
fn value_pretty(v: &serde_json::Value) -> (r: Result<String, serde_json::Error>)
    ensures
        match r {
            Ok(s) => json_pretty(held(*v)) == Some(s@) && (storable(held(*v)) ==> json_parsed(s@)
                == Some(held(*v))),
            Err(_) => json_pretty(held(*v)) is None,
        },
{
    serde_json::to_string_pretty(v)
}

/// Reads a number as a float and casts it to `i64`. Claimed: the result depends
/// on the number alone.
#[verifier::external_body]
fn number_whole(n: &serde_json::Number) -> (r: i64)
    ensures
        r == whole_part(*n),
{
    n.as_f64().map_or(0, |f| f as i64)
}

/// Cloning a `serde_json::Number` gives the same number.
pub assume_specification[ <serde_json::Number as Clone>::clone ](
    n: &serde_json::Number,
) -> (r: serde_json::Number)
    ensures
        r == *n,
;

// ---------------------------------------------------------------------------
// Values
// ---------------------------------------------------------------------------

/// A JSON value.
#[derive(Debug)]
pub enum Json {
    Null,
    Bool(bool),
    Int(i64),
    UInt(u64),
    Float(JsonFloat),
    Str(String),
    Array(Vec<Json>),
    Object(JsonObject),
}

/// A number that is not a 64-bit integer.
#[derive(Debug)]
pub struct JsonFloat {
    number: serde_json::Number,
}

/// An object: each key at most once.
#[derive(Debug)]
pub struct JsonObject {
    entries: Vec<(String, Json)>,
}

/// Text that is not JSON.
#[derive(Debug)]
pub struct NotJson {
    /// What is wrong with it.
    pub detail: String,
}

impl JsonFloat {
    #[verifier::type_invariant]
    spec fn stored_as_float(self) -> bool {
        fractional(self.number)
    }

    pub closed spec fn view(&self) -> serde_json::Number {
        self.number
    }

    /// The number cut toward zero and clamped to the range of `i64`.
    pub fn whole(&self) -> (r: i64)
        ensures
            r == whole_part(self@),
    {
        number_whole(&self.number)
    }

    fn copy(&self) -> (r: JsonFloat)
        ensures
            r@ == self@,
    {
        proof {
            use_type_invariant(self);
        }
        JsonFloat { number: self.number.clone() }
    }
}

impl JsonObject {
    #[verifier::type_invariant]
    spec fn keys_are_distinct(self) -> bool {
        distinct_keys(self.entries@)
    }

    pub closed spec fn view(&self) -> Map<Seq<char>, JsonV>
        decreases self,
    {
        Map::new(
            |k: Seq<char>| has_key(self.entries@, k),
            |k: Seq<char>|
                {
                    let i = key_position(self.entries@, k);
                    if 0 <= i < self.entries@.len() {
                        self.entries@[i].1.view()
                    } else {
                        JsonV::Null
                    }
                },
        )
    }

    proof fn lemma_entry(&self, i: int)
        requires
            distinct_keys(self.entries@),
            0 <= i < self.entries@.len(),
        ensures
            self@.contains_key(self.entries@[i].0@),
            self@[self.entries@[i].0@] == self.entries@[i].1@,
    {
        let k = self.entries@[i].0@;
        assert(has_key(self.entries@, k));
        let j = key_position(self.entries@, k);
        assert(0 <= j < self.entries@.len() && self.entries@[j].0@ == k);
        assert(i == j);
    }

    /// An object with no members.
    pub fn new() -> (r: JsonObject)
        ensures
            r@ == Map::<Seq<char>, JsonV>::empty(),
    {
        let r = JsonObject { entries: Vec::new() };
        assert(r@ =~= Map::<Seq<char>, JsonV>::empty());
        r
    }

    /// Where `key` stands; the number of members if it does not.
    fn find(&self, key: &str) -> (r: usize)
        ensures
            r <= self.entries@.len(),
            r < self.entries@.len() ==> self.entries@[r as int].0@ == key@,
            r == self.entries@.len() ==> !has_key(self.entries@, key@),
    {
        let mut i: usize = 0;
        while i < self.entries.len()
            invariant
                i <= self.entries@.len(),
                forall|j: int| 0 <= j < i ==> (#[trigger] self.entries@[j]).0@ != key@,
            decreases self.entries@.len() - i,
        {
            if same(self.entries[i].0.as_str(), key) {
                return i;
            }
            i += 1;
        }
        i
    }

    /// Sets a member, in place of an earlier one with the same key.
    pub fn insert(&mut self, key: String, value: Json)
        ensures
            final(self)@ == old(self)@.insert(key@, value@),
    {
        proof {
            use_type_invariant(&*self);
        }
        let i = self.find(key.as_str());
        let ghost before = *self;
        let ghost k = key@;
        let mut entries: Vec<(String, Json)> = Vec::new();
        core::mem::swap(&mut entries, &mut self.entries);
        if i < entries.len() {
            entries.set(i, (key, value));
        } else {
            entries.push((key, value));
        }
        self.entries = entries;
        proof {
            let after = *self;
            assert forall|q: Seq<char>| after@.contains_key(q) <==> before@.insert(
                k,
                value@,
            ).contains_key(q) by {
                if has_key(after.entries@, q) {
                    let j = key_position(after.entries@, q);
                    if j != i {
                        assert(before.entries@[j].0@ == q);
                    }
                }
                if q == k {
                    assert(after.entries@[i as int].0@ == q);
                } else if has_key(before.entries@, q) {
                    let j = key_position(before.entries@, q);
                    assert(after.entries@[j].0@ == q);
                }
            }
            assert forall|q: Seq<char>| #[trigger] after@.contains_key(q) implies after@[q]
                == before@.insert(k, value@)[q] by {
                let j = key_position(after.entries@, q);
                after.lemma_entry(j);
                if j != i {
                    before.lemma_entry(j);
                }
            }
            assert(after@ =~= before@.insert(k, value@));
        }
    }

    pub fn get(&self, key: &str) -> (r: Option<&Json>)
        ensures
            match r {
                Some(v) => self@.contains_key(key@) && v@ == self@[key@],
                None => !self@.contains_key(key@),
            },
    {
        proof {
            use_type_invariant(self);
        }
        let i = self.find(key);
        if i < self.entries.len() {
            proof {
                self.lemma_entry(i as int);
            }
            Some(&self.entries[i].1)
        } else {
            None
        }
    }

    /// Whether `key` is the only member.
    pub fn is_only(&self, key: &str) -> (r: bool)
        ensures
            r <==> self@.dom() == set![key@],
    {
        proof {
            use_type_invariant(self);
        }
        let only = self.entries.len() == 1 && same(self.entries[0].0.as_str(), key);
        proof {
            if only {
                self.lemma_entry(0);
                assert(self@.dom() =~= set![key@]);
            } else if self@.dom() == set![key@] {
                assert(self@.dom().contains(key@));
                let i = key_position(self.entries@, key@);
                if self.entries@.len() > 1 {
                    let j: int = if i == 0 {
                        1
                    } else {
                        0
                    };
                    self.lemma_entry(j);
                    assert(self@.dom().contains(self.entries@[j].0@));
                }
            }
        }
        only
    }

    fn copy(&self) -> (r: JsonObject)
        ensures
            r@ == self@,
        decreases self,
    {
        proof {
            use_type_invariant(self);
        }
        let mut out: Vec<(String, Json)> = Vec::new();
        let mut i: usize = 0;
        while i < self.entries.len()
            invariant
                i <= self.entries@.len(),
                out@.len() == i,
                forall|j: int|
                    0 <= j < i ==> (#[trigger] out@[j]).0@ == self.entries@[j].0@ && out@[j].1@
                        == self.entries@[j].1@,
            decreases self.entries@.len() - i,
        {
            out.push((self.entries[i].0.clone(), self.entries[i].1.copy()));
            i += 1;
        }
        assert(distinct_keys(out@)) by {
            assert forall|a: int, b: int| 0 <= a < b < out@.len() implies (#[trigger] out@[a]).0@
                != (#[trigger] out@[b]).0@ by {
                assert(self.entries@[a].0@ != self.entries@[b].0@);
            }
        }
        let r = JsonObject { entries: out };
        proof {
            assert forall|q: Seq<char>| #[trigger] r@.contains_key(q) <==> self@.contains_key(q) by {
                if has_key(r.entries@, q) {
                    let j = key_position(r.entries@, q);
                    assert(self.entries@[j].0@ == q);
                }
                if has_key(self.entries@, q) {
                    let j = key_position(self.entries@, q);
                    assert(r.entries@[j].0@ == q);
                }
            }
            assert forall|q: Seq<char>| #[trigger] r@.contains_key(q) implies r@[q] == self@[q] by {
                let j = key_position(r.entries@, q);
                r.lemma_entry(j);
                self.lemma_entry(j);
            }
            assert(r@ =~= self@);
        }
        r
    }
}

/// The contents of a list of values.
pub open spec fn json_views(s: Seq<Json>) -> Seq<JsonV> {
    s.map_values(|v: Json| v@)
}

impl Json {
    pub open spec fn view(&self) -> JsonV
        decreases self,
    {
        match self {
            Json::Null => JsonV::Null,
            Json::Bool(b) => JsonV::Bool(*b),
            Json::Int(n) => JsonV::Int(*n as int),
            Json::UInt(n) => JsonV::Int(*n as int),
            Json::Float(n) => JsonV::Float(n@),
            Json::Str(s) => JsonV::Str(s@),
            Json::Array(a) => JsonV::Array(
                Seq::new(
                    a@.len(),
                    |i: int|
                        if 0 <= i < a@.len() {
                            a@[i].view()
                        } else {
                            JsonV::Null
                        },
                ),
            ),
            Json::Object(o) => JsonV::Object(o.view()),
        }
    }

    /// An array holds its elements.
    pub broadcast proof fn lemma_array_view(a: Vec<Json>)
        ensures
            #[trigger] Json::Array(a)@ == JsonV::Array(json_views(a@)),
    {
        assert(Json::Array(a)@->Array_0 =~= json_views(a@));
    }

    /// The same value again.
    pub fn copy(&self) -> (r: Json)
        ensures
            r@ == self@,
        decreases self,
    {
        match self {
            Json::Null => Json::Null,
            Json::Bool(b) => Json::Bool(*b),
            Json::Int(n) => Json::Int(*n),
            Json::UInt(n) => Json::UInt(*n),
            Json::Float(n) => Json::Float(n.copy()),
            Json::Str(s) => Json::Str(s.clone()),
            Json::Array(a) => {
                let mut out: Vec<Json> = Vec::new();
                let mut i: usize = 0;
                while i < a.len()
                    invariant
                        i <= a@.len(),
                        out@.len() == i,
                        forall|j: int| 0 <= j < i ==> (#[trigger] out@[j])@ == a@[j]@,
                        decreases_to!(self => a@),
                    decreases a@.len() - i,
                {
                    out.push(a[i].copy());
                    i += 1;
                }
                let r = Json::Array(out);
                assert(r@->Array_0 =~= self@->Array_0);
                r
            },
            Json::Object(o) => Json::Object(o.copy()),
        }
    }

    /// Reads JSON text.
    pub fn parse(text: &str) -> (r: Result<Json, NotJson>)
        ensures
            match r {
                Ok(v) => json_parsed(text@) == Some(v@) && nested_within(v@, max_depth()),
                Err(e) => json_parsed(text@) is None && e.detail@ == json_complaint(text@),
            },
    {
        match read_value(text) {
            Ok(v) => Ok(from_value(v, Ghost(max_depth()))),
            Err(e) => Err(NotJson { detail: error_text(&e) }),
        }
    }

    /// The value as compact JSON.
    pub fn encode(&self) -> (r: String)
        ensures
            r@ == json_text(self@),
            r@ == written(self@),
            storable(self@) ==> json_parsed(r@) == Some(self@),
    {
        let v = to_value(self);
        value_text(&v)
    }

    /// The value as indented JSON; `None` if it cannot be written.
    pub fn encode_pretty(&self) -> (r: Option<String>)
        ensures
            match r {
                Some(s) => json_pretty(self@) == Some(s@) && (storable(self@) ==> json_parsed(s@)
                    == Some(self@)),
                None => json_pretty(self@) is None,
            },
    {
        let v = to_value(self);
        match value_pretty(&v) {
            Ok(s) => Some(s),
            Err(_) => None,
        }
    }

    /// A member of an object.
    pub fn get(&self, key: &str) -> (r: Option<&Json>)
        ensures
            match r {
                Some(v) => field(self@, key@) == Some(v@),
                None => field(self@, key@) is None,
            },
    {
        match self {
            Json::Object(o) => o.get(key),
            _ => None,
        }
    }
}

impl Clone for Json {
    fn clone(&self) -> (r: Json)
        ensures
            r@ == self@,
    {
        self.copy()
    }
}

fn from_value(v: serde_json::Value, Ghost(depth): Ghost<nat>) -> (r: Json)
    requires
        nested_within(held(v), depth),
    ensures
        r@ == held(v),
    decreases depth,
{
    match open_value(v) {
        Node::Null => Json::Null,
        Node::Bool(b) => Json::Bool(b),
        Node::Int(n) => Json::Int(n),
        Node::UInt(n) => Json::UInt(n),
        Node::Float(number) => Json::Float(JsonFloat { number }),
        Node::Str(s) => Json::Str(s),
        Node::Array(a) => {
            let ghost all = a@;
            let mut out: Vec<Json> = Vec::new();
            assert forall|j: int| 0 <= j < all.len() implies nested_within(
                held(#[trigger] all[j]),
                (depth - 1) as nat,
            ) by {
                assert(held(v)->Array_0[j] == held(all[j]));
            }
            for x in it: a
                invariant
                    depth > 0,
                    it.seq() == all,
                    out@.len() == it.index(),
                    forall|j: int|
                        0 <= j < all.len() ==> nested_within(
                            held(#[trigger] all[j]),
                            (depth - 1) as nat,
                        ),
                    forall|j: int| 0 <= j < out@.len() ==> (#[trigger] out@[j])@ == held(all[j]),
            {
                out.push(from_value(x, Ghost((depth - 1) as nat)));
            }
            let r = Json::Array(out);
            assert(r@->Array_0 =~= held_array(all));
            r
        },
        Node::Object(o) => {
            let ghost all = o@;
            let mut out: Vec<(String, Json)> = Vec::new();
            assert forall|j: int| 0 <= j < all.len() implies nested_within(
                held((#[trigger] all[j]).1),
                (depth - 1) as nat,
            ) by {
                lemma_held_entry(all, j);
                let k = all[j].0@;
                assert(held(v)->Object_0.contains_key(k));
                assert(held(v)->Object_0[k] == held(all[j].1));
            }
            for x in it: o
                invariant
                    depth > 0,
                    it.seq() == all,
                    out@.len() == it.index(),
                    forall|j: int|
                        0 <= j < all.len() ==> nested_within(
                            held((#[trigger] all[j]).1),
                            (depth - 1) as nat,
                        ),
                    forall|j: int|
                        0 <= j < out@.len() ==> (#[trigger] out@[j]).0@ == all[j].0@ && out@[j].1@
                            == held(all[j].1),
            {
                let (key, value) = x;
                out.push((key, from_value(value, Ghost((depth - 1) as nat))));
            }
            proof {
                lemma_same_object(out@, all);
            }
            let o = JsonObject { entries: out };
            assert(o.view() == held_object(all));
            Json::Object(o)
        },
    }
}

proof fn lemma_held_entry(s: Seq<(String, serde_json::Value)>, i: int)
    requires
        distinct_keys(s),
        0 <= i < s.len(),
    ensures
        held_object(s).contains_key(s[i].0@),
        held_object(s)[s[i].0@] == held(s[i].1),
{
    let k = s[i].0@;
    assert(has_key(s, k));
    let j = key_position(s, k);
    assert(0 <= j < s.len() && s[j].0@ == k);
    assert(i == j);
}

/// Entries that match one by one make the same object.
proof fn lemma_same_object(a: Seq<(String, Json)>, b: Seq<(String, serde_json::Value)>)
    requires
        a.len() == b.len(),
        distinct_keys(a) || distinct_keys(b),
        forall|j: int|
            0 <= j < a.len() ==> (#[trigger] a[j]).0@ == b[j].0@ && a[j].1@ == held(b[j].1),
    ensures
        distinct_keys(a),
        distinct_keys(b),
        forall|o: JsonObject| o.entries@ == a ==> #[trigger] o.view() == held_object(b),
{
    assert forall|i: int, j: int| 0 <= i < j < a.len() implies (#[trigger] a[i]).0@ != (
    #[trigger] a[j]).0@ by {
        assert(a[i].0@ == b[i].0@ && a[j].0@ == b[j].0@);
    }
    assert forall|i: int, j: int| 0 <= i < j < b.len() implies (#[trigger] b[i]).0@ != (
    #[trigger] b[j]).0@ by {
        assert(a[i].0@ == b[i].0@ && a[j].0@ == b[j].0@);
    }
    assert forall|o: JsonObject| o.entries@ == a implies #[trigger] o.view() == held_object(b) by {
        assert forall|q: Seq<char>| #[trigger] o@.contains_key(q) <==> held_object(b).contains_key(
            q,
        ) by {
            if has_key(a, q) {
                assert(b[key_position(a, q)].0@ == q);
            }
            if has_key(b, q) {
                assert(a[key_position(b, q)].0@ == q);
            }
        }
        assert forall|q: Seq<char>| #[trigger] o@.contains_key(q) implies o@[q] == held_object(
            b,
        )[q] by {
            let j = key_position(a, q);
            o.lemma_entry(j);
            lemma_held_entry(b, j);
        }
        assert(o@ =~= held_object(b));
    }
}

fn to_value(v: &Json) -> (r: serde_json::Value)
    ensures
        held(r) == v@,
    decreases v,
{
    match v {
        Json::Null => close_value(Node::Null),
        Json::Bool(b) => close_value(Node::Bool(*b)),
        Json::Int(n) => close_value(Node::Int(*n)),
        Json::UInt(n) => close_value(Node::UInt(*n)),
        Json::Float(n) => {
            proof {
                use_type_invariant(n);
            }
            close_value(Node::Float(n.number.clone()))
        },
        Json::Str(s) => close_value(Node::Str(s.clone())),
        Json::Array(a) => {
            let mut out: Vec<serde_json::Value> = Vec::new();
            let mut i: usize = 0;
            while i < a.len()
                invariant
                    i <= a@.len(),
                    out@.len() == i,
                    forall|j: int| 0 <= j < i ==> held(#[trigger] out@[j]) == a@[j]@,
                    decreases_to!(v => a@),
                decreases a@.len() - i,
            {
                out.push(to_value(&a[i]));
                i += 1;
            }
            assert(v@->Array_0 =~= held_array(out@));
            close_value(Node::Array(out))
        },
        Json::Object(o) => object_to_value(o),
    }
}

fn object_to_value(o: &JsonObject) -> (r: serde_json::Value)
    ensures
        held(r) == JsonV::Object(o@),
    decreases o,
{
    proof {
        use_type_invariant(o);
    }
    let mut out: Vec<(String, serde_json::Value)> = Vec::new();
    let mut i: usize = 0;
    while i < o.entries.len()
        invariant
            i <= o.entries@.len(),
            out@.len() == i,
            forall|j: int|
                0 <= j < i ==> o.entries@[j].0@ == (#[trigger] out@[j]).0@ && o.entries@[j].1@
                    == held(out@[j].1),
        decreases o.entries@.len() - i,
    {
        out.push((o.entries[i].0.clone(), to_value(&o.entries[i].1)));
        i += 1;
    }
    proof {
        assert forall|j: int| 0 <= j < o.entries@.len() implies (#[trigger] o.entries@[j]).0@
            == out@[j].0@ && o.entries@[j].1@ == held(out@[j].1) by {
            assert(out@[j].0@ == o.entries@[j].0@);
        }
        lemma_same_object(o.entries@, out@);
    }
    close_value(Node::Object(out))
}

/// A member is found under its key, and no other member is; what is not an object
/// has no members.
pub proof fn members_are_found_by_key(
    m: Map<Seq<char>, JsonV>,
    key: Seq<char>,
    other: Seq<char>,
    v: JsonV,
)
    ensures
        field(JsonV::Object(m.insert(key, v)), key) == Some(v),
        key != other ==> field(JsonV::Object(m.insert(key, v)), other) == field(
            JsonV::Object(m),
            other,
        ),
        field(JsonV::Object(m.remove(key)), key) is None,
        !(v is Object) ==> field(v, key) is None,
{
}

/// Flat values without floats are storable, and lists and objects of storable
/// values are, up to the depth that can be read.
pub proof fn plain_values_are_storable(v: JsonV)
    ensures
        v is Null || v is Bool || v is Int || v is Str ==> storable(v),
        v is Float ==> !storable(v),
        v matches JsonV::Array(a) ==> (storable(v) <==> forall|i: int|
            0 <= i < a.len() ==> nested_within(#[trigger] a[i], 126) && float_free(a[i], 126)),
        v matches JsonV::Object(m) ==> (storable(v) <==> forall|k: Seq<char>|
            m.contains_key(k) ==> nested_within(#[trigger] m[k], 126) && float_free(m[k], 126)),
{
}

} // verus!
