//! JSON values, as far as the protocol and the tools read and build them.

use vstd::prelude::*;

use crate::numbers;
use crate::text;
use crate::views;

verus! {

broadcast use {crate::views::group_all, crate::views::group_texts};

/// A JSON value.
#[derive(Debug)]
pub enum Json {
    Null,
    Bool(bool),
    /// A number, as it is written.
    Number(String),
    Text(String),
    Array(Vec<Json>),
    Object(Vec<Member>),
}

/// A member of a JSON object.
#[derive(Debug)]
pub struct Member {
    pub key: String,
    pub value: Json,
}

/// The model of a [`Json`].
pub enum JsonView {
    Null,
    Bool(bool),
    Number(Seq<char>),
    Text(Seq<char>),
    Array(Seq<JsonView>),
    Object(Seq<(Seq<char>, JsonView)>),
}

impl Json {
    /// The model of a value.
    pub open spec fn model(self) -> JsonView
        decreases self,
    {
        match self {
            Json::Null => JsonView::Null,
            Json::Bool(b) => JsonView::Bool(b),
            Json::Number(s) => JsonView::Number(s@),
            Json::Text(s) => JsonView::Text(s@),
            Json::Array(v) => JsonView::Array(
                Seq::new(
                    v@.len(),
                    |i: int|
                        if 0 <= i < v@.len() {
                            v@[i].model()
                        } else {
                            JsonView::Null
                        },
                ),
            ),
            Json::Object(v) => JsonView::Object(
                Seq::new(
                    v@.len(),
                    |i: int|
                        if 0 <= i < v@.len() {
                            (v@[i].key@, v@[i].value.model())
                        } else {
                            (Seq::empty(), JsonView::Null)
                        },
                ),
            ),
        }
    }
}

impl View for Json {
    type V = JsonView;

    open spec fn view(&self) -> JsonView {
        self.model()
    }
}

impl View for Member {
    type V = (Seq<char>, JsonView);

    open spec fn view(&self) -> (Seq<char>, JsonView) {
        (self.key@, self.value@)
    }
}

/// The model of an array holds the models of its items.
pub broadcast proof fn lemma_array(v: Vec<Json>)
    ensures
        (#[trigger] Json::Array(v).model()) == JsonView::Array(views::all(v@)),
{
    let m = Json::Array(v).model()->Array_0;
    assert(m =~= views::all(v@));
}

/// The model of an object holds the models of its members.
pub broadcast proof fn lemma_object(v: Vec<Member>)
    ensures
        (#[trigger] Json::Object(v).model()) == JsonView::Object(views::all(v@)),
{
    let m = Json::Object(v).model()->Object_0;
    assert(m =~= views::all(v@));
}

pub broadcast group group_json {
    lemma_array,
    lemma_object,
}

// ── Reading ──────────────────────────────────────────────────────────────

/// The model of an optional reference to a value.
pub open spec fn opt_json(o: Option<&Json>) -> Option<JsonView> {
    match o {
        Some(j) => Some(j@),
        None => None,
    }
}

/// The value of the first member with a key, from `i` on.
pub open spec fn member_from(
    members: Seq<(Seq<char>, JsonView)>,
    key: Seq<char>,
    i: int,
) -> Option<JsonView>
    decreases members.len() - i,
{
    if i < 0 || i >= members.len() {
        None
    } else if members[i].0 == key {
        Some(members[i].1)
    } else {
        member_from(members, key, i + 1)
    }
}

/// The member of an object with a key; other values have none.
pub open spec fn member(v: JsonView, key: Seq<char>) -> Option<JsonView> {
    match v {
        JsonView::Object(members) => member_from(members, key, 0),
        _ => None,
    }
}

/// The text that a value is.
pub open spec fn text_in(v: Option<JsonView>) -> Option<Seq<char>> {
    match v {
        Some(JsonView::Text(s)) => Some(s),
        _ => None,
    }
}

/// The truth value that a value is.
pub open spec fn bool_in(v: Option<JsonView>) -> Option<bool> {
    match v {
        Some(JsonView::Bool(b)) => Some(b),
        _ => None,
    }
}

/// The non-negative 64-bit integer that a value is.
pub open spec fn integer_in(v: Option<JsonView>) -> Option<u64> {
    match v {
        Some(JsonView::Number(s)) => match numbers::parse_unsigned(s, 10, u64::MAX as int) {
            Some(n) => Some(n as u64),
            None => None,
        },
        _ => None,
    }
}

impl Json {
    /// The member of an object with a key. See [`member`].
    pub fn get(&self, key: &str) -> (r: Option<&Json>)
        ensures
            opt_json(r) == member(self@, key@),
    {
        broadcast use group_json;

        match self {
            Json::Object(members) => {
                let ghost vm = views::all(members@);
                let mut i: usize = 0;
                while i < members.len()
                    invariant
                        vm == views::all(members@),
                        i <= members@.len(),
                        member_from(vm, key@, i as int) == member_from(vm, key@, 0),
                        self@ == JsonView::Object(vm),
                    decreases members@.len() - i,
                {
                    assert(vm[i as int] == members@[i as int]@);
                    if text::same(members[i].key.as_str(), key) {
                        return Some(&members[i].value);
                    }
                    i = i + 1;
                }
                None
            },
            _ => None,
        }
    }

    /// The text that the value is.
    pub fn as_text(&self) -> (r: Option<&str>)
        ensures
            (match r {
                Some(s) => Some(s@),
                None => None,
            }) == text_in(Some(self@)),
    {
        match self {
            Json::Text(s) => Some(s.as_str()),
            _ => None,
        }
    }

    /// The text of a member. See [`member`].
    pub fn text_at(&self, key: &str) -> (r: Option<String>)
        ensures
            views::opt_text(r) == text_in(member(self@, key@)),
    {
        match self.get(key) {
            Some(j) => match j {
                Json::Text(s) => Some(s.clone()),
                _ => None,
            },
            None => None,
        }
    }

    /// The truth value of a member. See [`member`].
    pub fn bool_at(&self, key: &str) -> (r: Option<bool>)
        ensures
            r == bool_in(member(self@, key@)),
    {
        match self.get(key) {
            Some(j) => match j {
                Json::Bool(b) => Some(*b),
                _ => None,
            },
            None => None,
        }
    }

    /// The non-negative integer of a member. See [`member`].
    pub fn integer_at(&self, key: &str) -> (r: Option<u64>)
        ensures
            r == integer_in(member(self@, key@)),
    {
        match self.get(key) {
            Some(j) => match j {
                Json::Number(s) => numbers::read_unsigned(s.as_str(), 10, u64::MAX),
                _ => None,
            },
            None => None,
        }
    }

    /// Copy a value.
    pub fn copy(&self) -> (r: Json)
        ensures
            r@ == self@,
        decreases self,
    {
        broadcast use group_json;

        match self {
            Json::Null => Json::Null,
            Json::Bool(b) => Json::Bool(*b),
            Json::Number(s) => Json::Number(s.clone()),
            Json::Text(s) => Json::Text(s.clone()),
            Json::Array(v) => {
                let ghost vv = views::all(v@);
                let mut out: Vec<Json> = Vec::new();
                for i in 0..v.len()
                    invariant
                        *self == Json::Array(*v),
                        vv == views::all(v@),
                        views::all(out@) == vv.take(i as int),
                {
                    proof {
                        views::lemma_take_step(vv, i as int);
                        assert(vv[i as int] == v@[i as int]@);
                        assert(decreases_to!(*self => self->Array_0));
                        assert(decreases_to!(self->Array_0 => v@));
                        assert(decreases_to!(v@ => v@[i as int]));
                        assert(decreases_to!(*self => v@[i as int]));
                    }
                    out.push(v[i].copy());
                }
                proof {
                    views::lemma_take_all(vv);
                }
                Json::Array(out)
            },
            Json::Object(v) => {
                let ghost vv = views::all(v@);
                let mut out: Vec<Member> = Vec::new();
                for i in 0..v.len()
                    invariant
                        *self == Json::Object(*v),
                        vv == views::all(v@),
                        views::all(out@) == vv.take(i as int),
                {
                    proof {
                        views::lemma_take_step(vv, i as int);
                        assert(vv[i as int] == v@[i as int]@);
                        assert(decreases_to!(*self => self->Object_0));
                        assert(decreases_to!(self->Object_0 => v@));
                        assert(decreases_to!(v@ => v@[i as int]));
                        assert(decreases_to!(v@[i as int] => v@[i as int].value));
                        assert(decreases_to!(*self => v@[i as int].value));
                    }
                    out.push(Member { key: v[i].key.clone(), value: v[i].value.copy() });
                }
                proof {
                    views::lemma_take_all(vv);
                }
                Json::Object(out)
            },
        }
    }
}

// ── Building ─────────────────────────────────────────────────────────────

/// A text value.
pub fn text_of(s: &str) -> (r: Json)
    ensures
        r@ == JsonView::Text(s@),
{
    Json::Text(text::owned(s))
}

/// A member of an object.
pub fn pair(key: &str, value: Json) -> (r: Member)
    ensures
        r@ == (key@, value@),
{
    Member { key: text::owned(key), value }
}

/// An object with one member.
pub fn object_of_one(key: &str, value: Json) -> (r: Json)
    ensures
        r@ == JsonView::Object(seq![(key@, value@)]),
{
    broadcast use group_json;

    let mut members: Vec<Member> = Vec::new();
    members.push(pair(key, value));
    assert(views::all(members@) =~= seq![(key@, value@)]);
    Json::Object(members)
}

/// An object with two members.
pub fn object_of_two(key1: &str, value1: Json, key2: &str, value2: Json) -> (r: Json)
    ensures
        r@ == JsonView::Object(seq![(key1@, value1@), (key2@, value2@)]),
{
    broadcast use group_json;

    let mut members: Vec<Member> = Vec::new();
    members.push(pair(key1, value1));
    members.push(pair(key2, value2));
    assert(views::all(members@) =~= seq![(key1@, value1@), (key2@, value2@)]);
    Json::Object(members)
}

/// An object with three members.
pub fn object_of_three(
    key1: &str,
    value1: Json,
    key2: &str,
    value2: Json,
    key3: &str,
    value3: Json,
) -> (r: Json)
    ensures
        r@ == JsonView::Object(seq![(key1@, value1@), (key2@, value2@), (key3@, value3@)]),
{
    broadcast use group_json;

    let mut members: Vec<Member> = Vec::new();
    members.push(pair(key1, value1));
    members.push(pair(key2, value2));
    members.push(pair(key3, value3));
    assert(views::all(members@) =~= seq![(key1@, value1@), (key2@, value2@), (key3@, value3@)]);
    Json::Object(members)
}

/// An array of texts.
pub open spec fn text_array(texts: Seq<Seq<char>>) -> JsonView {
    JsonView::Array(texts.map_values(|t: Seq<char>| JsonView::Text(t)))
}

/// See [`text_array`].
pub fn array_of_texts(texts: &[String]) -> (r: Json)
    ensures
        r@ == text_array(views::texts(texts@)),
{
    broadcast use group_json;

    let ghost goal = views::texts(texts@).map_values(|t: Seq<char>| JsonView::Text(t));
    let mut items: Vec<Json> = Vec::new();
    for i in 0..texts.len()
        invariant
            goal == views::texts(texts@).map_values(|t: Seq<char>| JsonView::Text(t)),
            views::all(items@) == goal.take(i as int),
    {
        proof {
            views::lemma_take_step(goal, i as int);
        }
        items.push(text_of(texts[i].as_str()));
    }
    proof {
        views::lemma_take_all(goal);
    }
    Json::Array(items)
}

/// The member of an object under a key is the first that stands there; under a key that the
/// object does not have there is none.
pub proof fn law_member(members: Seq<(Seq<char>, JsonView)>, key: Seq<char>, k: int)
    requires
        0 <= k <= members.len(),
        forall|i: int| 0 <= i < k ==> (#[trigger] members[i]).0 != key,
        k < members.len() ==> members[k].0 == key,
    ensures
        member(JsonView::Object(members), key) == (if k < members.len() {
            Some(members[k].1)
        } else {
            None
        }),
{
    lemma_member_from(members, key, k, 0);
}

proof fn lemma_member_from(members: Seq<(Seq<char>, JsonView)>, key: Seq<char>, k: int, i: int)
    requires
        0 <= i <= k <= members.len(),
        forall|i: int| 0 <= i < k ==> (#[trigger] members[i]).0 != key,
        k < members.len() ==> members[k].0 == key,
    ensures
        member_from(members, key, i) == (if k < members.len() {
            Some(members[k].1)
        } else {
            None
        }),
    decreases k - i,
{
    if i < k {
        lemma_member_from(members, key, k, i + 1);
    }
}

} // verus!
