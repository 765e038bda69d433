//! JSON documents as plain values. `serde_json` reads and writes the text; the
//! logic works on [`Json`], whose meaning is the [`Tree`] it stands for.

use vstd::prelude::*;
use crate::text;
use crate::text::same;

verus! {

/// A JSON document.
pub enum Json {
    Null,
    Bool(bool),
    Number(serde_json::Number),
    Text(String),
    Array(Vec<Json>),
    Object(Vec<(String, Json)>),
}

/// What a JSON document says: an object is a map, so neither the order of its
/// members nor a member that a later one replaces is part of it.
pub enum Tree {
    Null,
    Bool(bool),
    Number(serde_json::Number),
    Text(Seq<char>),
    Array(Seq<Tree>),
    Object(Map<Seq<char>, Tree>),
}

/// `serde_json::Number`, carried through unread.
#[verifier::external_type_specification]
#[verifier::external_body]
pub struct ExNumber(serde_json::Number);

/// `serde_json::Value`, the document as `serde_json` holds it.
#[verifier::external_type_specification]
#[verifier::external_body]
pub struct ExValue(serde_json::Value);

/// `serde_json::Error`, why a text is not a JSON document.
#[verifier::external_type_specification]
#[verifier::external_body]
pub struct ExError(serde_json::Error);

/// The deepest nesting of arrays and objects that `serde_json` reads.
pub const MAX_DEPTH: u64 = 127;

/// What a `serde_json::Value` holds.
pub uninterp spec fn value_tree(v: serde_json::Value) -> Tree;

/// What `serde_json::from_str` reads in a text, where the text is JSON.
pub uninterp spec fn json_read(text: Seq<char>) -> Option<Tree>;

/// What `serde_json` says of a text that it cannot read.
pub uninterp spec fn json_error(text: Seq<char>) -> Seq<char>;

/// The message of a `serde_json::Error`.
pub uninterp spec fn error_text(e: serde_json::Error) -> Seq<char>;

/// The text that `serde_json` writes for a document, on one line.
pub uninterp spec fn json_compact(t: Tree) -> Seq<char>;

/// The text that `serde_json` writes for a document, one member a line.
pub uninterp spec fn json_pretty(t: Tree) -> Seq<char>;

/// What a document says.
pub open spec fn tree(j: Json) -> Tree
    decreases j,
{
    match j {
        Json::Null => Tree::Null,
        Json::Bool(b) => Tree::Bool(b),
        Json::Number(n) => Tree::Number(n),
        Json::Text(s) => Tree::Text(s@),
        Json::Array(v) => Tree::Array(
            Seq::new(
                v@.len(),
                |i: int|
                    if 0 <= i < v@.len() {
                        tree(v@[i])
                    } else {
                        Tree::Null
                    },
            ),
        ),
        Json::Object(v) => Tree::Object(members(v@)),
    }
}

/// The map that a list of members stands for: of two with one name the later
/// one counts.
pub open spec fn members(s: Seq<(String, Json)>) -> Map<Seq<char>, Tree>
    decreases s,
{
    if s.len() == 0 {
        Map::empty()
    } else {
        members(s.drop_last()).insert(s.last().0@, tree(s.last().1))
    }
}

/// The member of an object with the given name.
pub open spec fn member(t: Tree, name: Seq<char>) -> Option<Tree> {
    match t {
        Tree::Object(m) => if m.contains_key(name) {
            Some(m[name])
        } else {
            None
        },
        _ => None,
    }
}

/// The text that a document is, where it is one.
pub open spec fn text_of(t: Tree) -> Option<Seq<char>> {
    match t {
        Tree::Text(s) => Some(s),
        _ => None,
    }
}

/// The text that is the member with the given name.
pub open spec fn text_member(t: Tree, name: Seq<char>) -> Option<Seq<char>> {
    match member(t, name) {
        Some(m) => text_of(m),
        None => None,
    }
}

/// Whether arrays and objects nest at most `d` deep.
pub open spec fn nests_within(t: Tree, d: nat) -> bool
    decreases d,
{
    match t {
        Tree::Array(s) => d > 0 && forall|i: int|
            0 <= i < s.len() ==> nests_within(#[trigger] s[i], (d - 1) as nat),
        Tree::Object(m) => d > 0 && forall|k: Seq<char>|
            m.contains_key(k) ==> nests_within(#[trigger] m[k], (d - 1) as nat),
        _ => true,
    }
}

/// An array nests as its documents do, one level deeper.
pub proof fn lemma_array_nests(s: Seq<Tree>, d: nat)
    ensures
        nests_within(Tree::Array(s), d + 1) <==> forall|i: int|
            0 <= i < s.len() ==> nests_within(#[trigger] s[i], d),
{
    let e = d + 1;
    let t = Tree::Array(s);
    assert((e - 1) as nat == d);
    let x = t->Array_0;
    if nests_within(t, e) {
        assert forall|i: int| 0 <= i < s.len() implies nests_within(#[trigger] s[i], d) by {
            assert(0 <= i < x.len());
            assert(nests_within(x[i], (e - 1) as nat));
        }
    }
    if forall|i: int| 0 <= i < s.len() ==> nests_within(#[trigger] s[i], d) {
        assert forall|i: int| 0 <= i < x.len() implies nests_within(
            #[trigger] x[i],
            (e - 1) as nat,
        ) by {
            assert(nests_within(s[i], d));
        }
        assert(nests_within(t, e));
    }
}

/// An object nests as its members do, one level deeper.
pub proof fn lemma_object_nests(m: Map<Seq<char>, Tree>, d: nat)
    ensures
        nests_within(Tree::Object(m), d + 1) <==> forall|k: Seq<char>|
            m.contains_key(k) ==> nests_within(#[trigger] m[k], d),
{
    let e = d + 1;
    let t = Tree::Object(m);
    assert((e - 1) as nat == d);
    let x = t->Object_0;
    if nests_within(t, e) {
        assert forall|k: Seq<char>| m.contains_key(k) implies nests_within(#[trigger] m[k], d) by {
            assert(x.contains_key(k));
            assert(nests_within(x[k], (e - 1) as nat));
        }
    }
    if forall|k: Seq<char>| m.contains_key(k) ==> nests_within(#[trigger] m[k], d) {
        assert forall|k: Seq<char>| x.contains_key(k) implies nests_within(
            #[trigger] x[k],
            (e - 1) as nat,
        ) by {
            assert(m.contains_key(k));
            assert(nests_within(m[k], d));
        }
        assert(nests_within(t, e));
    }
}

/// `serde_json::from_str` reads a text as one JSON document, and what it reads
/// nests at most [`MAX_DEPTH`] deep. What it says of a text that it cannot read
/// depends on the text alone.
#[verifier::external_body]
fn read_value(text: &str) -> (r: Result<serde_json::Value, serde_json::Error>)
    ensures
        match r {
            Ok(v) => json_read(text@) == Some(value_tree(v)) && nests_within(
                value_tree(v),
                MAX_DEPTH as nat,
            ),
            Err(e) => json_read(text@) is None && error_text(e) == json_error(text@),
        },
{
    serde_json::from_str(text)
}

/// `serde_json::Error` shows itself as its message.
#[verifier::external_body]
fn error_message(e: &serde_json::Error) -> (r: String)
    ensures
        r@ == error_text(*e),
{
    e.to_string()
}

/// The outermost layer of a `serde_json::Value`: what it is, and the values
/// that it is made of.
enum Layer {
    Null,
    Bool(bool),
    Number(serde_json::Number),
    Text(String),
    Array(Vec<serde_json::Value>),
    Object(Vec<(String, serde_json::Value)>),
}

/// What a layer holds, given what the values in it hold.
spec fn layer_tree(l: Layer) -> Tree {
    match l {
        Layer::Null => Tree::Null,
        Layer::Bool(b) => Tree::Bool(b),
        Layer::Number(n) => Tree::Number(n),
        Layer::Text(s) => Tree::Text(s@),
        Layer::Array(v) => Tree::Array(v@.map_values(|x: serde_json::Value| value_tree(x))),
        Layer::Object(v) => Tree::Object(value_members(v@)),
    }
}

/// The map that a list of members stands for: of two with one name the later
/// one counts.
spec fn value_members(s: Seq<(String, serde_json::Value)>) -> Map<Seq<char>, Tree>
    decreases s.len(),
{
    if s.len() == 0 {
        Map::empty()
    } else {
        value_members(s.drop_last()).insert(s.last().0@, value_tree(s.last().1))
    }
}

/// Whether no name stands twice in a list of members.
spec fn distinct_names(s: Seq<(String, serde_json::Value)>) -> bool {
    forall|i: int, k: int| 0 <= i < k < s.len() ==> (#[trigger] s[i]).0@ != (#[trigger] s[k]).0@
}

/// Takes the outermost layer off a `serde_json::Value`. A `serde_json::Map`
/// holds no name twice.
#[verifier::external_body]
fn open_value(v: serde_json::Value) -> (r: Layer)
    ensures
        layer_tree(r) == value_tree(v),
        r matches Layer::Object(m) ==> distinct_names(m@),
{
    match v {
        serde_json::Value::Null => Layer::Null,
        serde_json::Value::Bool(b) => Layer::Bool(b),
        serde_json::Value::Number(n) => Layer::Number(n),
        serde_json::Value::String(s) => Layer::Text(s),
        serde_json::Value::Array(a) => Layer::Array(a),
        serde_json::Value::Object(m) => Layer::Object(m.into_iter().collect()),
    }
}

/// Puts a layer back together as a `serde_json::Value`. A `serde_json::Map` made of
/// members with different names holds each of them.
#[verifier::external_body]
fn close_value(l: Layer) -> (r: serde_json::Value)
    requires
        l matches Layer::Object(m) ==> distinct_names(m@),
    ensures
        value_tree(r) == layer_tree(l),
{
    match l {
        Layer::Null => serde_json::Value::Null,
        Layer::Bool(b) => serde_json::Value::Bool(b),
        Layer::Number(n) => serde_json::Value::Number(n),
        Layer::Text(s) => serde_json::Value::String(s),
        Layer::Array(a) => serde_json::Value::Array(a),
        Layer::Object(m) => serde_json::Value::Object(m.into_iter().collect()),
    }
}

/// `serde_json::Number::clone` gives the same number.
#[verifier::external_body]
fn copy_number(n: &serde_json::Number) -> (r: serde_json::Number)
    ensures
        r == *n,
{
    n.clone()
}

/// In a list of members without a repeated name every member counts.
proof fn lemma_value_member(s: Seq<(String, serde_json::Value)>, at: int)
    requires
        0 <= at < s.len(),
        distinct_names(s),
    ensures
        value_members(s).contains_key(s[at].0@),
        value_members(s)[s[at].0@] == value_tree(s[at].1),
    decreases s.len(),
{
    if at < s.len() - 1 {
        lemma_distinct_front(s);
        lemma_value_member(s.drop_last(), at);
        assert(s[at].0@ != s[s.len() - 1].0@);
    }
}

/// No name stands twice in the front of a list in which none does.
proof fn lemma_distinct_front(s: Seq<(String, serde_json::Value)>)
    requires
        s.len() > 0,
        distinct_names(s),
    ensures
        distinct_names(s.drop_last()),
{
    let t = s.drop_last();
    assert forall|i: int, k: int| 0 <= i < k < t.len() implies (#[trigger] t[i]).0@ != (
    #[trigger] t[k]).0@ by {
        assert(t[i] == s[i] && t[k] == s[k]);
    }
}

/// To replace a member of a list in which no name stands twice is to give the name
/// another value.
proof fn lemma_value_replaced(
    s: Seq<(String, serde_json::Value)>,
    at: int,
    m: (String, serde_json::Value),
)
    requires
        0 <= at < s.len(),
        distinct_names(s),
        s[at].0@ == m.0@,
    ensures
        value_members(s.update(at, m)) == value_members(s).insert(m.0@, value_tree(m.1)),
    decreases s.len(),
{
    let t = s.drop_last();
    let u = s.update(at, m);
    if at < s.len() - 1 {
        lemma_distinct_front(s);
        lemma_value_replaced(t, at, m);
        assert(u.drop_last() =~= t.update(at, m));
        assert(s[at].0@ != s[s.len() - 1].0@);
    } else {
        assert(u.drop_last() =~= t);
    }
    assert(value_members(u) =~= value_members(s).insert(m.0@, value_tree(m.1)));
}

/// Puts a member into a list in which no name stands twice, in the place of one with
/// its name if there is one.
fn put_value(list: &mut Vec<(String, serde_json::Value)>, name: String, value: serde_json::Value)
    requires
        distinct_names(old(list)@),
    ensures
        distinct_names(final(list)@),
        value_members(final(list)@) == value_members(old(list)@).insert(name@, value_tree(value)),
{
    let ghost before = list@;
    let ghost m = (name, value);
    let mut at: usize = 0;
    while at < list.len() && !same(list[at].0.as_str(), name.as_str())
        invariant
            at <= list@.len(),
            list@ == before,
            m == (name, value),
            forall|k: int| 0 <= k < at ==> (#[trigger] before[k]).0@ != name@,
        decreases list.len() - at,
    {
        at += 1;
    }
    if at < list.len() {
        proof {
            lemma_value_replaced(before, at as int, m);
        }
        list.set(at, (name, value));
        assert(list@ =~= before.update(at as int, m));
    } else {
        list.push((name, value));
        assert(list@.drop_last() =~= before);
    }
}

/// The same document as a [`Json`].
fn from_value(v: serde_json::Value) -> (r: Json)
    ensures
        tree(r) == value_tree(v),
    decreases value_tree(v),
{
    let ghost whole = value_tree(v);
    match open_value(v) {
        Layer::Null => Json::Null,
        Layer::Bool(b) => Json::Bool(b),
        Layer::Number(n) => Json::Number(n),
        Layer::Text(s) => Json::Text(s),
        Layer::Array(a) => {
            let ghost list = a@;
            let mut out: Vec<Json> = Vec::new();
            for x in it: a
                invariant
                    it.seq() == list,
                    whole == value_tree(v),
                    whole == Tree::Array(list.map_values(|x: serde_json::Value| value_tree(x))),
                    out@.len() == it.index(),
                    forall|i: int| 0 <= i < out@.len() ==> tree(#[trigger] out@[i]) == value_tree(
                        list[i],
                    ),
            {
                proof {
                    let s = whole->Array_0;
                    assert(s[it.index()] == value_tree(x));
                    assert(decreases_to!(whole => s[it.index()]));
                }
                out.push(from_value(x));
            }
            assert(tree(Json::Array(out))->Array_0 =~= whole->Array_0);
            Json::Array(out)
        },
        Layer::Object(m) => {
            let ghost list = m@;
            let mut out: Vec<(String, Json)> = Vec::new();
            for x in it: m
                invariant
                    it.seq() == list,
                    whole == value_tree(v),
                    whole == Tree::Object(value_members(list)),
                    distinct_names(list),
                    members(out@) == value_members(list.take(it.index())),
            {
                let ghost at = it.index();
                let (name, value) = x;
                proof {
                    lemma_value_member(list, at);
                    assert(whole->Object_0[name@] == value_tree(value));
                    assert(decreases_to!(whole => whole->Object_0[name@]));
                    assert(list.take(at + 1).drop_last() =~= list.take(at));
                }
                let ghost before = out@;
                out.push((name, from_value(value)));
                assert(out@.drop_last() =~= before);
            }
            assert(list.take(list.len() as int) =~= list);
            Json::Object(out)
        },
    }
}

/// The same document as a `serde_json::Value`.
fn to_value(j: &Json) -> (r: serde_json::Value)
    ensures
        value_tree(r) == tree(*j),
    decreases j,
{
    match j {
        Json::Null => close_value(Layer::Null),
        Json::Bool(b) => close_value(Layer::Bool(*b)),
        Json::Number(n) => close_value(Layer::Number(copy_number(n))),
        Json::Text(s) => close_value(Layer::Text(s.clone())),
        Json::Array(a) => {
            let mut out: Vec<serde_json::Value> = Vec::new();
            let mut i: usize = 0;
            while i < a.len()
                invariant
                    i <= a.len(),
                    *j == Json::Array(*a),
                    out@.len() == i,
                    forall|k: int| 0 <= k < i ==> value_tree(#[trigger] out@[k]) == tree(a@[k]),
                decreases a.len() - i,
            {
                assert(decreases_to!(j => j->Array_0@[i as int]));
                out.push(to_value(&a[i]));
                i += 1;
            }
            let ghost made = Layer::Array(out);
            assert(layer_tree(made)->Array_0 =~= tree(*j)->Array_0);
            close_value(Layer::Array(out))
        },
        Json::Object(m) => {
            let mut out: Vec<(String, serde_json::Value)> = Vec::new();
            let mut i: usize = 0;
            assert(m@.take(0) =~= seq![]);
            while i < m.len()
                invariant
                    i <= m.len(),
                    *j == Json::Object(*m),
                    distinct_names(out@),
                    value_members(out@) == members(m@.take(i as int)),
                decreases m.len() - i,
            {
                let (name, value) = &m[i];
                assert(decreases_to!(j => j->Object_0@[i as int].1));
                assert(m@.take(i + 1).drop_last() =~= m@.take(i as int));
                put_value(&mut out, name.clone(), to_value(value));
                i += 1;
            }
            assert(m@.take(i as int) =~= m@);
            close_value(Layer::Object(out))
        },
    }
}

/// `serde_json::Value` shows itself as JSON text on one line.
#[verifier::external_body]
fn compact_value(v: &serde_json::Value) -> (r: String)
    ensures
        r@ == json_compact(value_tree(*v)),
{
    v.to_string()
}

/// `serde_json::to_string_pretty` writes a document as indented JSON text; for a
/// `serde_json::Value` it does not fail. The text is never blank, and
/// `serde_json::from_str` reads it back as the same document, where the document
/// nests no deeper than it reads.
#[verifier::external_body]
fn pretty_value(v: &serde_json::Value) -> (r: Result<String, serde_json::Error>)
    ensures
        r is Ok,
        r matches Ok(s) ==> s@ == json_pretty(value_tree(*v)) && !text::is_blank(s@),
        r matches Ok(s) ==> nests_within(value_tree(*v), MAX_DEPTH as nat) ==> json_read(s@)
            == Some(value_tree(*v)),
{
    serde_json::to_string_pretty(v)
}

/// Of the members of two lists, one after the other, those of the second count.
pub proof fn lemma_members_concat(a: Seq<(String, Json)>, b: Seq<(String, Json)>)
    ensures
        members(a + b) == members(a).union_prefer_right(members(b)),
    decreases b.len(),
{
    if b.len() == 0 {
        assert(a + b =~= a);
        assert(members(a + b) =~= members(a).union_prefer_right(members(b)));
    } else {
        assert((a + b).drop_last() =~= a + b.drop_last());
        lemma_members_concat(a, b.drop_last());
        assert(members(a + b) =~= members(a).union_prefer_right(members(b)));
    }
}

/// The names of a list of members are the names in the list.
pub proof fn lemma_members_dom(s: Seq<(String, Json)>, name: Seq<char>)
    ensures
        members(s).contains_key(name) <==> exists|i: int| 0 <= i < s.len() && (#[trigger] s[i]).0@ == name,
    decreases s.len(),
{
    if s.len() > 0 {
        lemma_members_dom(s.drop_last(), name);
        let t = s.drop_last();
        if members(t).contains_key(name) {
            let i = choose|i: int| 0 <= i < t.len() && (#[trigger] t[i]).0@ == name;
            assert(s[i].0@ == name);
        }
        if exists|i: int| 0 <= i < s.len() && (#[trigger] s[i]).0@ == name {
            let i = choose|i: int| 0 <= i < s.len() && (#[trigger] s[i]).0@ == name;
            if i < s.len() - 1 {
                assert(t[i].0@ == name);
            }
        }
    }
}

/// The last of the members with a name is the one that counts.
pub proof fn lemma_last_member(s: Seq<(String, Json)>, at: int)
    requires
        0 <= at < s.len(),
        forall|k: int| at < k < s.len() ==> (#[trigger] s[k]).0@ != s[at].0@,
    ensures
        members(s).contains_key(s[at].0@),
        members(s)[s[at].0@] == tree(s[at].1),
    decreases s.len(),
{
    if at < s.len() - 1 {
        let t = s.drop_last();
        assert forall|k: int| at < k < t.len() implies (#[trigger] t[k]).0@ != t[at].0@ by {
            assert(t[k] == s[k]);
        }
        lemma_last_member(t, at);
        assert(s.last() == s[s.len() - 1]);
    }
}

impl Json {
    /// Reads a text as one JSON document, or tells why it is none.
    pub fn parse(text: &str) -> (r: Result<Json, String>)
        ensures
            match r {
                Ok(j) => json_read(text@) == Some(tree(j)) && nests_within(
                    tree(j),
                    MAX_DEPTH as nat,
                ),
                Err(why) => json_read(text@) is None && why@ == json_error(text@),
            },
    {
        match read_value(text) {
            Ok(v) => Ok(from_value(v)),
            Err(e) => Err(error_message(&e)),
        }
    }

    /// The document as text on one line.
    pub fn compact(&self) -> (r: String)
        ensures
            r@ == json_compact(tree(*self)),
    {
        compact_value(&to_value(self))
    }

    /// The document as indented text, which reads back as the same document
    /// unless it nests too deep to be read.
    pub fn pretty(&self) -> (r: String)
        ensures
            r@ == json_pretty(tree(*self)),
            !text::is_blank(r@),
            nests_within(tree(*self), MAX_DEPTH as nat) ==> json_read(r@) == Some(tree(*self)),
    {
        match pretty_value(&to_value(self)) {
            Ok(s) => s,
            Err(_) => String::new(),
        }
    }

    /// The member with the given name, where this is an object that has one.
    pub fn get(&self, name: &str) -> (r: Option<&Json>)
        ensures
            match r {
                Some(j) => member(tree(*self), name@) == Some(tree(*j)),
                None => member(tree(*self), name@) is None,
            },
    {
        match self {
            Json::Object(list) => match position(list, name) {
                Some(at) => {
                    proof {
                        lemma_last_member(list@, at as int);
                    }
                    Some(&list[at].1)
                },
                None => {
                    proof {
                        lemma_members_dom(list@, name@);
                    }
                    None
                },
            },
            _ => None,
        }
    }

    /// The text that this document is, where it is one.
    pub fn as_text(&self) -> (r: Option<&str>)
        ensures
            match r {
                Some(s) => text_of(tree(*self)) == Some(s@),
                None => text_of(tree(*self)) is None,
            },
    {
        match self {
            Json::Text(s) => Some(s.as_str()),
            _ => None,
        }
    }

    /// The text that is the member with the given name.
    pub fn text(&self, name: &str) -> (r: Option<&str>)
        ensures
            match r {
                Some(s) => text_member(tree(*self), name@) == Some(s@),
                None => text_member(tree(*self), name@) is None,
            },
    {
        match self.get(name) {
            Some(j) => j.as_text(),
            None => None,
        }
    }
}

/// Where the last member with the given name stands in the list.
fn position(list: &Vec<(String, Json)>, name: &str) -> (r: Option<usize>)
    ensures
        match r {
            Some(at) => at < list.len() && list@[at as int].0@ == name@ && forall|k: int|
                at < k < list.len() ==> (#[trigger] list@[k]).0@ != name@,
            None => forall|k: int| 0 <= k < list.len() ==> (#[trigger] list@[k]).0@ != name@,
        },
{
    let mut i: usize = list.len();
    while i > 0
        invariant
            i <= list.len(),
            forall|k: int| i <= k < list.len() ==> (#[trigger] list@[k]).0@ != name@,
        decreases i,
    {
        i -= 1;
        if same(list[i].0.as_str(), name) {
            return Some(i);
        }
    }
    None
}

/// Takes every member with the given name out of the list and hands back the
/// one that counted.
pub fn take_member(list: &mut Vec<(String, Json)>, name: &str) -> (r: Option<Json>)
    ensures
        members(final(list)@) == members(old(list)@).remove(name@),
        match r {
            Some(j) => members(old(list)@).contains_key(name@) && members(old(list)@)[name@]
                == tree(j),
            None => !members(old(list)@).contains_key(name@),
        },
{
    let ghost whole = list@;
    let mut found: Option<Json> = None;
    let mut going: bool = true;
    while going
        invariant
            members(list@).remove(name@) == members(whole).remove(name@),
            found is None ==> members(list@) == members(whole),
            found matches Some(j) ==> members(whole).contains_key(name@) && members(whole)[name@]
                == tree(j),
            !going ==> !members(list@).contains_key(name@),
        decreases list.len() + (if going { 1int } else { 0int }),
    {
        match position(list, name) {
            Some(at) => {
                let ghost before = list@;
                proof {
                    lemma_last_member(before, at as int);
                    let (a, b) = (before.take(at as int), before.skip(at + 1));
                    let one = seq![before[at as int]];
                    assert(before =~= (a + one) + b);
                    assert(before.remove(at as int) =~= a + b);
                    lemma_members_concat(a + one, b);
                    lemma_members_concat(a, one);
                    lemma_members_concat(a, b);
                    reveal_with_fuel(members, 2);
                    assert(one.drop_last() =~= Seq::<(String, Json)>::empty());
                    lemma_members_dom(b, name@);
                    assert(!members(b).contains_key(name@)) by {
                        if members(b).contains_key(name@) {
                            let i = choose|i: int| 0 <= i < b.len() && (#[trigger] b[i]).0@ == name@;
                            assert(before[at + 1 + i].0@ == name@);
                        }
                    }
                    assert(members(before).remove(name@) =~= members(a + b).remove(name@));
                }
                let (_, j) = list.remove(at);
                if found.is_none() {
                    found = Some(j);
                }
            },
            None => {
                proof {
                    lemma_members_dom(list@, name@);
                }
                going = false;
            },
        }
    }
    assert(members(list@).remove(name@) =~= members(list@));
    found
}

/// Adds a member to the list, which replaces those with its name.
pub fn put_member(list: &mut Vec<(String, Json)>, name: &str, value: Json)
    ensures
        members(final(list)@) == members(old(list)@).insert(name@, tree(value)),
{
    let _ = take_member(list, name);
    let ghost rest = list@;
    let key = name.to_string();
    let ghost j = value;
    list.push((key, value));
    assert(list@.drop_last() =~= rest);
    assert(members(list@) =~= members(old(list)@).insert(name@, tree(j)));
}

/// A member of an object is found by its name and no other, in nothing but an object, and
/// is a text only where it is one.
pub proof fn law_members_are_found_by_name(m: Map<Seq<char>, Tree>, name: Seq<char>, t: Tree)
    ensures
        m.contains_key(name) ==> member(Tree::Object(m), name) == Some(m[name]),
        !m.contains_key(name) ==> member(Tree::Object(m), name) is None,
        !(t is Object) ==> member(t, name) is None,
        t matches Tree::Text(s) ==> text_of(t) == Some(s),
        !(t is Text) ==> text_of(t) is None,
        text_member(Tree::Object(m.insert(name, t)), name) == text_of(t),
{
}

/// Of several members of one name the last counts, and the others do not matter.
pub proof fn law_later_members_count(s: Seq<(String, Json)>, one: (String, Json))
    ensures
        members(s.push(one)) == members(s).insert(one.0@, tree(one.1)),
        members(Seq::<(String, Json)>::empty()) == Map::<Seq<char>, Tree>::empty(),
{
    assert(s.push(one).drop_last() =~= s);
}

} // verus!
