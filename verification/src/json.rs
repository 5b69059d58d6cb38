//! JSON documents.
use crate::number::{decimal, lemma_decimal_injective};
use crate::text::same;
use serde_json::Number;
use vstd::prelude::*;

verus! {

/// `serde_json::Number`, a JSON number.
#[verifier::external_type_specification]
#[verifier::external_body]
pub struct ExNumber(serde_json::Number);

/// A number as `serde_json` writes it (`Number::to_string`). Numbers that are written
/// alike are alike.
pub uninterp spec fn number_text(n: Number) -> Seq<char>;

/// What a JSON document says.
pub enum JsonView {
    Null,
    Bool(bool),
    /// A number, by the way it is written.
    Number(Seq<char>),
    Text(Seq<char>),
    Array(Seq<JsonView>),
    Object(Map<Seq<char>, JsonView>),
}

/// A JSON document. Where an object holds a key more than once, the last one counts.
pub enum Json {
    Null,
    Bool(bool),
    Number(Number),
    Text(String),
    Array(Vec<Json>),
    Object(Vec<(String, Json)>),
}

/// What `j` says.
pub open spec fn json_view(j: Json) -> JsonView
    decreases j,
{
    match j {
        Json::Null => JsonView::Null,
        Json::Bool(b) => JsonView::Bool(b),
        Json::Number(n) => JsonView::Number(number_text(n)),
        Json::Text(s) => JsonView::Text(s@),
        Json::Array(items) => JsonView::Array(items_view(items@)),
        Json::Object(members) => JsonView::Object(members_view(members@)),
    }
}

/// What the items of an array say.
pub open spec fn items_view(s: Seq<Json>) -> Seq<JsonView>
    decreases s,
{
    if s.len() == 0 {
        Seq::empty()
    } else {
        items_view(s.drop_last()).push(json_view(s.last()))
    }
}

/// What the members of an object say.
pub open spec fn members_view(s: Seq<(String, Json)>) -> Map<Seq<char>, JsonView>
    decreases s,
{
    if s.len() == 0 {
        Map::empty()
    } else {
        members_view(s.drop_last()).insert(s.last().0@, json_view(s.last().1))
    }
}

impl View for Json {
    type V = JsonView;

    open spec fn view(&self) -> JsonView {
        json_view(*self)
    }
}

/// Whether a number is zero written as a decimal fraction, of either sign.
pub open spec fn is_fraction_zero(t: Seq<char>) -> bool {
    t == "0.0"@ || t == "-0.0"@
}

/// Whether two numbers are equal.
pub open spec fn same_number(a: Seq<char>, b: Seq<char>) -> bool {
    a == b || (is_fraction_zero(a) && is_fraction_zero(b))
}

/// Whether two documents are equal.
pub open spec fn same_json(a: JsonView, b: JsonView) -> bool
    decreases a,
{
    match (a, b) {
        (JsonView::Null, JsonView::Null) => true,
        (JsonView::Bool(x), JsonView::Bool(y)) => x == y,
        (JsonView::Number(x), JsonView::Number(y)) => same_number(x, y),
        (JsonView::Text(x), JsonView::Text(y)) => x == y,
        (JsonView::Array(x), JsonView::Array(y)) => x.len() == y.len() && forall|i: int|
            0 <= i < x.len() ==> same_json(#[trigger] x[i], y[i]),
        (JsonView::Object(x), JsonView::Object(y)) => x.dom() == y.dom() && forall|k: Seq<char>|
            x.dom().contains(k) ==> same_json(#[trigger] x[k], y[k]),
        _ => false,
    }
}

impl JsonView {
    /// The member of an object under `key`.
    pub open spec fn get(self, key: Seq<char>) -> Option<JsonView> {
        match self {
            JsonView::Object(m) => if m.dom().contains(key) {
                Some(m[key])
            } else {
                None
            },
            _ => None,
        }
    }

    /// The items of an array.
    pub open spec fn items(self) -> Option<Seq<JsonView>> {
        match self {
            JsonView::Array(s) => Some(s),
            _ => None,
        }
    }

    /// The text of a string.
    pub open spec fn text(self) -> Option<Seq<char>> {
        match self {
            JsonView::Text(s) => Some(s),
            _ => None,
        }
    }

    /// The members of an object.
    pub open spec fn members(self) -> Option<Map<Seq<char>, JsonView>> {
        match self {
            JsonView::Object(m) => Some(m),
            _ => None,
        }
    }
}

pub proof fn lemma_items_view(s: Seq<Json>)
    ensures
        items_view(s).len() == s.len(),
        forall|i: int| 0 <= i < s.len() ==> #[trigger] items_view(s)[i] == json_view(s[i]),
    decreases s.len(),
{
    if s.len() > 0 {
        lemma_items_view(s.drop_last());
        assert forall|i: int| 0 <= i < s.len() implies #[trigger] items_view(s)[i] == json_view(s[i]) by {
            if i < s.len() - 1 {
                assert(items_view(s.drop_last())[i] == json_view(s.drop_last()[i]));
            }
        }
    }
}

/// The keys of a list of members.
pub open spec fn member_keys(s: Seq<(String, Json)>) -> Seq<Seq<char>> {
    s.map_values(|m: (String, Json)| m.0@)
}

pub proof fn lemma_members_dom(s: Seq<(String, Json)>)
    ensures
        members_view(s).dom() == member_keys(s).to_set(),
        members_view(s).dom().finite(),
    decreases s.len(),
{
    if s.len() > 0 {
        let t = s.drop_last();
        lemma_members_dom(t);
        assert(member_keys(s) == member_keys(t).push(s.last().0@));
        assert forall|k: Seq<char>| members_view(s).dom().contains(k) == member_keys(s).to_set().contains(k) by {
            if member_keys(t).contains(k) {
                let i = choose|i: int| 0 <= i < t.len() && member_keys(t)[i] == k;
                assert(member_keys(s)[i] == k);
            }
            if k == s.last().0@ {
                assert(member_keys(s)[s.len() - 1] == k);
            }
        }
        assert(members_view(s).dom() =~= member_keys(s).to_set());
    } else {
        assert(members_view(s).dom() =~= member_keys(s).to_set());
    }
}

/// The value under `key` is that of the last member with that key.
proof fn lemma_member_at(s: Seq<(String, Json)>, key: Seq<char>, i: int)
    requires
        0 <= i < s.len(),
        s[i].0@ == key,
        forall|j: int| i < j < s.len() ==> s[j].0@ != key,
    ensures
        members_view(s).dom().contains(key),
        members_view(s)[key] == json_view(s[i].1),
    decreases s.len(),
{
    if i < s.len() - 1 {
        let t = s.drop_last();
        assert forall|j: int| i < j < t.len() implies t[j].0@ != key by {
            assert(t[j] == s[j]);
        }
        lemma_member_at(t, key, i);
        assert(s.last().0@ != key);
    }
}

proof fn lemma_no_member(s: Seq<(String, Json)>, key: Seq<char>)
    requires
        forall|j: int| 0 <= j < s.len() ==> s[j].0@ != key,
    ensures
        !members_view(s).dom().contains(key),
    decreases s.len(),
{
    if s.len() > 0 {
        let t = s.drop_last();
        assert forall|j: int| 0 <= j < t.len() implies t[j].0@ != key by {
            assert(t[j] == s[j]);
        }
        lemma_no_member(t, key);
        assert(s[s.len() - 1].0@ != key);
    }
}

/// `Number::clone` gives the same number.
pub assume_specification[ <serde_json::Number as Clone>::clone ](n: &serde_json::Number) -> (r: serde_json::Number)
    ensures
        number_text(r) == number_text(*n),
;

/// `Number::as_u64` gives the value of a number that is written as an integer from zero
/// to `u64::MAX`, and nothing for any other number.
pub assume_specification[ serde_json::Number::as_u64 ](n: &serde_json::Number) -> (r: Option<u64>)
    ensures
        r matches Some(k) ==> number_text(*n) == decimal(k as nat),
        r is None ==> forall|k: u64| number_text(*n) != #[trigger] decimal(k as nat),
;

/// `==` on `Number`: integers are equal when written alike, fractions when they have
/// the same value, the two zeros included.
#[verifier::external_body]
fn numbers_equal(a: &Number, b: &Number) -> (r: bool)
    ensures
        r == same_number(number_text(*a), number_text(*b)),
{
    a == b
}

/// The whole number from zero to `u64::MAX` that a document is.
pub open spec fn as_natural(j: JsonView) -> Option<u64> {
    match j {
        JsonView::Number(t) => if exists|k: u64| t == #[trigger] decimal(k as nat) {
            Some(choose|k: u64| t == #[trigger] decimal(k as nat))
        } else {
            None
        },
        _ => None,
    }
}

impl Clone for Json {
    fn clone(&self) -> (r: Json)
        ensures
            r@ == self@,
        decreases self,
    {
        match self {
            Json::Null => Json::Null,
            Json::Bool(b) => Json::Bool(*b),
            Json::Number(n) => Json::Number(n.clone()),
            Json::Text(s) => Json::Text(s.clone()),
            Json::Array(items) => {
                let mut r: Vec<Json> = Vec::new();
                for i in 0..items.len()
                    invariant
                        *self == Json::Array(*items),
                        r@.len() == i,
                        items_view(r@) == items_view(items@.take(i as int)),
                    decreases items@.len() - i,
                {
                    let ghost before = r@;
                    assert(decreases_to!(*self => self->Array_0));
                    assert(decreases_to!(*items => items@));
                    assert(decreases_to!(items@ => items@[i as int]));
                    let c = items[i].clone();
                    r.push(c);
                    assert(r@.drop_last() == before);
                    assert(items@.take(i + 1).drop_last() == items@.take(i as int));
                }
                assert(items@.take(items@.len() as int) == items@);
                Json::Array(r)
            },
            Json::Object(members) => {
                let mut r: Vec<(String, Json)> = Vec::new();
                for i in 0..members.len()
                    invariant
                        *self == Json::Object(*members),
                        r@.len() == i,
                        members_view(r@) == members_view(members@.take(i as int)),
                    decreases members@.len() - i,
                {
                    let ghost before = r@;
                    assert(decreases_to!(*self => self->Object_0));
                    assert(decreases_to!(*members => members@));
                    assert(decreases_to!(members@ => members@[i as int]));
                    assert(decreases_to!(members@[i as int] => members@[i as int].1));
                    let m = &members[i];
                    let c = m.1.clone();
                    r.push((m.0.clone(), c));
                    assert(r@.drop_last() == before);
                    assert(members@.take(i + 1).drop_last() == members@.take(i as int));
                }
                assert(members@.take(members@.len() as int) == members@);
                Json::Object(r)
            },
        }
    }
}

impl Json {
    /// The member of an object under `key`.
    pub fn get(&self, key: &str) -> (r: Option<&Json>)
        ensures
            match r {
                Some(v) => self@.get(key@) == Some(v@),
                None => self@.get(key@) is None,
            },
    {
        match self {
            Json::Object(members) => find_member(members, key),
            _ => None,
        }
    }

    /// The items of an array.
    pub fn as_array(&self) -> (r: Option<&Vec<Json>>)
        ensures
            match r {
                Some(v) => self@.items() == Some(items_view(v@)),
                None => self@.items() is None,
            },
    {
        match self {
            Json::Array(items) => Some(items),
            _ => None,
        }
    }

    /// The text of a string.
    pub fn as_str(&self) -> (r: Option<&str>)
        ensures
            match r {
                Some(t) => self@.text() == Some(t@),
                None => self@.text() is None,
            },
    {
        match self {
            Json::Text(t) => Some(t.as_str()),
            _ => None,
        }
    }

    /// The value of a whole number from zero to `u64::MAX`.
    pub fn as_u64(&self) -> (r: Option<u64>)
        ensures
            r == as_natural(self@),
    {
        match self {
            Json::Number(n) => {
                let r = n.as_u64();
                proof {
                    if let Some(k) = r {
                        let c = choose|c: u64| number_text(*n) == #[trigger] decimal(c as nat);
                        lemma_decimal_injective(k as nat, c as nat);
                    }
                }
                r
            },
            _ => None,
        }
    }

    /// The text of the member under `key`.
    pub fn text_at(&self, key: &str) -> (r: Option<&str>)
        ensures
            match r {
                Some(t) => text_at(self@, key@) == Some(t@),
                None => text_at(self@, key@) is None,
            },
    {
        match self.get(key) {
            Some(v) => v.as_str(),
            None => None,
        }
    }

    /// The text of the member under `key`, or a default.
    pub fn text_or(&self, key: &str, default: &str) -> (r: String)
        ensures
            r@ == text_or(self@, key@, default@),
    {
        match self.text_at(key) {
            Some(t) => t.to_string(),
            None => default.to_string(),
        }
    }

    /// The items of the array under `key`.
    pub fn items_at(&self, key: &str) -> (r: Option<&Vec<Json>>)
        ensures
            match r {
                Some(v) => items_at(self@, key@) == Some(items_view(v@)),
                None => items_at(self@, key@) is None,
            },
    {
        match self.get(key) {
            Some(v) => v.as_array(),
            None => None,
        }
    }

    /// Whether two documents are equal.
    pub fn same_as(&self, other: &Json) -> (r: bool)
        ensures
            r == same_json(self@, other@),
        decreases self@,
    {
        match (self, other) {
            (Json::Null, Json::Null) => true,
            (Json::Bool(a), Json::Bool(b)) => *a == *b,
            (Json::Number(a), Json::Number(b)) => numbers_equal(a, b),
            (Json::Text(a), Json::Text(b)) => same(a.as_str(), b.as_str()),
            (Json::Array(a), Json::Array(b)) => {
                proof {
                    lemma_items_view(a@);
                    lemma_items_view(b@);
                }
                if a.len() != b.len() {
                    return false;
                }
                for i in 0..a.len()
                    invariant
                        self@ == JsonView::Array(items_view(a@)),
                        other@ == JsonView::Array(items_view(b@)),
                        items_view(a@).len() == a@.len(),
                        items_view(b@).len() == b@.len(),
                        a@.len() == b@.len(),
                        forall|k: int| 0 <= k < a@.len() ==> #[trigger] items_view(a@)[k] == json_view(a@[k]),
                        forall|k: int| 0 <= k < b@.len() ==> #[trigger] items_view(b@)[k] == json_view(b@[k]),
                        forall|k: int|
                            0 <= k < i ==> same_json(#[trigger] items_view(a@)[k], items_view(b@)[k]),
                    decreases a@.len() - i,
                {
                    assert(decreases_to!(self@ => self@->Array_0));
                    assert(decreases_to!(items_view(a@) => items_view(a@)[i as int]));
                    if !a[i].same_as(&b[i]) {
                        assert(!same_json(items_view(a@)[i as int], items_view(b@)[i as int]));
                        return false;
                    }
                }
                true
            },
            (Json::Object(a), Json::Object(b)) => {
                let ghost x = members_view(a@);
                let ghost y = members_view(b@);
                proof {
                    lemma_members_dom(a@);
                    lemma_members_dom(b@);
                }
                for i in 0..b.len()
                    invariant
                        self@ == JsonView::Object(x),
                        other@ == JsonView::Object(y),
                        x == members_view(a@),
                        y == members_view(b@),
                        y.dom() == member_keys(b@).to_set(),
                        forall|k: int| 0 <= k < i ==> x.dom().contains(#[trigger] member_keys(b@)[k]),
                    decreases b@.len() - i,
                {
                    let key = b[i].0.as_str();
                    assert(member_keys(b@)[i as int] == key@);
                    if find_member(a, key).is_none() {
                        assert(member_keys(b@).contains(key@));
                        assert(y.dom().contains(key@) && !x.dom().contains(key@));
                        return false;
                    }
                }
                for i in 0..a.len()
                    invariant
                        self@ == JsonView::Object(x),
                        other@ == JsonView::Object(y),
                        x == members_view(a@),
                        y == members_view(b@),
                        x.dom() == member_keys(a@).to_set(),
                        x.dom().finite(),
                        forall|k: int|
                            0 <= k < i ==> y.dom().contains(#[trigger] member_keys(a@)[k]) && same_json(
                                x[member_keys(a@)[k]],
                                y[member_keys(a@)[k]],
                            ),
                    decreases a@.len() - i,
                {
                    let key = a[i].0.as_str();
                    assert(member_keys(a@)[i as int] == key@);
                    assert(member_keys(a@).contains(key@));
                    assert(x.dom().contains(key@));
                    match (find_member(a, key), find_member(b, key)) {
                        (Some(p), Some(q)) => {
                            assert(decreases_to!(self@ => self@->Object_0));
                            assert(decreases_to!(x => x[key@]));
                            if !p.same_as(q) {
                                assert(!same_json(x[key@], y[key@]));
                                return false;
                            }
                        },
                        (_, _) => {
                            return false;
                        },
                    }
                }
                proof {
                    assert forall|k: Seq<char>| x.dom().contains(k) == y.dom().contains(k) by {
                        if x.dom().contains(k) {
                            assert(member_keys(a@).contains(k));
                            let i = choose|i: int| 0 <= i < a@.len() && member_keys(a@)[i] == k;
                            assert(y.dom().contains(member_keys(a@)[i]));
                        }
                        if y.dom().contains(k) {
                            assert(member_keys(b@).contains(k));
                            let i = choose|i: int| 0 <= i < b@.len() && member_keys(b@)[i] == k;
                            assert(x.dom().contains(member_keys(b@)[i]));
                        }
                    }
                    assert(x.dom() =~= y.dom());
                    assert forall|k: Seq<char>| x.dom().contains(k) implies same_json(#[trigger] x[k], y[k]) by {
                        assert(member_keys(a@).contains(k));
                        let i = choose|i: int| 0 <= i < a@.len() && member_keys(a@)[i] == k;
                        assert(same_json(x[member_keys(a@)[i]], y[member_keys(a@)[i]]));
                    }
                }
                true
            },
            (_, _) => false,
        }
    }
}

/// The members of an object; none of any other document.
pub open spec fn members_of(j: JsonView) -> Map<Seq<char>, JsonView> {
    match j {
        JsonView::Object(m) => m,
        _ => Map::empty(),
    }
}

/// The text of the member of `j` under `key`.
pub open spec fn text_at(j: JsonView, key: Seq<char>) -> Option<Seq<char>> {
    match j.get(key) {
        Some(v) => v.text(),
        None => None,
    }
}

/// The text of the member of `j` under `key`, or a default.
pub open spec fn text_or(j: JsonView, key: Seq<char>, default: Seq<char>) -> Seq<char> {
    match text_at(j, key) {
        Some(t) => t,
        None => default,
    }
}

/// The items of the array that is the member of `j` under `key`.
pub open spec fn items_at(j: JsonView, key: Seq<char>) -> Option<Seq<JsonView>> {
    match j.get(key) {
        Some(v) => v.items(),
        None => None,
    }
}

/// The value of the member under `key`.
pub fn find_member<'a>(members: &'a Vec<(String, Json)>, key: &str) -> (r: Option<&'a Json>)
    ensures
        match r {
            Some(v) => members_view(members@).dom().contains(key@) && members_view(members@)[key@] == v@,
            None => !members_view(members@).dom().contains(key@),
        },
{
    let mut i: usize = members.len();
    while i > 0
        invariant
            i <= members@.len(),
            forall|j: int| i <= j < members@.len() ==> (#[trigger] members@[j]).0@ != key@,
        decreases i,
    {
        i = i - 1;
        if same(members[i].0.as_str(), key) {
            proof {
                lemma_member_at(members@, key@, i as int);
            }
            return Some(&members[i].1);
        }
    }
    proof {
        lemma_no_member(members@, key@);
    }
    None
}

proof fn lemma_remove_at(s: Seq<(String, Json)>, i: int, key: Seq<char>)
    requires
        0 <= i < s.len(),
        s[i].0@ == key,
    ensures
        members_view(s.remove(i)).remove(key) == members_view(s).remove(key),
    decreases s.len(),
{
    if i == s.len() - 1 {
        assert(s.remove(i) == s.drop_last());
        assert(members_view(s.drop_last()).remove(key) =~= members_view(s).remove(key));
    } else {
        lemma_remove_at(s.drop_last(), i, key);
        let t = s.remove(i);
        assert(t.drop_last() == s.drop_last().remove(i));
        assert(t.last() == s.last());
        let a = members_view(t.drop_last());
        let b = members_view(s.drop_last());
        let l = s.last();
        assert(members_view(t) == a.insert(l.0@, json_view(l.1)));
        assert(members_view(s) == b.insert(l.0@, json_view(l.1)));
        let lhs = members_view(t).remove(key);
        let rhs = members_view(s).remove(key);
        assert forall|x: Seq<char>| #[trigger] lhs.dom().contains(x) == rhs.dom().contains(x) && (
        lhs.dom().contains(x) ==> lhs[x] == rhs[x]) by {
            assert(a.remove(key).dom().contains(x) == b.remove(key).dom().contains(x));
            if a.remove(key).dom().contains(x) {
                assert(a.remove(key)[x] == b.remove(key)[x]);
            }
        }
        assert(lhs =~= rhs);
        assert(members_view(t).remove(key) =~= members_view(s).remove(key));
    }
}

/// Takes the member under `key` out of an object.
pub fn remove_member(members: &mut Vec<(String, Json)>, key: &str) -> (r: Option<Json>)
    ensures
        members_view(final(members)@) == members_view(old(members)@).remove(key@),
        match r {
            Some(v) => members_view(old(members)@).dom().contains(key@) && members_view(old(members)@)[key@]
                == v@,
            None => !members_view(old(members)@).dom().contains(key@),
        },
{
    let ghost start = members@;
    let mut r: Option<Json> = None;
    let mut i: usize = members.len();
    while i > 0
        invariant
            i <= members@.len(),
            forall|j: int| i <= j < members@.len() ==> (#[trigger] members@[j]).0@ != key@,
            members_view(members@).remove(key@) == members_view(start).remove(key@),
            match r {
                Some(v) => members_view(start).dom().contains(key@) && members_view(start)[key@] == v@,
                None => members@ == start,
            },
        decreases i,
    {
        i = i - 1;
        if same(members[i].0.as_str(), key) {
            proof {
                lemma_remove_at(members@, i as int, key@);
                if r is None {
                    lemma_member_at(members@, key@, i as int);
                }
            }
            let m = members.remove(i);
            if r.is_none() {
                r = Some(m.1);
            }
        }
    }
    proof {
        lemma_no_member(members@, key@);
        assert(members_view(members@) =~= members_view(members@).remove(key@));
    }
    r
}

/// Puts a member under `key` into an object, in place of one that is there.
pub fn insert_member(members: &mut Vec<(String, Json)>, key: String, value: Json)
    ensures
        members_view(final(members)@) == members_view(old(members)@).insert(key@, value@),
{
    let ghost start = members_view(members@);
    remove_member(members, key.as_str());
    let ghost t = members@;
    members.push((key, value));
    assert(members@.drop_last() == t);
    assert(members_view(members@) =~= start.insert(key@, value@));
}

/// `n` in decimal notation, with a minus sign where it is negative.
pub open spec fn signed_decimal(n: int) -> Seq<char> {
    if n < 0 {
        seq!['-'] + decimal((-n) as nat)
    } else {
        decimal(n as nat)
    }
}

/// `Number::from` for `i64`: a whole number, written in decimal notation.
#[verifier::external_body]
fn number_from(n: i64) -> (r: Number)
    ensures
        number_text(r) == signed_decimal(n as int),
{
    Number::from(n)
}

/// `Number::from` for `u64`: a whole number, written in decimal notation.
#[verifier::external_body]
fn number_from_unsigned(n: u64) -> (r: Number)
    ensures
        number_text(r) == decimal(n as nat),
{
    Number::from(n)
}

/// The document that is a whole number.
pub fn integer(n: i64) -> (r: Json)
    ensures
        r@ == JsonView::Number(signed_decimal(n as int)),
{
    Json::Number(number_from(n))
}

/// The document that is a whole number from zero.
pub fn natural(n: u64) -> (r: Json)
    ensures
        r@ == JsonView::Number(decimal(n as nat)),
{
    Json::Number(number_from_unsigned(n))
}

/// The document that is a string.
pub fn text(s: &str) -> (r: Json)
    ensures
        r@ == JsonView::Text(s@),
{
    Json::Text(s.to_string())
}

/// The members, and one more under `key`.
pub fn with_member(members: Vec<(String, Json)>, key: &str, value: Json) -> (r: Vec<(String, Json)>)
    ensures
        members_view(r@) == members_view(members@).insert(key@, value@),
{
    let mut r = members;
    let ghost before = r@;
    r.push((key.to_string(), value));
    assert(r@.drop_last() == before);
    r
}

/// The items, and one more.
pub fn with_item(items: Vec<Json>, item: Json) -> (r: Vec<Json>)
    ensures
        items_view(r@) == items_view(items@).push(item@),
{
    let mut r = items;
    let ghost before = r@;
    r.push(item);
    assert(r@.drop_last() == before);
    r
}

pub proof fn lemma_items_update(s: Seq<Json>, i: int, j: Json)
    requires
        0 <= i < s.len(),
    ensures
        items_view(s.update(i, j)) == items_view(s).update(i, json_view(j)),
{
    lemma_items_view(s);
    lemma_items_view(s.update(i, j));
    assert(items_view(s.update(i, j)) =~= items_view(s).update(i, json_view(j)));
}

/// A whole number is read as it was written.
pub proof fn law_natural_read_back(n: u64)
    ensures
        as_natural(JsonView::Number(decimal(n as nat))) == Some(n),
{
    let t = decimal(n as nat);
    let c = choose|c: u64| t == #[trigger] decimal(c as nat);
    assert(t == decimal(n as nat));
    lemma_decimal_injective(c as nat, n as nat);
}

/// A document is equal to itself.
pub proof fn law_same_json_reflexive(j: JsonView)
    ensures
        same_json(j, j),
    decreases j,
{
    match j {
        JsonView::Array(items) => {
            assert forall|i: int| 0 <= i < items.len() implies same_json(#[trigger] items[i], items[i]) by {
                law_same_json_reflexive(items[i]);
            }
        },
        JsonView::Object(m) => {
            assert forall|k: Seq<char>| m.dom().contains(k) implies same_json(#[trigger] m[k], m[k]) by {
                law_same_json_reflexive(m[k]);
            }
        },
        _ => {},
    }
}

/// Whether no number in a document is a zero written as a decimal fraction.
pub open spec fn has_no_fraction_zero(j: JsonView) -> bool
    decreases j,
{
    match j {
        JsonView::Number(t) => !is_fraction_zero(t),
        JsonView::Array(items) => forall|i: int|
            0 <= i < items.len() ==> has_no_fraction_zero(#[trigger] items[i]),
        JsonView::Object(m) => forall|k: Seq<char>| m.dom().contains(k) ==> has_no_fraction_zero(#[trigger] m[k]),
        _ => true,
    }
}

/// But for the sign of a zero, documents are equal only if they are the same.
pub proof fn law_equal_documents_are_the_same(a: JsonView, b: JsonView)
    requires
        has_no_fraction_zero(a),
    ensures
        same_json(a, b) == (a == b),
    decreases a,
{
    if a == b {
        law_same_json_reflexive(a);
    } else if same_json(a, b) {
        match (a, b) {
            (JsonView::Array(x), JsonView::Array(y)) => {
                assert forall|i: int| 0 <= i < x.len() implies x[i] == y[i] by {
                    assert(has_no_fraction_zero(x[i]));
                    assert(same_json(x[i], y[i]));
                    law_equal_documents_are_the_same(x[i], y[i]);
                }
                assert(x =~= y);
            },
            (JsonView::Object(x), JsonView::Object(y)) => {
                assert forall|k: Seq<char>| x.dom().contains(k) implies x[k] == y[k] by {
                    assert(has_no_fraction_zero(x[k]));
                    assert(same_json(x[k], y[k]));
                    law_equal_documents_are_the_same(x[k], y[k]);
                }
                assert(x =~= y);
            },
            _ => {},
        }
    }
}

/// A text is read from a member only where it is a text, items only where it is a list;
/// nothing else is turned into one.
pub proof fn law_members_are_read_as_they_are(j: JsonView, key: Seq<char>, default: Seq<char>)
    ensures
        match j.get(key) {
            Some(JsonView::Text(t)) => text_at(j, key) == Some(t) && text_or(j, key, default) == t,
            _ => text_at(j, key) is None && text_or(j, key, default) == default,
        },
        match j.get(key) {
            Some(JsonView::Array(items)) => items_at(j, key) == Some(items),
            _ => items_at(j, key) is None,
        },
{
}

/// A zero with a fraction has no sign: it is the same number with and without one, but not
/// the same as any other number.
pub proof fn law_zero_has_no_sign(t: Seq<char>)
    ensures
        same_json(JsonView::Number("0.0"@), JsonView::Number("-0.0"@)),
        same_json(JsonView::Number("-0.0"@), JsonView::Number("0.0"@)),
        same_json(JsonView::Number(t), JsonView::Number("0.0"@)) == (t == "0.0"@ || t == "-0.0"@),
        same_json(JsonView::Number("-0.0"@), JsonView::Number(t)) == (t == "0.0"@ || t == "-0.0"@),
{
}

} // verus!
