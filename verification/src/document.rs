//! Documents as text, as `serde_json` values, and as the target of dotted paths.
use crate::json::{items_view, lemma_items_view, members_of, members_view, number_text, Json, JsonView};
use crate::number::{digits_value, parse_number, parsed};
use crate::paths::first_step;
use crate::text::{chars_of, first_pos, lemma_first_pos, same, string_between, views};
use json_dotpath::DotPaths;
use serde_json::{Number, Value};
use vstd::prelude::*;

verus! {

/// `serde_json::Value`, a parsed JSON document.
#[verifier::external_type_specification]
#[verifier::external_body]
pub struct ExValue(serde_json::Value);

/// What a `serde_json::Value` holds.
pub uninterp spec fn value_view(v: Value) -> JsonView;

/// A document as `serde_json::to_string` writes it.
pub uninterp spec fn compact_text(j: JsonView) -> Seq<char>;

/// A document as `serde_json::to_string_pretty` writes it.
pub uninterp spec fn pretty_text(j: JsonView) -> Seq<char>;

/// The document that `serde_json::from_str` reads in a text, or its complaint.
pub uninterp spec fn read_text(text: Seq<char>) -> Result<JsonView, Seq<char>>;

/// The list of documents that `serde_json::from_str` reads in a text, or its complaint.
pub uninterp spec fn read_list(text: Seq<char>) -> Result<Seq<JsonView>, Seq<char>>;

/// The list of strings that `serde_json::from_str` reads in a text.
pub uninterp spec fn read_strings(text: Seq<char>) -> Option<Seq<Seq<char>>>;

/// What `DotPaths::dot_set` makes of a document when a text is set at a path, or its
/// complaint.
pub uninterp spec fn dot_set_outcome(doc: JsonView, path: Seq<char>, value: Seq<char>) -> Result<
    JsonView,
    Seq<char>,
>;

/// One level of a document, what is below it still as `serde_json` values.
pub enum Layer {
    Null,
    Bool(bool),
    Number(Number),
    Text(String),
    Items(Vec<Value>),
    Members(Vec<(String, Value)>),
}

/// What a list of values holds.
pub open spec fn value_items(s: Seq<Value>) -> Seq<JsonView> {
    s.map_values(|v: Value| value_view(v))
}

/// What a list of members holds.
pub open spec fn value_members(s: Seq<(String, Value)>) -> Map<Seq<char>, JsonView>
    decreases s.len(),
{
    if s.len() == 0 {
        Map::empty()
    } else {
        value_members(s.drop_last()).insert(s.last().0@, value_view(s.last().1))
    }
}

/// What one level of a document holds.
pub open spec fn layer_view(l: Layer) -> JsonView {
    match l {
        Layer::Null => JsonView::Null,
        Layer::Bool(b) => JsonView::Bool(b),
        Layer::Number(n) => JsonView::Number(number_text(n)),
        Layer::Text(s) => JsonView::Text(s@),
        Layer::Items(items) => JsonView::Array(value_items(items@)),
        Layer::Members(members) => JsonView::Object(value_members(members@)),
    }
}

/// Whether the members have different keys.
pub open spec fn distinct_keys(s: Seq<(String, Value)>) -> bool {
    forall|i: int, j: int| 0 <= i < j < s.len() ==> (#[trigger] s[i]).0@ != (#[trigger] s[j]).0@
}

/// Whether the members of an object have different keys.
pub open spec fn has_distinct_keys(l: Layer) -> bool {
    l matches Layer::Members(m) ==> distinct_keys(m@)
}

/// The uppermost level of a `serde_json::Value`, by its variants. An object lists each
/// key once.
#[verifier::external_body]
fn open_value(v: Value) -> (r: Layer)
    ensures
        layer_view(r) == value_view(v),
        has_distinct_keys(r),
{
    match v {
        Value::Null => Layer::Null,
        Value::Bool(b) => Layer::Bool(b),
        Value::Number(n) => Layer::Number(n),
        Value::String(s) => Layer::Text(s),
        Value::Array(items) => Layer::Items(items),
        Value::Object(members) => Layer::Members(members.into_iter().collect()),
    }
}

/// The `serde_json::Value` with the given uppermost level. An object is made by
/// `Map::from_iter`, which keeps every member where no key is given twice.
#[verifier::external_body]
fn close_value(l: Layer) -> (r: Value)
    requires
        has_distinct_keys(l),
    ensures
        value_view(r) == layer_view(l),
{
    match l {
        Layer::Null => Value::Null,
        Layer::Bool(b) => Value::Bool(b),
        Layer::Number(n) => Value::Number(n),
        Layer::Text(s) => Value::String(s),
        Layer::Items(items) => Value::Array(items),
        Layer::Members(members) => Value::Object(members.into_iter().collect()),
    }
}

/// `serde_json::to_string`, which writes every `Value`.
#[verifier::external_body]
fn write_compact(v: &Value) -> (r: String)
    ensures
        r@ == compact_text(value_view(*v)),
{
    serde_json::to_string(v).unwrap_or_default()
}

/// `serde_json::to_string_pretty`, which writes every `Value`.
#[verifier::external_body]
fn write_pretty(v: &Value) -> (r: String)
    ensures
        r@ == pretty_text(value_view(*v)),
{
    serde_json::to_string_pretty(v).unwrap_or_default()
}

/// `serde_json::from_str` for any document; the complaint is the error's text.
#[verifier::external_body]
fn read_value(text: &str) -> (r: Result<Value, String>)
    ensures
        match r {
            Ok(v) => read_text(text@) == Ok::<JsonView, Seq<char>>(value_view(v)),
            Err(e) => read_text(text@) == Err::<JsonView, Seq<char>>(e@),
        },
{
    serde_json::from_str(text).map_err(|e| e.to_string())
}

/// `serde_json::from_str` for a list of documents; the complaint is the error's text.
#[verifier::external_body]
fn read_values(text: &str) -> (r: Result<Vec<Value>, String>)
    ensures
        match r {
            Ok(v) => read_list(text@) == Ok::<Seq<JsonView>, Seq<char>>(value_items(v@)),
            Err(e) => read_list(text@) == Err::<Seq<JsonView>, Seq<char>>(e@),
        },
{
    serde_json::from_str(text).map_err(|e| e.to_string())
}

/// `serde_json::from_str` for a list of strings.
#[verifier::external_body]
fn read_texts(text: &str) -> (r: Option<Vec<String>>)
    ensures
        match r {
            Some(v) => read_strings(text@) == Some(views(v@)),
            None => read_strings(text@) is None,
        },
{
    serde_json::from_str(text).ok()
}

/// A new value for the member at a position takes the place of the old one.
proof fn lemma_value_replaced(s: Seq<(String, Value)>, p: int, m: (String, Value))
    requires
        0 <= p < s.len(),
        s[p].0@ == m.0@,
        distinct_keys(s),
    ensures
        value_members(s.update(p, m)) == value_members(s).insert(m.0@, value_view(m.1)),
        distinct_keys(s.update(p, m)),
    decreases s.len(),
{
    let t = s.drop_last();
    let u = s.update(p, m);
    assert(distinct_keys(u)) by {
        assert forall|i: int, j: int| 0 <= i < j < u.len() implies (#[trigger] u[i]).0@ != (#[trigger] u[j]).0@ by {
            assert(s[i].0@ != s[j].0@);
        }
    }
    if p == s.len() - 1 {
        assert(u.drop_last() =~= t);
        assert(value_members(u) =~= value_members(s).insert(m.0@, value_view(m.1)));
    } else {
        assert(distinct_keys(t)) by {
            assert forall|i: int, j: int| 0 <= i < j < t.len() implies (#[trigger] t[i]).0@ != (#[trigger] t[j]).0@ by {
                assert(s[i].0@ != s[j].0@);
            }
        }
        lemma_value_replaced(t, p, m);
        assert(u.drop_last() =~= t.update(p, m));
        assert(u.last() == s.last());
        assert(s[p].0@ != s[s.len() - 1].0@);
        assert(value_members(u) =~= value_members(s).insert(m.0@, value_view(m.1)));
    }
}

/// Puts a member among others, in place of one with the same key.
fn put_value(members: &mut Vec<(String, Value)>, key: String, value: Value)
    requires
        distinct_keys(old(members)@),
    ensures
        distinct_keys(final(members)@),
        value_members(final(members)@) == value_members(old(members)@).insert(key@, value_view(value)),
{
    let ghost start = members@;
    let mut p: usize = 0;
    while p < members.len() && !same(members[p].0.as_str(), key.as_str())
        invariant
            p <= members@.len(),
            members@ == start,
            forall|i: int| 0 <= i < p ==> (#[trigger] members@[i]).0@ != key@,
        decreases members@.len() - p,
    {
        p = p + 1;
    }
    if p < members.len() {
        proof {
            lemma_value_replaced(start, p as int, (key, value));
        }
        members.set(p, (key, value));
    } else {
        members.push((key, value));
        assert(members@.drop_last() =~= start);
    }
}

/// A document as a `serde_json::Value`.
pub fn to_value(j: &Json) -> (r: Value)
    ensures
        value_view(r) == j@,
    decreases j,
{
    match j {
        Json::Null => close_value(Layer::Null),
        Json::Bool(b) => close_value(Layer::Bool(*b)),
        Json::Number(n) => close_value(Layer::Number(n.clone())),
        Json::Text(s) => close_value(Layer::Text(s.clone())),
        Json::Array(items) => {
            let mut r: Vec<Value> = Vec::new();
            for i in 0..items.len()
                invariant
                    *j == Json::Array(*items),
                    r@.len() == i,
                    value_items(r@) == items_view(items@.take(i as int)),
                decreases items@.len() - i,
            {
                let ghost before = r@;
                assert(decreases_to!(*j => j->Array_0));
                assert(decreases_to!(*items => items@));
                assert(decreases_to!(items@ => items@[i as int]));
                let v = to_value(&items[i]);
                r.push(v);
                assert(items@.take(i + 1).drop_last() == items@.take(i as int));
                assert(value_items(r@) == value_items(before).push(value_view(v)));
            }
            assert(items@.take(items@.len() as int) == items@);
            close_value(Layer::Items(r))
        },
        Json::Object(members) => {
            let mut r: Vec<(String, Value)> = Vec::new();
            for i in 0..members.len()
                invariant
                    *j == Json::Object(*members),
                    distinct_keys(r@),
                    value_members(r@) == members_view(members@.take(i as int)),
                decreases members@.len() - i,
            {
                assert(decreases_to!(*j => j->Object_0));
                assert(decreases_to!(*members => members@));
                assert(decreases_to!(members@ => members@[i as int]));
                assert(decreases_to!(members@[i as int] => members@[i as int].1));
                let m = &members[i];
                let v = to_value(&m.1);
                put_value(&mut r, m.0.clone(), v);
                assert(members@.take(i + 1).drop_last() == members@.take(i as int));
            }
            assert(members@.take(members@.len() as int) == members@);
            close_value(Layer::Members(r))
        },
    }
}

proof fn lemma_value_member(s: Seq<(String, Value)>, i: int)
    requires
        0 <= i < s.len(),
        distinct_keys(s),
    ensures
        value_members(s).dom().contains(s[i].0@),
        value_members(s)[s[i].0@] == value_view(s[i].1),
        value_members(s).dom().finite(),
    decreases s.len(),
{
    let t = s.drop_last();
    assert forall|a: int, b: int| 0 <= a < b < t.len() implies (#[trigger] t[a]).0@ != (#[trigger] t[b]).0@ by {
        assert(s[a].0@ != s[b].0@);
    }
    if i < s.len() - 1 {
        lemma_value_member(t, i);
        assert(t[i] == s[i]);
        assert(s[i].0@ != s[s.len() - 1].0@);
    } else {
        lemma_value_members_finite(t);
    }
}

proof fn lemma_value_members_finite(s: Seq<(String, Value)>)
    ensures
        value_members(s).dom().finite(),
    decreases s.len(),
{
    if s.len() > 0 {
        lemma_value_members_finite(s.drop_last());
    }
}

/// The document that a `serde_json::Value` holds.
pub fn from_value(v: Value) -> (r: Json)
    ensures
        r@ == value_view(v),
    decreases value_view(v),
{
    let ghost whole = value_view(v);
    match open_value(v) {
        Layer::Null => Json::Null,
        Layer::Bool(b) => Json::Bool(b),
        Layer::Number(n) => Json::Number(n),
        Layer::Text(s) => Json::Text(s),
        Layer::Items(items) => {
            let ghost all = items@;
            let mut r: Vec<Json> = Vec::new();
            for x in it: items
                invariant
                    it.seq() == all,
                    whole == value_view(v),
                    whole == JsonView::Array(value_items(all)),
                    r@.len() == it.index(),
                    items_view(r@) == value_items(all).take(it.index()),
            {
                let ghost n = r@.len() as int;
                let ghost before = r@;
                assert(x == all[n]);
                assert(decreases_to!(whole => whole->Array_0));
                assert(decreases_to!(value_items(all) => value_items(all)[n]));
                let c = from_value(x);
                r.push(c);
                assert(r@.drop_last() == before);
                assert(value_items(all).take(n + 1) == value_items(all).take(n).push(value_view(x)));
            }
            assert(value_items(all).take(all.len() as int) == value_items(all));
            Json::Array(r)
        },
        Layer::Members(members) => {
            let ghost all = members@;
            let mut r: Vec<(String, Json)> = Vec::new();
            for m in it: members
                invariant
                    it.seq() == all,
                    whole == value_view(v),
                    whole == JsonView::Object(value_members(all)),
                    distinct_keys(all),
                    r@.len() == it.index(),
                    members_view(r@) == value_members(all.take(it.index())),
            {
                let ghost n = r@.len() as int;
                let ghost before = r@;
                assert(m == all[n]);
                proof {
                    lemma_value_member(all, n);
                }
                assert(decreases_to!(whole => whole->Object_0));
                assert(decreases_to!(value_members(all) => value_members(all)[m.0@]));
                let c = from_value(m.1);
                r.push((m.0, c));
                assert(r@.drop_last() == before);
                assert(all.take(n + 1).drop_last() == all.take(n));
            }
            assert(all.take(all.len() as int) == all);
            Json::Object(r)
        },
    }
}

/// A document in compact form.
pub fn to_compact_text(j: &Json) -> (r: String)
    ensures
        r@ == compact_text(j@),
{
    let v = to_value(j);
    write_compact(&v)
}

/// A document in indented form.
pub fn to_pretty_text(j: &Json) -> (r: String)
    ensures
        r@ == pretty_text(j@),
{
    let v = to_value(j);
    write_pretty(&v)
}

/// The document that a text holds, or the complaint about it.
pub fn parse_document(text: &str) -> (r: Result<Json, String>)
    ensures
        match r {
            Ok(j) => read_text(text@) == Ok::<JsonView, Seq<char>>(j@),
            Err(e) => read_text(text@) == Err::<JsonView, Seq<char>>(e@),
        },
{
    match read_value(text) {
        Ok(v) => Ok(from_value(v)),
        Err(e) => Err(e),
    }
}

/// The list of documents that a text holds, or the complaint about it.
pub fn parse_list(text: &str) -> (r: Result<Vec<Json>, String>)
    ensures
        match r {
            Ok(l) => read_list(text@) == Ok::<Seq<JsonView>, Seq<char>>(items_view(l@)),
            Err(e) => read_list(text@) == Err::<Seq<JsonView>, Seq<char>>(e@),
        },
{
    match read_values(text) {
        Ok(values) => {
            let ghost all = values@;
            let mut r: Vec<Json> = Vec::new();
            for x in it: values
                invariant
                    it.seq() == all,
                    r@.len() == it.index(),
                    items_view(r@) == value_items(all).take(it.index()),
            {
                let ghost n = r@.len() as int;
                let ghost before = r@;
                let c = from_value(x);
                r.push(c);
                assert(r@.drop_last() == before);
                assert(value_items(all).take(n + 1) == value_items(all).take(n).push(value_view(x)));
            }
            assert(value_items(all).take(all.len() as int) == value_items(all));
            Ok(r)
        },
        Err(e) => Err(e),
    }
}

/// The list of strings that a text holds.
pub fn parse_strings(text: &str) -> (r: Option<Vec<String>>)
    ensures
        match r {
            Some(v) => read_strings(text@) == Some(views(v@)),
            None => read_strings(text@) is None,
        },
{
    read_texts(text)
}

/// The first step of a dotted path, and the path after the dot that ends it. A backslash
/// takes the character after it as it is; one at the end counts for nothing.
pub open spec fn split_step(path: Seq<char>) -> (Seq<char>, Option<Seq<char>>)
    decreases path.len(),
{
    if path.len() == 0 || (path.len() == 1 && path[0] == '\\') {
        (Seq::empty(), None)
    } else if path[0] == '.' {
        (Seq::empty(), Some(path.skip(1)))
    } else if path[0] == '\\' {
        let (step, rest) = split_step(path.skip(2));
        (seq![path[1]] + step, rest)
    } else {
        let (step, rest) = split_step(path.skip(1));
        (seq![path[0]] + step, rest)
    }
}

/// The item of a list of `len` items that a step leads to.
pub open spec fn step_index(step: Seq<char>, len: nat) -> Option<nat> {
    let i = if step == "<"@ {
        Some(0)
    } else if step == ">"@ {
        Some((len - 1) as nat)
    } else {
        parsed(step, usize::MAX as nat)
    };
    match i {
        Some(n) if len > 0 && n < len => i,
        _ => None,
    }
}

/// Whether a step asks for the place after the largest index there is.
pub open spec fn is_past_largest(step: Seq<char>) -> bool {
    step.len() > 0 && step[0] == '>' && parsed(step.skip(1), usize::MAX as nat) == Some(usize::MAX as nat)
}

/// Whether setting a value at a path asks a list of the document for the place after the
/// largest index there is.
pub open spec fn overflows(doc: JsonView, path: Seq<char>) -> bool
    decreases path.len(),
{
    let (step, rest) = split_step(path);
    proof {
        lemma_split_step(path);
    }
    match doc {
        JsonView::Object(members) => match rest {
            Some(sub) => step.len() > 0 && members.dom().contains(step) && overflows(members[step], sub),
            None => false,
        },
        JsonView::Array(items) => is_past_largest(step) || match (step_index(step, items.len()), rest) {
            (Some(i), Some(sub)) => overflows(items[i as int], sub),
            _ => false,
        },
        _ => false,
    }
}

/// What follows the first step is shorter than the path.
pub proof fn lemma_split_step(path: Seq<char>)
    ensures
        split_step(path).1 matches Some(rest) ==> rest.len() < path.len(),
    decreases path.len(),
{
    if path.len() > 1 && path[0] == '\\' {
        lemma_split_step(path.skip(2));
    } else if path.len() > 0 && path[0] != '.' {
        lemma_split_step(path.skip(1));
    }
}

/// Whether a step stands for a place in a list that is yet to be made.
pub open spec fn is_list_step(step: Seq<char>) -> bool {
    ||| step == "0"@
    ||| step == "+"@
    ||| step == "-"@
    ||| step == "<"@
    ||| step == ">"@
    ||| step == "<<"@
    ||| step == ">>"@
}

/// The place in a list that a step gives by its number.
pub open spec fn place_in_list(step: Seq<char>) -> Option<nat> {
    parsed(step, usize::MAX as nat)
}

/// What a step leads to: a member of an object, an item of a list, or null where there is
/// none yet. Nothing where the step leads nowhere.
pub open spec fn child_at(doc: JsonView, step: Seq<char>) -> Option<JsonView> {
    match doc {
        JsonView::Object(m) => if m.dom().contains(step) {
            Some(m[step])
        } else {
            Some(JsonView::Null)
        },
        JsonView::Array(items) => match place_in_list(step) {
            Some(n) => if n < items.len() {
                Some(items[n as int])
            } else if n == items.len() {
                Some(JsonView::Null)
            } else {
                None
            },
            None => None,
        },
        JsonView::Null => if is_list_step(step) && step != "0"@ {
            None
        } else {
            Some(JsonView::Null)
        },
        _ => None,
    }
}

/// The document with another value where a step leads. Null becomes a list where the
/// step is `0`, and an object otherwise.
pub open spec fn with_child(doc: JsonView, step: Seq<char>, v: JsonView) -> JsonView {
    match doc {
        JsonView::Array(items) => match place_in_list(step) {
            Some(n) if n < items.len() => JsonView::Array(items.update(n as int, v)),
            _ => JsonView::Array(items.push(v)),
        },
        JsonView::Null if step == "0"@ => JsonView::Array(seq![v]),
        _ => JsonView::Object(members_of(doc).insert(step, v)),
    }
}

/// The document with `value` at `path`, where the path leads through objects and to items
/// of lists that it gives by their numbers; what is missing or null on the way is made.
/// Nothing where the path leads elsewhere, or has an empty step or an escape.
pub open spec fn set_through(doc: JsonView, path: Seq<char>, value: Seq<char>) -> Option<JsonView>
    decreases path.len(),
{
    let p = first_pos(path, '.');
    let step = first_step(path);
    if path.contains('\\') || step.len() == 0 {
        None
    } else {
        match child_at(doc, step) {
            Some(child) => {
                let new = if 0 <= p < path.len() {
                    set_through(child, path.skip(p + 1), value)
                } else {
                    Some(JsonView::Text(value))
                };
                match new {
                    Some(v) => Some(with_child(doc, step, v)),
                    None => None,
                }
            },
            None => None,
        }
    }
}

/// Whether a step is a name or a number, and asks for no place before, after or at the
/// end of a list.
pub open spec fn is_plain_step(step: Seq<char>) -> bool {
    &&& step.len() > 0
    &&& step[0] != '<' && step[0] != '>'
    &&& step != "+"@ && step != "-"@
}

/// Whether a path consists of names and numbers.
pub open spec fn is_plain_path(path: Seq<char>) -> bool
    decreases path.len(),
{
    let p = first_pos(path, '.');
    &&& !path.contains('\\')
    &&& is_plain_step(first_step(path))
    &&& 0 <= p < path.len() ==> is_plain_path(path.skip(p + 1))
}

/// What is known of the outcome of setting `value` at `path`.
pub open spec fn sets_path(
    doc: JsonView,
    path: Seq<char>,
    value: Seq<char>,
    outcome: Result<JsonView, Seq<char>>,
) -> bool {
    let step = first_step(path);
    // A path through objects and lists sets the member or the item at its end.
    &&& set_through(doc, path, value) matches Some(j) ==> outcome == Ok::<JsonView, Seq<char>>(j)
    // A path of names and numbers that leads elsewhere is refused.
    &&& set_through(doc, path, value) is None && is_plain_path(path) ==> outcome is Err
    // An object is not asked for a member without a name.
    &&& doc is Object && !path.contains('\\') && step.len() == 0 ==> outcome is Err
    // Of an object only the member that the first step names can change.
    &&& doc is Object && !path.contains('\\') ==> (outcome matches Ok(j) ==> exists|v: JsonView| j
        == JsonView::Object(#[trigger] members_of(doc).insert(step, v)))
}

/// `DotPaths::dot_set` on a `serde_json::Value`, with a text to set; the complaint is
/// the error's text. The path is taken apart at its dots and not at its brackets. What
/// becomes of places before, after or at the end of a list and of a path with escapes or
/// empty steps is not stated beyond the outcome's name. It adds one to the
/// index of a step that asks a list for the place after an item: that the sum is not too
/// large is required.
#[verifier::external_body]
fn dot_set_text(doc: &mut Value, path: &str, value: &str) -> (r: Result<(), String>)
    requires
        !overflows(value_view(*old(doc)), path@),
    ensures
        match r {
            Ok(_) => dot_set_outcome(value_view(*old(doc)), path@, value@) == Ok::<JsonView, Seq<char>>(
                value_view(*final(doc)),
            ),
            Err(e) => dot_set_outcome(value_view(*old(doc)), path@, value@) == Err::<JsonView, Seq<char>>(e@),
        },
        sets_path(
            value_view(*old(doc)),
            path@,
            value@,
            match r {
                Ok(_) => Ok(value_view(*final(doc))),
                Err(e) => Err(e@),
            },
        ),
{
    doc.dot_set(path, value).map_err(|e| e.to_string())
}

/// A document with a text set at a dotted path, or the complaint about the path.
pub fn set_at_path(doc: &Json, path: &str, value: &str) -> (r: Result<Json, String>)
    requires
        !overflows(doc@, path@),
    ensures
        match r {
            Ok(j) => dot_set_outcome(doc@, path@, value@) == Ok::<JsonView, Seq<char>>(j@),
            Err(e) => dot_set_outcome(doc@, path@, value@) == Err::<JsonView, Seq<char>>(e@),
        },
        sets_path(
            doc@,
            path@,
            value@,
            match r {
                Ok(j) => Ok(j@),
                Err(e) => Err(e@),
            },
        ),
{
    let mut v = to_value(doc);
    match dot_set_text(&mut v, path, value) {
        Ok(_) => Ok(from_value(v)),
        Err(e) => Err(e),
    }
}

/// The first step of the path from position `from` on, and where the path after it
/// begins.
fn split_first(cs: &Vec<char>, from: usize) -> (r: (String, Option<usize>))
    requires
        from <= cs@.len(),
    ensures
        r.0@ == split_step(cs@.skip(from as int)).0,
        match r.1 {
            Some(n) => from < n <= cs@.len() && split_step(cs@.skip(from as int)).1 == Some(cs@.skip(n as int)),
            None => split_step(cs@.skip(from as int)).1 is None,
        },
{
    let ghost whole = split_step(cs@.skip(from as int));
    let mut step = String::new();
    let mut i: usize = from;
    assert(step@ + split_step(cs@.skip(i as int)).0 =~= whole.0);
    while i < cs.len()
        invariant
            from <= i <= cs@.len(),
            whole == split_step(cs@.skip(from as int)),
            whole.0 == step@ + split_step(cs@.skip(i as int)).0,
            whole.1 == split_step(cs@.skip(i as int)).1,
        decreases cs@.len() - i,
    {
        let ghost here = cs@.skip(i as int);
        assert(here.skip(1) =~= cs@.skip(i + 1));
        if cs[i] == '.' {
            assert(step@ =~= whole.0);
            return (step, Some(i + 1));
        }
        if cs[i] == '\\' {
            if i + 1 == cs.len() {
                assert(step@ =~= whole.0);
                return (step, None);
            }
            assert(here.skip(2) =~= cs@.skip(i + 2));
            step.push(cs[i + 1]);
            i = i + 2;
        } else {
            step.push(cs[i]);
            i = i + 1;
        }
        assert(step@ + split_step(cs@.skip(i as int)).0 =~= whole.0);
    }
    assert(step@ =~= whole.0);
    (step, None)
}

/// Whether a value can be set at the path from position `from` on.
fn set_is_safe_from(doc: &Json, cs: &Vec<char>, from: usize) -> (r: bool)
    requires
        from <= cs@.len(),
    ensures
        r == !overflows(doc@, cs@.skip(from as int)),
    decreases cs@.len() - from,
{
    let (step, rest) = split_first(cs, from);
    proof {
        reveal_strlit("");
        assert(""@.len() == 0);
        assert(step@.len() == 0 ==> step@ =~= ""@);
    }
    match doc {
        Json::Object(_) => match (doc.get(step.as_str()), rest) {
            (Some(child), Some(n)) => same(step.as_str(), "") || set_is_safe_from(child, cs, n),
            _ => true,
        },
        Json::Array(items) => {
            let sc = chars_of(step.as_str());
            if sc.len() > 0 && sc[0] == '>' {
                let after = string_between(sc.as_slice(), 1, sc.len());
                assert(after@ == step@.skip(1));
                if let Some(n) = parse_number(after.as_str(), usize::MAX as u64) {
                    if n == usize::MAX as u64 {
                        return false;
                    }
                }
            }
            proof {
                lemma_items_view(items@);
            }
            match (index_at(step.as_str(), items.len()), rest) {
                (Some(i), Some(n)) => set_is_safe_from(&items[i], cs, n),
                _ => true,
            }
        },
        _ => true,
    }
}

/// The item of a list of `len` items that a step leads to.
fn index_at(step: &str, len: usize) -> (r: Option<usize>)
    ensures
        match r {
            Some(i) => step_index(step@, len as nat) == Some(i as nat) && i < len,
            None => step_index(step@, len as nat) is None,
        },
{
    if len == 0 {
        return None;
    }
    if same(step, "<") {
        return Some(0);
    }
    if same(step, ">") {
        return Some(len - 1);
    }
    match parse_number(step, usize::MAX as u64) {
        Some(n) => if n < len as u64 {
            Some(n as usize)
        } else {
            None
        },
        None => None,
    }
}

/// Whether a value can be set at a path: no list of the document is asked for the place
/// after the largest index there is.
pub fn set_is_safe(doc: &Json, path: &str) -> (r: bool)
    ensures
        r == !overflows(doc@, path@),
{
    let cs = chars_of(path);
    assert(cs@.skip(0) =~= path@);
    set_is_safe_from(doc, &cs, 0)
}

/// What stands where a step leads.
pub open spec fn read_step(doc: JsonView, step: Seq<char>) -> Option<JsonView> {
    match doc {
        JsonView::Array(items) => match place_in_list(step) {
            Some(n) if n < items.len() => Some(items[n as int]),
            _ => None,
        },
        _ => doc.get(step),
    }
}

/// What stands at a path through objects and lists.
pub open spec fn read_at(doc: JsonView, path: Seq<char>) -> Option<JsonView>
    decreases path.len(),
{
    let p = first_pos(path, '.');
    if 0 <= p < path.len() {
        match read_step(doc, first_step(path)) {
            Some(child) => read_at(child, path.skip(p + 1)),
            None => None,
        }
    } else {
        read_step(doc, path)
    }
}

/// What is put where a step leads is read there, and nothing beside it changes.
proof fn lemma_with_child(doc: JsonView, step: Seq<char>, v: JsonView, other: Seq<char>, k: int)
    requires
        child_at(doc, step) is Some,
    ensures
        read_step(with_child(doc, step, v), step) == Some(v),
        other != step ==> with_child(doc, step, v).get(other) == doc.get(other),
        doc matches JsonView::Array(items) ==> {
            &&& with_child(doc, step, v) matches JsonView::Array(r)
            &&& items.len() <= r.len()
            &&& 0 <= k < items.len() && place_in_list(step) != Some(k as nat) ==> r[k] == items[k]
        },
{
    if doc is Null && step == "0"@ {
        reveal_strlit("0");
        assert(step =~= seq!['0']);
        assert(digits_value(step.drop_last()) == 0);
        assert(place_in_list(step) == Some(0nat));
    }
}

/// What is set at a path through objects and lists is read back there, and beside the
/// member or the item that the first step leads to nothing changes.
pub proof fn law_set_is_read_back(doc: JsonView, path: Seq<char>, value: Seq<char>, other: Seq<char>, k: int)
    requires
        set_through(doc, path, value) is Some,
    ensures
        set_through(doc, path, value) matches Some(j) && {
            &&& read_at(j, path) == Some(JsonView::Text(value))
            &&& other != first_step(path) ==> j.get(other) == doc.get(other)
            &&& doc matches JsonView::Array(items) ==> {
                &&& j matches JsonView::Array(r)
                &&& items.len() <= r.len()
                &&& 0 <= k < items.len() && place_in_list(first_step(path)) != Some(k as nat) ==> r[k] == items[k]
            }
        },
    decreases path.len(),
{
    let p = first_pos(path, '.');
    let step = first_step(path);
    lemma_first_pos(path, '.');
    let child = child_at(doc, step).unwrap();
    if p < path.len() {
        let rest = path.skip(p + 1);
        law_set_is_read_back(child, rest, value, other, k);
        lemma_with_child(doc, step, set_through(child, rest, value).unwrap(), other, k);
    } else {
        assert(step =~= path);
        lemma_with_child(doc, step, JsonView::Text(value), other, k);
    }
}

} // verus!
