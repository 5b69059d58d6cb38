//! Reconciliation: where the current and a staged version of a document differ, and the
//! document that the choices make of them.
use crate::document::{compact_text, pretty_text, to_compact_text, to_pretty_text};
use crate::fixes::list_at;
use crate::json::{
    has_no_fraction_zero, insert_member, law_equal_documents_are_the_same, law_same_json_reflexive, lemma_items_view, lemma_members_dom, member_keys, members_of,
    members_view, remove_member, same_json, text_or, Json, JsonView,
};
use crate::order::{
    ascending, in_order, law_in_order, law_less_asymmetric, law_less_total, lemma_in_order_is, less, sort_unique,
};
use crate::text::{same, views};
use vstd::prelude::*;

verus! {

/// The members that are not reconciled one by one.
pub open spec fn is_skipped_key(key: Seq<char>) -> bool {
    ||| key == "@context"@
    ||| key == "distribution"@
    ||| key == "recordSet"@
}

/// Whether two members are the same: both absent, or both there and equal.
pub open spec fn same_member(a: Option<JsonView>, b: Option<JsonView>) -> bool {
    match (a, b) {
        (None, None) => true,
        (Some(x), Some(y)) => same_json(x, y),
        _ => false,
    }
}

/// A member as it is shown: a string as it stands, nothing for one that is absent or
/// null, else indented.
pub open spec fn display_of(v: Option<JsonView>) -> Seq<char> {
    match v {
        None => Seq::empty(),
        Some(JsonView::Null) => Seq::empty(),
        Some(JsonView::Text(s)) => s,
        Some(j) => pretty_text(j),
    }
}

/// A member in compact form.
pub open spec fn raw_of(v: Option<JsonView>) -> Seq<char> {
    match v {
        None => "null"@,
        Some(j) => compact_text(j),
    }
}

/// The member, seen from outside.
pub open spec fn member_view(v: Option<&Json>) -> Option<JsonView> {
    match v {
        Some(j) => Some(j@),
        None => None,
    }
}

/// A member as it is shown.
pub fn json_display(v: Option<&Json>) -> (r: String)
    ensures
        r@ == display_of(member_view(v)),
{
    match v {
        None => String::new(),
        Some(Json::Null) => String::new(),
        Some(Json::Text(s)) => s.clone(),
        Some(j) => to_pretty_text(j),
    }
}

/// A member in compact form.
pub fn json_raw(v: Option<&Json>) -> (r: String)
    ensures
        r@ == raw_of(member_view(v)),
{
    match v {
        None => "null".to_string(),
        Some(j) => to_compact_text(j),
    }
}

/// A member in which two versions differ.
#[derive(Debug, PartialEq, Eq)]
pub struct ReconcileRow {
    pub key: String,
    pub current_present: bool,
    pub current_display: String,
    pub current_json: String,
    pub staged_present: bool,
    pub staged_display: String,
    pub staged_json: String,
    pub default_choice: String,
    pub is_provenance: bool,
}

/// What is shown of a member in which two versions differ.
pub struct ReconcileRowView {
    pub key: Seq<char>,
    pub current_present: bool,
    pub current_display: Seq<char>,
    pub current_json: Seq<char>,
    pub staged_present: bool,
    pub staged_display: Seq<char>,
    pub staged_json: Seq<char>,
    pub default_choice: Seq<char>,
    pub is_provenance: bool,
}

impl View for ReconcileRow {
    type V = ReconcileRowView;

    open spec fn view(&self) -> ReconcileRowView {
        ReconcileRowView {
            key: self.key@,
            current_present: self.current_present,
            current_display: self.current_display@,
            current_json: self.current_json@,
            staged_present: self.staged_present,
            staged_display: self.staged_display@,
            staged_json: self.staged_json@,
            default_choice: self.default_choice@,
            is_provenance: self.is_provenance,
        }
    }
}

/// What is shown of a list of differing members.
pub open spec fn reconcile_views(s: Seq<ReconcileRow>) -> Seq<ReconcileRowView> {
    s.map_values(|r: ReconcileRow| r@)
}

/// What is shown of a member with the values `a` and `b`. Only where it is missing from
/// the current version the staged one is the default.
pub open spec fn row_of(key: Seq<char>, a: Option<JsonView>, b: Option<JsonView>) -> ReconcileRowView {
    ReconcileRowView {
        key,
        current_present: a is Some,
        current_display: display_of(a),
        current_json: raw_of(a),
        staged_present: b is Some,
        staged_display: display_of(b),
        staged_json: raw_of(b),
        default_choice: if a is None && b is Some {
            "staged"@
        } else {
            "current"@
        },
        is_provenance: key == "dct:provenance"@,
    }
}

/// The rows for those of the keys that have to be reconciled.
pub open spec fn rows_of(keys: Seq<Seq<char>>, current: JsonView, staged: JsonView) -> Seq<ReconcileRowView>
    decreases keys.len(),
{
    if keys.len() == 0 {
        Seq::empty()
    } else {
        let before = rows_of(keys.drop_last(), current, staged);
        let k = keys.last();
        if is_skipped_key(k) || same_member(current.get(k), staged.get(k)) {
            before
        } else {
            before.push(row_of(k, current.get(k), staged.get(k)))
        }
    }
}

/// The keys of both versions, in order.
pub open spec fn all_keys(current: JsonView, staged: JsonView) -> Seq<Seq<char>> {
    in_order(members_of(current).dom().union(members_of(staged).dom()))
}

/// Whether the distributions or the record sets differ.
pub open spec fn data_differs(current: JsonView, staged: JsonView) -> bool {
    !same_member(current.get("distribution"@), staged.get("distribution"@)) || !same_member(
        current.get("recordSet"@),
        staged.get("recordSet"@),
    )
}

/// The choice proposed for distributions and record sets: the staged ones only where the
/// current version has neither.
pub open spec fn data_default(current: JsonView, staged: JsonView) -> Seq<char> {
    if list_at(current, "distribution"@).len() == 0 && list_at(current, "recordSet"@).len() == 0 && (list_at(
        staged,
        "distribution"@,
    ).len() > 0 || list_at(staged, "recordSet"@).len() > 0) {
        "staged"@
    } else {
        "current"@
    }
}

/// The differences between two versions.
#[derive(Debug, PartialEq, Eq)]
pub struct ReconcilePage {
    pub rows: Vec<ReconcileRow>,
    pub current_dist_count: usize,
    pub staged_dist_count: usize,
    pub current_rs_count: usize,
    pub staged_rs_count: usize,
    pub dist_recordset_differs: bool,
    pub dist_recordset_default: String,
}

/// The keys of an object.
fn keys_of(j: &Json) -> (r: Vec<String>)
    ensures
        views(r@).to_set() == members_of(j@).dom(),
{
    let mut r: Vec<String> = Vec::new();
    match j {
        Json::Object(members) => {
            for i in 0..members.len()
                invariant
                    views(r@) == member_keys(members@).take(i as int),
            {
                let ghost before = views(r@);
                r.push(members[i].0.clone());
                assert(views(r@) =~= before.push(members@[i as int].0@));
            }
            proof {
                assert(views(r@) =~= member_keys(members@));
                lemma_members_dom(members@);
            }
        },
        _ => {
            assert(views(r@).to_set() =~= Set::empty());
            assert(members_of(j@).dom() =~= Set::empty());
        },
    }
    r
}

/// The keys of both versions, in order.
fn collect_keys(current: &Json, staged: &Json) -> (r: Vec<String>)
    ensures
        views(r@) == all_keys(current@, staged@),
{
    let mut keys = keys_of(current);
    let mut more = keys_of(staged);
    let ghost a = views(keys@);
    let ghost b = views(more@);
    keys.append(&mut more);
    proof {
        let all = views(keys@);
        assert(all =~= a + b);
        assert forall|k: Seq<char>| all.to_set().contains(k) == a.to_set().union(b.to_set()).contains(k) by {
            if a.contains(k) {
                let i = choose|i: int| 0 <= i < a.len() && a[i] == k;
                assert(all[i] == k);
            }
            if b.contains(k) {
                let i = choose|i: int| 0 <= i < b.len() && b[i] == k;
                assert(all[a.len() + i] == k);
            }
            if all.contains(k) {
                let i = choose|i: int| 0 <= i < all.len() && all[i] == k;
                assert(i < a.len() ==> a[i] == k);
                assert(i >= a.len() ==> b[i - a.len()] == k);
            }
        }
        assert(all.to_set() =~= a.to_set().union(b.to_set()));
    }
    sort_unique(&keys)
}

/// Whether two members are the same.
fn members_equal(a: Option<&Json>, b: Option<&Json>) -> (r: bool)
    ensures
        r == same_member(member_view(a), member_view(b)),
{
    match (a, b) {
        (None, None) => true,
        (Some(x), Some(y)) => x.same_as(y),
        (_, _) => false,
    }
}

/// How many items the array under `key` has.
fn count_at(j: &Json, key: &str) -> (r: usize)
    ensures
        r == list_at(j@, key@).len(),
{
    match j.items_at(key) {
        Some(items) => {
            proof {
                lemma_items_view(items@);
            }
            items.len()
        },
        None => 0,
    }
}

/// Where the current and the staged version of a document differ.
pub fn build_reconcile_page(current: &Json, staged: &Json) -> (r: ReconcilePage)
    ensures
        reconcile_views(r.rows@) == rows_of(all_keys(current@, staged@), current@, staged@),
        r.current_dist_count == list_at(current@, "distribution"@).len(),
        r.staged_dist_count == list_at(staged@, "distribution"@).len(),
        r.current_rs_count == list_at(current@, "recordSet"@).len(),
        r.staged_rs_count == list_at(staged@, "recordSet"@).len(),
        r.dist_recordset_differs == data_differs(current@, staged@),
        r.dist_recordset_default@ == data_default(current@, staged@),
{
    let keys = collect_keys(current, staged);
    let ghost kv = views(keys@);
    let mut rows: Vec<ReconcileRow> = Vec::new();
    assert(reconcile_views(rows@) =~= rows_of(kv.take(0), current@, staged@));
    for i in 0..keys.len()
        invariant
            kv == views(keys@),
            reconcile_views(rows@) == rows_of(kv.take(i as int), current@, staged@),
    {
        let key = keys[i].as_str();
        assert(kv.take(i + 1).drop_last() =~= kv.take(i as int));
        assert(kv.take(i + 1).last() == key@);
        let skipped = same(key, "@context") || same(key, "distribution") || same(key, "recordSet");
        let a = current.get(key);
        let b = staged.get(key);
        if !skipped && !members_equal(a, b) {
            let choice = if a.is_none() && b.is_some() {
                "staged".to_string()
            } else {
                "current".to_string()
            };
            let row = ReconcileRow {
                key: keys[i].clone(),
                current_present: a.is_some(),
                current_display: json_display(a),
                current_json: json_raw(a),
                staged_present: b.is_some(),
                staged_display: json_display(b),
                staged_json: json_raw(b),
                default_choice: choice,
                is_provenance: same(key, "dct:provenance"),
            };
            let ghost before = reconcile_views(rows@);
            assert(row@ == row_of(key@, current@.get(key@), staged@.get(key@)));
            rows.push(row);
            assert(reconcile_views(rows@) =~= before.push(row@));
        }
    }
    assert(kv.take(kv.len() as int) =~= kv);
    let current_dist_count = count_at(current, "distribution");
    let staged_dist_count = count_at(staged, "distribution");
    let current_rs_count = count_at(current, "recordSet");
    let staged_rs_count = count_at(staged, "recordSet");
    let differs = !members_equal(current.get("distribution"), staged.get("distribution")) || !members_equal(
        current.get("recordSet"),
        staged.get("recordSet"),
    );
    let default = if current_dist_count == 0 && current_rs_count == 0 && (staged_dist_count > 0
        || staged_rs_count > 0) {
        "staged".to_string()
    } else {
        "current".to_string()
    };
    ReconcilePage {
        rows,
        current_dist_count,
        staged_dist_count,
        current_rs_count,
        staged_rs_count,
        dist_recordset_differs: differs,
        dist_recordset_default: default,
    }
}

/// The object with the staged member under `key`, or without one where the staged
/// version has none.
pub open spec fn take_staged(
    m: Map<Seq<char>, JsonView>,
    staged: JsonView,
    key: Seq<char>,
) -> Map<Seq<char>, JsonView> {
    match staged.get(key) {
        Some(v) => m.insert(key, v),
        None => m.remove(key),
    }
}

/// The value that comes with a choice; null where there is none.
pub open spec fn chosen_value(resolution: JsonView) -> JsonView {
    match resolution.get("value"@) {
        Some(v) => v,
        None => JsonView::Null,
    }
}

/// The object after one choice: the member stays, is taken from the staged version, is
/// replaced by an edited value, or is replaced by the members of an object.
pub open spec fn resolve(
    m: Map<Seq<char>, JsonView>,
    staged: JsonView,
    key: Seq<char>,
    resolution: JsonView,
) -> Map<Seq<char>, JsonView> {
    let source = text_or(resolution, "source"@, "current"@);
    if source == "staged"@ {
        take_staged(m, staged, key)
    } else if source == "edit"@ {
        m.insert(key, chosen_value(resolution))
    } else if source == "restructure"@ {
        m.remove(key).union_prefer_right(members_of(chosen_value(resolution)))
    } else {
        m
    }
}

/// The object after the choices for the given keys, one after another.
pub open spec fn resolve_all(
    m: Map<Seq<char>, JsonView>,
    staged: JsonView,
    resolutions: Map<Seq<char>, JsonView>,
    keys: Seq<Seq<char>>,
) -> Map<Seq<char>, JsonView>
    decreases keys.len(),
{
    if keys.len() == 0 {
        m
    } else {
        resolve(
            resolve_all(m, staged, resolutions, keys.drop_last()),
            staged,
            keys.last(),
            resolutions[keys.last()],
        )
    }
}

/// The choices for single members.
pub open spec fn resolutions_in(body: JsonView) -> Map<Seq<char>, JsonView> {
    match body.get("field_resolutions"@) {
        Some(r) => members_of(r),
        None => Map::empty(),
    }
}

/// The document that the choices make of the current and the staged version.
pub open spec fn reconciled(current: JsonView, staged: JsonView, body: JsonView) -> Option<JsonView> {
    match current {
        JsonView::Object(m) => {
            let r = resolutions_in(body);
            let fields = resolve_all(m, staged, r, in_order(r.dom()));
            if text_or(body, "dist_recordset_choice"@, "current"@) == "staged"@ {
                Some(
                    JsonView::Object(
                        take_staged(take_staged(fields, staged, "distribution"@), staged, "recordSet"@),
                    ),
                )
            } else {
                Some(JsonView::Object(fields))
            }
        },
        _ => None,
    }
}

/// Takes the member under `key` from the staged version.
fn use_staged(m: &mut Vec<(String, Json)>, staged: &Json, key: &str)
    ensures
        members_view(final(m)@) == take_staged(members_view(old(m)@), staged@, key@),
{
    match staged.get(key) {
        Some(v) => {
            insert_member(m, key.to_string(), v.clone());
        },
        None => {
            remove_member(m, key);
        },
    }
}

/// Puts all members of an object into another.
fn merge(m: &mut Vec<(String, Json)>, more: &Vec<(String, Json)>)
    ensures
        members_view(final(m)@) == members_view(old(m)@).union_prefer_right(members_view(more@)),
{
    let ghost start = members_view(m@);
    assert(members_view(more@.take(0)) =~= Map::empty());
    assert(members_view(m@) =~= start.union_prefer_right(members_view(more@.take(0))));
    for i in 0..more.len()
        invariant
            members_view(m@) == start.union_prefer_right(members_view(more@.take(i as int))),
    {
        assert(more@.take(i + 1).drop_last() =~= more@.take(i as int));
        let ghost before = members_view(m@);
        insert_member(m, more[i].0.clone(), more[i].1.clone());
        let ghost k = more@[i as int].0@;
        let ghost v = more@[i as int].1@;
        assert(before.insert(k, v) =~= start.union_prefer_right(
            members_view(more@.take(i as int)).insert(k, v),
        ));
    }
    assert(more@.take(more@.len() as int) =~= more@);
}

/// Carries out one choice.
fn carry_out(m: &mut Vec<(String, Json)>, staged: &Json, key: &str, resolution: &Json)
    ensures
        members_view(final(m)@) == resolve(members_view(old(m)@), staged@, key@, resolution@),
{
    let source = resolution.text_or("source", "current");
    if same(source.as_str(), "staged") {
        use_staged(m, staged, key);
    } else if same(source.as_str(), "edit") {
        let value = match resolution.get("value") {
            Some(v) => v.clone(),
            None => Json::Null,
        };
        insert_member(m, key.to_string(), value);
    } else if same(source.as_str(), "restructure") {
        let ghost start = members_view(m@);
        remove_member(m, key);
        match resolution.get("value") {
            Some(Json::Object(more)) => {
                merge(m, more);
            },
            _ => {
                assert(members_view(m@) =~= start.remove(key@).union_prefer_right(
                    members_of(chosen_value(resolution@)),
                ));
            },
        }
    }
}

/// The document that the choices make of the current and the staged version, or a
/// complaint where the current one is no object.
pub fn reconcile(current: &Json, staged: &Json, body: &Json) -> (r: Result<Json, String>)
    ensures
        match r {
            Ok(j) => reconciled(current@, staged@, body@) == Some(j@),
            Err(e) => reconciled(current@, staged@, body@) is None && e@ == "current metadata is not a JSON object"@,
        },
{
    let mut m = match current.clone() {
        Json::Object(m) => m,
        _ => {
            return Err("current metadata is not a JSON object".to_string());
        },
    };
    let ghost start = members_view(m@);
    let ghost r = resolutions_in(body@);
    let mut keys: Vec<String> = Vec::new();
    match body.get("field_resolutions") {
        Some(list) => {
            let found = keys_of(list);
            keys = sort_unique(&found);
            let ghost kv = views(keys@);
            assert(kv == in_order(r.dom()));
            assert(kv.to_set() == r.dom());
            for i in 0..keys.len()
                invariant
                    kv == views(keys@),
                    kv.to_set() == r.dom(),
                    r == members_of(list@),
                    members_view(m@) == resolve_all(start, staged@, r, kv.take(i as int)),
            {
                let key = keys[i].as_str();
                assert(kv.take(i + 1).drop_last() =~= kv.take(i as int));
                assert(kv.take(i + 1).last() == key@);
                assert(kv[i as int] == key@);
                assert(kv.to_set().contains(key@));
                assert(list@.get(key@) == Some(r[key@]));
                if let Some(resolution) = list.get(key) {
                    carry_out(&mut m, staged, key, resolution);
                }
            }
            assert(kv.take(kv.len() as int) =~= kv);
        },
        None => {
            proof {
                let none = Seq::<Seq<char>>::empty();
                assert(ascending(none));
                assert(none.to_set() =~= r.dom());
                lemma_in_order_is(none);
                assert(resolve_all(start, staged@, r, none) == start);
            }
        },
    }
    if same(body.text_or("dist_recordset_choice", "current").as_str(), "staged") {
        use_staged(&mut m, staged, "distribution");
        use_staged(&mut m, staged, "recordSet");
    }
    Ok(Json::Object(m))
}

proof fn lemma_rows(keys: Seq<Seq<char>>, current: JsonView, staged: JsonView, key: Seq<char>)
    ensures
        (exists|i: int|
            0 <= i < rows_of(keys, current, staged).len() && (#[trigger] rows_of(keys, current, staged)[i]).key
                == key) == (keys.contains(key) && !is_skipped_key(key) && !same_member(
            current.get(key),
            staged.get(key),
        )),
    decreases keys.len(),
{
    let rows = rows_of(keys, current, staged);
    if keys.len() > 0 {
        let t = keys.drop_last();
        let before = rows_of(t, current, staged);
        lemma_rows(t, current, staged, key);
        assert(keys =~= t.push(keys.last()));
        if t.contains(key) {
            let i = choose|i: int| 0 <= i < t.len() && t[i] == key;
            assert(keys[i] == key);
        }
        if keys.last() == key {
            assert(keys[keys.len() - 1] == key);
        }
        if exists|i: int| 0 <= i < before.len() && (#[trigger] before[i]).key == key {
            let i = choose|i: int| 0 <= i < before.len() && (#[trigger] before[i]).key == key;
            assert(rows[i].key == key);
        }
        if exists|i: int| 0 <= i < rows.len() && (#[trigger] rows[i]).key == key {
            let i = choose|i: int| 0 <= i < rows.len() && (#[trigger] rows[i]).key == key;
            if i < before.len() {
                assert(before[i].key == key);
            }
        }
        if rows.len() > before.len() {
            assert(rows[before.len() as int].key == keys.last());
        }
    }
}

/// The rows are the members in which the versions differ: a key has a row if and only if
/// one version has it, it is reconciled on its own, and the versions are not equal there.
pub proof fn law_rows_are_differences(current: JsonView, staged: JsonView, key: Seq<char>)
    requires
        members_of(current).dom().finite(),
        members_of(staged).dom().finite(),
    ensures
        ({
            let rows = rows_of(all_keys(current, staged), current, staged);
            (exists|i: int| 0 <= i < rows.len() && (#[trigger] rows[i]).key == key) == (!is_skipped_key(key)
                && !same_member(current.get(key), staged.get(key)))
        }),
{
    let set = members_of(current).dom().union(members_of(staged).dom());
    law_in_order(set);
    let keys = all_keys(current, staged);
    lemma_rows(keys, current, staged, key);
    assert(keys.to_set().contains(key) == set.contains(key));
    assert(keys.contains(key) == set.contains(key));
}

/// Two equal versions leave nothing to reconcile.
pub proof fn law_equal_versions_have_no_rows(doc: JsonView)
    requires
        members_of(doc).dom().finite(),
    ensures
        rows_of(all_keys(doc, doc), doc, doc).len() == 0,
        !data_differs(doc, doc),
{
    let rows = rows_of(all_keys(doc, doc), doc, doc);
    assert forall|k: Seq<char>| same_member(doc.get(k), doc.get(k)) by {
        if let Some(v) = doc.get(k) {
            law_same_json_reflexive(v);
        }
    }
    if rows.len() > 0 {
        law_rows_are_differences(doc, doc, rows[0].key);
        assert(rows[0].key == rows[0].key);
    }
}

/// Without choices the current version stays as it is.
pub proof fn law_no_choices_keep_current(current: JsonView, staged: JsonView, body: JsonView)
    requires
        current is Object,
        body.get("field_resolutions"@) is None,
        body.get("dist_recordset_choice"@) is None,
    ensures
        reconciled(current, staged, body) == Some(current),
{
    let none = Seq::<Seq<char>>::empty();
    let r = resolutions_in(body);
    assert(ascending(none));
    assert(none.to_set() =~= r.dom());
    lemma_in_order_is(none);
    reveal_strlit("current");
    reveal_strlit("staged");
    assert("current"@.len() == 7 && "staged"@.len() == 6);
}

proof fn lemma_resolved_at(
    m: Map<Seq<char>, JsonView>,
    staged: JsonView,
    r: Map<Seq<char>, JsonView>,
    keys: Seq<Seq<char>>,
    key: Seq<char>,
)
    requires
        keys.no_duplicates(),
        forall|i: int|
            0 <= i < keys.len() ==> text_or(r[#[trigger] keys[i]], "source"@, "current"@) != "restructure"@,
    ensures
        ({
            let after = resolve_all(m, staged, r, keys);
            let once = if keys.contains(key) {
                resolve(m, staged, key, r[key])
            } else {
                m
            };
            &&& after.dom().contains(key) == once.dom().contains(key)
            &&& after.dom().contains(key) ==> after[key] == once[key]
        }),
    decreases keys.len(),
{
    if keys.len() > 0 {
        let t = keys.drop_last();
        assert forall|i: int| 0 <= i < t.len() implies text_or(r[#[trigger] t[i]], "source"@, "current"@)
            != "restructure"@ by {
            assert(t[i] == keys[i]);
        }
        lemma_resolved_at(m, staged, r, t, key);
        let l = keys.last();
        assert(keys[keys.len() - 1] == l);
        assert(text_or(r[l], "source"@, "current"@) != "restructure"@);
        if t.contains(key) {
            let i = choose|i: int| 0 <= i < t.len() && t[i] == key;
            assert(keys[i] == key);
            assert(key != l);
        } else if keys.contains(key) {
            let i = choose|i: int| 0 <= i < keys.len() && keys[i] == key;
            assert(i < t.len() ==> t[i] == key);
            assert(key == l);
        }
    }
}

/// Unless an object is taken apart, each choice concerns its own member only: a member
/// is what its own choice makes of the current one, and a member without a choice stays
/// as it is.
pub proof fn law_choices_are_independent(
    current: JsonView,
    staged: JsonView,
    body: JsonView,
    key: Seq<char>,
)
    requires
        current is Object,
        resolutions_in(body).dom().finite(),
        forall|k: Seq<char>| #[trigger]
            resolutions_in(body).dom().contains(k) ==> text_or(
                resolutions_in(body)[k],
                "source"@,
                "current"@,
            ) != "restructure"@,
        !is_skipped_key(key),
    ensures
        reconciled(current, staged, body) matches Some(j) && j.get(key) == JsonView::Object(
            if resolutions_in(body).dom().contains(key) {
                resolve(members_of(current), staged, key, resolutions_in(body)[key])
            } else {
                members_of(current)
            },
        ).get(key),
{
    let r = resolutions_in(body);
    let keys = in_order(r.dom());
    law_in_order(r.dom());
    assert forall|i: int, j: int| 0 <= i < keys.len() && 0 <= j < keys.len() && i != j implies keys[i] != keys[j] by {
        if i < j {
            assert(less(keys[i], keys[j]));
            law_less_asymmetric(keys[i], keys[j]);
        } else {
            assert(less(keys[j], keys[i]));
            law_less_asymmetric(keys[j], keys[i]);
        }
    }
    assert forall|i: int| 0 <= i < keys.len() implies text_or(r[#[trigger] keys[i]], "source"@, "current"@)
        != "restructure"@ by {
        assert(keys.to_set().contains(keys[i]));
    }
    lemma_resolved_at(members_of(current), staged, r, keys, key);
    assert(keys.contains(key) == keys.to_set().contains(key));
}

/// What is chosen from the staged version is as it is there, and gone where the staged
/// version does not have it.
pub proof fn law_staged_choice_takes_staged(
    m: Map<Seq<char>, JsonView>,
    staged: JsonView,
    key: Seq<char>,
    resolution: JsonView,
)
    requires
        text_or(resolution, "source"@, "current"@) == "staged"@,
    ensures
        JsonView::Object(resolve(m, staged, key, resolution)).get(key) == staged.get(key),
{
}

/// The proposed choices lose nothing: carried out for all rows, they keep every member of
/// the current version and add those that only the staged one has.
pub proof fn law_defaults_lose_nothing(current: JsonView, staged: JsonView, body: JsonView, key: Seq<char>)
    requires
        current is Object,
        resolutions_in(body).dom().finite(),
        forall|k: Seq<char>| #[trigger]
            resolutions_in(body).dom().contains(k) == (!is_skipped_key(k) && !same_member(
                current.get(k),
                staged.get(k),
            )),
        forall|k: Seq<char>| #[trigger]
            resolutions_in(body).dom().contains(k) ==> text_or(
                resolutions_in(body)[k],
                "source"@,
                "current"@,
            ) == row_of(k, current.get(k), staged.get(k)).default_choice,
        !is_skipped_key(key),
    ensures
        reconciled(current, staged, body) matches Some(j) && j.get(key) == (if current.get(key) is Some {
            current.get(key)
        } else {
            staged.get(key)
        }),
{
    reveal_strlit("current");
    reveal_strlit("staged");
    reveal_strlit("edit");
    reveal_strlit("restructure");
    assert("current"@.len() == 7 && "staged"@.len() == 6 && "restructure"@.len() == 11 && "edit"@.len() == 4);
    law_choices_are_independent(current, staged, body, key);
    let r = resolutions_in(body);
    if r.dom().contains(key) {
        assert(text_or(r[key], "source"@, "current"@) == row_of(key, current.get(key), staged.get(key)).default_choice);
    }
}

/// What the choices make of a member: one chosen from the staged version is as it is
/// there, one that was edited has the value that came with the choice (null where none
/// did), whatever the two versions hold there, and any other one is as it is in the
/// current version, unless a member that is taken apart has one of that name. Distributions
/// and record sets come from the staged version, both of them, where that was chosen for
/// them.
pub proof fn law_choices_are_carried_out(
    current: JsonView,
    staged: JsonView,
    body: JsonView,
    choices: Map<Seq<char>, JsonView>,
    key: Seq<char>,
)
    requires
        current is Object,
        body.get("field_resolutions"@) == Some(JsonView::Object(choices)),
        choices.dom().finite(),
        forall|k: Seq<char>| #[trigger]
            choices.dom().contains(k) && choices[k].get("source"@) == Some(JsonView::Text("restructure"@)) ==> k != key
                && (choices[k].get("value"@) matches Some(v) ==> v.get(key) is None),
    ensures
        reconciled(current, staged, body) matches Some(j) && j.get(key) == (if body.get("dist_recordset_choice"@)
            == Some(JsonView::Text("staged"@)) && (key == "distribution"@ || key == "recordSet"@) {
            staged.get(key)
        } else if !choices.dom().contains(key) {
            current.get(key)
        } else if choices[key].get("source"@) == Some(JsonView::Text("staged"@)) {
            staged.get(key)
        } else if choices[key].get("source"@) == Some(JsonView::Text("edit"@)) {
            match choices[key].get("value"@) {
                Some(v) => Some(v),
                None => Some(JsonView::Null),
            }
        } else {
            current.get(key)
        }),
{
    lemma_source_words();
    let r = resolutions_in(body);
    assert(r == choices);
    let keys = in_order(r.dom());
    law_in_order(r.dom());
    lemma_ascending_distinct(keys);
    assert forall|i: int| 0 <= i < keys.len() implies leaves_alone(r, #[trigger] keys[i], key) by {
        assert(keys.to_set().contains(keys[i]));
        assert(r.dom().contains(keys[i]));
    }
    lemma_resolved_beside(members_of(current), staged, r, keys, key);
    assert(keys.contains(key) == keys.to_set().contains(key));
}

/// Whether the choice for `k` takes nothing apart that concerns `key`.
spec fn leaves_alone(r: Map<Seq<char>, JsonView>, k: Seq<char>, key: Seq<char>) -> bool {
    text_or(r[k], "source"@, "current"@) == "restructure"@ ==> k != key && !members_of(
        chosen_value(r[k]),
    ).dom().contains(key)
}

proof fn lemma_resolved_beside(
    m: Map<Seq<char>, JsonView>,
    staged: JsonView,
    r: Map<Seq<char>, JsonView>,
    keys: Seq<Seq<char>>,
    key: Seq<char>,
)
    requires
        keys.no_duplicates(),
        forall|i: int| 0 <= i < keys.len() ==> leaves_alone(r, #[trigger] keys[i], key),
    ensures
        ({
            let after = resolve_all(m, staged, r, keys);
            let once = if keys.contains(key) {
                resolve(m, staged, key, r[key])
            } else {
                m
            };
            &&& after.dom().contains(key) == once.dom().contains(key)
            &&& after.dom().contains(key) ==> after[key] == once[key]
        }),
    decreases keys.len(),
{
    if keys.len() > 0 {
        let t = keys.drop_last();
        assert forall|i: int| 0 <= i < t.len() implies leaves_alone(r, #[trigger] t[i], key) by {
            assert(t[i] == keys[i]);
        }
        lemma_resolved_beside(m, staged, r, t, key);
        let l = keys.last();
        assert(keys[keys.len() - 1] == l);
        assert(leaves_alone(r, l, key));
        if t.contains(key) {
            let i = choose|i: int| 0 <= i < t.len() && t[i] == key;
            assert(keys[i] == key);
            assert(key != l);
        } else if keys.contains(key) {
            let i = choose|i: int| 0 <= i < keys.len() && keys[i] == key;
            assert(i < t.len() ==> t[i] == key);
            assert(key == l);
        }
    }
}

proof fn lemma_source_words()
    ensures
        "current"@ != "staged"@,
        "current"@ != "edit"@,
        "current"@ != "restructure"@,
        "staged"@ != "edit"@,
        "staged"@ != "restructure"@,
        "edit"@ != "restructure"@,
        "distribution"@ != "recordSet"@,
{
    reveal_strlit("current");
    reveal_strlit("staged");
    reveal_strlit("edit");
    reveal_strlit("restructure");
    reveal_strlit("distribution");
    reveal_strlit("recordSet");
    assert("current"@.len() == 7 && "staged"@.len() == 6 && "restructure"@.len() == 11 && "edit"@.len() == 4);
    assert("distribution"@.len() == 12 && "recordSet"@.len() == 9);
}

proof fn lemma_ascending_distinct(keys: Seq<Seq<char>>)
    requires
        ascending(keys),
    ensures
        keys.no_duplicates(),
{
    assert forall|i: int, j: int| 0 <= i < keys.len() && 0 <= j < keys.len() && i != j implies keys[i] != keys[j] by {
        if i < j {
            assert(less(keys[i], keys[j]));
            law_less_asymmetric(keys[i], keys[j]);
        } else {
            assert(less(keys[j], keys[i]));
            law_less_asymmetric(keys[j], keys[i]);
        }
    }
}

/// To take a member apart is to put the members of the value that comes with the choice
/// in its place: each of them is there afterwards, the member itself is gone unless the
/// value has one of that name, and all other members stay.
pub proof fn law_restructure_replaces_member(
    current: JsonView,
    staged: JsonView,
    body: JsonView,
    key: Seq<char>,
    choice: JsonView,
    parts: Map<Seq<char>, JsonView>,
    other: Seq<char>,
)
    requires
        current is Object,
        body.get("field_resolutions"@) == Some(JsonView::Object(map![key => choice])),
        choice.get("source"@) == Some(JsonView::Text("restructure"@)),
        match choice.get("value"@) {
            Some(JsonView::Object(m)) => parts == m,
            _ => parts == Map::<Seq<char>, JsonView>::empty(),
        },
    ensures
        reconciled(current, staged, body) matches Some(j) && j.get(other) == (if body.get("dist_recordset_choice"@)
            == Some(JsonView::Text("staged"@)) && (other == "distribution"@ || other == "recordSet"@) {
            staged.get(other)
        } else if parts.dom().contains(other) {
            Some(parts[other])
        } else if other == key {
            None
        } else {
            current.get(other)
        }),
{
    lemma_source_words();
    let r = resolutions_in(body);
    let one = seq![key];
    assert(r == map![key => choice]);
    assert(ascending(one));
    assert(one.to_set() =~= r.dom()) by {
        assert forall|k: Seq<char>| one.to_set().contains(k) == r.dom().contains(k) by {
            assert(one[0] == key);
            if one.contains(k) {
                assert(k == key);
            }
        }
    }
    lemma_in_order_is(one);
    let m = members_of(current);
    assert(one.drop_last() =~= Seq::<Seq<char>>::empty());
    assert(resolve_all(m, staged, r, one.drop_last()) == m);
    assert(resolve_all(m, staged, r, one) == resolve(m, staged, key, choice));
}

/// The proposal for distributions and record sets never drops any: the staged ones are
/// proposed only where the current version has none at all, and are proposed there if the
/// staged version has some.
pub proof fn law_data_default_drops_nothing(current: JsonView, staged: JsonView)
    ensures
        data_default(current, staged) == "current"@ || data_default(current, staged) == "staged"@,
        list_at(current, "distribution"@).len() > 0 || list_at(current, "recordSet"@).len() > 0 ==> data_default(
            current,
            staged,
        ) == "current"@,
        list_at(current, "distribution"@).len() == 0 && list_at(current, "recordSet"@).len() == 0 ==> (data_default(
            current,
            staged,
        ) == "staged"@) == (list_at(staged, "distribution"@).len() > 0 || list_at(staged, "recordSet"@).len() > 0),
        data_differs(current, staged) == !(same_member(current.get("distribution"@), staged.get("distribution"@))
            && same_member(current.get("recordSet"@), staged.get("recordSet"@))),
{
    lemma_source_words();
}

proof fn lemma_row_at(keys: Seq<Seq<char>>, current: JsonView, staged: JsonView, i: int) -> (k: int)
    requires
        0 <= i < rows_of(keys, current, staged).len(),
    ensures
        0 <= k < keys.len(),
        rows_of(keys, current, staged)[i] == row_of(keys[k], current.get(keys[k]), staged.get(keys[k])),
        i > 0 ==> exists|l: int| 0 <= l < k && (#[trigger] keys[l]) == rows_of(keys, current, staged)[i - 1].key,
    decreases keys.len(),
{
    let t = keys.drop_last();
    let before = rows_of(t, current, staged);
    if i < before.len() {
        let k = lemma_row_at(t, current, staged, i);
        if i > 0 {
            let l = choose|l: int| 0 <= l < k && (#[trigger] t[l]) == before[i - 1].key;
            assert(keys[l] == t[l]);
        }
        k
    } else {
        if i > 0 {
            let l = lemma_row_at(t, current, staged, i - 1);
            assert(keys[l] == t[l]);
        }
        keys.len() - 1
    }
}

/// A row shows what both versions hold at its key: whether the member is there, its text
/// as it stands or else its document in indented and in compact form. The staged version
/// is the default only for what the current one lacks.
pub proof fn law_rows_show_both_versions(current: JsonView, staged: JsonView, i: int)
    requires
        0 <= i < rows_of(all_keys(current, staged), current, staged).len(),
        members_of(current).dom().finite(),
        members_of(staged).dom().finite(),
    ensures
        ({
            let row = rows_of(all_keys(current, staged), current, staged)[i];
            let a = current.get(row.key);
            let b = staged.get(row.key);
            &&& row.current_present == (a is Some) && row.staged_present == (b is Some)
            &&& a matches Some(JsonView::Text(t)) ==> row.current_display == t
            &&& b matches Some(JsonView::Text(t)) ==> row.staged_display == t
            &&& a is None || a == Some(JsonView::Null) ==> row.current_display.len() == 0
            &&& b is None || b == Some(JsonView::Null) ==> row.staged_display.len() == 0
            &&& a matches Some(v) ==> row.current_json == compact_text(v) && (v is Array || v is Object || v is Bool
                || v is Number ==> row.current_display == pretty_text(v))
            &&& b matches Some(v) ==> row.staged_json == compact_text(v) && (v is Array || v is Object || v is Bool
                || v is Number ==> row.staged_display == pretty_text(v))
            &&& a is None ==> row.current_json == "null"@
            &&& b is None ==> row.staged_json == "null"@
            &&& row.default_choice == (if a is None {
                "staged"@
            } else {
                "current"@
            })
            &&& row.is_provenance == (row.key == "dct:provenance"@)
            &&& row.key != "@context"@ && row.key != "distribution"@ && row.key != "recordSet"@
            &&& i > 0 ==> less(rows_of(all_keys(current, staged), current, staged)[i - 1].key, row.key)
        }),
{
    let keys = all_keys(current, staged);
    let rows = rows_of(keys, current, staged);
    law_in_order(members_of(current).dom().union(members_of(staged).dom()));
    let k = lemma_row_at(keys, current, staged, i);
    law_rows_are_differences(current, staged, rows[i].key);
    assert(rows[i].key == keys[k]);
    if i > 0 {
        let l = choose|l: int| 0 <= l < k && (#[trigger] keys[l]) == rows[i - 1].key;
        assert(less(keys[l], keys[k]));
    }
}

/// Every member in which the versions differ has a row, but for the context, the
/// distributions and the record sets; one that both have alike has none.
pub proof fn law_every_difference_has_a_row(current: JsonView, staged: JsonView, key: Seq<char>)
    requires
        members_of(current).dom().finite(),
        members_of(staged).dom().finite(),
        current.get(key) matches Some(x) ==> has_no_fraction_zero(x),
        key != "@context"@ && key != "distribution"@ && key != "recordSet"@,
    ensures
        ({
            let rows = rows_of(all_keys(current, staged), current, staged);
            (exists|i: int| 0 <= i < rows.len() && (#[trigger] rows[i]).key == key) == (current.get(key) != staged.get(
                key,
            ))
        }),
{
    law_rows_are_differences(current, staged, key);
    if let (Some(x), Some(y)) = (current.get(key), staged.get(key)) {
        law_equal_documents_are_the_same(x, y);
    }
}

/// Only an object can be reconciled.
pub proof fn law_only_objects_are_reconciled(current: JsonView, staged: JsonView, body: JsonView)
    ensures
        reconciled(current, staged, body) is Some == current is Object,
        reconciled(current, staged, body) matches Some(j) ==> j is Object,
{
}

/// The data differ if and only if the distributions or the record sets do.
pub proof fn law_data_differ(current: JsonView, staged: JsonView)
    requires
        current.get("distribution"@) matches Some(x) ==> has_no_fraction_zero(x),
        current.get("recordSet"@) matches Some(x) ==> has_no_fraction_zero(x),
    ensures
        data_differs(current, staged) == (current.get("distribution"@) != staged.get("distribution"@) || current.get(
            "recordSet"@,
        ) != staged.get("recordSet"@)),
{
    if let (Some(x), Some(y)) = (current.get("distribution"@), staged.get("distribution"@)) {
        law_equal_documents_are_the_same(x, y);
    }
    if let (Some(x), Some(y)) = (current.get("recordSet"@), staged.get("recordSet"@)) {
        law_equal_documents_are_the_same(x, y);
    }
}

/// Without choices for single members everything stays as it is in the current version, but
/// for the distributions and record sets where the staged version was chosen for them.
pub proof fn law_only_data_chosen(current: JsonView, staged: JsonView, body: JsonView, key: Seq<char>)
    requires
        current is Object,
        !(body.get("field_resolutions"@) matches Some(JsonView::Object(_))),
    ensures
        reconciled(current, staged, body) matches Some(j) && j.get(key) == (if body.get("dist_recordset_choice"@)
            == Some(JsonView::Text("staged"@)) && (key == "distribution"@ || key == "recordSet"@) {
            staged.get(key)
        } else {
            current.get(key)
        }),
{
    lemma_source_words();
    let none = Seq::<Seq<char>>::empty();
    let r = resolutions_in(body);
    assert(ascending(none));
    assert(none.to_set() =~= r.dom());
    lemma_in_order_is(none);
    assert(resolve_all(members_of(current), staged, r, none) == members_of(current));
}

/// Choices are carried out in the order of the names of the members: where a member that is
/// taken apart and an edit speak of the same member, the later one counts.
pub proof fn law_later_choice_counts(
    current: JsonView,
    staged: JsonView,
    body: JsonView,
    taken: JsonView,
    edited: JsonView,
    parts: Map<Seq<char>, JsonView>,
    value: JsonView,
    a: Seq<char>,
    b: Seq<char>,
)
    requires
        current is Object,
        a != b,
        body.get("field_resolutions"@) == Some(JsonView::Object(map![a => taken, b => edited])),
        body.get("dist_recordset_choice"@) is None,
        taken.get("source"@) == Some(JsonView::Text("restructure"@)),
        taken.get("value"@) == Some(JsonView::Object(parts)),
        parts.dom().contains(b),
        edited.get("source"@) == Some(JsonView::Text("edit"@)),
        edited.get("value"@) == Some(value),
    ensures
        reconciled(current, staged, body) matches Some(j) && j.get(b) == Some(
            if less(a, b) {
                value
            } else {
                parts[b]
            },
        ),
{
    lemma_source_words();
    let r = resolutions_in(body);
    assert(r == map![a => taken, b => edited]);
    law_less_total(a, b);
    law_less_asymmetric(a, b);
    let keys = if less(a, b) {
        seq![a, b]
    } else {
        seq![b, a]
    };
    assert(ascending(keys));
    assert(keys.to_set() =~= r.dom()) by {
        assert forall|k: Seq<char>| keys.to_set().contains(k) == r.dom().contains(k) by {
            assert(keys[0] == a || keys[1] == a);
            assert(keys[0] == b || keys[1] == b);
            if keys.contains(k) {
                assert(k == a || k == b);
            }
        }
    }
    lemma_in_order_is(keys);
    let m = members_of(current);
    let first = keys.drop_last();
    assert(first =~= seq![keys[0]]);
    assert(first.drop_last() =~= Seq::<Seq<char>>::empty());
    assert(resolve_all(m, staged, r, first.drop_last()) == m);
    assert(resolve_all(m, staged, r, first) == resolve(m, staged, keys[0], r[keys[0]]));
}

} // verus!
