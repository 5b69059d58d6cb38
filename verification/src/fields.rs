//! Edits of single fields: what a submitted form says, and what each edit does to the
//! field and to the document.
use crate::document::{
    child_at, dot_set_outcome, law_set_is_read_back, overflows, parse_list, parse_strings, place_in_list, read_at,
    read_list, read_strings, set_at_path, set_is_safe, set_through, sets_path, with_child,
};
use crate::json::{items_view, lemma_items_view, text_or, Json, JsonView};
use crate::number::{decimal, is_ascii_digit, lemma_decimal};
use crate::paths::{dotted, dotted_path, first_step, is_step_name, law_index_is_a_step};
use crate::review::{KbLink, KbLinkView};
use crate::text::{lemma_first_pos_is, same, views};
use vstd::prelude::*;

verus! {

/// An edit of a field.
#[derive(Debug, PartialEq, Eq)]
pub struct FieldUpdate {
    pub path: String,
    pub url: String,
    pub value: String,
}

/// What an edit says.
pub struct FieldUpdateView {
    pub path: Seq<char>,
    pub url: Seq<char>,
    pub value: Seq<char>,
}

impl View for FieldUpdate {
    type V = FieldUpdateView;

    open spec fn view(&self) -> FieldUpdateView {
        FieldUpdateView { path: self.path@, url: self.url@, value: self.value@ }
    }
}

/// What a list of edits says.
pub open spec fn update_views(s: Seq<FieldUpdate>) -> Seq<FieldUpdateView> {
    s.map_values(|u: FieldUpdate| u@)
}

/// The edit that a document describes; what is missing is empty.
pub open spec fn update_in(j: JsonView) -> FieldUpdateView {
    FieldUpdateView {
        path: text_or(j, "path"@, ""@),
        url: text_or(j, "url"@, ""@),
        value: text_or(j, "value"@, ""@),
    }
}

/// The edits that documents describe.
pub fn read_updates(list: &Vec<Json>) -> (r: Vec<FieldUpdate>)
    ensures
        update_views(r@) == items_view(list@).map_values(|j: JsonView| update_in(j)),
{
    let ghost all = items_view(list@).map_values(|j: JsonView| update_in(j));
    let mut r: Vec<FieldUpdate> = Vec::new();
    proof {
        lemma_items_view(list@);
    }
    for i in 0..list.len()
        invariant
            items_view(list@).len() == list@.len(),
            forall|k: int| 0 <= k < list@.len() ==> #[trigger] items_view(list@)[k] == list@[k]@,
            all == items_view(list@).map_values(|j: JsonView| update_in(j)),
            update_views(r@) == all.take(i as int),
    {
        let u = FieldUpdate {
            path: list[i].text_or("path", ""),
            url: list[i].text_or("url", ""),
            value: list[i].text_or("value", ""),
        };
        let ghost before = update_views(r@);
        assert(items_view(list@)[i as int] == list@[i as int]@);
        assert(all[i as int] == u@);
        r.push(u);
        assert(update_views(r@) =~= before.push(u@));
    }
    assert(all.take(all.len() as int) =~= all);
    r
}

/// The edits that a form holds, or the complaint about it.
pub fn parse_updates(text: &str) -> (r: Result<Vec<FieldUpdate>, String>)
    ensures
        match r {
            Ok(u) => read_list(text@) matches Ok(items) && update_views(u@) == items.map_values(
                |j: JsonView| update_in(j),
            ),
            Err(e) => read_list(text@) == Err::<Seq<JsonView>, Seq<char>>(e@),
        },
{
    match parse_list(text) {
        Ok(list) => Ok(read_updates(&list)),
        Err(e) => Err(e),
    }
}

/// The paths that a form accepts as they are; none where it holds no list of paths.
pub fn accepted_paths(text: Option<&str>) -> (r: Vec<String>)
    ensures
        views(r@) == (match text {
            Some(t) => match read_strings(t@) {
                Some(paths) => paths,
                None => Seq::empty(),
            },
            None => Seq::empty(),
        }),
{
    let mut none: Vec<String> = Vec::new();
    assert(views(none@) =~= Seq::empty());
    match text {
        Some(t) => match parse_strings(t) {
            Some(paths) => paths,
            None => none,
        },
        None => none,
    }
}

/// What an edit does to the fields of a knowledge base.
#[derive(Debug, PartialEq, Eq)]
pub enum LinkChange {
    /// The field is there and is replaced.
    Replace(KbLink),
    /// The field is new.
    Insert(KbLink),
}

/// The field after an edit: reviewed, with the new value and source; all else stays as it
/// was. A new field has no confidence and was not approved automatically.
pub open spec fn edited_link(existing: Option<KbLinkView>, kb_name: Seq<char>, u: FieldUpdateView) -> KbLinkView {
    match existing {
        Some(l) => KbLinkView { url: u.url, value: u.value, reviewed: true, ..l },
        None => KbLinkView {
            kb_name,
            path: u.path,
            value: u.value,
            url: u.url,
            confidence: 0,
            reviewed: true,
            auto_reviewed: false,
        },
    }
}

/// What a field says, if it is there.
pub open spec fn link_view(l: Option<KbLink>) -> Option<KbLinkView> {
    match l {
        Some(l) => Some(l@),
        None => None,
    }
}

/// What an edit does to a field.
pub fn change_link(existing: Option<KbLink>, kb_name: &str, update: &FieldUpdate) -> (r: LinkChange)
    ensures
        match existing {
            Some(l) => r matches LinkChange::Replace(n) && n@ == edited_link(Some(l@), kb_name@, update@),
            None => r matches LinkChange::Insert(n) && n@ == edited_link(None, kb_name@, update@),
        },
{
    match existing {
        Some(l) => {
            LinkChange::Replace(
                KbLink {
                    kb_name: l.kb_name,
                    path: l.path,
                    value: update.value.clone(),
                    url: update.url.clone(),
                    confidence: l.confidence,
                    reviewed: true,
                    auto_reviewed: l.auto_reviewed,
                },
            )
        },
        None => {
            LinkChange::Insert(
                KbLink {
                    kb_name: kb_name.to_string(),
                    path: update.path.clone(),
                    value: update.value.clone(),
                    url: update.url.clone(),
                    confidence: 0,
                    reviewed: true,
                    auto_reviewed: false,
                },
            )
        },
    }
}

/// A change of the value or the source of a field.
#[derive(Debug, PartialEq, Eq)]
pub struct Correction {
    pub kb_name: String,
    pub path: String,
    pub old_value: String,
    pub new_value: String,
    pub old_url: String,
    pub new_url: String,
}

/// What a correction says.
pub struct CorrectionView {
    pub kb_name: Seq<char>,
    pub path: Seq<char>,
    pub old_value: Seq<char>,
    pub new_value: Seq<char>,
    pub old_url: Seq<char>,
    pub new_url: Seq<char>,
}

impl View for Correction {
    type V = CorrectionView;

    open spec fn view(&self) -> CorrectionView {
        CorrectionView {
            kb_name: self.kb_name@,
            path: self.path@,
            old_value: self.old_value@,
            new_value: self.new_value@,
            old_url: self.old_url@,
            new_url: self.new_url@,
        }
    }
}

/// The correction that an edit makes: one where the field is there and its value or
/// source is another one after the edit.
pub open spec fn correction_in(existing: Option<KbLinkView>, u: FieldUpdateView) -> Option<CorrectionView> {
    match existing {
        Some(l) if l.value != u.value || l.url != u.url => Some(
            CorrectionView {
                kb_name: l.kb_name,
                path: l.path,
                old_value: l.value,
                new_value: u.value,
                old_url: l.url,
                new_url: u.url,
            },
        ),
        _ => None,
    }
}

/// The correction that an edit makes.
pub fn correction_of(existing: &Option<KbLink>, update: &FieldUpdate) -> (r: Option<Correction>)
    ensures
        match r {
            Some(c) => correction_in(link_view(*existing), update@) == Some(c@),
            None => correction_in(link_view(*existing), update@) is None,
        },
{
    match existing {
        Some(l) => {
            if same(l.value.as_str(), update.value.as_str()) && same(l.url.as_str(), update.url.as_str()) {
                None
            } else {
                Some(
                    Correction {
                        kb_name: l.kb_name.clone(),
                        path: l.path.clone(),
                        old_value: l.value.clone(),
                        new_value: update.value.clone(),
                        old_url: l.url.clone(),
                        new_url: update.url.clone(),
                    },
                )
            }
        },
        None => None,
    }
}

/// The document after an edit, or the complaint about its path. An index in brackets
/// leads to an item of a list.
pub fn change_document(doc: &Json, update: &FieldUpdate) -> (r: Result<Json, String>)
    requires
        !overflows(doc@, dotted(update.path@)),
    ensures
        match r {
            Ok(j) => dot_set_outcome(doc@, dotted(update.path@), update.value@) == Ok::<JsonView, Seq<char>>(j@),
            Err(e) => dot_set_outcome(doc@, dotted(update.path@), update.value@) == Err::<JsonView, Seq<char>>(e@),
        },
        sets_path(
            doc@,
            dotted(update.path@),
            update.value@,
            match r {
                Ok(j) => Ok(j@),
                Err(e) => Err(e@),
            },
        ),
{
    let path = dotted_path(update.path.as_str());
    set_at_path(doc, path.as_str(), update.value.as_str())
}

/// Whether an edit can be made: no list of the document is asked for the place after the
/// largest index there is.
pub fn edit_is_safe(doc: &Json, update: &FieldUpdate) -> (r: bool)
    ensures
        r == !overflows(doc@, dotted(update.path@)),
{
    let path = dotted_path(update.path.as_str());
    set_is_safe(doc, path.as_str())
}

/// The field after it was accepted as it is: reviewed, and all else as it was.
pub open spec fn accepted_link(l: KbLinkView) -> KbLinkView {
    KbLinkView { reviewed: true, ..l }
}

/// The field after it was accepted as it is; none where it is not there.
pub fn accept_link(existing: Option<KbLink>) -> (r: Option<KbLink>)
    ensures
        match existing {
            Some(l) => r matches Some(n) && n@ == accepted_link(l@),
            None => r is None,
        },
{
    match existing {
        Some(l) => {
            let mut n = l;
            n.reviewed = true;
            Some(n)
        },
        None => None,
    }
}

/// An edit makes a field reviewed and gives it the submitted value and source; what it
/// belongs to, how sure its source was and whether it was approved automatically stays.
pub proof fn law_edit_is_recorded(existing: Option<KbLinkView>, kb_name: Seq<char>, u: FieldUpdateView)
    ensures
        edited_link(existing, kb_name, u).reviewed,
        edited_link(existing, kb_name, u).value == u.value,
        edited_link(existing, kb_name, u).url == u.url,
        existing matches Some(l) ==> edited_link(existing, kb_name, u).path == l.path && edited_link(
            existing,
            kb_name,
            u,
        ).kb_name == l.kb_name && edited_link(existing, kb_name, u).confidence == l.confidence,
{
}

/// An edit is recorded as a correction if and only if the field was there and its value
/// or source changes; the record tells what stood there and what the field says now.
pub proof fn law_changes_are_corrections(existing: Option<KbLinkView>, kb_name: Seq<char>, u: FieldUpdateView)
    ensures
        correction_in(existing, u) is Some <==> (existing matches Some(l) && (edited_link(
            existing,
            kb_name,
            u,
        ).value != l.value || edited_link(existing, kb_name, u).url != l.url)),
        correction_in(existing, u) matches Some(c) ==> {
            let l = existing.unwrap();
            let n = edited_link(existing, kb_name, u);
            &&& c.kb_name == n.kb_name && c.path == n.path
            &&& c.old_value == l.value && c.old_url == l.url
            &&& c.new_value == n.value && c.new_url == n.url
        },
{
}

/// An edit that was made already makes no correction.
pub proof fn law_corrected_once(existing: Option<KbLinkView>, kb_name: Seq<char>, u: FieldUpdateView)
    ensures
        correction_in(Some(edited_link(existing, kb_name, u)), u) is None,
{
}

/// To accept a field is to make the edit that gives it the value and the source that it
/// has: nothing is corrected.
pub proof fn law_accepting_changes_nothing(l: KbLinkView, u: FieldUpdateView)
    requires
        u.value == l.value,
        u.url == l.url,
    ensures
        accepted_link(l).reviewed,
        accepted_link(l) == edited_link(Some(l), l.kb_name, u),
        correction_in(Some(l), u) is None,
{
}

/// What an edit sets in a document is read back at the path of the field.
pub proof fn law_edited_field_is_read_back(doc: JsonView, u: FieldUpdateView)
    requires
        set_through(doc, dotted(u.path), u.value) is Some,
    ensures
        set_through(doc, dotted(u.path), u.value) matches Some(j) && read_at(j, dotted(u.path)) == Some(
            JsonView::Text(u.value),
        ),
{
    law_set_is_read_back(doc, dotted(u.path), u.value, Seq::empty(), 0);
}

/// An edit at `name[n]` gives the item of the list the value, and an edit at
/// `name[n].rest` does to the item what an edit at `rest` does; no other item and no
/// other member changes.
pub proof fn law_edit_reaches_item(
    members: Map<Seq<char>, JsonView>,
    name: Seq<char>,
    items: Seq<JsonView>,
    n: nat,
    rest: Seq<char>,
    value: Seq<char>,
)
    requires
        is_step_name(name),
        members.dom().contains(name),
        members[name] == JsonView::Array(items),
        n < items.len() <= usize::MAX,
    ensures
        set_through(JsonView::Object(members), dotted(name + seq!['['] + decimal(n) + seq![']']), value) == Some(
            JsonView::Object(
                members.insert(name, JsonView::Array(items.update(n as int, JsonView::Text(value)))),
            ),
        ),
        set_through(
            JsonView::Object(members),
            dotted(name + seq!['['] + decimal(n) + seq![']'] + seq!['.'] + rest),
            value,
        ) == match set_through(items[n as int], dotted(rest), value) {
            Some(v) => Some(
                JsonView::Object(members.insert(name, JsonView::Array(items.update(n as int, v)))),
            ),
            None => None,
        },
{
    let d = decimal(n);
    let doc = JsonView::Object(members);
    let list = JsonView::Array(items);
    law_index_is_a_step(name, n, rest);
    lemma_decimal(n);
    assert(place_in_list(d) == Some(n));
    assert(is_step_name(d)) by {
        assert forall|i: int| 0 <= i < d.len() implies (#[trigger] d[i]) != '.' && d[i] != '[' && d[i] != '\\' by {
            assert(is_ascii_digit(d[i]));
        }
    }
    let sub = dotted(rest);
    lemma_set_last(list, d, value);
    lemma_set_step(list, d, sub, value);
    lemma_set_step(doc, name, d, value);
    let below = d + seq!['.'] + sub;
    lemma_set_step(doc, name, below, value);
    assert(name + seq!['.'] + d + seq!['.'] + sub =~= name + seq!['.'] + below);
}

/// A path of one step sets what the step leads to.
proof fn lemma_set_last(doc: JsonView, step: Seq<char>, value: Seq<char>)
    requires
        is_step_name(step),
        child_at(doc, step) is Some,
    ensures
        set_through(doc, step, value) == Some(with_child(doc, step, JsonView::Text(value))),
{
    lemma_first_pos_is(step, '.', step.len() as int);
    assert(first_step(step) =~= step);
    if step.contains('\\') {
        let i = choose|i: int| 0 <= i < step.len() && step[i] == '\\';
        assert(step[i] != '\\');
    }
}

/// A path goes on from where its first step leads.
proof fn lemma_set_step(doc: JsonView, step: Seq<char>, rest: Seq<char>, value: Seq<char>)
    requires
        is_step_name(step),
        child_at(doc, step) is Some,
    ensures
        set_through(doc, step + seq!['.'] + rest, value) == match set_through(
            child_at(doc, step).unwrap(),
            rest,
            value,
        ) {
            Some(v) => Some(with_child(doc, step, v)),
            None => None,
        },
{
    let path = step + seq!['.'] + rest;
    let p = step.len() as int;
    assert(path[p] == '.');
    assert forall|i: int| 0 <= i < p implies path[i] != '.' by {
        assert(path[i] == step[i]);
    }
    lemma_first_pos_is(path, '.', p);
    assert(first_step(path) =~= step);
    assert(path.skip(p + 1) =~= rest);
    if path.contains('\\') {
        let i = choose|i: int| 0 <= i < path.len() && path[i] == '\\';
        if i < p {
            assert(step[i] == path[i]);
        }
        assert(rest[i - p - 1] == '\\');
        assert(rest.contains('\\'));
    } else if rest.contains('\\') {
        let i = choose|i: int| 0 <= i < rest.len() && rest[i] == '\\';
        assert(path[p + 1 + i] == '\\');
    }
}

/// An edit is read member by member: the path, the source and the value are the texts
/// under these names, and empty where there is none.
pub proof fn law_edits_are_read(j: JsonView, t: Seq<char>)
    ensures
        j.get("path"@) == Some(JsonView::Text(t)) ==> update_in(j).path == t,
        j.get("url"@) == Some(JsonView::Text(t)) ==> update_in(j).url == t,
        j.get("value"@) == Some(JsonView::Text(t)) ==> update_in(j).value == t,
        !(j.get("path"@) matches Some(JsonView::Text(_))) ==> update_in(j).path.len() == 0,
        !(j.get("url"@) matches Some(JsonView::Text(_))) ==> update_in(j).url.len() == 0,
        !(j.get("value"@) matches Some(JsonView::Text(_))) ==> update_in(j).value.len() == 0,
{
    reveal_strlit("");
    assert(""@.len() == 0);
}

/// A field that an edit adds belongs to the knowledge base at the given path, without a
/// confidence and not approved automatically; one that was there keeps all but its value
/// and source, and is reviewed.
pub proof fn law_edited_fields(existing: Option<KbLinkView>, kb_name: Seq<char>, u: FieldUpdateView)
    ensures
        ({
            let n = edited_link(existing, kb_name, u);
            &&& n.reviewed
            &&& n.value == u.value && n.url == u.url
            &&& existing is None ==> n.kb_name == kb_name && n.path == u.path && n.confidence == 0 && !n.auto_reviewed
            &&& existing matches Some(l) ==> n.kb_name == l.kb_name && n.path == l.path && n.confidence == l.confidence
                && n.auto_reviewed == l.auto_reviewed
        }),
{
}

} // verus!
