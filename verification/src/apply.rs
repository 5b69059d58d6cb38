//! Applying an approved fix to a document.
use crate::fixes::{
    field_source, id_in, indices_of, inline_suggestion, inner_file, inner_filename_of, issue_preview,
    law_sourceless_are_counted, list_at, make_field_source, make_inner_file, mime_of, of_type, proposed_inner_id,
    slug_of, source_editable_fields, source_suggestion, source_suggestions, sourceless_in, suggestions_of,
    zip_editable_fields, zip_params, zip_suggestion, zip_suggestions, IssueRowView,
};
use crate::issues::severity_of_type;
use crate::json::{
    as_natural, find_member, insert_member, items_at, items_view, law_natural_read_back, lemma_items_update,
    lemma_items_view, members_of, members_view, remove_member, signed_decimal, text_or, with_item, with_member, Json,
    JsonView,
};
use crate::number::{decimal, to_decimal};
use crate::paths::bracket_index;
use crate::text::{concat2, concat3, same};
use vstd::prelude::*;

verus! {

/// A fix that was applied: the new document, and the issues that it resolves. An empty
/// path stands for all issues of the type.
pub struct AppliedFix {
    pub metadata: Json,
    pub issue_type: String,
    pub path: String,
}

/// What became of a fix.
pub enum FixOutcome {
    Refused(String),
    Applied(AppliedFix),
}

/// What is known of the outcome of a fix.
pub enum FixOutcomeView {
    Refused(Seq<char>),
    Applied { metadata: JsonView, issue_type: Seq<char>, path: Seq<char> },
}

impl View for FixOutcome {
    type V = FixOutcomeView;

    open spec fn view(&self) -> FixOutcomeView {
        match *self {
            FixOutcome::Refused(e) => FixOutcomeView::Refused(e@),
            FixOutcome::Applied(a) => FixOutcomeView::Applied {
                metadata: a.metadata@,
                issue_type: a.issue_type@,
                path: a.path@,
            },
        }
    }
}

/// Whether a document can be given members.
pub open spec fn can_open(j: JsonView) -> bool {
    j is Null || j is Object
}

/// The document with a member under `key`: one that is there stays, else it is null.
pub open spec fn opened(j: JsonView, key: Seq<char>) -> JsonView {
    let m = members_of(j);
    if m.dom().contains(key) {
        JsonView::Object(m)
    } else {
        JsonView::Object(m.insert(key, JsonView::Null))
    }
}

/// The document with the given items under `key`.
pub open spec fn with_items(j: JsonView, key: Seq<char>, items: Seq<JsonView>) -> JsonView {
    JsonView::Object(members_of(j).insert(key, JsonView::Array(items)))
}

/// The record set with its `data`, if it has any, as `examples`.
pub open spec fn renamed(rs: JsonView) -> JsonView {
    match rs {
        JsonView::Object(m) => if m.dom().contains("data"@) {
            JsonView::Object(m.remove("data"@).insert("examples"@, m["data"@]))
        } else {
            rs
        },
        _ => rs,
    }
}

/// The record sets, those at the given positions with their `data` as `examples`.
pub open spec fn rename_all(items: Seq<JsonView>, indices: Seq<usize>) -> Seq<JsonView>
    decreases indices.len(),
{
    if indices.len() == 0 {
        items
    } else {
        let before = rename_all(items, indices.drop_last());
        let i = indices.last() as int;
        if i < before.len() {
            before.update(i, renamed(before[i]))
        } else {
            before
        }
    }
}

/// The positions that a list of documents names.
pub open spec fn positions_in(list: Seq<JsonView>) -> Seq<usize>
    decreases list.len(),
{
    if list.len() == 0 {
        Seq::empty()
    } else {
        match as_natural(list.last()) {
            Some(n) => positions_in(list.drop_last()).push(n as usize),
            None => positions_in(list.drop_last()),
        }
    }
}

/// The document with the `data` of some record sets as `examples`.
pub open spec fn renamed_doc(doc: JsonView, indices: Seq<usize>) -> JsonView {
    let d = opened(doc, "recordSet"@);
    match items_at(d, "recordSet"@) {
        Some(items) => with_items(d, "recordSet"@, rename_all(items, indices)),
        None => d,
    }
}

/// The document with one more distribution.
pub open spec fn extended_doc(doc: JsonView, file: JsonView) -> JsonView {
    let d = opened(doc, "distribution"@);
    match items_at(d, "distribution"@) {
        Some(items) => with_items(d, "distribution"@, items.push(file)),
        None => d,
    }
}

/// The field with a source: the column that its name says, in the given file, where it
/// has none yet.
pub open spec fn sourced_field(field: JsonView, file_id: Seq<char>) -> JsonView {
    if field.get("source"@) is None {
        JsonView::Object(
            members_of(field).insert(
                "source"@,
                field_source(file_id, text_or(field, "name"@, ""@)),
            ),
        )
    } else {
        field
    }
}

/// The record set with a source for each of its fields.
pub open spec fn sourced_record_set(rs: JsonView, file_id: Seq<char>) -> JsonView {
    let r = opened(rs, "field"@);
    match items_at(r, "field"@) {
        Some(fields) => with_items(
            r,
            "field"@,
            fields.map_values(|f: JsonView| sourced_field(f, file_id)),
        ),
        None => r,
    }
}

/// The document with a source for each field of one record set.
pub open spec fn sourced_doc(doc: JsonView, index: usize, file_id: Seq<char>) -> JsonView {
    let d = opened(doc, "recordSet"@);
    match items_at(d, "recordSet"@) {
        Some(items) => if index < items.len() {
            with_items(
                d,
                "recordSet"@,
                items.update(index as int, sourced_record_set(items[index as int], file_id)),
            )
        } else {
            d
        },
        None => d,
    }
}

/// Whether each field of a record set can be given a source.
pub open spec fn can_source(rs: JsonView) -> bool {
    can_open(rs) && forall|i: int|
        0 <= i < list_at(rs, "field"@).len() ==> can_open(#[trigger] list_at(rs, "field"@)[i])
}

/// The parameters of a fix.
pub open spec fn params_of(body: JsonView) -> JsonView {
    match body.get("params"@) {
        Some(p) => p,
        None => JsonView::Null,
    }
}

/// The position under `key`; zero where there is none.
pub open spec fn position_at(params: JsonView, key: Seq<char>) -> usize {
    match number_at(params, key) {
        Some(n) => n as usize,
        None => 0,
    }
}

/// The whole number under `key`.
pub open spec fn number_at(params: JsonView, key: Seq<char>) -> Option<u64> {
    match params.get(key) {
        Some(v) => as_natural(v),
        None => None,
    }
}

/// Whether a fix can be applied to a document: what has to be opened for it is an
/// object or null.
pub open spec fn fix_possible(doc: JsonView, body: JsonView) -> bool {
    let fix_type = text_or(body, "fix_type"@, ""@);
    let params = params_of(body);
    if fix_type == "rename_data_to_examples"@ {
        can_open(doc)
    } else if fix_type == "add_inner_file"@ {
        lacks_inner_file(params) || can_open(doc)
    } else if fix_type == "add_field_sources"@ {
        text_or(params, "inner_file_id"@, ""@).len() == 0 || (can_open(doc) && ({
            let items = list_at(doc, "recordSet"@);
            let i = position_at(params, "rs_index"@);
            i < items.len() ==> can_source(items[i as int])
        }))
    } else {
        true
    }
}

/// Whether the parameters do not describe the file in an archive.
pub open spec fn lacks_inner_file(params: JsonView) -> bool {
    text_or(params, "inner_id"@, ""@).len() == 0 || text_or(params, "inner_filename"@, ""@).len() == 0
}

/// The path of the issue that the description of a file in an archive resolves; empty
/// where the parameters do not say which archive it is.
pub open spec fn zip_issue_path(params: JsonView) -> Seq<char> {
    match number_at(params, "dist_index"@) {
        Some(n) => "distribution["@ + decimal(n as nat) + "].contentUrl"@,
        None => ""@,
    }
}

/// What a fix does to a document, or why it is refused.
pub open spec fn fix_outcome(doc: JsonView, body: JsonView) -> FixOutcomeView {
    let fix_type = text_or(body, "fix_type"@, ""@);
    let params = params_of(body);
    if fix_type == "rename_data_to_examples"@ {
        FixOutcomeView::Applied {
            metadata: renamed_doc(doc, positions_in(list_at(params, "rs_indices"@))),
            issue_type: "inline_data_rows"@,
            path: ""@,
        }
    } else if fix_type == "add_inner_file"@ {
        if lacks_inner_file(params) {
            FixOutcomeView::Refused("inner_id and inner_filename are required"@)
        } else {
            FixOutcomeView::Applied {
                metadata: extended_doc(
                    doc,
                    inner_file(
                        text_or(params, "inner_id"@, ""@),
                        text_or(params, "inner_filename"@, ""@),
                        text_or(params, "encoding_format"@, ""@),
                        text_or(params, "zip_id"@, ""@),
                    ),
                ),
                issue_type: "zip_without_inner_file"@,
                path: zip_issue_path(params),
            }
        }
    } else if fix_type == "add_field_sources"@ {
        let file_id = text_or(params, "inner_file_id"@, ""@);
        let index = position_at(params, "rs_index"@);
        if file_id.len() == 0 {
            FixOutcomeView::Refused(
                "inner_file_id is required — enter the @id of the cr:FileObject inside the archive"@,
            )
        } else {
            FixOutcomeView::Applied {
                metadata: sourced_doc(doc, index, file_id),
                issue_type: "missing_field_source"@,
                path: "recordSet["@ + decimal(index as nat) + "]"@,
            }
        }
    } else {
        FixOutcomeView::Refused("Unknown fix_type: "@ + fix_type)
    }
}

/// The members of a document, with one under `key`.
fn open_members(doc: &Json, key: &str) -> (r: Vec<(String, Json)>)
    requires
        can_open(doc@),
    ensures
        JsonView::Object(members_view(r@)) == opened(doc@, key@),
        members_view(r@).dom().contains(key@),
{
    let m = match doc.clone() {
        Json::Object(m) => m,
        _ => Vec::new(),
    };
    assert(members_view(m@) =~= members_of(doc@));
    if find_member(&m, key).is_none() {
        with_member(m, key, Json::Null)
    } else {
        m
    }
}

/// The record set with its `data` as `examples`.
fn rename_record_set(rs: Json) -> (r: Json)
    ensures
        r@ == renamed(rs@),
{
    match rs {
        Json::Object(members) => {
            let mut m = members;
            let ghost before = members_view(m@);
            match remove_member(&mut m, "data") {
                Some(data) => {
                    insert_member(&mut m, "examples".to_string(), data);
                },
                None => {
                    assert(members_view(m@) =~= before);
                },
            }
            Json::Object(m)
        },
        other => other,
    }
}

/// The positions that a list of documents names.
fn read_positions(list: &Vec<Json>) -> (r: Vec<usize>)
    ensures
        r@ == positions_in(items_view(list@)),
{
    let ghost all = items_view(list@);
    let mut r: Vec<usize> = Vec::new();
    proof {
        lemma_items_view(list@);
        assert(r@ =~= positions_in(all.take(0)));
    }
    for i in 0..list.len()
        invariant
            all == items_view(list@),
            all.len() == list@.len(),
            forall|k: int| 0 <= k < all.len() ==> #[trigger] all[k] == list@[k]@,
            r@ == positions_in(all.take(i as int)),
    {
        assert(all.take(i + 1).drop_last() =~= all.take(i as int));
        assert(all.take(i + 1).last() == list@[i as int]@);
        if let Some(n) = list[i].as_u64() {
            r.push(n as usize);
        }
    }
    assert(all.take(all.len() as int) =~= all);
    r
}

/// The document with the `data` of some record sets as `examples`.
fn rename_in(doc: &Json, indices: &Vec<usize>) -> (r: Json)
    requires
        can_open(doc@),
    ensures
        r@ == renamed_doc(doc@, indices@),
{
    let mut m = open_members(doc, "recordSet");
    let ghost before = members_view(m@);
    match remove_member(&mut m, "recordSet") {
        Some(Json::Array(sets)) => {
            let mut items = sets;
            let ghost all = items_view(items@);
            for k in 0..indices.len()
                invariant
                    items_view(items@) == rename_all(all, indices@.take(k as int)),
            {
                let i: usize = indices[k];
                assert(indices@.take(k + 1).drop_last() =~= indices@.take(k as int));
                proof {
                    lemma_items_view(items@);
                }
                if i < items.len() {
                    let ghost old_items = items@;
                    let new = rename_record_set(items[i].clone());
                    items.set(i, new);
                    proof {
                        lemma_items_update(old_items, i as int, new);
                    }
                }
            }
            assert(indices@.take(indices@.len() as int) =~= indices@);
            insert_member(&mut m, "recordSet".to_string(), Json::Array(items));
            assert(members_view(m@) =~= before.insert(
                "recordSet"@,
                JsonView::Array(rename_all(all, indices@)),
            ));
        },
        Some(other) => {
            insert_member(&mut m, "recordSet".to_string(), other);
            assert(members_view(m@) =~= before);
        },
        None => {},
    }
    Json::Object(m)
}

/// The document with one more distribution.
fn extend(doc: &Json, file: Json) -> (r: Json)
    requires
        can_open(doc@),
    ensures
        r@ == extended_doc(doc@, file@),
{
    let mut m = open_members(doc, "distribution");
    let ghost before = members_view(m@);
    match remove_member(&mut m, "distribution") {
        Some(Json::Array(items)) => {
            let ghost all = items_view(items@);
            let more = with_item(items, file);
            insert_member(&mut m, "distribution".to_string(), Json::Array(more));
            assert(members_view(m@) =~= before.insert("distribution"@, JsonView::Array(all.push(file@))));
        },
        Some(other) => {
            insert_member(&mut m, "distribution".to_string(), other);
            assert(members_view(m@) =~= before);
        },
        None => {},
    }
    Json::Object(m)
}

/// The field with a source.
fn source_one(field: &Json, file_id: &str) -> (r: Json)
    requires
        can_open(field@),
    ensures
        r@ == sourced_field(field@, file_id@),
{
    if field.get("source").is_none() {
        let column = field.text_or("name", "");
        let m = match field.clone() {
            Json::Object(m) => m,
            _ => Vec::new(),
        };
        assert(members_view(m@) =~= members_of(field@));
        Json::Object(with_member(m, "source", make_field_source(file_id, column.as_str())))
    } else {
        field.clone()
    }
}

/// The record set with a source for each of its fields.
fn source_record_set(rs: &Json, file_id: &str) -> (r: Json)
    requires
        can_source(rs@),
    ensures
        r@ == sourced_record_set(rs@, file_id@),
{
    let mut m = open_members(rs, "field");
    let ghost before = members_view(m@);
    match remove_member(&mut m, "field") {
        Some(Json::Array(fields)) => {
            let ghost all = items_view(fields@);
            let ghost done = all.map_values(|f: JsonView| sourced_field(f, file_id@));
            let mut items: Vec<Json> = Vec::new();
            proof {
                lemma_items_view(fields@);
                assert(list_at(rs@, "field"@) == all);
                assert(items_view(items@) =~= done.take(0));
            }
            for i in 0..fields.len()
                invariant
                    all == items_view(fields@),
                    all.len() == fields@.len(),
                    forall|k: int| 0 <= k < all.len() ==> #[trigger] all[k] == fields@[k]@,
                    done == all.map_values(|f: JsonView| sourced_field(f, file_id@)),
                    list_at(rs@, "field"@) == all,
                    can_source(rs@),
                    items_view(items@) == done.take(i as int),
            {
                assert(can_open(list_at(rs@, "field"@)[i as int]));
                let f = source_one(&fields[i], file_id);
                assert(done[i as int] == f@);
                assert(done.take(i + 1) =~= done.take(i as int).push(f@));
                items = with_item(items, f);
            }
            assert(done.take(done.len() as int) =~= done);
            insert_member(&mut m, "field".to_string(), Json::Array(items));
            assert(members_view(m@) =~= before.insert("field"@, JsonView::Array(done)));
        },
        Some(other) => {
            insert_member(&mut m, "field".to_string(), other);
            assert(members_view(m@) =~= before);
        },
        None => {},
    }
    Json::Object(m)
}

/// The document with a source for each field of one record set.
fn source_in(doc: &Json, index: usize, file_id: &str) -> (r: Json)
    requires
        can_open(doc@),
        index < list_at(doc@, "recordSet"@).len() ==> can_source(list_at(doc@, "recordSet"@)[index as int]),
    ensures
        r@ == sourced_doc(doc@, index, file_id@),
{
    let mut m = open_members(doc, "recordSet");
    let ghost before = members_view(m@);
    match remove_member(&mut m, "recordSet") {
        Some(Json::Array(sets)) => {
            let mut items = sets;
            let ghost all = items_view(items@);
            proof {
                lemma_items_view(items@);
                assert(list_at(doc@, "recordSet"@) == all);
            }
            if index < items.len() {
                let ghost old_items = items@;
                let new = source_record_set(&items[index], file_id);
                items.set(index, new);
                proof {
                    lemma_items_update(old_items, index as int, new);
                }
            }
            let ghost now = items_view(items@);
            insert_member(&mut m, "recordSet".to_string(), Json::Array(items));
            assert(members_view(m@) =~= before.insert("recordSet"@, JsonView::Array(now)));
            proof {
                if index >= all.len() {
                    assert(before.insert("recordSet"@, JsonView::Array(now)) =~= before);
                }
            }
        },
        Some(other) => {
            insert_member(&mut m, "recordSet".to_string(), other);
            assert(members_view(m@) =~= before);
        },
        None => {},
    }
    Json::Object(m)
}

/// The whole number under `key`.
fn find_number(params: &Json, key: &str) -> (r: Option<u64>)
    ensures
        r == number_at(params@, key@),
{
    match params.get(key) {
        Some(v) => v.as_u64(),
        None => None,
    }
}

/// The parameters of a fix.
fn find_params(body: &Json) -> (r: Json)
    ensures
        r@ == params_of(body@),
{
    match body.get("params") {
        Some(p) => p.clone(),
        None => Json::Null,
    }
}

/// Applies a fix, described by its type and parameters, to a document.
pub fn apply_fix(metadata: &Json, body: &Json) -> (r: FixOutcome)
    requires
        fix_possible(metadata@, body@),
    ensures
        r@ == fix_outcome(metadata@, body@),
{
    let fix_type = body.text_or("fix_type", "");
    let params = find_params(body);
    if same(fix_type.as_str(), "rename_data_to_examples") {
        let indices = match params.items_at("rs_indices") {
            Some(list) => read_positions(list),
            None => Vec::new(),
        };
        assert(indices@ =~= positions_in(list_at(params@, "rs_indices"@)));
        FixOutcome::Applied(
            AppliedFix {
                metadata: rename_in(metadata, &indices),
                issue_type: "inline_data_rows".to_string(),
                path: "".to_string(),
            },
        )
    } else if same(fix_type.as_str(), "add_inner_file") {
        let inner_id = params.text_or("inner_id", "");
        let filename = params.text_or("inner_filename", "");
        let format = params.text_or("encoding_format", "");
        let zip_id = params.text_or("zip_id", "");
        if inner_id.as_str().unicode_len() == 0 || filename.as_str().unicode_len() == 0 {
            return FixOutcome::Refused("inner_id and inner_filename are required".to_string());
        }
        let file = make_inner_file(inner_id.as_str(), filename.as_str(), format.as_str(), zip_id.as_str());
        let path = match find_number(&params, "dist_index") {
            Some(n) => concat3("distribution[", to_decimal(n).as_str(), "].contentUrl"),
            None => "".to_string(),
        };
        FixOutcome::Applied(
            AppliedFix {
                metadata: extend(metadata, file),
                issue_type: "zip_without_inner_file".to_string(),
                path,
            },
        )
    } else if same(fix_type.as_str(), "add_field_sources") {
        let index: usize = match find_number(&params, "rs_index") {
            Some(n) => n as usize,
            None => 0,
        };
        let file_id = params.text_or("inner_file_id", "");
        if file_id.as_str().unicode_len() == 0 {
            return FixOutcome::Refused(
                "inner_file_id is required — enter the @id of the cr:FileObject inside the archive".to_string(),
            );
        }
        FixOutcome::Applied(
            AppliedFix {
                metadata: source_in(metadata, index, file_id.as_str()),
                issue_type: "missing_field_source".to_string(),
                path: concat3("recordSet[", to_decimal(index as u64).as_str(), "]"),
            },
        )
    } else {
        FixOutcome::Refused(concat2("Unknown fix_type: ", fix_type.as_str()))
    }
}

/// Whether a document can be given members.
fn opens(j: &Json) -> (r: bool)
    ensures
        r == can_open(j@),
{
    match j {
        Json::Null => true,
        Json::Object(_) => true,
        _ => false,
    }
}

/// Whether each field of a record set can be given a source.
fn sources_open(rs: &Json) -> (r: bool)
    ensures
        r == can_source(rs@),
{
    if !opens(rs) {
        return false;
    }
    match rs.items_at("field") {
        Some(fields) => {
            let ghost all = items_view(fields@);
            proof {
                lemma_items_view(fields@);
            }
            for i in 0..fields.len()
                invariant
                    all == items_view(fields@),
                    all.len() == fields@.len(),
                    all == list_at(rs@, "field"@),
                    forall|k: int| 0 <= k < all.len() ==> #[trigger] all[k] == fields@[k]@,
                    forall|k: int| 0 <= k < i ==> can_open(#[trigger] all[k]),
            {
                if !opens(&fields[i]) {
                    assert(!can_open(list_at(rs@, "field"@)[i as int]));
                    return false;
                }
            }
            true
        },
        None => true,
    }
}

/// Whether a fix can be applied to a document.
pub fn fix_is_possible(metadata: &Json, body: &Json) -> (r: bool)
    ensures
        r == fix_possible(metadata@, body@),
{
    let fix_type = body.text_or("fix_type", "");
    let params = find_params(body);
    if same(fix_type.as_str(), "rename_data_to_examples") {
        opens(metadata)
    } else if same(fix_type.as_str(), "add_inner_file") {
        params.text_or("inner_id", "").as_str().unicode_len() == 0 || params.text_or(
            "inner_filename",
            "",
        ).as_str().unicode_len() == 0 || opens(metadata)
    } else if same(fix_type.as_str(), "add_field_sources") {
        if params.text_or("inner_file_id", "").as_str().unicode_len() == 0 {
            return true;
        }
        if !opens(metadata) {
            return false;
        }
        let index: usize = match find_number(&params, "rs_index") {
            Some(n) => n as usize,
            None => 0,
        };
        match metadata.items_at("recordSet") {
            Some(items) => {
                proof {
                    lemma_items_view(items@);
                }
                if index < items.len() {
                    sources_open(&items[index])
                } else {
                    true
                }
            },
            None => true,
        }
    } else {
        true
    }
}

/// A proposal approved as it stands.
pub open spec fn as_proposed(suggestion: JsonView) -> JsonView {
    JsonView::Object(
        map![
            "fix_type"@ => suggestion.get("fix_type"@)->0,
            "params"@ => suggestion.get("params"@)->0,
        ],
    )
}

proof fn lemma_proposal_keys()
    ensures
        "id"@.len() == 2,
        "issue_id"@.len() == 8,
        "issue_type"@.len() == 10,
        "severity"@.len() == 8,
        "title"@.len() == 5,
        "description"@.len() == 11,
        "fix_type"@.len() == 8,
        "params"@.len() == 6,
        "editable_fields"@.len() == 15,
        "preview"@.len() == 7,
        "issue_id"@[0] == 'i',
        "severity"@[0] == 's',
        "fix_type"@[0] == 'f',
        "dist_index"@.len() == 10,
        "zip_id"@.len() == 6,
        "inner_id"@.len() == 8,
        "inner_filename"@.len() == 14,
        "encoding_format"@.len() == 15,
        "rs_index"@.len() == 8,
        "inner_file_id"@.len() == 13,
        "add_inner_file"@.len() == 14,
        "rename_data_to_examples"@.len() == 23,
        "add_field_sources"@.len() == 17,
        ""@.len() == 0,
{
    reveal_strlit("id");
    reveal_strlit("issue_id");
    reveal_strlit("issue_type");
    reveal_strlit("severity");
    reveal_strlit("title");
    reveal_strlit("description");
    reveal_strlit("fix_type");
    reveal_strlit("params");
    reveal_strlit("editable_fields");
    reveal_strlit("preview");
    reveal_strlit("dist_index");
    reveal_strlit("zip_id");
    reveal_strlit("inner_id");
    reveal_strlit("inner_filename");
    reveal_strlit("encoding_format");
    reveal_strlit("rs_index");
    reveal_strlit("inner_file_id");
    reveal_strlit("add_inner_file");
    reveal_strlit("rename_data_to_examples");
    reveal_strlit("add_field_sources");
    reveal_strlit("");
}

proof fn lemma_inner_names_not_empty(zip_id: Seq<char>, url: Seq<char>)
    ensures
        proposed_inner_id(zip_id).len() > 0,
        inner_filename_of(url).len() > 0,
{
    reveal_strlit("file_");
    reveal_strlit(".tsv");
    reveal_strlit(".csv");
    reveal_strlit(".json");
    reveal_strlit(".jsonl");
    reveal_strlit(".ndjson");
}

/// A proposal for an archive adds what its preview shows: approved as it stands, it puts
/// the previewed description at the end of the distributions.
pub proof fn law_preview_is_added(doc: JsonView, id: i64, index: u64, zip_id: Seq<char>, url: Seq<char>)
    requires
        can_open(doc),
    ensures
        ({
            let s = zip_suggestion(id, index as nat, zip_id, url);
            &&& fix_possible(doc, as_proposed(s))
            &&& s.get("preview"@) matches Some(preview) && fix_outcome(doc, as_proposed(s)) == (
            FixOutcomeView::Applied {
                metadata: extended_doc(doc, preview),
                issue_type: "zip_without_inner_file"@,
                path: "distribution["@ + decimal(index as nat) + "].contentUrl"@,
            })
        }),
{
    lemma_proposal_keys();
    lemma_inner_names_not_empty(zip_id, url);
    law_natural_read_back(index);
    let s = zip_suggestion(id, index as nat, zip_id, url);
    let body = as_proposed(s);
    let p = zip_params(index as nat, zip_id, url);
    assert(s.get("fix_type"@) == Some(JsonView::Text("add_inner_file"@)));
    assert(s.get("params"@) == Some(p));
    assert(s.get("preview"@) is Some);
    assert(text_or(body, "fix_type"@, ""@) == "add_inner_file"@);
    assert(params_of(body) == p);
    assert(text_or(p, "inner_id"@, ""@) == proposed_inner_id(zip_id));
    assert(text_or(p, "inner_filename"@, ""@) == inner_filename_of(url));
    assert(text_or(p, "encoding_format"@, ""@) == mime_of(inner_filename_of(url)));
    assert(text_or(p, "zip_id"@, ""@) == zip_id);
    assert(number_at(p, "dist_index"@) == Some(index));
}

/// A proposal for fields without a source changes nothing until the user says which
/// file they come from.
pub proof fn law_source_fix_needs_file(
    doc: JsonView,
    id: i64,
    index: nat,
    rs_id: Seq<char>,
    count: nat,
    after_zips: bool,
)
    ensures
        fix_outcome(doc, as_proposed(source_suggestion(id, index, rs_id, count, after_zips))) is Refused,
{
    lemma_proposal_keys();
    let s = source_suggestion(id, index, rs_id, count, after_zips);
    let body = as_proposed(s);
    assert(s.get("fix_type"@) == Some(JsonView::Text("add_field_sources"@)));
    assert(s.get("params"@) is Some);
    assert(text_or(body, "fix_type"@, ""@) == "add_field_sources"@);
    assert(text_or(params_of(body), "inner_file_id"@, ""@) == ""@);
}

/// After the fix every field of the record set has a source, and a field that had one
/// keeps it.
pub proof fn law_every_field_sourced(doc: JsonView, index: usize, file_id: Seq<char>, i: int)
    requires
        can_open(doc),
        index < list_at(doc, "recordSet"@).len(),
        can_source(list_at(doc, "recordSet"@)[index as int]),
        0 <= i < list_at(list_at(doc, "recordSet"@)[index as int], "field"@).len(),
    ensures
        ({
            let old_field = list_at(list_at(doc, "recordSet"@)[index as int], "field"@)[i];
            let new_sets = list_at(sourced_doc(doc, index, file_id), "recordSet"@);
            let new_fields = list_at(new_sets[index as int], "field"@);
            &&& new_sets.len() == list_at(doc, "recordSet"@).len()
            &&& new_fields.len() == list_at(list_at(doc, "recordSet"@)[index as int], "field"@).len()
            &&& new_fields[i].get("source"@) is Some
            &&& old_field.get("source"@) is Some ==> new_fields[i] == old_field
        }),
{
    let sets = list_at(doc, "recordSet"@);
    let rs = sets[index as int];
    let fields = list_at(rs, "field"@);
    let done = fields.map_values(|f: JsonView| sourced_field(f, file_id));
    assert(opened(doc, "recordSet"@) == doc);
    assert(opened(rs, "field"@) == rs);
    let new_rs = sourced_record_set(rs, file_id);
    assert(items_at(new_rs, "field"@) == Some(done));
    let new_sets = sets.update(index as int, new_rs);
    assert(items_at(sourced_doc(doc, index, file_id), "recordSet"@) == Some(new_sets));
    assert(done[i] == sourced_field(fields[i], file_id));
}

/// Renaming moves the rows of each named record set from `data` to `examples`, once, and
/// leaves the other record sets alone.
pub proof fn law_rename_moves_rows(items: Seq<JsonView>, indices: Seq<usize>, i: usize)
    requires
        i < items.len(),
    ensures
        rename_all(items, indices).len() == items.len(),
        indices.contains(i) ==> rename_all(items, indices)[i as int] == renamed(items[i as int]),
        !indices.contains(i) ==> rename_all(items, indices)[i as int] == items[i as int],
        renamed(items[i as int]).get("data"@) is None,
        items[i as int].get("data"@) is Some ==> renamed(items[i as int]).get("examples"@) == items[i as int].get(
            "data"@,
        ),
    decreases indices.len(),
{
    reveal_strlit("data");
    reveal_strlit("examples");
    assert("data"@.len() == 4 && "examples"@.len() == 8);
    if indices.len() > 0 {
        let before = indices.drop_last();
        law_rename_moves_rows(items, before, i);
        if before.contains(i) {
            let j = choose|j: int| 0 <= j < before.len() && before[j] == i;
            assert(indices[j] == i);
        }
        if indices.contains(i) && !before.contains(i) {
            let j = choose|j: int| 0 <= j < indices.len() && indices[j] == i;
            assert(j < before.len() ==> before[j] == i);
        }
        if indices.last() == i {
            assert(indices[indices.len() - 1] == i);
        }
    }
}

proof fn lemma_indices_read_back(issues: Seq<IssueRowView>, k: int)
    requires
        0 <= k < issues.len(),
        bracket_index(issues[k].path) is Some,
    ensures
        positions_in(indices_of(issues)).contains(bracket_index(issues[k].path)->0 as usize),
    decreases issues.len(),
{
    let before = issues.drop_last();
    let a = positions_in(indices_of(before));
    let b = positions_in(indices_of(issues));
    let n = bracket_index(issues[k].path)->0 as usize;
    match bracket_index(issues.last().path) {
        Some(i) => {
            assert(i <= usize::MAX);
            law_natural_read_back(i as u64);
            assert(indices_of(issues).drop_last() =~= indices_of(before));
            assert(b == a.push((i as u64) as usize));
            if k < issues.len() - 1 {
                assert(before[k] == issues[k]);
                lemma_indices_read_back(before, k);
                let j = choose|j: int| 0 <= j < a.len() && a[j] == n;
                assert(b[j] == n);
            } else {
                assert(b[a.len() as int] == n);
            }
        },
        None => {
            assert(before[k] == issues[k]);
            lemma_indices_read_back(before, k);
        },
    }
}

/// The proposal for inline rows, approved as it stands, moves the rows of every record
/// set that an issue points to.
pub proof fn law_inline_fix_covers_issues(doc: JsonView, issues: Seq<IssueRowView>, k: int)
    requires
        can_open(doc),
        0 <= k < issues.len(),
        bracket_index(issues[k].path) matches Some(i) && i < list_at(doc, "recordSet"@).len(),
    ensures
        ({
            let i = bracket_index(issues[k].path)->0 as int;
            &&& fix_possible(doc, as_proposed(inline_suggestion(issues)))
            &&& fix_outcome(doc, as_proposed(inline_suggestion(issues))) matches FixOutcomeView::Applied {
                metadata,
                issue_type,
                path,
            } && list_at(metadata, "recordSet"@)[i] == renamed(list_at(doc, "recordSet"@)[i]) && issue_type
                == "inline_data_rows"@ && path == ""@
        }),
{
    lemma_proposal_keys();
    let s = inline_suggestion(issues);
    let body = as_proposed(s);
    let list = indices_of(issues);
    let p = JsonView::Object(map!["rs_indices"@ => JsonView::Array(list)]);
    assert(s.get("fix_type"@) == Some(JsonView::Text("rename_data_to_examples"@)));
    assert(s.get("params"@) == Some(p));
    assert(text_or(body, "fix_type"@, ""@) == "rename_data_to_examples"@);
    assert(params_of(body) == p);
    assert(list_at(p, "rs_indices"@) == list);
    let indices = positions_in(list);
    let sets = list_at(doc, "recordSet"@);
    let i = bracket_index(issues[k].path)->0;
    lemma_indices_read_back(issues, k);
    law_rename_moves_rows(sets, indices, i as usize);
    assert(opened(doc, "recordSet"@) == doc);
    assert(list_at(renamed_doc(doc, indices), "recordSet"@) == rename_all(sets, indices));
}

proof fn lemma_source_keys()
    ensures
        "source"@.len() == 6,
        "fileObject"@.len() == 10,
        "extract"@.len() == 7,
        "column"@.len() == 6,
        "name"@.len() == 4,
        "@id"@.len() == 3,
        "@type"@.len() == 5,
        "contentUrl"@.len() == 10,
        "encodingFormat"@.len() == 14,
        "containedIn"@.len() == 11,
        "field"@.len() == 5,
        "data"@.len() == 4,
        "examples"@.len() == 8,
        ""@.len() == 0,
{
    reveal_strlit("source");
    reveal_strlit("fileObject");
    reveal_strlit("extract");
    reveal_strlit("column");
    reveal_strlit("name");
    reveal_strlit("@id");
    reveal_strlit("@type");
    reveal_strlit("contentUrl");
    reveal_strlit("encodingFormat");
    reveal_strlit("containedIn");
    reveal_strlit("field");
    reveal_strlit("data");
    reveal_strlit("examples");
    reveal_strlit("");
}

/// The member under `inner` of the member under `outer`.
pub open spec fn inside(j: JsonView, outer: Seq<char>, inner: Seq<char>) -> Option<JsonView> {
    match j.get(outer) {
        Some(v) => v.get(inner),
        None => None,
    }
}

/// The fix for fields without a source gives each field of the record set that has none
/// one: the column is the text of the field's own name, the file is the given one. The
/// other members of the field, the fields that have a source, the other record sets and
/// the other members of the document stay as they are, and the issue of this record set
/// is resolved.
pub proof fn law_fields_get_their_columns(
    doc: JsonView,
    body: JsonView,
    params: JsonView,
    sets: Seq<JsonView>,
    index: u64,
    file_id: Seq<char>,
    fields: Seq<JsonView>,
    i: int,
    other: Seq<char>,
)
    requires
        doc is Object,
        doc.get("recordSet"@) == Some(JsonView::Array(sets)),
        index < sets.len() <= usize::MAX,
        sets[index as int] is Object,
        sets[index as int].get("field"@) == Some(JsonView::Array(fields)),
        0 <= i < fields.len(),
        fields[i] is Object,
        body.get("fix_type"@) == Some(JsonView::Text("add_field_sources"@)),
        body.get("params"@) == Some(params),
        params.get("rs_index"@) == Some(JsonView::Number(decimal(index as nat))) || index == 0 && params.get(
            "rs_index"@,
        ) is None,
        params.get("inner_file_id"@) == Some(JsonView::Text(file_id)),
        file_id.len() > 0,
    ensures
        fix_outcome(doc, body) matches FixOutcomeView::Applied { metadata, issue_type, path } && {
            &&& issue_type == "missing_field_source"@
            &&& path == "recordSet["@ + decimal(index as nat) + "]"@
            &&& other != "recordSet"@ ==> metadata.get(other) == doc.get(other)
            &&& metadata.get("recordSet"@) matches Some(JsonView::Array(new_sets)) && {
                &&& new_sets.len() == sets.len()
                &&& forall|k: int| 0 <= k < sets.len() && k != index ==> #[trigger] new_sets[k] == sets[k]
                &&& other != "field"@ ==> new_sets[index as int].get(other) == sets[index as int].get(other)
                &&& new_sets[index as int].get("field"@) matches Some(JsonView::Array(new_fields)) && {
                    let old_field = fields[i];
                    let new_field = new_fields[i];
                    &&& new_fields.len() == fields.len()
                    &&& old_field.get("source"@) is Some ==> new_field == old_field
                    &&& other != "source"@ ==> new_field.get(other) == old_field.get(other)
                    &&& old_field.get("source"@) is None ==> new_field.get("source"@) is Some && inside(
                        new_field.get("source"@)->0,
                        "fileObject"@,
                        "@id"@,
                    ) == Some(JsonView::Text(file_id)) && inside(
                        new_field.get("source"@)->0,
                        "extract"@,
                        "column"@,
                    ) == Some(
                        match old_field.get("name"@) {
                            Some(JsonView::Text(t)) => JsonView::Text(t),
                            _ => JsonView::Text(""@),
                        },
                    )
                }
            }
        },
{
    lemma_proposal_keys();
    lemma_source_keys();
    law_natural_read_back(index);
    let rs = sets[index as int];
    let done = fields.map_values(|f: JsonView| sourced_field(f, file_id));
    assert(text_or(body, "fix_type"@, ""@) == "add_field_sources"@);
    assert(params_of(body) == params);
    assert(text_or(params, "inner_file_id"@, ""@) == file_id);
    assert(position_at(params, "rs_index"@) == index as usize);
    assert(index as usize == index);
    let new_rs = sourced_record_set(rs, file_id);
    assert(items_at(rs, "field"@) == Some(fields));
    assert(opened(rs, "field"@) == rs);
    assert(new_rs == with_items(rs, "field"@, done));
    assert(opened(doc, "recordSet"@) == doc);
    assert(items_at(doc, "recordSet"@) == Some(sets));
    let new_sets = sets.update(index as int, new_rs);
    assert(sourced_doc(doc, index as usize, file_id) == with_items(doc, "recordSet"@, new_sets));
    assert(done[i] == sourced_field(fields[i], file_id));
}

/// The fix for inline rows moves the rows of the record sets that it names from `data` to
/// `examples`; every other member of these record sets, every other record set and every
/// other member of the document stays as it is.
pub proof fn law_rows_become_examples(
    doc: JsonView,
    body: JsonView,
    params: JsonView,
    sets: Seq<JsonView>,
    indices: Seq<u64>,
    i: int,
    other: Seq<char>,
)
    requires
        doc is Object,
        doc.get("recordSet"@) == Some(JsonView::Array(sets)),
        0 <= i < sets.len() <= usize::MAX,
        body.get("fix_type"@) == Some(JsonView::Text("rename_data_to_examples"@)),
        body.get("params"@) == Some(params),
        params.get("rs_indices"@) == Some(
            JsonView::Array(indices.map_values(|n: u64| JsonView::Number(decimal(n as nat)))),
        ),
        forall|k: int| 0 <= k < indices.len() ==> (#[trigger] indices[k]) <= usize::MAX,
    ensures
        fix_outcome(doc, body) matches FixOutcomeView::Applied { metadata, issue_type, path } && {
            &&& issue_type == "inline_data_rows"@
            &&& path.len() == 0
            &&& other != "recordSet"@ ==> metadata.get(other) == doc.get(other)
            &&& metadata.get("recordSet"@) matches Some(JsonView::Array(new_sets)) && {
                &&& new_sets.len() == sets.len()
                &&& !indices.contains(i as u64) ==> new_sets[i] == sets[i]
                &&& sets[i].get("data"@) is None ==> new_sets[i] == sets[i]
                &&& other != "data"@ && other != "examples"@ ==> new_sets[i].get(other) == sets[i].get(other)
                &&& indices.contains(i as u64) && sets[i].get("data"@) is Some ==> new_sets[i].get("data"@) is None
                    && new_sets[i].get("examples"@) == sets[i].get("data"@)
            }
        },
{
    lemma_proposal_keys();
    lemma_source_keys();
    let list = indices.map_values(|n: u64| JsonView::Number(decimal(n as nat)));
    let read = positions_in(list);
    assert(text_or(body, "fix_type"@, ""@) == "rename_data_to_examples"@);
    assert(params_of(body) == params);
    assert(list_at(params, "rs_indices"@) == list);
    lemma_positions_read(indices);
    assert(opened(doc, "recordSet"@) == doc);
    assert(items_at(doc, "recordSet"@) == Some(sets));
    law_rename_moves_rows(sets, read, i as usize);
    if indices.contains(i as u64) {
        let k = choose|k: int| 0 <= k < indices.len() && indices[k] == i as u64;
        assert(read[k] == i as usize);
    }
    if read.contains(i as usize) {
        let k = choose|k: int| 0 <= k < read.len() && read[k] == i as usize;
        assert(indices[k] <= usize::MAX);
        assert(indices[k] == i as u64);
    }
}

proof fn lemma_positions_read(indices: Seq<u64>)
    ensures
        positions_in(indices.map_values(|n: u64| JsonView::Number(decimal(n as nat)))) == indices.map_values(
            |n: u64| n as usize,
        ),
    decreases indices.len(),
{
    let list = indices.map_values(|n: u64| JsonView::Number(decimal(n as nat)));
    let read = indices.map_values(|n: u64| n as usize);
    if indices.len() > 0 {
        let t = indices.drop_last();
        lemma_positions_read(t);
        law_natural_read_back(indices.last());
        assert(list.drop_last() =~= t.map_values(|n: u64| JsonView::Number(decimal(n as nat))));
        assert(read =~= t.map_values(|n: u64| n as usize).push(indices.last() as usize));
    } else {
        assert(read =~= Seq::empty());
    }
}

/// The fix for an archive puts the description of the file in it after the other
/// distributions: with the given identifier, name and format, contained in the archive.
/// All else stays, and the issue of this archive is resolved.
pub proof fn law_inner_file_is_described(
    doc: JsonView,
    body: JsonView,
    params: JsonView,
    files: Seq<JsonView>,
    index: u64,
    inner_id: Seq<char>,
    filename: Seq<char>,
    format: Seq<char>,
    zip_id: Seq<char>,
    other: Seq<char>,
)
    requires
        doc is Object,
        doc.get("distribution"@) == Some(JsonView::Array(files)),
        body.get("fix_type"@) == Some(JsonView::Text("add_inner_file"@)),
        body.get("params"@) == Some(params),
        params.get("dist_index"@) == Some(JsonView::Number(decimal(index as nat))) || params.get("dist_index"@) is None,
        params.get("inner_id"@) == Some(JsonView::Text(inner_id)),
        params.get("inner_filename"@) == Some(JsonView::Text(filename)),
        params.get("encoding_format"@) == Some(JsonView::Text(format)) || format.len() == 0 && params.get(
            "encoding_format"@,
        ) is None,
        params.get("zip_id"@) == Some(JsonView::Text(zip_id)) || zip_id.len() == 0 && params.get("zip_id"@) is None,
    ensures
        inner_id.len() == 0 || filename.len() == 0 ==> fix_outcome(doc, body) is Refused,
        inner_id.len() > 0 && filename.len() > 0 ==> (fix_outcome(doc, body) matches FixOutcomeView::Applied {
            metadata,
            issue_type,
            path,
        } && {
            &&& issue_type == "zip_without_inner_file"@
            &&& params.get("dist_index"@) is Some ==> path == "distribution["@ + decimal(index as nat) + "].contentUrl"@
            &&& params.get("dist_index"@) is None ==> path.len() == 0
            &&& other != "distribution"@ ==> metadata.get(other) == doc.get(other)
            &&& metadata.get("distribution"@) matches Some(JsonView::Array(new_files)) && {
                let file = new_files.last();
                &&& new_files.drop_last() == files && new_files.len() == files.len() + 1
                &&& file.get("@id"@) == Some(JsonView::Text(inner_id))
                &&& file.get("@type"@) == Some(JsonView::Text("cr:FileObject"@))
                &&& file.get("name"@) == Some(JsonView::Text(filename))
                &&& file.get("contentUrl"@) == Some(JsonView::Text(filename))
                &&& file.get("encodingFormat"@) == Some(JsonView::Text(format))
                &&& inside(file, "containedIn"@, "@id"@) == Some(JsonView::Text(zip_id))
            }
        }),
{
    lemma_proposal_keys();
    lemma_source_keys();
    law_natural_read_back(index);
    assert(text_or(body, "fix_type"@, ""@) == "add_inner_file"@);
    assert(params_of(body) == params);
    assert(text_or(params, "inner_id"@, ""@) == inner_id);
    assert(text_or(params, "inner_filename"@, ""@) == filename);
    reveal_strlit("");
    assert(""@ =~= Seq::empty());
    assert(format.len() == 0 ==> format =~= Seq::empty());
    assert(zip_id.len() == 0 ==> zip_id =~= Seq::empty());
    assert(text_or(params, "encoding_format"@, ""@) == format);
    assert(text_or(params, "zip_id"@, ""@) == zip_id);
    assert(opened(doc, "distribution"@) == doc);
    assert(items_at(doc, "distribution"@) == Some(files));
    let file = inner_file(inner_id, filename, format, zip_id);
    lemma_inner_file_members(inner_id, filename, format, zip_id);
    assert(files.push(file).drop_last() =~= files);
}

proof fn lemma_inner_file_members(inner_id: Seq<char>, filename: Seq<char>, format: Seq<char>, zip_id: Seq<char>)
    ensures
        ({
            let file = inner_file(inner_id, filename, format, zip_id);
            &&& file.get("@id"@) == Some(JsonView::Text(inner_id))
            &&& file.get("@type"@) == Some(JsonView::Text("cr:FileObject"@))
            &&& file.get("name"@) == Some(JsonView::Text(filename))
            &&& file.get("contentUrl"@) == Some(JsonView::Text(filename))
            &&& file.get("encodingFormat"@) == Some(JsonView::Text(format))
            &&& inside(file, "containedIn"@, "@id"@) == Some(JsonView::Text(zip_id))
        }),
{
    lemma_source_keys();
}

/// A fix of a kind that is not known changes nothing, and says which kind was asked for;
/// neither does one for fields without a source that names no file.
pub proof fn law_other_fixes_are_refused(doc: JsonView, body: JsonView, fix_type: Seq<char>)
    requires
        body.get("fix_type"@) == Some(JsonView::Text(fix_type)),
    ensures
        fix_type != "rename_data_to_examples"@ && fix_type != "add_inner_file"@ && fix_type != "add_field_sources"@
            ==> fix_outcome(doc, body) == FixOutcomeView::Refused("Unknown fix_type: "@ + fix_type),
        fix_type == "add_field_sources"@ && params_of(body).get("inner_file_id"@) is None ==> fix_outcome(
            doc,
            body,
        ) is Refused,
        fix_type == "add_inner_file"@ && (params_of(body).get("inner_id"@) is None || params_of(body).get(
            "inner_filename"@,
        ) is None) ==> fix_outcome(doc, body) is Refused,
{
    lemma_proposal_keys();
    assert(text_or(body, "fix_type"@, ""@) == fix_type);
}

/// A fix can be applied wherever the document is an object, and so are its record sets
/// and their fields.
pub proof fn law_objects_can_be_fixed(doc: JsonView, body: JsonView)
    requires
        doc is Object,
        forall|i: int| 0 <= i < list_at(doc, "recordSet"@).len() ==> (#[trigger] list_at(doc, "recordSet"@)[i]) is Object,
        forall|i: int, k: int|
            0 <= i < list_at(doc, "recordSet"@).len() && 0 <= k < list_at(
                list_at(doc, "recordSet"@)[i],
                "field"@,
            ).len() ==> (#[trigger] list_at(list_at(doc, "recordSet"@)[i], "field"@)[k]) is Object,
    ensures
        fix_possible(doc, body),
{
    let sets = list_at(doc, "recordSet"@);
    let i = position_at(params_of(body), "rs_index"@) as int;
    if i < sets.len() {
        assert(sets[i] is Object);
        assert forall|k: int| 0 <= k < list_at(sets[i], "field"@).len() implies can_open(
            #[trigger] list_at(sets[i], "field"@)[k],
        ) by {
            assert(list_at(list_at(doc, "recordSet"@)[i], "field"@)[k] is Object);
        }
    }
}

/// What the proposal for an archive says: it is about the given issue and archive, as
/// severe as the issues of its type, its preview describes a file with the identifier,
/// name and format that it starts from, contained in the archive, and the user can change
/// nothing but these values.
pub proof fn law_archive_proposal(id: i64, index: u64, zip_id: Seq<char>, url: Seq<char>)
    ensures
        ({
            let s = zip_suggestion(id, index as nat, zip_id, url);
            &&& s.get("issue_id"@) == Some(JsonView::Number(signed_decimal(id as int)))
            &&& s.get("issue_type"@) == Some(JsonView::Text("zip_without_inner_file"@))
            &&& s.get("severity"@) == Some(JsonView::Text(severity_of_type("zip_without_inner_file"@)))
            &&& s.get("fix_type"@) == Some(JsonView::Text("add_inner_file"@))
            &&& s.get("id"@) == Some(JsonView::Text("zip_inner:"@ + zip_id))
            &&& s.get("title"@) == Some(JsonView::Text("Add inner FileObject for "@ + zip_id))
            &&& s.get("params"@) matches Some(p) && s.get("preview"@) matches Some(v) && {
                &&& p.get("dist_index"@) == Some(JsonView::Number(decimal(index as nat)))
                &&& p.get("zip_id"@) == Some(JsonView::Text(zip_id))
                &&& inside(v, "containedIn"@, "@id"@) == Some(JsonView::Text(zip_id))
                &&& p.get("inner_id"@) == v.get("@id"@)
                &&& p.get("inner_id"@) == Some(JsonView::Text("file_"@ + slug_of(zip_id) + "_inner"@))
                &&& p.get("inner_filename"@) == v.get("name"@)
                &&& p.get("inner_filename"@) == v.get("contentUrl"@)
                &&& p.get("inner_filename"@) == Some(JsonView::Text(inner_filename_of(url)))
                &&& p.get("encoding_format"@) == v.get("encodingFormat"@)
                &&& p.get("encoding_format"@) == Some(JsonView::Text(mime_of(inner_filename_of(url))))
                &&& list_at(s, "editable_fields"@).len() == 3
                &&& forall|i: int|
                    0 <= i < list_at(s, "editable_fields"@).len() ==> can_be_edited(
                        p,
                        #[trigger] list_at(s, "editable_fields"@)[i],
                    )
                &&& forall|i: int, j: int|
                    0 <= i < j < list_at(s, "editable_fields"@).len() ==> #[trigger] list_at(s, "editable_fields"@)[i].get(
                        "key"@,
                    ) != #[trigger] list_at(s, "editable_fields"@)[j].get("key"@)
            }
        }),
{
    lemma_proposal_keys();
    lemma_source_keys();
    lemma_severities();
    let s = zip_suggestion(id, index as nat, zip_id, url);
    let p = zip_params(index as nat, zip_id, url);
    lemma_inner_file_members(proposed_inner_id(zip_id), inner_filename_of(url), mime_of(inner_filename_of(url)), zip_id);
    assert(s.get("params"@) == Some(p));
    let e = zip_editable_fields();
    assert(list_at(s, "editable_fields"@) == e);
    lemma_editable_keys();
    lemma_edited_values();
    assert(e[0].get("key"@) == Some(JsonView::Text("inner_filename"@)));
    assert(e[1].get("key"@) == Some(JsonView::Text("inner_id"@)));
    assert(e[2].get("key"@) == Some(JsonView::Text("encoding_format"@)));
    assert forall|i: int| 0 <= i < e.len() implies can_be_edited(p, #[trigger] e[i]) by {
        lemma_editable_keys();
        if i == 0 {
            assert(e[i].get("key"@) == Some(JsonView::Text("inner_filename"@)));
        } else if i == 1 {
            assert(e[i].get("key"@) == Some(JsonView::Text("inner_id"@)));
        } else {
            assert(e[i].get("key"@) == Some(JsonView::Text("encoding_format"@)));
        }
    }
}

proof fn lemma_edited_values()
    ensures
        "inner_filename"@.len() == 14,
        "inner_id"@.len() == 8,
        "encoding_format"@.len() == 15,
{
    reveal_strlit("inner_filename");
    reveal_strlit("inner_id");
    reveal_strlit("encoding_format");
}

proof fn lemma_editable_keys()
    ensures
        "key"@.len() == 3,
        "label"@.len() == 5,
        "hint"@.len() == 4,
{
    reveal_strlit("key");
    reveal_strlit("label");
    reveal_strlit("hint");
}

proof fn lemma_severities()
    ensures
        severity_of_type("zip_without_inner_file"@) == "warning"@,
        severity_of_type("missing_field_source"@) == "error"@,
        severity_of_type("inline_data_rows"@) == "warning"@,
{
    reveal_strlit("zip_without_inner_file");
    reveal_strlit("missing_field_source");
    reveal_strlit("inline_data_rows");
    reveal_strlit("repeated_content_url");
    reveal_strlit("broken_source_reference");
    reveal_strlit("missing_required_field");
    assert("zip_without_inner_file"@.len() == 22 && "zip_without_inner_file"@[0] == 'z');
    assert("inline_data_rows"@.len() == 16);
    assert("repeated_content_url"@.len() == 20 && "broken_source_reference"@.len() == 23);
    assert("missing_required_field"@.len() == 22 && "missing_required_field"@[0] == 'm');
    assert("missing_field_source"@.len() == 20);
}

/// Whether a value that the user can change is one that the fix starts from.
pub open spec fn can_be_edited(params: JsonView, editable: JsonView) -> bool {
    editable.get("key"@) matches Some(JsonView::Text(k)) && params.get(k) is Some
}

/// What the proposal for fields without a source says: it is about the given issue and
/// record set, as severe as the issues of its type, counts the fields that lack a source,
/// and asks for the file that they come from.
pub proof fn law_source_proposal(id: i64, index: u64, rs_id: Seq<char>, count: nat, after_zips: bool)
    ensures
        ({
            let s = source_suggestion(id, index as nat, rs_id, count, after_zips);
            &&& s.get("issue_id"@) == Some(JsonView::Number(signed_decimal(id as int)))
            &&& s.get("issue_type"@) == Some(JsonView::Text("missing_field_source"@))
            &&& s.get("severity"@) == Some(JsonView::Text(severity_of_type("missing_field_source"@)))
            &&& s.get("fix_type"@) == Some(JsonView::Text("add_field_sources"@))
            &&& s.get("id"@) == Some(JsonView::Text("missing_source:rs:"@ + decimal(index as nat)))
            &&& s.get("title"@) == Some(
                JsonView::Text("Add source to "@ + decimal(count) + " fields in '"@ + rs_id + "'"@),
            )
            &&& s.get("params"@) matches Some(p) && {
                &&& p.get("rs_index"@) == Some(JsonView::Number(decimal(index as nat)))
                &&& p.get("inner_file_id"@) == Some(JsonView::Text(""@))
                &&& list_at(s, "editable_fields"@).len() == 1
                &&& can_be_edited(p, list_at(s, "editable_fields"@)[0])
            }
        }),
{
    lemma_proposal_keys();
    lemma_severities();
    lemma_editable_keys();
    let s = source_suggestion(id, index as nat, rs_id, count, after_zips);
    let e = source_editable_fields();
    assert(list_at(s, "editable_fields"@) == e);
    assert(e[0].get("key"@) == Some(JsonView::Text("inner_file_id"@)));
}

/// What the proposal for inline rows says: it is as severe as the issues of its type,
/// shows every one of them and can be approved only as it stands.
pub proof fn law_inline_proposal(issues: Seq<IssueRowView>, k: int)
    requires
        0 <= k < issues.len(),
    ensures
        ({
            let s = inline_suggestion(issues);
            &&& s.get("issue_type"@) == Some(JsonView::Text("inline_data_rows"@))
            &&& s.get("severity"@) == Some(JsonView::Text(severity_of_type("inline_data_rows"@)))
            &&& s.get("fix_type"@) == Some(JsonView::Text("rename_data_to_examples"@))
            &&& s.get("title"@) == Some(
                JsonView::Text("Rename `data` → `examples` in "@ + decimal(issues.len()) + " recordSet(s)"@),
            )
            &&& list_at(s, "editable_fields"@).len() == 0
            &&& list_at(s, "preview"@).len() == issues.len()
            &&& list_at(s, "preview"@)[k].get("path"@) == Some(JsonView::Text(issues[k].path))
            &&& list_at(s, "preview"@)[k].get("value"@) == Some(JsonView::Text(issues[k].value))
        }),
{
    lemma_proposal_keys();
    lemma_severities();
    reveal_strlit("path");
    reveal_strlit("value");
    assert("path"@.len() == 4 && "value"@.len() == 5);
    let s = inline_suggestion(issues);
    let shown = issues.map_values(|i: IssueRowView| issue_preview(i));
    assert(list_at(s, "preview"@) == shown);
    assert(shown[k] == issue_preview(issues[k]));
}

proof fn lemma_zip_made(metadata: JsonView, issues: Seq<IssueRowView>, k: int)
    requires
        0 <= k < issues.len(),
        bracket_index(issues[k].path) is Some,
    ensures
        zip_suggestions(metadata, issues).contains(
            zip_suggestion(
                issues[k].id,
                bracket_index(issues[k].path)->0,
                id_in(list_at(metadata, "distribution"@), bracket_index(issues[k].path)->0),
                issues[k].value,
            ),
        ),
    decreases issues.len(),
{
    let t = issues.drop_last();
    let before = zip_suggestions(metadata, t);
    let all = zip_suggestions(metadata, issues);
    let n = bracket_index(issues[k].path)->0;
    let s = zip_suggestion(issues[k].id, n, id_in(list_at(metadata, "distribution"@), n), issues[k].value);
    if k < t.len() {
        assert(t[k] == issues[k]);
        lemma_zip_made(metadata, t, k);
        let j = choose|j: int| 0 <= j < before.len() && before[j] == s;
        assert(all[j] == s);
    } else {
        assert(all[before.len() as int] == s);
    }
}

proof fn lemma_source_made(metadata: JsonView, issues: Seq<IssueRowView>, after_zips: bool, k: int)
    requires
        0 <= k < issues.len(),
        bracket_index(issues[k].path) is Some,
    ensures
        source_suggestions(metadata, issues, after_zips).contains(
            source_suggestion(
                issues[k].id,
                bracket_index(issues[k].path)->0,
                id_in(list_at(metadata, "recordSet"@), bracket_index(issues[k].path)->0),
                sourceless_in(list_at(metadata, "recordSet"@), bracket_index(issues[k].path)->0),
                after_zips,
            ),
        ),
    decreases issues.len(),
{
    let t = issues.drop_last();
    let before = source_suggestions(metadata, t, after_zips);
    let all = source_suggestions(metadata, issues, after_zips);
    let n = bracket_index(issues[k].path)->0;
    let sets = list_at(metadata, "recordSet"@);
    let s = source_suggestion(issues[k].id, n, id_in(sets, n), sourceless_in(sets, n), after_zips);
    if k < t.len() {
        assert(t[k] == issues[k]);
        lemma_source_made(metadata, t, after_zips, k);
        let j = choose|j: int| 0 <= j < before.len() && before[j] == s;
        assert(all[j] == s);
    } else {
        assert(all[before.len() as int] == s);
    }
}

/// Every issue that can be fixed gets its proposal: one for each archive, with the `@id`
/// of the distribution that the issue points to and the address that the issue gives; one
/// for each record set with fields without a source, with its `@id` and the number of
/// these fields; and one for all record sets with inline rows.
pub proof fn law_every_issue_gets_a_proposal(metadata: JsonView, issues: Seq<IssueRowView>, k: int, n: nat)
    requires
        0 <= k < issues.len(),
        bracket_index(issues[k].path) == Some(n),
    ensures
        issues[k].issue_type == "zip_without_inner_file"@ && n < list_at(metadata, "distribution"@).len()
            ==> suggestions_of(metadata, issues).contains(
            zip_suggestion(
                issues[k].id,
                n,
                text_or(list_at(metadata, "distribution"@)[n as int], "@id"@, "?"@),
                issues[k].value,
            ),
        ),
        issues[k].issue_type == "missing_field_source"@ && n < list_at(metadata, "recordSet"@).len()
            ==> suggestions_of(metadata, issues).contains(
            source_suggestion(
                issues[k].id,
                n,
                text_or(list_at(metadata, "recordSet"@)[n as int], "@id"@, "?"@),
                list_at(list_at(metadata, "recordSet"@)[n as int], "field"@).filter(
                    |f: JsonView| f.get("source"@) is None,
                ).len(),
                exists|z: int| 0 <= z < issues.len() && (#[trigger] issues[z]).issue_type == "zip_without_inner_file"@,
            ),
        ),
        issues[k].issue_type == "zip_without_inner_file"@ && n >= list_at(metadata, "distribution"@).len()
            ==> suggestions_of(metadata, issues).contains(zip_suggestion(issues[k].id, n, "?"@, issues[k].value)),
        issues[k].issue_type == "missing_field_source"@ && n >= list_at(metadata, "recordSet"@).len()
            ==> suggestions_of(metadata, issues).contains(
            source_suggestion(
                issues[k].id,
                n,
                "?"@,
                0,
                exists|z: int| 0 <= z < issues.len() && (#[trigger] issues[z]).issue_type == "zip_without_inner_file"@,
            ),
        ),
        issues[k].issue_type == "inline_data_rows"@ ==> suggestions_of(metadata, issues).last() == inline_suggestion(
            issues.filter(|i: IssueRowView| i.issue_type == "inline_data_rows"@),
        ),
{
    let zip_type = "zip_without_inner_file"@;
    let is_zip = |i: IssueRowView| i.issue_type == zip_type;
    let is_source = |i: IssueRowView| i.issue_type == "missing_field_source"@;
    let is_inline = |i: IssueRowView| i.issue_type == "inline_data_rows"@;
    let zips = of_type(issues, zip_type);
    let sources = of_type(issues, "missing_field_source"@);
    let inline = of_type(issues, "inline_data_rows"@);
    let after_zips = zips.len() > 0;
    let a = zip_suggestions(metadata, zips);
    let b = source_suggestions(metadata, sources, after_zips);
    let all = suggestions_of(metadata, issues);
    assert(after_zips == exists|z: int| 0 <= z < issues.len() && (#[trigger] issues[z]).issue_type == zip_type) by {
        if after_zips {
            lemma_filter_member(issues, is_zip, 0);
        }
        if exists|z: int| 0 <= z < issues.len() && (#[trigger] issues[z]).issue_type == zip_type {
            let z = choose|z: int| 0 <= z < issues.len() && (#[trigger] issues[z]).issue_type == zip_type;
            issues.lemma_filter_contains(is_zip, z);
        }
    }
    if issues[k].issue_type == zip_type {
        issues.lemma_filter_contains(is_zip, k);
        let z = choose|z: int| 0 <= z < zips.len() && zips[z] == issues[k];
        lemma_zip_made(metadata, zips, z);
        let s = zip_suggestion(issues[k].id, n, id_in(list_at(metadata, "distribution"@), n), issues[k].value);
        let j = choose|j: int| 0 <= j < a.len() && a[j] == s;
        assert(all[j] == s);
    }
    if issues[k].issue_type == "missing_field_source"@ {
        issues.lemma_filter_contains(is_source, k);
        let z = choose|z: int| 0 <= z < sources.len() && sources[z] == issues[k];
        lemma_source_made(metadata, sources, after_zips, z);
        let sets = list_at(metadata, "recordSet"@);
        let s = source_suggestion(issues[k].id, n, id_in(sets, n), sourceless_in(sets, n), after_zips);
        let j = choose|j: int| 0 <= j < b.len() && b[j] == s;
        assert(all[a.len() + j] == s);
        if n < sets.len() {
            law_sourceless_are_counted(list_at(sets[n as int], "field"@));
        }
    }
    if issues[k].issue_type == "inline_data_rows"@ {
        issues.lemma_filter_contains(is_inline, k);
        assert(inline.len() > 0);
    }
}

proof fn lemma_filter_member(issues: Seq<IssueRowView>, p: spec_fn(IssueRowView) -> bool, i: int)
    requires
        0 <= i < issues.filter(p).len(),
    ensures
        exists|z: int| 0 <= z < issues.len() && p(#[trigger] issues[z]),
    decreases issues.len(),
{
    reveal(Seq::filter);
    if issues.len() > 0 {
        let t = issues.drop_last();
        if p(issues.last()) {
            assert(p(issues[issues.len() - 1]));
        } else {
            lemma_filter_member(t, p, i);
            let z = choose|z: int| 0 <= z < t.len() && p(#[trigger] t[z]);
            assert(issues[z] == t[z]);
        }
    }
}

/// There are no other proposals: one for each archive and one for each record set whose
/// issue says where it stands, and one for all inline rows if there are any.
pub proof fn law_no_other_proposals(metadata: JsonView, issues: Seq<IssueRowView>)
    ensures
        suggestions_of(metadata, issues).len() == issues.filter(
            |i: IssueRowView| i.issue_type == "zip_without_inner_file"@,
        ).filter(|i: IssueRowView| bracket_index(i.path) is Some).len() + issues.filter(
            |i: IssueRowView| i.issue_type == "missing_field_source"@,
        ).filter(|i: IssueRowView| bracket_index(i.path) is Some).len() + (if issues.filter(
            |i: IssueRowView| i.issue_type == "inline_data_rows"@,
        ).len() > 0 {
            1nat
        } else {
            0nat
        }),
{
    lemma_zips_counted(metadata, of_type(issues, "zip_without_inner_file"@));
    lemma_sources_counted(
        metadata,
        of_type(issues, "missing_field_source"@),
        of_type(issues, "zip_without_inner_file"@).len() > 0,
    );
}

proof fn lemma_zips_counted(metadata: JsonView, issues: Seq<IssueRowView>)
    ensures
        zip_suggestions(metadata, issues).len() == issues.filter(
            |i: IssueRowView| bracket_index(i.path) is Some,
        ).len(),
    decreases issues.len(),
{
    reveal(Seq::filter);
    if issues.len() > 0 {
        lemma_zips_counted(metadata, issues.drop_last());
    }
}

proof fn lemma_sources_counted(metadata: JsonView, issues: Seq<IssueRowView>, after_zips: bool)
    ensures
        source_suggestions(metadata, issues, after_zips).len() == issues.filter(
            |i: IssueRowView| bracket_index(i.path) is Some,
        ).len(),
    decreases issues.len(),
{
    reveal(Seq::filter);
    if issues.len() > 0 {
        lemma_sources_counted(metadata, issues.drop_last(), after_zips);
    }
}

/// Whether a proposal is about issues of the given type.
pub open spec fn is_about(suggestion: JsonView, issue_type: Seq<char>) -> bool {
    suggestion.get("issue_type"@) == Some(JsonView::Text(issue_type))
}

/// Archives come first, since fields refer to the files in them, then fields without a
/// source, then at most one proposal for inline rows.
pub proof fn law_archives_come_first(metadata: JsonView, issues: Seq<IssueRowView>)
    ensures
        ({
            let all = suggestions_of(metadata, issues);
            exists|a: int, b: int|
                0 <= a <= b <= all.len() <= b + 1 && #[trigger] are_about(all, 0, a, "zip_without_inner_file"@)
                    && #[trigger] are_about(all, a, b, "missing_field_source"@) && are_about(
                    all,
                    b,
                    all.len() as int,
                    "inline_data_rows"@,
                )
        }),
{
    lemma_proposal_keys();
    let zips = of_type(issues, "zip_without_inner_file"@);
    let sources = of_type(issues, "missing_field_source"@);
    let x = zip_suggestions(metadata, zips);
    let y = source_suggestions(metadata, sources, zips.len() > 0);
    let all = suggestions_of(metadata, issues);
    let a = x.len() as int;
    let b = a + y.len();
    lemma_about_zips(metadata, zips);
    lemma_about_sources(metadata, sources, zips.len() > 0);
    assert forall|i: int| 0 <= i < a implies is_about(#[trigger] all[i], "zip_without_inner_file"@) by {
        assert(all[i] == x[i]);
    }
    assert forall|i: int| a <= i < b implies is_about(#[trigger] all[i], "missing_field_source"@) by {
        assert(all[i] == y[i - a]);
    }
    assert(are_about(all, 0, a, "zip_without_inner_file"@));
    assert(are_about(all, a, b, "missing_field_source"@));
    assert(are_about(all, b, all.len() as int, "inline_data_rows"@));
}

/// Whether the proposals from `from` up to `to` are about issues of the given type.
pub open spec fn are_about(suggestions: Seq<JsonView>, from: int, to: int, issue_type: Seq<char>) -> bool {
    forall|i: int| from <= i < to ==> is_about(#[trigger] suggestions[i], issue_type)
}

proof fn lemma_about_zips(metadata: JsonView, issues: Seq<IssueRowView>)
    ensures
        are_about(
            zip_suggestions(metadata, issues),
            0,
            zip_suggestions(metadata, issues).len() as int,
            "zip_without_inner_file"@,
        ),
    decreases issues.len(),
{
    lemma_proposal_keys();
    if issues.len() > 0 {
        lemma_about_zips(metadata, issues.drop_last());
    }
}

proof fn lemma_about_sources(metadata: JsonView, issues: Seq<IssueRowView>, after_zips: bool)
    ensures
        are_about(
            source_suggestions(metadata, issues, after_zips),
            0,
            source_suggestions(metadata, issues, after_zips).len() as int,
            "missing_field_source"@,
        ),
    decreases issues.len(),
{
    lemma_proposal_keys();
    if issues.len() > 0 {
        lemma_about_sources(metadata, issues.drop_last(), after_zips);
    }
}

/// Whether a change of a document leaves it as it is, but for a member under `key` that is
/// null where there was none.
pub open spec fn is_untouched(doc: JsonView, metadata: JsonView, key: Seq<char>) -> bool {
    &&& doc.get(key) is Some ==> metadata == doc
    &&& doc.get(key) is None ==> metadata == JsonView::Object(members_of(doc).insert(key, JsonView::Null))
}

/// Where there is nothing to fix, nothing is fixed: without a list of distributions or of
/// record sets, and without a record set at the given place.
pub proof fn law_nothing_to_fix(doc: JsonView, body: JsonView, params: JsonView, file_id: Seq<char>, index: u64)
    requires
        doc is Object,
        body.get("params"@) == Some(params),
    ensures
        fix_outcome(doc, body) matches FixOutcomeView::Applied { metadata, .. } ==> {
            &&& body.get("fix_type"@) == Some(JsonView::Text("add_inner_file"@)) && !(doc.get("distribution"@) matches Some(
                JsonView::Array(_),
            )) ==> is_untouched(doc, metadata, "distribution"@)
            &&& (body.get("fix_type"@) == Some(JsonView::Text("add_field_sources"@)) || body.get("fix_type"@) == Some(
                JsonView::Text("rename_data_to_examples"@),
            )) && !(doc.get("recordSet"@) matches Some(JsonView::Array(_))) ==> is_untouched(doc, metadata, "recordSet"@)
            &&& body.get("fix_type"@) == Some(JsonView::Text("add_field_sources"@)) && params.get("rs_index"@) == Some(
                JsonView::Number(decimal(index as nat)),
            ) && list_at(doc, "recordSet"@).len() <= index <= usize::MAX ==> is_untouched(
                doc,
                metadata,
                "recordSet"@,
            )
        },
{
    lemma_proposal_keys();
    law_natural_read_back(index);
    let d = opened(doc, "distribution"@);
    let r = opened(doc, "recordSet"@);
    assert(params_of(body) == params);
    if doc.get("distribution"@) is Some {
        assert(d == doc);
    }
    if doc.get("recordSet"@) is Some {
        assert(r == doc);
    }
}

/// The description in the proposal for fields without a source is the same whether or not
/// archives are to be described, but for the advice to describe them first.
pub proof fn law_advice_to_describe_archives(id: i64, index: nat, rs_id: Seq<char>, count: nat)
    ensures
        ({
            let before = source_suggestion(id, index, rs_id, count, false);
            let after = source_suggestion(id, index, rs_id, count, true);
            before.get("description"@) matches Some(JsonView::Text(d)) && after.get("description"@) == Some(
                JsonView::Text(d + " Apply 'Add inner FileObject' fixes first, then paste the resulting @id here."@),
            )
        }),
{
    lemma_proposal_keys();
}

proof fn lemma_positions_from(issues: Seq<IssueRowView>, n: usize)
    requires
        positions_in(indices_of(issues)).contains(n),
    ensures
        exists|k: int| 0 <= k < issues.len() && bracket_index((#[trigger] issues[k]).path) == Some(n as nat),
    decreases issues.len(),
{
    let b = positions_in(indices_of(issues));
    if issues.len() > 0 {
        let t = issues.drop_last();
        let a = positions_in(indices_of(t));
        let j = choose|j: int| 0 <= j < b.len() && b[j] == n;
        match bracket_index(issues.last().path) {
            Some(i) => {
                assert(i <= usize::MAX);
                law_natural_read_back(i as u64);
                assert(indices_of(issues).drop_last() =~= indices_of(t));
                assert(b == a.push((i as u64) as usize));
                if j < a.len() {
                    assert(a[j] == n);
                    lemma_positions_from(t, n);
                    let k = choose|k: int| 0 <= k < t.len() && bracket_index((#[trigger] t[k]).path) == Some(n as nat);
                    assert(issues[k] == t[k]);
                } else {
                    assert(bracket_index(issues[issues.len() - 1].path) == Some(n as nat));
                }
            },
            None => {
                lemma_positions_from(t, n);
                let k = choose|k: int| 0 <= k < t.len() && bracket_index((#[trigger] t[k]).path) == Some(n as nat);
                assert(issues[k] == t[k]);
            },
        }
    }
}

/// The proposal for inline rows, approved as it stands, leaves alone every record set that
/// no issue points to.
pub proof fn law_inline_fix_touches_no_other(doc: JsonView, issues: Seq<IssueRowView>, i: int)
    requires
        doc is Object,
        0 <= i < list_at(doc, "recordSet"@).len() <= usize::MAX,
        forall|k: int| 0 <= k < issues.len() ==> bracket_index((#[trigger] issues[k]).path) != Some(i as nat),
    ensures
        fix_outcome(doc, as_proposed(inline_suggestion(issues))) matches FixOutcomeView::Applied { metadata, .. }
            && list_at(metadata, "recordSet"@)[i] == list_at(doc, "recordSet"@)[i],
{
    lemma_proposal_keys();
    let s = inline_suggestion(issues);
    let body = as_proposed(s);
    let list = indices_of(issues);
    let p = JsonView::Object(map!["rs_indices"@ => JsonView::Array(list)]);
    assert(s.get("fix_type"@) == Some(JsonView::Text("rename_data_to_examples"@)));
    assert(s.get("params"@) == Some(p));
    assert(text_or(body, "fix_type"@, ""@) == "rename_data_to_examples"@);
    assert(params_of(body) == p);
    assert(list_at(p, "rs_indices"@) == list);
    let indices = positions_in(list);
    let sets = list_at(doc, "recordSet"@);
    if indices.contains(i as usize) {
        lemma_positions_from(issues, i as usize);
    }
    law_rename_moves_rows(sets, indices, i as usize);
    assert(opened(doc, "recordSet"@) == doc);
    assert(list_at(renamed_doc(doc, indices), "recordSet"@) == rename_all(sets, indices));
}

} // verus!
