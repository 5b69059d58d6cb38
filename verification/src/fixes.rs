//! Fix suggestions: what is proposed for structural issues of a document.
use crate::json::{
    integer, items_at, items_view, lemma_items_view, natural, signed_decimal, text, text_or, with_item,
    with_member, Json, JsonView,
};
use crate::number::{decimal, to_decimal};
use crate::paths::{bracket_index, brackets_in_order, has_brackets_in_order, parse_bracket_index};
use crate::text::{
    after_last, chars_of, concat2, concat3, cut_after_last, finishes_with, law_cut_at, same, without_ending,
};
use vstd::prelude::*;

verus! {

/// An issue of a document.
#[derive(Debug, PartialEq, Eq)]
pub struct IssueRow {
    pub id: i64,
    pub issue_type: String,
    pub path: String,
    pub value: String,
    pub detail: String,
}

/// What an issue of a document says.
pub struct IssueRowView {
    pub id: i64,
    pub issue_type: Seq<char>,
    pub path: Seq<char>,
    pub value: Seq<char>,
    pub detail: Seq<char>,
}

impl View for IssueRow {
    type V = IssueRowView;

    open spec fn view(&self) -> IssueRowView {
        IssueRowView {
            id: self.id,
            issue_type: self.issue_type@,
            path: self.path@,
            value: self.value@,
            detail: self.detail@,
        }
    }
}

/// What a list of issues says.
pub open spec fn issue_views(s: Seq<IssueRow>) -> Seq<IssueRowView> {
    s.map_values(|i: IssueRow| i@)
}

/// `s` without the ending `e`.
pub open spec fn cut_ending(s: Seq<char>, e: Seq<char>) -> Seq<char> {
    s.take(s.len() - e.len())
}

/// The name of an archive without the ending that says how it is packed.
pub open spec fn unpacked_name(base: Seq<char>) -> Seq<char> {
    if ".zip"@.is_suffix_of(base) {
        cut_ending(base, ".zip"@)
    } else if ".tar.gz"@.is_suffix_of(base) {
        cut_ending(base, ".tar.gz"@)
    } else if ".tgz"@.is_suffix_of(base) {
        cut_ending(base, ".tgz"@)
    } else if ".gz"@.is_suffix_of(base) {
        cut_ending(base, ".gz"@)
    } else {
        base
    }
}

/// The name of the file in an archive: an ending such as `_tsv` becomes `.tsv`, a known
/// ending stays, and without one the file is taken to be tab-separated.
pub open spec fn file_name_in(base: Seq<char>) -> Seq<char> {
    if "_tsv"@.is_suffix_of(base) {
        cut_ending(base, "_tsv"@) + ".tsv"@
    } else if "_csv"@.is_suffix_of(base) {
        cut_ending(base, "_csv"@) + ".csv"@
    } else if "_json"@.is_suffix_of(base) {
        cut_ending(base, "_json"@) + ".json"@
    } else if "_jsonl"@.is_suffix_of(base) {
        cut_ending(base, "_jsonl"@) + ".jsonl"@
    } else if "_ndjson"@.is_suffix_of(base) {
        cut_ending(base, "_ndjson"@) + ".ndjson"@
    } else if ".tsv"@.is_suffix_of(base) || ".csv"@.is_suffix_of(base) || ".json"@.is_suffix_of(base)
        || ".jsonl"@.is_suffix_of(base) {
        base
    } else {
        base + ".tsv"@
    }
}

/// The name of the file in the archive at an address.
pub open spec fn inner_filename_of(url: Seq<char>) -> Seq<char> {
    file_name_in(unpacked_name(after_last(url, '/')))
}

/// The name of an archive without the ending that says how it is packed.
fn strip_packing(base: String) -> (r: String)
    ensures
        r@ == unpacked_name(base@),
{
    if let Some(s) = without_ending(base.as_str(), ".zip") {
        return s;
    }
    if let Some(s) = without_ending(base.as_str(), ".tar.gz") {
        return s;
    }
    if let Some(s) = without_ending(base.as_str(), ".tgz") {
        return s;
    }
    if let Some(s) = without_ending(base.as_str(), ".gz") {
        return s;
    }
    base
}

/// The name of the file in the archive at an address.
pub fn infer_inner_filename(url: &str) -> (r: String)
    ensures
        r@ == inner_filename_of(url@),
{
    let base = strip_packing(cut_after_last(url, '/'));
    if let Some(s) = without_ending(base.as_str(), "_tsv") {
        return concat2(s.as_str(), ".tsv");
    }
    if let Some(s) = without_ending(base.as_str(), "_csv") {
        return concat2(s.as_str(), ".csv");
    }
    if let Some(s) = without_ending(base.as_str(), "_json") {
        return concat2(s.as_str(), ".json");
    }
    if let Some(s) = without_ending(base.as_str(), "_jsonl") {
        return concat2(s.as_str(), ".jsonl");
    }
    if let Some(s) = without_ending(base.as_str(), "_ndjson") {
        return concat2(s.as_str(), ".ndjson");
    }
    if finishes_with(base.as_str(), ".tsv") || finishes_with(base.as_str(), ".csv") || finishes_with(
        base.as_str(),
        ".json",
    ) || finishes_with(base.as_str(), ".jsonl") {
        return base;
    }
    concat2(base.as_str(), ".tsv")
}

/// The media type that goes with a file name.
pub open spec fn mime_of(name: Seq<char>) -> Seq<char> {
    if ".tsv"@.is_suffix_of(name) {
        "text/tab-separated-values"@
    } else if ".csv"@.is_suffix_of(name) {
        "text/csv"@
    } else if ".json"@.is_suffix_of(name) {
        "application/json"@
    } else if ".jsonl"@.is_suffix_of(name) || ".ndjson"@.is_suffix_of(name) {
        "application/jsonlines"@
    } else {
        "application/octet-stream"@
    }
}

/// The media type that goes with a file name.
pub fn inner_ext_to_mime(filename: &str) -> (r: &'static str)
    ensures
        r@ == mime_of(filename@),
{
    if finishes_with(filename, ".tsv") {
        "text/tab-separated-values"
    } else if finishes_with(filename, ".csv") {
        "text/csv"
    } else if finishes_with(filename, ".json") {
        "application/json"
    } else if finishes_with(filename, ".jsonl") || finishes_with(filename, ".ndjson") {
        "application/jsonlines"
    } else {
        "application/octet-stream"
    }
}

/// Whether `char::is_alphanumeric` holds of a character outside ASCII.
pub uninterp spec fn is_wide_alphanumeric(c: char) -> bool;

/// Whether a character is a letter or a digit of any script.
pub open spec fn is_alphanumeric(c: char) -> bool {
    if (c as int) < 128 {
        ('a' <= c <= 'z') || ('A' <= c <= 'Z') || ('0' <= c <= '9')
    } else {
        is_wide_alphanumeric(c)
    }
}

/// `char::is_alphanumeric`; of ASCII characters it holds for letters and digits.
#[verifier::external_body]
fn alphanumeric(c: char) -> (r: bool)
    ensures
        r == is_alphanumeric(c),
        (c as int) >= 128 ==> r == is_wide_alphanumeric(c),
{
    c.is_alphanumeric()
}

/// `s` as part of an identifier: what is no letter, digit or underscore becomes an
/// underscore.
pub open spec fn slug_of(s: Seq<char>) -> Seq<char> {
    s.map_values(
        |c: char|
            if is_alphanumeric(c) || c == '_' {
                c
            } else {
                '_'
            },
    )
}

/// A text as part of an identifier.
pub fn slug_id(s: &str) -> (r: String)
    ensures
        r@ == slug_of(s@),
{
    let cs = chars_of(s);
    let mut r = String::new();
    for i in 0..cs.len()
        invariant
            r@ == slug_of(cs@).take(i as int),
    {
        let c = cs[i];
        if alphanumeric(c) || c == '_' {
            r.push(c);
        } else {
            r.push('_');
        }
        assert(slug_of(cs@).take(i + 1) =~= slug_of(cs@).take(i as int).push(slug_of(cs@)[i as int]));
    }
    assert(slug_of(cs@).take(cs@.len() as int) =~= slug_of(cs@));
    r
}

/// The items of an array under `key`; none where there is no array.
pub open spec fn list_at(j: JsonView, key: Seq<char>) -> Seq<JsonView> {
    match items_at(j, key) {
        Some(s) => s,
        None => Seq::empty(),
    }
}

/// The `@id` of an item; a question mark where there is none.
pub open spec fn id_in(items: Seq<JsonView>, i: nat) -> Seq<char> {
    if i < items.len() {
        text_or(items[i as int], "@id"@, "?"@)
    } else {
        "?"@
    }
}

/// The description of a file in an archive.
pub open spec fn inner_file(
    inner_id: Seq<char>,
    filename: Seq<char>,
    format: Seq<char>,
    zip_id: Seq<char>,
) -> JsonView {
    JsonView::Object(
        map![
            "@id"@ => JsonView::Text(inner_id),
            "@type"@ => JsonView::Text("cr:FileObject"@),
            "name"@ => JsonView::Text(filename),
            "contentUrl"@ => JsonView::Text(filename),
            "encodingFormat"@ => JsonView::Text(format),
            "containedIn"@ => JsonView::Object(map!["@id"@ => JsonView::Text(zip_id)]),
        ],
    )
}

/// The description of a file in an archive.
pub(crate) fn make_inner_file(inner_id: &str, filename: &str, format: &str, zip_id: &str) -> (r: Json)
    ensures
        r@ == inner_file(inner_id@, filename@, format@, zip_id@),
{
    let holder = with_member(Vec::new(), "@id", text(zip_id));
    let m = with_member(Vec::new(), "@id", text(inner_id));
    let m = with_member(m, "@type", text("cr:FileObject"));
    let m = with_member(m, "name", text(filename));
    let m = with_member(m, "contentUrl", text(filename));
    let m = with_member(m, "encodingFormat", text(format));
    let m = with_member(m, "containedIn", Json::Object(holder));
    Json::Object(m)
}

/// A value that the user can change before a fix is applied.
pub open spec fn editable_field(key: Seq<char>, label: Seq<char>, hint: Seq<char>) -> JsonView {
    JsonView::Object(
        map![
            "key"@ => JsonView::Text(key),
            "label"@ => JsonView::Text(label),
            "hint"@ => JsonView::Text(hint),
        ],
    )
}

/// A value that the user can change before a fix is applied.
fn make_editable(key: &str, label: &str, hint: &str) -> (r: Json)
    ensures
        r@ == editable_field(key@, label@, hint@),
{
    let m = with_member(Vec::new(), "key", text(key));
    let m = with_member(m, "label", text(label));
    let m = with_member(m, "hint", text(hint));
    Json::Object(m)
}

/// The identifier proposed for the file in an archive.
pub open spec fn proposed_inner_id(zip_id: Seq<char>) -> Seq<char> {
    "file_"@ + slug_of(zip_id) + "_inner"@
}

/// The values that the fix for an archive starts from.
pub open spec fn zip_params(index: nat, zip_id: Seq<char>, url: Seq<char>) -> JsonView {
    JsonView::Object(
        map![
            "dist_index"@ => JsonView::Number(decimal(index)),
            "zip_id"@ => JsonView::Text(zip_id),
            "inner_id"@ => JsonView::Text(proposed_inner_id(zip_id)),
            "inner_filename"@ => JsonView::Text(inner_filename_of(url)),
            "encoding_format"@ => JsonView::Text(mime_of(inner_filename_of(url))),
        ],
    )
}

/// The values that the user can change in the fix for an archive.
pub open spec fn zip_editable_fields() -> Seq<JsonView> {
    seq![
        editable_field("inner_filename"@, "Inner filename"@, "Filename inside the archive"@),
        editable_field(
            "inner_id"@,
            "FileObject @id"@,
            "Unique identifier — must be referenced in field sources"@,
        ),
        editable_field("encoding_format"@, "MIME type"@, "e.g. text/tab-separated-values"@),
    ]
}

/// What is proposed for an archive without a description of the file in it.
pub open spec fn zip_suggestion(id: i64, index: nat, zip_id: Seq<char>, url: Seq<char>) -> JsonView {
    JsonView::Object(
        map![
            "id"@ => JsonView::Text("zip_inner:"@ + zip_id),
            "issue_id"@ => JsonView::Number(signed_decimal(id as int)),
            "issue_type"@ => JsonView::Text("zip_without_inner_file"@),
            "severity"@ => JsonView::Text("warning"@),
            "title"@ => JsonView::Text("Add inner FileObject for "@ + zip_id),
            "description"@ => JsonView::Text("Defines a cr:FileObject for the file inside this archive so that recordSet fields can declare their source."@),
            "fix_type"@ => JsonView::Text("add_inner_file"@),
            "params"@ => zip_params(index, zip_id, url),
            "editable_fields"@ => JsonView::Array(zip_editable_fields()),
            "preview"@ => inner_file(
                proposed_inner_id(zip_id),
                inner_filename_of(url),
                mime_of(inner_filename_of(url)),
                zip_id,
            ),
        ],
    )
}

/// What is proposed for an archive without a description of the file in it.
fn make_zip_suggestion(id: i64, index: usize, zip_id: &str, url: &str) -> (r: Json)
    ensures
        r@ == zip_suggestion(id, index as nat, zip_id@, url@),
{
    let name = infer_inner_filename(url);
    let mime = inner_ext_to_mime(name.as_str());
    let inner_id = concat3("file_", slug_id(zip_id).as_str(), "_inner");
    let p = with_member(Vec::new(), "dist_index", natural(index as u64));
    let p = with_member(p, "zip_id", text(zip_id));
    let p = with_member(p, "inner_id", text(inner_id.as_str()));
    let p = with_member(p, "inner_filename", text(name.as_str()));
    let p = with_member(p, "encoding_format", text(mime));
    let params = Json::Object(p);
    assert(params@ == zip_params(index as nat, zip_id@, url@));
    let e = with_item(
        Vec::new(),
        make_editable("inner_filename", "Inner filename", "Filename inside the archive"),
    );
    let e = with_item(
        e,
        make_editable(
            "inner_id",
            "FileObject @id",
            "Unique identifier — must be referenced in field sources",
        ),
    );
    let e = with_item(e, make_editable("encoding_format", "MIME type", "e.g. text/tab-separated-values"));
    assert(items_view(e@) =~= zip_editable_fields());
    let editable = Json::Array(e);
    let preview = make_inner_file(inner_id.as_str(), name.as_str(), mime, zip_id);
    let m = with_member(Vec::new(), "id", text(concat2("zip_inner:", zip_id).as_str()));
    let m = with_member(m, "issue_id", integer(id));
    let m = with_member(m, "issue_type", text("zip_without_inner_file"));
    let m = with_member(m, "severity", text("warning"));
    let m = with_member(m, "title", text(concat2("Add inner FileObject for ", zip_id).as_str()));
    let m = with_member(
        m,
        "description",
        text(
            "Defines a cr:FileObject for the file inside this archive so that recordSet fields can declare their source.",
        ),
    );
    let m = with_member(m, "fix_type", text("add_inner_file"));
    let m = with_member(m, "params", params);
    let m = with_member(m, "editable_fields", editable);
    let m = with_member(m, "preview", preview);
    Json::Object(m)
}

/// How many of the fields do not say where they come from.
pub open spec fn sourceless(fields: Seq<JsonView>) -> nat
    decreases fields.len(),
{
    if fields.len() == 0 {
        0
    } else if fields.last().get("source"@) is None {
        sourceless(fields.drop_last()) + 1
    } else {
        sourceless(fields.drop_last())
    }
}

/// How many fields of a record set do not say where they come from.
pub open spec fn sourceless_in(record_sets: Seq<JsonView>, i: nat) -> nat {
    if i < record_sets.len() {
        sourceless(list_at(record_sets[i as int], "field"@))
    } else {
        0
    }
}

/// Where a field comes from: a column of a file.
pub open spec fn field_source(file_id: Seq<char>, column: Seq<char>) -> JsonView {
    JsonView::Object(
        map![
            "fileObject"@ => JsonView::Object(map!["@id"@ => JsonView::Text(file_id)]),
            "extract"@ => JsonView::Object(map!["column"@ => JsonView::Text(column)]),
        ],
    )
}

/// Where a field comes from.
pub(crate) fn make_field_source(file_id: &str, column: &str) -> (r: Json)
    ensures
        r@ == field_source(file_id@, column@),
{
    let file = with_member(Vec::new(), "@id", text(file_id));
    let extract = with_member(Vec::new(), "column", text(column));
    let m = with_member(Vec::new(), "fileObject", Json::Object(file));
    let m = with_member(m, "extract", Json::Object(extract));
    Json::Object(m)
}

/// What the proposal for fields without a source says, with a note where files in
/// archives are yet to be described.
pub open spec fn source_description(after_zips: bool) -> Seq<char> {
    let base = "Fields need source.fileObject.@id and source.extract.column so consumers know which file and column each field comes from. The column name is taken from each field's name."@;
    if after_zips {
        base + " Apply 'Add inner FileObject' fixes first, then paste the resulting @id here."@
    } else {
        base
    }
}

/// The values that the user can change in the fix for fields without a source.
pub open spec fn source_editable_fields() -> Seq<JsonView> {
    seq![
        editable_field(
            "inner_file_id"@,
            "Inner file @id"@,
            "The @id of the cr:FileObject inside the archive (e.g. file_bindingdb_all_202606_tsv_zip_inner)"@,
        ),
    ]
}

/// What is proposed for the fields of a record set that have no source.
pub open spec fn source_suggestion(
    id: i64,
    index: nat,
    rs_id: Seq<char>,
    count: nat,
    after_zips: bool,
) -> JsonView {
    JsonView::Object(
        map![
            "id"@ => JsonView::Text("missing_source:rs:"@ + decimal(index)),
            "issue_id"@ => JsonView::Number(signed_decimal(id as int)),
            "issue_type"@ => JsonView::Text("missing_field_source"@),
            "severity"@ => JsonView::Text("error"@),
            "title"@ => JsonView::Text("Add source to "@ + decimal(count) + " fields in '"@ + rs_id + "'"@),
            "description"@ => JsonView::Text(source_description(after_zips)),
            "fix_type"@ => JsonView::Text("add_field_sources"@),
            "params"@ => JsonView::Object(
                map![
                    "rs_index"@ => JsonView::Number(decimal(index)),
                    "inner_file_id"@ => JsonView::Text(""@),
                ],
            ),
            "editable_fields"@ => JsonView::Array(source_editable_fields()),
            "preview"@ => JsonView::Object(
                map![
                    "source"@ => field_source(
                        "(enter inner file @id above)"@,
                        "(taken from field.name per field)"@,
                    ),
                ],
            ),
        ],
    )
}

/// What is proposed for the fields of a record set that have no source.
fn make_source_suggestion(id: i64, index: usize, rs_id: &str, count: usize, after_zips: bool) -> (r: Json)
    ensures
        r@ == source_suggestion(id, index as nat, rs_id@, count as nat, after_zips),
{
    let number = to_decimal(index as u64);
    let mut title = concat3("Add source to ", to_decimal(count as u64).as_str(), " fields in '");
    title.append(rs_id);
    title.append("'");
    let mut description = "Fields need source.fileObject.@id and source.extract.column so consumers know which file and column each field comes from. The column name is taken from each field's name.".to_string();
    if after_zips {
        description.append(" Apply 'Add inner FileObject' fixes first, then paste the resulting @id here.");
    }
    let p = with_member(Vec::new(), "rs_index", natural(index as u64));
    let p = with_member(p, "inner_file_id", text(""));
    let e = with_item(
        Vec::new(),
        make_editable(
            "inner_file_id",
            "Inner file @id",
            "The @id of the cr:FileObject inside the archive (e.g. file_bindingdb_all_202606_tsv_zip_inner)",
        ),
    );
    assert(items_view(e@) =~= source_editable_fields());
    let preview = with_member(
        Vec::new(),
        "source",
        make_field_source("(enter inner file @id above)", "(taken from field.name per field)"),
    );
    let m = with_member(Vec::new(), "id", text(concat2("missing_source:rs:", number.as_str()).as_str()));
    let m = with_member(m, "issue_id", integer(id));
    let m = with_member(m, "issue_type", text("missing_field_source"));
    let m = with_member(m, "severity", text("error"));
    let m = with_member(m, "title", text(title.as_str()));
    let m = with_member(m, "description", text(description.as_str()));
    let m = with_member(m, "fix_type", text("add_field_sources"));
    let m = with_member(m, "params", Json::Object(p));
    let m = with_member(m, "editable_fields", Json::Array(e));
    let m = with_member(m, "preview", Json::Object(preview));
    Json::Object(m)
}

/// The issues of one type.
pub open spec fn of_type(issues: Seq<IssueRowView>, issue_type: Seq<char>) -> Seq<IssueRowView> {
    issues.filter(|i: IssueRowView| i.issue_type == issue_type)
}

/// The indices in the paths of the issues, where there is one.
pub open spec fn indices_of(issues: Seq<IssueRowView>) -> Seq<JsonView>
    decreases issues.len(),
{
    if issues.len() == 0 {
        Seq::empty()
    } else {
        match bracket_index(issues.last().path) {
            Some(i) => indices_of(issues.drop_last()).push(JsonView::Number(decimal(i))),
            None => indices_of(issues.drop_last()),
        }
    }
}

/// An issue as the preview of a proposal shows it.
pub open spec fn issue_preview(i: IssueRowView) -> JsonView {
    JsonView::Object(map!["path"@ => JsonView::Text(i.path), "value"@ => JsonView::Text(i.value)])
}

/// What is proposed for record sets that hold rows as `data`: one proposal for all.
pub open spec fn inline_suggestion(issues: Seq<IssueRowView>) -> JsonView {
    JsonView::Object(
        map![
            "id"@ => JsonView::Text("inline_data_rows:all"@),
            "issue_type"@ => JsonView::Text("inline_data_rows"@),
            "severity"@ => JsonView::Text("warning"@),
            "title"@ => JsonView::Text("Rename `data` → `examples` in "@ + decimal(issues.len()) + " recordSet(s)"@),
            "description"@ => JsonView::Text("These recordSets use `data` for sample rows, but the dataset has external files. In Croissant 1.1, `data` means the recordSet is fully self-contained — illustrative rows belong in `examples`."@),
            "fix_type"@ => JsonView::Text("rename_data_to_examples"@),
            "params"@ => JsonView::Object(map!["rs_indices"@ => JsonView::Array(indices_of(issues))]),
            "editable_fields"@ => JsonView::Array(Seq::empty()),
            "preview"@ => JsonView::Array(issues.map_values(|i: IssueRowView| issue_preview(i))),
        ],
    )
}

/// The proposals for archives.
pub open spec fn zip_suggestions(metadata: JsonView, issues: Seq<IssueRowView>) -> Seq<JsonView>
    decreases issues.len(),
{
    if issues.len() == 0 {
        Seq::empty()
    } else {
        let before = zip_suggestions(metadata, issues.drop_last());
        let i = issues.last();
        match bracket_index(i.path) {
            Some(n) => before.push(
                zip_suggestion(i.id, n, id_in(list_at(metadata, "distribution"@), n), i.value),
            ),
            None => before,
        }
    }
}

/// The proposals for fields without a source.
pub open spec fn source_suggestions(metadata: JsonView, issues: Seq<IssueRowView>, after_zips: bool) -> Seq<JsonView>
    decreases issues.len(),
{
    if issues.len() == 0 {
        Seq::empty()
    } else {
        let before = source_suggestions(metadata, issues.drop_last(), after_zips);
        let i = issues.last();
        let record_sets = list_at(metadata, "recordSet"@);
        match bracket_index(i.path) {
            Some(n) => before.push(
                source_suggestion(i.id, n, id_in(record_sets, n), sourceless_in(record_sets, n), after_zips),
            ),
            None => before,
        }
    }
}

/// All proposals: archives first, since fields refer to the files in them, then fields
/// without a source, then inline rows.
pub open spec fn suggestions_of(metadata: JsonView, issues: Seq<IssueRowView>) -> Seq<JsonView> {
    let zips = of_type(issues, "zip_without_inner_file"@);
    let sources = of_type(issues, "missing_field_source"@);
    let inline = of_type(issues, "inline_data_rows"@);
    zip_suggestions(metadata, zips) + source_suggestions(metadata, sources, zips.len() > 0) + (if inline.len()
        > 0 {
        seq![inline_suggestion(inline)]
    } else {
        Seq::empty()
    })
}

/// Whether proposals are made for issues of this type.
pub open spec fn is_fixable(issue_type: Seq<char>) -> bool {
    ||| issue_type == "zip_without_inner_file"@
    ||| issue_type == "missing_field_source"@
    ||| issue_type == "inline_data_rows"@
}

/// Whether the paths of all issues that proposals are made for can be read.
pub open spec fn paths_readable(issues: Seq<IssueRowView>) -> bool {
    forall|i: int|
        0 <= i < issues.len() && is_fixable((#[trigger] issues[i]).issue_type) ==> brackets_in_order(issues[i].path)
}

/// Whether the paths of all issues that proposals are made for can be read.
pub fn issues_readable(issues: &Vec<IssueRow>) -> (r: bool)
    ensures
        r == paths_readable(issue_views(issues@)),
{
    let ghost iv = issue_views(issues@);
    for i in 0..issues.len()
        invariant
            iv == issue_views(issues@),
            forall|j: int|
                0 <= j < i && is_fixable((#[trigger] iv[j]).issue_type) ==> brackets_in_order(iv[j].path),
    {
        let t = issues[i].issue_type.as_str();
        assert(iv[i as int] == issues@[i as int]@);
        if (same(t, "zip_without_inner_file") || same(t, "missing_field_source") || same(t, "inline_data_rows"))
            && !has_brackets_in_order(issues[i].path.as_str()) {
            return false;
        }
    }
    true
}

/// The positions of the issues of one type.
fn find_type(issues: &Vec<IssueRow>, issue_type: &str) -> (r: Vec<usize>)
    ensures
        forall|i: int| 0 <= i < r@.len() ==> (#[trigger] r@[i]) < issues@.len(),
        forall|i: int| 0 <= i < r@.len() ==> issues@[(#[trigger] r@[i]) as int].issue_type@ == issue_type@,
        of_type(issue_views(issues@), issue_type@) == r@.map_values(|p: usize| issues@[p as int]@),
{
    let ghost iv = issue_views(issues@);
    let mut r: Vec<usize> = Vec::new();
    proof {
        reveal(Seq::filter);
        assert(of_type(iv.take(0), issue_type@) =~= r@.map_values(|p: usize| issues@[p as int]@));
    }
    for i in 0..issues.len()
        invariant
            iv == issue_views(issues@),
            forall|j: int| 0 <= j < r@.len() ==> (#[trigger] r@[j]) < issues@.len(),
            forall|j: int| 0 <= j < r@.len() ==> issues@[(#[trigger] r@[j]) as int].issue_type@ == issue_type@,
            of_type(iv.take(i as int), issue_type@) == r@.map_values(|p: usize| issues@[p as int]@),
    {
        let ghost before = r@.map_values(|p: usize| issues@[p as int]@);
        proof {
            reveal(Seq::filter);
            assert(iv.take(i + 1).drop_last() =~= iv.take(i as int));
            assert(iv.take(i + 1).last() == issues@[i as int]@);
        }
        if same(issues[i].issue_type.as_str(), issue_type) {
            r.push(i);
            assert(r@.map_values(|p: usize| issues@[p as int]@) =~= before.push(issues@[i as int]@));
        }
    }
    assert(iv.take(iv.len() as int) =~= iv);
    r
}

/// The `@id` of an item.
fn find_id(items: Option<&Vec<Json>>, i: usize) -> (r: String)
    ensures
        r@ == id_in(
            match items {
                Some(s) => items_view(s@),
                None => Seq::empty(),
            },
            i as nat,
        ),
{
    match items {
        Some(s) => {
            proof {
                lemma_items_view(s@);
            }
            if i < s.len() {
                s[i].text_or("@id", "?")
            } else {
                "?".to_string()
            }
        },
        None => "?".to_string(),
    }
}

/// How many fields of a record set do not say where they come from.
fn count_sourceless(record_sets: Option<&Vec<Json>>, i: usize) -> (r: usize)
    ensures
        r == sourceless_in(
            match record_sets {
                Some(s) => items_view(s@),
                None => Seq::empty(),
            },
            i as nat,
        ),
{
    let sets = match record_sets {
        Some(s) => s,
        None => {
            return 0;
        },
    };
    proof {
        lemma_items_view(sets@);
    }
    if i >= sets.len() {
        return 0;
    }
    let fields = match sets[i].items_at("field") {
        Some(f) => f,
        None => {
            assert(list_at(sets@[i as int]@, "field"@) =~= Seq::empty());
            return 0;
        },
    };
    let ghost all = items_view(fields@);
    let mut n: usize = 0;
    proof {
        lemma_items_view(fields@);
    }
    for k in 0..fields.len()
        invariant
            all == items_view(fields@),
            all.len() == fields@.len(),
            forall|j: int| 0 <= j < all.len() ==> #[trigger] all[j] == fields@[j]@,
            n <= k,
            n == sourceless(all.take(k as int)),
    {
        assert(all.take(k + 1).drop_last() =~= all.take(k as int));
        assert(all.take(k + 1).last() == fields@[k as int]@);
        if fields[k].get("source").is_none() {
            n = n + 1;
        }
    }
    assert(all.take(all.len() as int) =~= all);
    n
}

/// The proposal for inline rows.
fn make_inline_suggestion(issues: &Vec<IssueRow>, rows: &Vec<usize>) -> (r: Json)
    requires
        forall|i: int| 0 <= i < rows@.len() ==> (#[trigger] rows@[i]) < issues@.len(),
        forall|i: int|
            0 <= i < rows@.len() ==> brackets_in_order(issues@[(#[trigger] rows@[i]) as int].path@),
    ensures
        r@ == inline_suggestion(rows@.map_values(|p: usize| issues@[p as int]@)),
{
    let ghost all = rows@.map_values(|p: usize| issues@[p as int]@);
    let ghost shown = all.map_values(|i: IssueRowView| issue_preview(i));
    let mut indices: Vec<Json> = Vec::new();
    let mut previews: Vec<Json> = Vec::new();
    assert(items_view(indices@) =~= indices_of(all.take(0)));
    assert(items_view(previews@) =~= shown.take(0));
    for k in 0..rows.len()
        invariant
            all == rows@.map_values(|p: usize| issues@[p as int]@),
            shown == all.map_values(|i: IssueRowView| issue_preview(i)),
            forall|i: int| 0 <= i < rows@.len() ==> (#[trigger] rows@[i]) < issues@.len(),
            forall|i: int|
                0 <= i < rows@.len() ==> brackets_in_order(issues@[(#[trigger] rows@[i]) as int].path@),
            items_view(indices@) == indices_of(all.take(k as int)),
            items_view(previews@) == shown.take(k as int),
    {
        let row: usize = rows[k];
        let issue = &issues[row];
        assert(all.take(k + 1).drop_last() =~= all.take(k as int));
        assert(all.take(k + 1).last() == issue@);
        assert(shown.take(k + 1) =~= shown.take(k as int).push(issue_preview(issue@)));
        if let Some(n) = parse_bracket_index(issue.path.as_str()) {
            let j = natural(n as u64);
            indices = with_item(indices, j);
        }
        let p = with_member(Vec::new(), "path", text(issue.path.as_str()));
        let p = with_member(p, "value", text(issue.value.as_str()));
        previews = with_item(previews, Json::Object(p));
    }
    assert(all.take(all.len() as int) =~= all);
    assert(shown.take(shown.len() as int) =~= shown);
    let title = concat3(
        "Rename `data` → `examples` in ",
        to_decimal(rows.len() as u64).as_str(),
        " recordSet(s)",
    );
    let p = with_member(Vec::new(), "rs_indices", Json::Array(indices));
    let none: Vec<Json> = Vec::new();
    assert(items_view(none@) =~= Seq::empty());
    let m = with_member(Vec::new(), "id", text("inline_data_rows:all"));
    let m = with_member(m, "issue_type", text("inline_data_rows"));
    let m = with_member(m, "severity", text("warning"));
    let m = with_member(m, "title", text(title.as_str()));
    let m = with_member(
        m,
        "description",
        text(
            "These recordSets use `data` for sample rows, but the dataset has external files. In Croissant 1.1, `data` means the recordSet is fully self-contained — illustrative rows belong in `examples`.",
        ),
    );
    let m = with_member(m, "fix_type", text("rename_data_to_examples"));
    let m = with_member(m, "params", Json::Object(p));
    let m = with_member(m, "editable_fields", Json::Array(none));
    let m = with_member(m, "preview", Json::Array(previews));
    Json::Object(m)
}

/// The proposals for the issues of a document.
pub fn generate_fix_suggestions(metadata: &Json, issues: &Vec<IssueRow>) -> (r: Vec<Json>)
    requires
        paths_readable(issue_views(issues@)),
    ensures
        items_view(r@) == suggestions_of(metadata@, issue_views(issues@)),
{
    let ghost iv = issue_views(issues@);
    proof {
        assert forall|p: int| 0 <= p < issues@.len() && is_fixable(#[trigger] issues@[p].issue_type@) implies brackets_in_order(
            issues@[p].path@,
        ) by {
            assert(iv[p] == issues@[p]@);
        }
    }
    let zips = find_type(issues, "zip_without_inner_file");
    let ghost zv = zips@.map_values(|p: usize| issues@[p as int]@);
    let mut r: Vec<Json> = Vec::new();
    let dists = metadata.items_at("distribution");
    let ghost first = zip_suggestions(metadata@, zv);
    assert(items_view(r@) =~= zip_suggestions(metadata@, zv.take(0)));
    for k in 0..zips.len()
        invariant
            zv == zips@.map_values(|p: usize| issues@[p as int]@),
            forall|i: int| 0 <= i < zips@.len() ==> (#[trigger] zips@[i]) < issues@.len(),
            forall|i: int|
                0 <= i < zips@.len() ==> issues@[(#[trigger] zips@[i]) as int].issue_type@ == "zip_without_inner_file"@,
            forall|p: int|
                0 <= p < issues@.len() && is_fixable(#[trigger] issues@[p].issue_type@) ==> brackets_in_order(
                    issues@[p].path@,
                ),
            list_at(metadata@, "distribution"@) == (match dists {
                Some(s) => items_view(s@),
                None => Seq::empty(),
            }),
            items_view(r@) == zip_suggestions(metadata@, zv.take(k as int)),
    {
        let row: usize = zips[k];
        let issue = &issues[row];
        assert(zv.take(k + 1).drop_last() =~= zv.take(k as int));
        assert(zv.take(k + 1).last() == issue@);
        assert(is_fixable(issues@[row as int].issue_type@));
        if let Some(n) = parse_bracket_index(issue.path.as_str()) {
            let zip_id = find_id(dists, n);
            r = with_item(r, make_zip_suggestion(issue.id, n, zip_id.as_str(), issue.value.as_str()));
        }
    }
    assert(zv.take(zv.len() as int) =~= zv);
    let sources = find_type(issues, "missing_field_source");
    let ghost sv = sources@.map_values(|p: usize| issues@[p as int]@);
    let record_sets = metadata.items_at("recordSet");
    let after_zips = zips.len() > 0;
    assert(items_view(r@) =~= first + source_suggestions(metadata@, sv.take(0), after_zips));
    for k in 0..sources.len()
        invariant
            sv == sources@.map_values(|p: usize| issues@[p as int]@),
            forall|i: int| 0 <= i < sources@.len() ==> (#[trigger] sources@[i]) < issues@.len(),
            forall|i: int|
                0 <= i < sources@.len() ==> issues@[(#[trigger] sources@[i]) as int].issue_type@
                    == "missing_field_source"@,
            forall|p: int|
                0 <= p < issues@.len() && is_fixable(#[trigger] issues@[p].issue_type@) ==> brackets_in_order(
                    issues@[p].path@,
                ),
            list_at(metadata@, "recordSet"@) == (match record_sets {
                Some(s) => items_view(s@),
                None => Seq::empty(),
            }),
            items_view(r@) == first + source_suggestions(metadata@, sv.take(k as int), after_zips),
    {
        let row: usize = sources[k];
        let issue = &issues[row];
        assert(sv.take(k + 1).drop_last() =~= sv.take(k as int));
        assert(sv.take(k + 1).last() == issue@);
        assert(is_fixable(issues@[row as int].issue_type@));
        let ghost before = items_view(r@);
        if let Some(n) = parse_bracket_index(issue.path.as_str()) {
            let rs_id = find_id(record_sets, n);
            let count = count_sourceless(record_sets, n);
            let made = make_source_suggestion(issue.id, n, rs_id.as_str(), count, after_zips);
            let ghost s = made@;
            r = with_item(r, made);
            assert(before.push(s) =~= first + source_suggestions(metadata@, sv.take(k as int), after_zips).push(s));
        }
    }
    assert(sv.take(sv.len() as int) =~= sv);
    let inline = find_type(issues, "inline_data_rows");
    let ghost before = items_view(r@);
    if inline.len() > 0 {
        proof {
            assert forall|i: int| 0 <= i < inline@.len() implies brackets_in_order(
                issues@[(#[trigger] inline@[i]) as int].path@,
            ) by {
                assert(is_fixable(issues@[inline@[i] as int].issue_type@));
            }
        }
        let made = make_inline_suggestion(issues, &inline);
        let ghost s = made@;
        r = with_item(r, made);
        assert(before.push(s) =~= before + seq![s]);
    } else {
        assert(before =~= before + Seq::<JsonView>::empty());
    }
    r
}

/// Whether `e` is one of the endings by which a packed file is known.
pub open spec fn is_packing(e: Seq<char>) -> bool {
    seq![".zip"@, ".tar.gz"@, ".tgz"@, ".gz"@].contains(e)
}

/// Whether `e` is one of the endings that say what a file holds.
pub open spec fn is_file_ending(e: Seq<char>) -> bool {
    seq![".tsv"@, ".csv"@, ".json"@, ".jsonl"@].contains(e)
}

/// The characters of the endings.
proof fn lemma_endings()
    ensures
        ".zip"@ == seq!['.', 'z', 'i', 'p'],
        ".tar.gz"@ == seq!['.', 't', 'a', 'r', '.', 'g', 'z'],
        ".tgz"@ == seq!['.', 't', 'g', 'z'],
        ".gz"@ == seq!['.', 'g', 'z'],
        ".tsv"@ == seq!['.', 't', 's', 'v'],
        ".csv"@ == seq!['.', 'c', 's', 'v'],
        ".json"@ == seq!['.', 'j', 's', 'o', 'n'],
        ".jsonl"@ == seq!['.', 'j', 's', 'o', 'n', 'l'],
        ".ndjson"@ == seq!['.', 'n', 'd', 'j', 's', 'o', 'n'],
        "_tsv"@ == seq!['_', 't', 's', 'v'],
        "_csv"@ == seq!['_', 'c', 's', 'v'],
        "_json"@ == seq!['_', 'j', 's', 'o', 'n'],
        "_jsonl"@ == seq!['_', 'j', 's', 'o', 'n', 'l'],
        "_ndjson"@ == seq!['_', 'n', 'd', 'j', 's', 'o', 'n'],
{
    reveal_strlit(".zip");
    reveal_strlit(".tar.gz");
    reveal_strlit(".tgz");
    reveal_strlit(".gz");
    reveal_strlit(".tsv");
    reveal_strlit(".csv");
    reveal_strlit(".json");
    reveal_strlit(".jsonl");
    reveal_strlit(".ndjson");
    reveal_strlit("_tsv");
    reveal_strlit("_csv");
    reveal_strlit("_json");
    reveal_strlit("_jsonl");
    reveal_strlit("_ndjson");
    assert(".zip"@ =~= seq!['.', 'z', 'i', 'p']);
    assert(".tar.gz"@ =~= seq!['.', 't', 'a', 'r', '.', 'g', 'z']);
    assert(".tgz"@ =~= seq!['.', 't', 'g', 'z']);
    assert(".gz"@ =~= seq!['.', 'g', 'z']);
    assert(".tsv"@ =~= seq!['.', 't', 's', 'v']);
    assert(".csv"@ =~= seq!['.', 'c', 's', 'v']);
    assert(".json"@ =~= seq!['.', 'j', 's', 'o', 'n']);
    assert(".jsonl"@ =~= seq!['.', 'j', 's', 'o', 'n', 'l']);
    assert(".ndjson"@ =~= seq!['.', 'n', 'd', 'j', 's', 'o', 'n']);
    assert("_tsv"@ =~= seq!['_', 't', 's', 'v']);
    assert("_csv"@ =~= seq!['_', 'c', 's', 'v']);
    assert("_json"@ =~= seq!['_', 'j', 's', 'o', 'n']);
    assert("_jsonl"@ =~= seq!['_', 'j', 's', 'o', 'n', 'l']);
    assert("_ndjson"@ =~= seq!['_', 'n', 'd', 'j', 's', 'o', 'n']);
}

/// Which endings a text has is told by its last characters.
proof fn lemma_suffix(s: Seq<char>, e: Seq<char>)
    ensures
        e.is_suffix_of(s) == (s.len() >= e.len() && forall|i: int|
            0 <= i < e.len() ==> #[trigger] e[i] == s[s.len() - e.len() + i]),
{
    if e.is_suffix_of(s) {
        let t = s.subrange(s.len() - e.len(), s.len() as int);
        assert forall|i: int| 0 <= i < e.len() implies #[trigger] e[i] == s[s.len() - e.len() + i] by {
            assert(t[i] == s[s.len() - e.len() + i]);
        }
    } else if s.len() >= e.len() && forall|i: int|
        0 <= i < e.len() ==> #[trigger] e[i] == s[s.len() - e.len() + i] {
        assert(s.subrange(s.len() - e.len(), s.len() as int) =~= e);
    }
}

/// The name of a packed file without its packing, where that does not end in `.tar`.
#[verifier::rlimit(40)]
proof fn lemma_unpacked(base: Seq<char>, packing: Seq<char>)
    requires
        is_packing(packing),
        packing == ".gz"@ ==> !(base.len() >= 4 && base[base.len() - 4] == '.' && base[base.len() - 3] == 't'
            && base[base.len() - 2] == 'a' && base[base.len() - 1] == 'r'),
    ensures
        unpacked_name(base + packing) == base,
{
    lemma_endings();
    let s = base + packing;
    let n = s.len() as int;
    let b = base.len() as int;
    let list = seq![".zip"@, ".tar.gz"@, ".tgz"@, ".gz"@];
    let i = choose|i: int| 0 <= i < list.len() && list[i] == packing;
    assert(packing == ".zip"@ || packing == ".tar.gz"@ || packing == ".tgz"@ || packing == ".gz"@);
    assert forall|k: int| 0 <= k < packing.len() implies s[b + k] == packing[k] by {}
    lemma_suffix(s, ".zip"@);
    lemma_suffix(s, ".tar.gz"@);
    lemma_suffix(s, ".tgz"@);
    lemma_suffix(s, ".gz"@);
    assert(s.take(n - packing.len()) =~= base);
    if packing == ".zip"@ {
        assert(".zip"@.is_suffix_of(s));
    } else {
        assert(s[n - 1] == 'z');
        assert(!".zip"@.is_suffix_of(s)) by {
            assert(".zip"@[3] == 'p');
        }
        if packing == ".tar.gz"@ {
            assert(".tar.gz"@.is_suffix_of(s));
        } else {
            assert(!".tar.gz"@.is_suffix_of(s)) by {
                if ".tar.gz"@.is_suffix_of(s) {
                    assert(".tar.gz"@[0] == s[n - 7] && ".tar.gz"@[1] == s[n - 6] && ".tar.gz"@[2] == s[n - 5]
                        && ".tar.gz"@[3] == s[n - 4] && ".tar.gz"@[4] == s[n - 3]);
                    if packing == ".tgz"@ {
                        assert(s[n - 3] == 't');
                    } else {
                        assert(s[n - 4] == base[b - 1] && s[n - 5] == base[b - 2] && s[n - 6] == base[b - 3] && s[n - 7]
                            == base[b - 4]);
                    }
                }
            }
            if packing == ".tgz"@ {
                assert(".tgz"@.is_suffix_of(s));
            } else {
                assert(!".tgz"@.is_suffix_of(s)) by {
                    if ".tgz"@.is_suffix_of(s) {
                        assert(".tgz"@[1] == s[n - 3]);
                        assert(s[n - 3] == '.');
                    }
                }
                assert(".gz"@.is_suffix_of(s));
            }
        }
    }
}

/// No text has both an ending with a dot and without an underscore, and one that begins
/// with an underscore and has no dot.
proof fn lemma_no_underscore(s: Seq<char>, a: Seq<char>, b: Seq<char>)
    requires
        a.is_suffix_of(s),
        a.len() > 0 && a[0] == '.' && forall|i: int| 0 <= i < a.len() ==> a[i] != '_',
        b.len() > 0 && b[0] == '_' && forall|i: int| 0 <= i < b.len() ==> b[i] != '.',
    ensures
        !b.is_suffix_of(s),
{
    lemma_suffix(s, a);
    lemma_suffix(s, b);
    let n = s.len() as int;
    if b.is_suffix_of(s) {
        assert(a[0] == s[n - a.len()]);
        assert(b[0] == s[n - b.len()]);
        if a.len() >= b.len() {
            assert(a[a.len() - b.len()] == s[n - a.len() + (a.len() - b.len())]);
        } else {
            assert(b[b.len() - a.len()] == s[n - b.len() + (b.len() - a.len())]);
        }
    }
}

/// A known ending stays.
proof fn lemma_dotted_ending(name: Seq<char>, ending: Seq<char>)
    requires
        is_file_ending(ending),
    ensures
        file_name_in(name + ending) == name + ending,
{
    let s = name + ending;
    let n = s.len() as int;
    lemma_ending_chars(ending);
    assert(s.subrange(n - ending.len(), n) =~= ending);
    assert(ending.is_suffix_of(s));
    lemma_underscore_chars();
    lemma_no_underscore(s, ending, "_tsv"@);
    lemma_no_underscore(s, ending, "_csv"@);
    lemma_no_underscore(s, ending, "_json"@);
    lemma_no_underscore(s, ending, "_jsonl"@);
    lemma_no_underscore(s, ending, "_ndjson"@);
}

proof fn lemma_ending_chars(ending: Seq<char>)
    requires
        is_file_ending(ending),
    ensures
        ending == ".tsv"@ || ending == ".csv"@ || ending == ".json"@ || ending == ".jsonl"@,
        ending.len() > 0 && ending[0] == '.',
        forall|i: int| 0 <= i < ending.len() ==> ending[i] != '_' && ending[i] != '/',
        ending.last() == 'v' || ending.last() == 'n' || ending.last() == 'l',
{
    lemma_endings();
    let ends = seq![".tsv"@, ".csv"@, ".json"@, ".jsonl"@];
    let i = choose|i: int| 0 <= i < ends.len() && ends[i] == ending;
    assert(ending == ".tsv"@ || ending == ".csv"@ || ending == ".json"@ || ending == ".jsonl"@);
}

proof fn lemma_underscore_chars()
    ensures
        "_tsv"@.len() > 0 && "_tsv"@[0] == '_' && forall|i: int| 0 <= i < "_tsv"@.len() ==> "_tsv"@[i] != '.',
        "_csv"@.len() > 0 && "_csv"@[0] == '_' && forall|i: int| 0 <= i < "_csv"@.len() ==> "_csv"@[i] != '.',
        "_json"@.len() > 0 && "_json"@[0] == '_' && forall|i: int| 0 <= i < "_json"@.len() ==> "_json"@[i] != '.',
        "_jsonl"@.len() > 0 && "_jsonl"@[0] == '_' && forall|i: int| 0 <= i < "_jsonl"@.len() ==> "_jsonl"@[i] != '.',
        "_ndjson"@.len() > 0 && "_ndjson"@[0] == '_' && forall|i: int|
            0 <= i < "_ndjson"@.len() ==> "_ndjson"@[i] != '.',
{
    lemma_endings();
}

/// The file in an archive is named like the archive without its packing: an ending that
/// says what the file holds stays as it is, and nothing is added.
pub proof fn law_known_ending_stays(
    directory: Seq<char>,
    name: Seq<char>,
    ending: Seq<char>,
    packing: Seq<char>,
)
    requires
        !name.contains('/'),
        is_file_ending(ending),
        is_packing(packing),
    ensures
        inner_filename_of(directory + seq!['/'] + name + ending + packing) == name + ending,
        inner_filename_of(name + ending + packing) == name + ending,
        inner_filename_of(directory + seq!['/'] + name + ending) == name + ending,
{
    let base = name + ending;
    let s = base + packing;
    lemma_ending_chars(ending);
    lemma_packing_chars(packing);
    assert(base.last() == ending.last());
    lemma_no_slash(name, ending, packing);
    law_cut_at(directory, '/', s);
    law_cut_at(s, '/', Seq::empty());
    law_cut_at(directory, '/', base);
    assert(directory + seq!['/'] + name + ending + packing =~= directory + seq!['/'] + s);
    assert(directory + seq!['/'] + name + ending =~= directory + seq!['/'] + base);
    lemma_unpacked(base, packing);
    lemma_dotted_ending(name, ending);
    lemma_not_packed(base);
}

/// A name that ends in neither `p` nor `z` is not that of a packed file.
proof fn lemma_not_packed(base: Seq<char>)
    requires
        base.len() > 0,
        base.last() != 'p' && base.last() != 'z',
    ensures
        unpacked_name(base) == base,
{
    lemma_endings();
    lemma_suffix(base, ".zip"@);
    lemma_suffix(base, ".tar.gz"@);
    lemma_suffix(base, ".tgz"@);
    lemma_suffix(base, ".gz"@);
    assert(".zip"@[3] == 'p' && ".tar.gz"@[6] == 'z' && ".tgz"@[3] == 'z' && ".gz"@[2] == 'z');
}

proof fn lemma_no_slash(name: Seq<char>, ending: Seq<char>, packing: Seq<char>)
    requires
        !name.contains('/'),
        forall|i: int| 0 <= i < ending.len() ==> ending[i] != '/',
        forall|i: int| 0 <= i < packing.len() ==> packing[i] != '/',
    ensures
        !(name + ending).contains('/'),
        !(name + ending + packing).contains('/'),
{
    let s = name + ending + packing;
    if s.contains('/') {
        let i = choose|i: int| 0 <= i < s.len() && s[i] == '/';
        if i < name.len() {
            assert(name[i] == '/');
        } else if i < name.len() + ending.len() {
            assert(ending[i - name.len()] == '/');
        } else {
            assert(packing[i - name.len() - ending.len()] == '/');
        }
    }
    let t = name + ending;
    if t.contains('/') {
        let i = choose|i: int| 0 <= i < t.len() && t[i] == '/';
        if i < name.len() {
            assert(name[i] == '/');
        } else {
            assert(ending[i - name.len()] == '/');
        }
    }
}

/// An ending such as `_tsv` before the packing becomes `.tsv`.
pub proof fn law_underscore_becomes_dot(directory: Seq<char>, name: Seq<char>, kind: Seq<char>, packing: Seq<char>)
    requires
        !name.contains('/'),
        seq!["tsv"@, "csv"@, "json"@, "jsonl"@, "ndjson"@].contains(kind),
        is_packing(packing),
    ensures
        inner_filename_of(directory + seq!['/'] + name + seq!['_'] + kind + packing) == name + seq!['.'] + kind,
        inner_filename_of(directory + seq!['/'] + name + seq!['_'] + kind) == name + seq!['.'] + kind,
{
    let ending = seq!['_'] + kind;
    let base = name + ending;
    let s = base + packing;
    lemma_kind_chars(kind);
    lemma_packing_chars(packing);
    assert(base.last() == kind.last());
    lemma_no_slash(name, ending, packing);
    law_cut_at(directory, '/', s);
    assert(directory + seq!['/'] + name + seq!['_'] + kind + packing =~= directory + seq!['/'] + s);
    law_cut_at(directory, '/', base);
    assert(directory + seq!['/'] + name + seq!['_'] + kind =~= directory + seq!['/'] + base);
    lemma_unpacked(base, packing);
    lemma_not_packed(base);
    lemma_underscored(name, kind);
}

proof fn lemma_kind_chars(kind: Seq<char>)
    requires
        seq!["tsv"@, "csv"@, "json"@, "jsonl"@, "ndjson"@].contains(kind),
    ensures
        kind == "tsv"@ || kind == "csv"@ || kind == "json"@ || kind == "jsonl"@ || kind == "ndjson"@,
        kind.len() > 0 && kind.last() != 'r' && kind.last() != 'p' && kind.last() != 'z',
        forall|k: int| 0 <= k < kind.len() ==> kind[k] != '/',
{
    lemma_kinds();
    let kinds = seq!["tsv"@, "csv"@, "json"@, "jsonl"@, "ndjson"@];
    let i = choose|i: int| 0 <= i < kinds.len() && kinds[i] == kind;
    assert(kind == "tsv"@ || kind == "csv"@ || kind == "json"@ || kind == "jsonl"@ || kind == "ndjson"@);
}

proof fn lemma_packing_chars(packing: Seq<char>)
    requires
        is_packing(packing),
    ensures
        forall|k: int| 0 <= k < packing.len() ==> packing[k] != '/',
{
    lemma_endings();
    let packs = seq![".zip"@, ".tar.gz"@, ".tgz"@, ".gz"@];
    let j = choose|j: int| 0 <= j < packs.len() && packs[j] == packing;
    assert(packing == ".zip"@ || packing == ".tar.gz"@ || packing == ".tgz"@ || packing == ".gz"@);
}

/// Two endings that begin with their only underscore are the same if a text has both.
proof fn lemma_one_underscore(s: Seq<char>, a: Seq<char>, b: Seq<char>)
    requires
        a.is_suffix_of(s),
        b.is_suffix_of(s),
        a.len() > 0 && a[0] == '_' && forall|i: int| 0 < i < a.len() ==> a[i] != '_',
        b.len() > 0 && b[0] == '_' && forall|i: int| 0 < i < b.len() ==> b[i] != '_',
    ensures
        a == b,
{
    lemma_suffix(s, a);
    lemma_suffix(s, b);
    let n = s.len() as int;
    assert(a[0] == s[n - a.len()]);
    assert(b[0] == s[n - b.len()]);
    if a.len() < b.len() {
        assert(b[b.len() - a.len()] == s[n - b.len() + (b.len() - a.len())]);
    } else if b.len() < a.len() {
        assert(a[a.len() - b.len()] == s[n - a.len() + (a.len() - b.len())]);
    } else {
        assert(a =~= b);
    }
}

proof fn lemma_underscored(name: Seq<char>, kind: Seq<char>)
    requires
        kind == "tsv"@ || kind == "csv"@ || kind == "json"@ || kind == "jsonl"@ || kind == "ndjson"@,
    ensures
        file_name_in(name + (seq!['_'] + kind)) == name + seq!['.'] + kind,
{
    let ending = seq!['_'] + kind;
    let base = name + ending;
    let n = base.len() as int;
    assert(base.subrange(n - ending.len(), n) =~= ending);
    assert(base.take(n - ending.len()) =~= name);
    assert(name + (seq!['.'] + kind) =~= name + seq!['.'] + kind);
    lemma_kinds();
    lemma_underscore_kinds(ending, base);
}

proof fn lemma_underscore_kinds(ending: Seq<char>, base: Seq<char>)
    requires
        ending.is_suffix_of(base),
        ending == "_tsv"@ || ending == "_csv"@ || ending == "_json"@ || ending == "_jsonl"@ || ending == "_ndjson"@,
    ensures
        "_tsv"@.is_suffix_of(base) == (ending == "_tsv"@),
        "_csv"@.is_suffix_of(base) == (ending == "_csv"@),
        "_json"@.is_suffix_of(base) == (ending == "_json"@),
        "_jsonl"@.is_suffix_of(base) == (ending == "_jsonl"@),
        "_ndjson"@.is_suffix_of(base) == (ending == "_ndjson"@),
        "_tsv"@ != "_csv"@ && "_tsv"@ != "_json"@ && "_tsv"@ != "_jsonl"@ && "_tsv"@ != "_ndjson"@,
        "_csv"@ != "_json"@ && "_csv"@ != "_jsonl"@ && "_csv"@ != "_ndjson"@,
        "_json"@ != "_jsonl"@ && "_json"@ != "_ndjson"@ && "_jsonl"@ != "_ndjson"@,
{
    lemma_endings();
    assert("_tsv"@.len() == 4 && "_csv"@.len() == 4 && "_json"@.len() == 5 && "_jsonl"@.len() == 6 && "_ndjson"@.len()
        == 7);
    assert("_tsv"@[1] == 't' && "_csv"@[1] == 'c');
    if "_tsv"@.is_suffix_of(base) {
        lemma_one_underscore(base, ending, "_tsv"@);
    }
    if "_csv"@.is_suffix_of(base) {
        lemma_one_underscore(base, ending, "_csv"@);
    }
    if "_json"@.is_suffix_of(base) {
        lemma_one_underscore(base, ending, "_json"@);
    }
    if "_jsonl"@.is_suffix_of(base) {
        lemma_one_underscore(base, ending, "_jsonl"@);
    }
    if "_ndjson"@.is_suffix_of(base) {
        lemma_one_underscore(base, ending, "_ndjson"@);
    }
}

proof fn lemma_kinds()
    ensures
        "tsv"@ == seq!['t', 's', 'v'],
        "csv"@ == seq!['c', 's', 'v'],
        "json"@ == seq!['j', 's', 'o', 'n'],
        "jsonl"@ == seq!['j', 's', 'o', 'n', 'l'],
        "ndjson"@ == seq!['n', 'd', 'j', 's', 'o', 'n'],
        "_tsv"@ == seq!['_'] + "tsv"@ && ".tsv"@ == seq!['.'] + "tsv"@,
        "_csv"@ == seq!['_'] + "csv"@ && ".csv"@ == seq!['.'] + "csv"@,
        "_json"@ == seq!['_'] + "json"@ && ".json"@ == seq!['.'] + "json"@,
        "_jsonl"@ == seq!['_'] + "jsonl"@ && ".jsonl"@ == seq!['.'] + "jsonl"@,
        "_ndjson"@ == seq!['_'] + "ndjson"@ && ".ndjson"@ == seq!['.'] + "ndjson"@,
{
    lemma_endings();
    reveal_strlit("tsv");
    reveal_strlit("csv");
    reveal_strlit("json");
    reveal_strlit("jsonl");
    reveal_strlit("ndjson");
    assert("tsv"@ =~= seq!['t', 's', 'v']);
    assert("csv"@ =~= seq!['c', 's', 'v']);
    assert("json"@ =~= seq!['j', 's', 'o', 'n']);
    assert("jsonl"@ =~= seq!['j', 's', 'o', 'n', 'l']);
    assert("ndjson"@ =~= seq!['n', 'd', 'j', 's', 'o', 'n']);
    assert("_tsv"@ =~= seq!['_'] + "tsv"@ && ".tsv"@ =~= seq!['.'] + "tsv"@);
    assert("_csv"@ =~= seq!['_'] + "csv"@ && ".csv"@ =~= seq!['.'] + "csv"@);
    assert("_json"@ =~= seq!['_'] + "json"@ && ".json"@ =~= seq!['.'] + "json"@);
    assert("_jsonl"@ =~= seq!['_'] + "jsonl"@ && ".jsonl"@ =~= seq!['.'] + "jsonl"@);
    assert("_ndjson"@ =~= seq!['_'] + "ndjson"@ && ".ndjson"@ =~= seq!['.'] + "ndjson"@);
}

/// A file of which the name of the archive does not say what it holds is taken to be
/// tab-separated.
pub proof fn law_unknown_file_is_tab_separated(directory: Seq<char>, name: Seq<char>, packing: Seq<char>)
    requires
        !name.contains('/'),
        is_packing(packing),
        !".tar"@.is_suffix_of(name),
        forall|e: Seq<char>| #[trigger] is_file_ending(e) ==> !e.is_suffix_of(name),
        !"_tsv"@.is_suffix_of(name) && !"_csv"@.is_suffix_of(name) && !"_json"@.is_suffix_of(name),
        !"_jsonl"@.is_suffix_of(name) && !"_ndjson"@.is_suffix_of(name),
    ensures
        inner_filename_of(directory + seq!['/'] + name + packing) == name + ".tsv"@,
        (forall|p: Seq<char>| #[trigger] is_packing(p) ==> !p.is_suffix_of(name)) ==> inner_filename_of(
            directory + seq!['/'] + name,
        ) == name + ".tsv"@,
{
    lemma_endings();
    reveal_strlit(".tar");
    lemma_suffix(name, ".tar"@);
    let n = name.len() as int;
    if n >= 4 && name[n - 4] == '.' && name[n - 3] == 't' && name[n - 2] == 'a' && name[n - 1] == 'r' {
        assert forall|i: int| 0 <= i < ".tar"@.len() implies #[trigger] ".tar"@[i] == name[n - ".tar"@.len() + i] by {}
    }
    let ends = seq![".tsv"@, ".csv"@, ".json"@, ".jsonl"@];
    assert(ends[0] == ".tsv"@ && ends[1] == ".csv"@ && ends[2] == ".json"@ && ends[3] == ".jsonl"@);
    assert(is_file_ending(".tsv"@) && is_file_ending(".csv"@) && is_file_ending(".json"@) && is_file_ending(
        ".jsonl"@,
    ));
    let packs = seq![".zip"@, ".tar.gz"@, ".tgz"@, ".gz"@];
    let j = choose|j: int| 0 <= j < packs.len() && packs[j] == packing;
    assert(packing == ".zip"@ || packing == ".tar.gz"@ || packing == ".tgz"@ || packing == ".gz"@);
    lemma_no_slash(name, Seq::empty(), packing);
    assert(name + Seq::<char>::empty() + packing =~= name + packing);
    law_cut_at(directory, '/', name + packing);
    assert(directory + seq!['/'] + name + packing =~= directory + seq!['/'] + (name + packing));
    lemma_unpacked(name, packing);
    law_cut_at(directory, '/', name);
    assert(packs[0] == ".zip"@ && packs[1] == ".tar.gz"@ && packs[2] == ".tgz"@ && packs[3] == ".gz"@);
    assert(is_packing(".zip"@) && is_packing(".tar.gz"@) && is_packing(".tgz"@) && is_packing(".gz"@));
}

/// The media type follows from the ending of a file name.
pub proof fn law_media_type(name: Seq<char>)
    ensures
        mime_of(name + ".tsv"@) == "text/tab-separated-values"@,
        mime_of(name + ".csv"@) == "text/csv"@,
        mime_of(name + ".json"@) == "application/json"@,
        mime_of(name + ".jsonl"@) == "application/jsonlines"@,
        mime_of(name + ".ndjson"@) == "application/jsonlines"@,
        name.len() > 0 && name.last() != 'v' && name.last() != 'n' && name.last() != 'l' ==> mime_of(name)
            == "application/octet-stream"@,
{
    lemma_endings();
    lemma_mime_endings(name, name);
    lemma_mime_endings(name, name + ".tsv"@);
    lemma_mime_endings(name, name + ".csv"@);
    lemma_mime_endings(name, name + ".json"@);
    lemma_mime_endings(name, name + ".jsonl"@);
    lemma_mime_endings(name, name + ".ndjson"@);
}

/// A file without a known ending has no particular media type.
pub proof fn law_unknown_media_type(name: Seq<char>)
    requires
        forall|e: Seq<char>| #[trigger] is_file_ending(e) ==> !e.is_suffix_of(name),
        !".ndjson"@.is_suffix_of(name),
    ensures
        mime_of(name) == "application/octet-stream"@,
{
    let ends = seq![".tsv"@, ".csv"@, ".json"@, ".jsonl"@];
    assert(ends[0] == ".tsv"@ && ends[1] == ".csv"@ && ends[2] == ".json"@ && ends[3] == ".jsonl"@);
    assert(is_file_ending(".tsv"@) && is_file_ending(".csv"@) && is_file_ending(".json"@) && is_file_ending(
        ".jsonl"@,
    ));
}

#[verifier::rlimit(40)]
proof fn lemma_mime_endings(name: Seq<char>, s: Seq<char>)
    ensures
        s == name + ".tsv"@ ==> mime_of(s) == "text/tab-separated-values"@,
        s == name + ".csv"@ ==> mime_of(s) == "text/csv"@,
        s == name + ".json"@ ==> mime_of(s) == "application/json"@,
        s == name + ".jsonl"@ || s == name + ".ndjson"@ ==> mime_of(s) == "application/jsonlines"@,
        s.len() > 0 && s.last() != 'v' && s.last() != 'n' && s.last() != 'l' ==> mime_of(s)
            == "application/octet-stream"@,
{
    lemma_endings();
    lemma_suffix(s, ".tsv"@);
    lemma_suffix(s, ".csv"@);
    lemma_suffix(s, ".json"@);
    lemma_suffix(s, ".jsonl"@);
    lemma_suffix(s, ".ndjson"@);
    let n = s.len() as int;
    if ".tsv"@.is_suffix_of(s) {
        assert(".tsv"@[1] == s[n - 3] && ".tsv"@[3] == s[n - 1]);
    }
    if ".csv"@.is_suffix_of(s) {
        assert(".csv"@[1] == s[n - 3] && ".csv"@[3] == s[n - 1]);
    }
    if ".json"@.is_suffix_of(s) {
        assert(".json"@[0] == s[n - 5] && ".json"@[4] == s[n - 1]);
    }
    if ".jsonl"@.is_suffix_of(s) {
        assert(".jsonl"@[5] == s[n - 1]);
    }
    if ".ndjson"@.is_suffix_of(s) {
        assert(".ndjson"@[6] == s[n - 1]);
    }
    if s == name + ".ndjson"@ {
        assert(s[n - 5] == 'd');
    }
}

/// The part of an identifier that a text gives is as long as the text, keeps its letters,
/// digits and underscores, and has underscores for all else.
pub proof fn law_slug_keeps_letters(s: Seq<char>, i: int)
    requires
        0 <= i < s.len(),
    ensures
        slug_of(s).len() == s.len(),
        'a' <= s[i] <= 'z' || 'A' <= s[i] <= 'Z' || '0' <= s[i] <= '9' || s[i] == '_' ==> slug_of(s)[i] == s[i],
        (s[i] as int) < 128 && !('a' <= s[i] <= 'z' || 'A' <= s[i] <= 'Z' || '0' <= s[i] <= '9') ==> slug_of(s)[i]
            == '_',
        s[i] as int >= 128 ==> slug_of(s)[i] == (if is_wide_alphanumeric(s[i]) {
            s[i]
        } else {
            '_'
        }),
{
}

/// The number of fields without a source is the number of those that have no member of
/// that name.
pub proof fn law_sourceless_are_counted(fields: Seq<JsonView>)
    ensures
        sourceless(fields) == fields.filter(|f: JsonView| f.get("source"@) is None).len(),
    decreases fields.len(),
{
    reveal(Seq::filter);
    if fields.len() > 0 {
        law_sourceless_are_counted(fields.drop_last());
    }
}

/// What is not a list has no items.
pub proof fn law_only_lists_have_items(j: JsonView, key: Seq<char>)
    ensures
        match j.get(key) {
            Some(JsonView::Array(items)) => list_at(j, key) == items,
            _ => list_at(j, key).len() == 0,
        },
{
}

} // verus!
