//! Automatic review: fields that can be approved by a controlled vocabulary, by what a
//! server says of a file, or by the header row of a file.
use crate::lookup::{index_last, last_index, lemma_last_index, locates_last};
use crate::order::{ascending, in_order, sort_unique};
use crate::patterns::{
    compile, distribution_of, first_group, law_distribution_path, pattern_of, source_field_of, DISTRIBUTION_ID, DISTRIBUTION_URL,
    FIELD_SOURCE,
};
use crate::review::{link_views, KbLink, KbLinkView};
use crate::text::{
    after_last, all_edge, any_is, before_first, begins_with, chars_of, concat2, cut_after_last, cut_before_first,
    find_from, finishes_with, first_pos, has_part, holds_part, is_bare, is_edge, joined, law_cut_at,
    law_part_is_found, law_split_undoes_join, law_trim_takes_the_surroundings, lemma_first_pos, lemma_first_pos_is, lowercase, part_at,
    pieces, same, split_at_each, string_between, to_lowercase, trim, trimmed, view_opt, views, Edge,
};
use vstd::hash_map::StringHashMap;
use vstd::hash_set::StringHashSet;
use vstd::prelude::*;
use vstd::utf8::{decode_utf8, encode_utf8, encode_utf8_decode_utf8, encode_utf8_valid_utf8, valid_utf8};

verus! {

/// What the `conformsTo` of a document begins with.
pub const CROISSANT_CONFORMS_TO: &'static str = "http://mlcommons.org/croissant/1.0";

/// How many paths are marked as approved at a time.
pub const UPDATE_BATCH: usize = 500;

/// The types that a part of a document may have.
pub open spec fn is_valid_type(s: Seq<char>) -> bool {
    ||| s == "sc:Dataset"@
    ||| s == "cr:FileObject"@
    ||| s == "cr:FileSet"@
    ||| s == "cr:RecordSet"@
    ||| s == "cr:Field"@
    ||| s == "sc:Organization"@
    ||| s == "sc:Person"@
    ||| s == "sc:CreativeWork"@
}

/// The data types that a field may have.
pub open spec fn is_valid_data_type(s: Seq<char>) -> bool {
    ||| s == "sc:Text"@
    ||| s == "sc:Integer"@
    ||| s == "sc:Float"@
    ||| s == "sc:Boolean"@
    ||| s == "sc:Date"@
    ||| s == "sc:Time"@
    ||| s == "sc:DateTime"@
    ||| s == "sc:URL"@
}

/// Whether a part of a document may have this type.
pub fn valid_type(s: &str) -> (r: bool)
    ensures
        r == is_valid_type(s@),
{
    same(s, "sc:Dataset") || same(s, "cr:FileObject") || same(s, "cr:FileSet") || same(s, "cr:RecordSet")
        || same(s, "cr:Field") || same(s, "sc:Organization") || same(s, "sc:Person") || same(
        s,
        "sc:CreativeWork",
    )
}

/// Whether a field may have this data type.
pub fn valid_data_type(s: &str) -> (r: bool)
    ensures
        r == is_valid_data_type(s@),
{
    same(s, "sc:Text") || same(s, "sc:Integer") || same(s, "sc:Float") || same(s, "sc:Boolean") || same(
        s,
        "sc:Date",
    ) || same(s, "sc:Time") || same(s, "sc:DateTime") || same(s, "sc:URL")
}

/// The paths of the fields.
pub open spec fn link_paths(links: Seq<KbLinkView>) -> Seq<Seq<char>> {
    links.map_values(|l: KbLinkView| l.path)
}

/// The value of the field at `path`; of several the last one.
pub open spec fn value_at(links: Seq<KbLinkView>, path: Seq<char>) -> Option<Seq<char>> {
    let p = last_index(link_paths(links), path);
    if 0 <= p < links.len() {
        Some(links[p].value)
    } else {
        None
    }
}

/// Whether the `@id` of a distribution is `id`.
pub open spec fn is_distribution_id(links: Seq<KbLinkView>, id: Seq<char>) -> bool {
    exists|i: int|
        0 <= i < links.len() && distribution_of((#[trigger] links[i]).path, ".@id"@) is Some
            && links[i].value == id
}

/// Whether a field passes the checks that need no network: known types, references to
/// distributions that are there, identifiers that are not empty, and the version of the
/// format.
pub open spec fn passes_vocabulary(links: Seq<KbLinkView>, link: KbLinkView) -> bool {
    let last = after_last(link.path, '.');
    if last == "@type"@ {
        is_valid_type(link.value)
    } else if last == "dataType"@ {
        is_valid_data_type(link.value)
    } else if last == "@id"@ {
        if has_part(link.path, "source.fileObject.@id"@) {
            is_distribution_id(links, link.value)
        } else {
            link.value.len() > 0
        }
    } else {
        link.path == "conformsTo"@ && CROISSANT_CONFORMS_TO@.is_prefix_of(link.value)
    }
}

/// The paths of the first `n` fields that pass the vocabulary checks.
pub open spec fn vocabulary_paths(links: Seq<KbLinkView>, n: int) -> Seq<Seq<char>>
    decreases n,
{
    if n <= 0 {
        Seq::empty()
    } else if passes_vocabulary(links, links[n - 1]) {
        vocabulary_paths(links, n - 1).push(links[n - 1].path)
    } else {
        vocabulary_paths(links, n - 1)
    }
}

/// An address to ask for: that of the distribution `prefix`, found at `path`.
#[derive(Debug, PartialEq, Eq)]
pub struct UrlTask {
    pub path: String,
    pub prefix: String,
    pub url: String,
}

/// What an address to ask for says.
pub struct UrlTaskView {
    pub path: Seq<char>,
    pub prefix: Seq<char>,
    pub url: Seq<char>,
}

impl View for UrlTask {
    type V = UrlTaskView;

    open spec fn view(&self) -> UrlTaskView {
        UrlTaskView { path: self.path@, prefix: self.prefix@, url: self.url@ }
    }
}

/// What a list of addresses says.
pub open spec fn task_views(s: Seq<UrlTask>) -> Seq<UrlTaskView> {
    s.map_values(|t: UrlTask| t@)
}

/// The addresses of all distributions.
pub open spec fn url_tasks_of(links: Seq<KbLinkView>) -> Seq<UrlTaskView>
    decreases links.len(),
{
    if links.len() == 0 {
        Seq::empty()
    } else {
        let l = links.last();
        match distribution_of(l.path, ".contentUrl"@) {
            Some(d) => url_tasks_of(links.drop_last()).push(
                UrlTaskView { path: l.path, prefix: d, url: l.value },
            ),
            None => url_tasks_of(links.drop_last()),
        }
    }
}

/// What a server answers: the status code and, as far as they are text, two headers.
#[derive(Debug, PartialEq, Eq)]
pub struct HeadReply {
    pub status: u16,
    pub content_type: Option<String>,
    pub content_length: Option<String>,
}

/// An address with the answer of its server, or none where the request failed.
#[derive(Debug, PartialEq, Eq)]
pub struct CheckedUrl {
    pub task: UrlTask,
    pub reply: Option<HeadReply>,
}

/// What a checked address says.
pub struct CheckedUrlView {
    pub task: UrlTaskView,
    /// Whether the server answered with a success or a redirection.
    pub reached: bool,
    pub content_type: Option<Seq<char>>,
    pub content_length: Option<Seq<char>>,
}

impl View for CheckedUrl {
    type V = CheckedUrlView;

    open spec fn view(&self) -> CheckedUrlView {
        match self.reply {
            Some(r) => CheckedUrlView {
                task: self.task@,
                reached: 200 <= r.status < 400,
                content_type: view_opt(r.content_type),
                content_length: view_opt(r.content_length),
            },
            None => CheckedUrlView {
                task: self.task@,
                reached: false,
                content_type: None,
                content_length: None,
            },
        }
    }
}

/// What a list of checked addresses says.
pub open spec fn checked_views(s: Seq<CheckedUrl>) -> Seq<CheckedUrlView> {
    s.map_values(|c: CheckedUrl| c@)
}

/// The file name in an address.
pub open spec fn file_name_of(url: Seq<char>) -> Seq<char> {
    before_first(after_last(url, '/'), '?')
}

/// The media type in a `Content-Type` header, without its parameters.
pub open spec fn media_type_of(content_type: Option<Seq<char>>) -> Seq<char> {
    match content_type {
        Some(t) => trimmed(before_first(t, ';'), Edge::Space),
        None => Seq::empty(),
    }
}

/// The path `p` if `ok`, else nothing.
pub open spec fn only_if(ok: bool, p: Seq<char>) -> Seq<Seq<char>> {
    if ok {
        seq![p]
    } else {
        Seq::empty()
    }
}

/// The paths that an answer approves: that of the address itself, and those of the file
/// name, the media type and the size where they agree with the answer.
pub open spec fn head_paths_of(links: Seq<KbLinkView>, c: CheckedUrlView) -> Seq<Seq<char>> {
    if !c.reached {
        Seq::empty()
    } else {
        let name = c.task.prefix + ".name"@;
        let format = c.task.prefix + ".encodingFormat"@;
        let size = c.task.prefix + ".contentSize"@;
        let file = file_name_of(c.task.url);
        let media = media_type_of(c.content_type);
        seq![c.task.path] + only_if(file.len() > 0 && value_at(links, name) == Some(file), name)
            + only_if(media.len() > 0 && value_at(links, format) == Some(media), format) + only_if(
            c.content_length is Some && value_at(links, size) == c.content_length,
            size,
        )
    }
}

/// The paths that the answers approve.
pub open spec fn head_paths(links: Seq<KbLinkView>, checked: Seq<CheckedUrlView>) -> Seq<Seq<char>>
    decreases checked.len(),
{
    if checked.len() == 0 {
        Seq::empty()
    } else {
        head_paths(links, checked.drop_last()) + head_paths_of(links, checked.last())
    }
}

/// The addresses that were not reached.
pub open spec fn missed_urls(checked: Seq<CheckedUrlView>) -> Seq<Seq<char>>
    decreases checked.len(),
{
    if checked.len() == 0 {
        Seq::empty()
    } else if checked.last().reached {
        missed_urls(checked.drop_last())
    } else {
        missed_urls(checked.drop_last()).push(checked.last().task.url)
    }
}

/// Positions of the fields by path.
fn index_links(links: &Vec<KbLink>) -> (m: StringHashMap<usize>)
    ensures
        locates_last(m@, link_paths(link_views(links@))),
{
    let ghost all = link_paths(link_views(links@));
    let mut paths: Vec<String> = Vec::new();
    for i in 0..links.len()
        invariant
            all == link_paths(link_views(links@)),
            views(paths@) == all.take(i as int),
    {
        let ghost before = views(paths@);
        paths.push(links[i].path.clone());
        assert(all[i as int] == links@[i as int].path@);
        assert(views(paths@) =~= before.push(links@[i as int].path@));
    }
    assert(views(paths@) =~= all);
    index_last(&paths)
}

/// The value of the field at `path`.
fn find_value<'a>(links: &'a Vec<KbLink>, by_path: &StringHashMap<usize>, path: &str) -> (r: Option<&'a str>)
    requires
        locates_last(by_path@, link_paths(link_views(links@))),
    ensures
        match r {
            Some(v) => value_at(link_views(links@), path@) == Some(v@),
            None => value_at(link_views(links@), path@) is None,
        },
{
    let ghost all = link_paths(link_views(links@));
    proof {
        lemma_last_index(all, path@);
        assert(by_path@.dom().contains(path@) == all.contains(path@));
    }
    match by_path.get(path) {
        Some(p) => {
            assert(*p == last_index(all, path@));
            assert(link_views(links@)[*p as int] == links@[*p as int]@);
            Some(links[*p].value.as_str())
        },
        None => None,
    }
}

/// Whether the field at `path` has the given value.
fn value_is(links: &Vec<KbLink>, by_path: &StringHashMap<usize>, path: &str, value: &str) -> (r: bool)
    requires
        locates_last(by_path@, link_paths(link_views(links@))),
    ensures
        r == (value_at(link_views(links@), path@) == Some(value@)),
{
    match find_value(links, by_path, path) {
        Some(v) => same(v, value),
        None => false,
    }
}

/// The `@id` values of all distributions.
fn distribution_ids(links: &Vec<KbLink>) -> (s: StringHashSet)
    ensures
        forall|k: Seq<char>| #[trigger] s@.contains(k) == is_distribution_id(link_views(links@), k),
{
    let re = compile(DISTRIBUTION_ID);
    let ghost lv = link_views(links@);
    let mut s = StringHashSet::new();
    for i in 0..links.len()
        invariant
            lv == link_views(links@),
            pattern_of(re) == DISTRIBUTION_ID@,
            forall|k: Seq<char>| #[trigger]
                s@.contains(k) == exists|j: int|
                    0 <= j < i && distribution_of((#[trigger] lv[j]).path, ".@id"@) is Some && lv[j].value == k,
    {
        let ghost before = s@;
        assert(lv[i as int] == links@[i as int]@);
        if first_group(&re, links[i].path.as_str()).is_some() {
            s.insert(links[i].value.clone());
        }
        proof {
            assert forall|k: Seq<char>| #[trigger] s@.contains(k) == exists|j: int|
                0 <= j < i + 1 && distribution_of((#[trigger] lv[j]).path, ".@id"@) is Some && lv[j].value
                    == k by {
                assert(before.contains(k) == exists|j: int|
                    0 <= j < i && distribution_of((#[trigger] lv[j]).path, ".@id"@) is Some && lv[j].value
                        == k);
            }
        }
    }
    s
}

/// The paths of the fields that pass the checks that need no network.
pub fn vocabulary_approvals(links: &Vec<KbLink>) -> (r: Vec<String>)
    ensures
        views(r@) == vocabulary_paths(link_views(links@), links@.len() as int),
{
    let ids = distribution_ids(links);
    let ghost lv = link_views(links@);
    let mut r: Vec<String> = Vec::new();
    assert(views(r@) =~= vocabulary_paths(lv, 0));
    for i in 0..links.len()
        invariant
            lv == link_views(links@),
            forall|k: Seq<char>| #[trigger] ids@.contains(k) == is_distribution_id(lv, k),
            views(r@) == vocabulary_paths(lv, i as int),
    {
        let link = &links[i];
        assert(lv[i as int] == link@);
        let last = cut_after_last(link.path.as_str(), '.');
        let ok = if same(last.as_str(), "@type") {
            valid_type(link.value.as_str())
        } else if same(last.as_str(), "dataType") {
            valid_data_type(link.value.as_str())
        } else if same(last.as_str(), "@id") {
            if holds_part(link.path.as_str(), "source.fileObject.@id") {
                ids.contains(link.value.as_str())
            } else {
                !same(link.value.as_str(), "")
            }
        } else {
            same(link.path.as_str(), "conformsTo") && begins_with(link.value.as_str(), CROISSANT_CONFORMS_TO)
        };
        proof {
            reveal_strlit("");
            assert((link.value@ == ""@) == (link.value@.len() == 0)) by {
                if link.value@.len() == 0 {
                    assert(link.value@ =~= ""@);
                }
            }
            assert(ids@.contains(link.value@) == is_distribution_id(lv, link.value@));
            assert(ok == passes_vocabulary(lv, link@));
        }
        if ok {
            let ghost before = views(r@);
            r.push(link.path.clone());
            assert(views(r@) =~= before.push(link.path@));
        }
    }
    r
}

/// The addresses of all distributions.
pub fn url_tasks(links: &Vec<KbLink>) -> (r: Vec<UrlTask>)
    ensures
        task_views(r@) == url_tasks_of(link_views(links@)),
{
    let re = compile(DISTRIBUTION_URL);
    let ghost lv = link_views(links@);
    let mut r: Vec<UrlTask> = Vec::new();
    assert(task_views(r@) =~= url_tasks_of(lv.take(0)));
    for i in 0..links.len()
        invariant
            lv == link_views(links@),
            pattern_of(re) == DISTRIBUTION_URL@,
            task_views(r@) == url_tasks_of(lv.take(i as int)),
    {
        let link = &links[i];
        assert(lv.take(i + 1).drop_last() =~= lv.take(i as int));
        assert(lv.take(i + 1).last() == link@);
        if let Some(prefix) = first_group(&re, link.path.as_str()) {
            let ghost before = task_views(r@);
            let t = UrlTask { path: link.path.clone(), prefix, url: link.value.clone() };
            r.push(t);
            assert(task_views(r@) =~= before.push(t@));
        }
    }
    assert(lv.take(lv.len() as int) =~= lv);
    r
}

/// Appends `path` if `ok`.
fn push_if(list: &mut Vec<String>, ok: bool, path: String)
    ensures
        views(final(list)@) == views(old(list)@) + only_if(ok, path@),
{
    let ghost before = views(list@);
    if ok {
        list.push(path);
        assert(views(list@) =~= before + seq![path@]);
    } else {
        assert(views(list@) =~= before + Seq::<Seq<char>>::empty());
    }
}

/// Appends the paths that an answer approves.
fn push_head_paths(list: &mut Vec<String>, links: &Vec<KbLink>, by_path: &StringHashMap<usize>, c: &CheckedUrl)
    requires
        locates_last(by_path@, link_paths(link_views(links@))),
        c@.reached,
    ensures
        views(final(list)@) == views(old(list)@) + head_paths_of(link_views(links@), c@),
{
    let ghost before = views(list@);
    list.push(c.task.path.clone());
    assert(views(list@) =~= before + seq![c.task.path@]);
    let name = concat2(c.task.prefix.as_str(), ".name");
    let file = cut_before_first(cut_after_last(c.task.url.as_str(), '/').as_str(), '?');
    let format = concat2(c.task.prefix.as_str(), ".encodingFormat");
    let size = concat2(c.task.prefix.as_str(), ".contentSize");
    let name_ok = file.as_str().unicode_len() > 0 && value_is(links, by_path, name.as_str(), file.as_str());
    let mut media = String::new();
    let mut size_ok = false;
    if let Some(reply) = &c.reply {
        if let Some(t) = &reply.content_type {
            media = trim(cut_before_first(t.as_str(), ';').as_str(), Edge::Space);
        }
        if let Some(n) = &reply.content_length {
            size_ok = value_is(links, by_path, size.as_str(), n.as_str());
        }
    }
    assert(media@ =~= media_type_of(c@.content_type));
    let format_ok = media.as_str().unicode_len() > 0 && value_is(
        links,
        by_path,
        format.as_str(),
        media.as_str(),
    );
    push_if(list, name_ok, name);
    push_if(list, format_ok, format);
    push_if(list, size_ok, size);
    assert(views(list@) =~= before + head_paths_of(link_views(links@), c@));
}

/// The paths that the servers' answers approve, and the addresses that were not reached.
pub fn head_approvals(links: &Vec<KbLink>, checked: &Vec<CheckedUrl>) -> (r: (Vec<String>, Vec<String>))
    ensures
        views(r.0@) == head_paths(link_views(links@), checked_views(checked@)),
        views(r.1@) == missed_urls(checked_views(checked@)),
{
    let by_path = index_links(links);
    let ghost lv = link_views(links@);
    let ghost cv = checked_views(checked@);
    let mut approved: Vec<String> = Vec::new();
    let mut failed: Vec<String> = Vec::new();
    assert(views(approved@) =~= head_paths(lv, cv.take(0)));
    assert(views(failed@) =~= missed_urls(cv.take(0)));
    for i in 0..checked.len()
        invariant
            lv == link_views(links@),
            cv == checked_views(checked@),
            locates_last(by_path@, link_paths(lv)),
            views(approved@) == head_paths(lv, cv.take(i as int)),
            views(failed@) == missed_urls(cv.take(i as int)),
    {
        let c = &checked[i];
        assert(cv.take(i + 1).drop_last() =~= cv.take(i as int));
        assert(cv.take(i + 1).last() == c@);
        let reached = match &c.reply {
            Some(r) => 200 <= r.status && r.status < 400,
            None => false,
        };
        if reached {
            push_head_paths(&mut approved, links, &by_path, c);
        } else {
            let ghost before = views(failed@);
            failed.push(c.task.url.clone());
            assert(views(failed@) =~= before.push(c.task.url@));
            assert(views(approved@) =~= head_paths(lv, cv.take(i + 1)));
        }
    }
    assert(cv.take(cv.len() as int) =~= cv);
    (approved, failed)
}

/// Whether a file holds text in columns that can be read as it stands.
pub open spec fn is_text_file(url: Seq<char>, format: Seq<char>) -> bool {
    let l = lowercase(url);
    &&& ".csv"@.is_suffix_of(l) || ".tsv"@.is_suffix_of(l) || has_part(format, "csv"@) || has_part(
        format,
        "tsv"@,
    ) || has_part(format, "tab"@)
    &&& !".gz"@.is_suffix_of(l)
    &&& !".zip"@.is_suffix_of(l)
    &&& "http"@.is_prefix_of(url)
}

/// A file of a distribution.
#[derive(Debug, PartialEq, Eq)]
pub struct TextFile {
    /// The `@id` of the distribution.
    pub id: String,
    pub url: String,
    pub format: String,
}

/// What a file of a distribution says.
pub struct TextFileView {
    pub id: Seq<char>,
    pub url: Seq<char>,
    pub format: Seq<char>,
}

impl View for TextFile {
    type V = TextFileView;

    open spec fn view(&self) -> TextFileView {
        TextFileView { id: self.id@, url: self.url@, format: self.format@ }
    }
}

/// What a list of files says.
pub open spec fn file_views(s: Seq<TextFile>) -> Seq<TextFileView> {
    s.map_values(|f: TextFile| f@)
}

/// The text, or an empty one.
pub open spec fn or_empty(s: Option<Seq<char>>) -> Seq<char> {
    match s {
        Some(t) => t,
        None => Seq::empty(),
    }
}

/// The file of the distribution `d` with the given `@id`.
pub open spec fn file_for(links: Seq<KbLinkView>, d: Seq<char>, id: Seq<char>) -> TextFileView {
    TextFileView {
        id,
        url: or_empty(value_at(links, d + ".contentUrl"@)),
        format: or_empty(value_at(links, d + ".encodingFormat"@)),
    }
}

/// The text files among the distributions of the first `n` fields.
pub open spec fn text_files(links: Seq<KbLinkView>, n: int) -> Seq<TextFileView>
    decreases n,
{
    if n <= 0 {
        Seq::empty()
    } else {
        let before = text_files(links, n - 1);
        match distribution_of(links[n - 1].path, ".@id"@) {
            Some(d) => {
                let f = file_for(links, d, links[n - 1].value);
                if is_text_file(f.url, f.format) {
                    before.push(f)
                } else {
                    before
                }
            },
            None => before,
        }
    }
}

/// The ids of the files.
pub open spec fn file_ids(files: Seq<TextFileView>) -> Seq<Seq<char>> {
    files.map_values(|f: TextFileView| f.id)
}

/// The text file of the distribution with the given `@id`; of several the last one.
pub open spec fn file_of(links: Seq<KbLinkView>, id: Seq<char>) -> Option<TextFileView> {
    let files = text_files(links, links.len() as int);
    let p = last_index(file_ids(files), id);
    if 0 <= p < files.len() {
        Some(files[p])
    } else {
        None
    }
}

/// A field with the `@id` of the file that it comes from.
#[derive(Debug, PartialEq, Eq)]
pub struct FieldSource {
    pub field: String,
    pub id: String,
}

/// What a field's source says.
pub struct FieldSourceView {
    pub field: Seq<char>,
    pub id: Seq<char>,
}

impl View for FieldSource {
    type V = FieldSourceView;

    open spec fn view(&self) -> FieldSourceView {
        FieldSourceView { field: self.field@, id: self.id@ }
    }
}

/// What a list of sources says.
pub open spec fn source_views(s: Seq<FieldSource>) -> Seq<FieldSourceView> {
    s.map_values(|f: FieldSource| f@)
}

/// The fields of a list of sources.
pub open spec fn source_fields(s: Seq<FieldSourceView>) -> Seq<Seq<char>> {
    s.map_values(|f: FieldSourceView| f.field)
}

/// The fields that name a source file, each with the first one that it names.
pub open spec fn field_sources(links: Seq<KbLinkView>) -> Seq<FieldSourceView>
    decreases links.len(),
{
    if links.len() == 0 {
        Seq::empty()
    } else {
        let before = field_sources(links.drop_last());
        match source_field_of(links.last().path) {
            Some(f) => if source_fields(before).contains(f) {
                before
            } else {
                before.push(FieldSourceView { field: f, id: links.last().value })
            },
            None => before,
        }
    }
}

/// A file whose header row is wanted.
#[derive(Debug, PartialEq, Eq)]
pub struct HeaderTask {
    pub url: String,
    pub format: String,
}

/// What a wanted file says.
pub struct HeaderTaskView {
    pub url: Seq<char>,
    pub format: Seq<char>,
}

impl View for HeaderTask {
    type V = HeaderTaskView;

    open spec fn view(&self) -> HeaderTaskView {
        HeaderTaskView { url: self.url@, format: self.format@ }
    }
}

/// What a list of wanted files says.
pub open spec fn header_task_views(s: Seq<HeaderTask>) -> Seq<HeaderTaskView> {
    s.map_values(|t: HeaderTask| t@)
}

/// The addresses of the wanted files.
pub open spec fn header_urls(s: Seq<HeaderTaskView>) -> Seq<Seq<char>> {
    s.map_values(|t: HeaderTaskView| t.url)
}

/// The files whose header rows are wanted: those that fields come from, each address
/// once.
pub open spec fn header_tasks_of(links: Seq<KbLinkView>, sources: Seq<FieldSourceView>) -> Seq<HeaderTaskView>
    decreases sources.len(),
{
    if sources.len() == 0 {
        Seq::empty()
    } else {
        let before = header_tasks_of(links, sources.drop_last());
        match file_of(links, sources.last().id) {
            Some(f) => if header_urls(before).contains(f.url) {
                before
            } else {
                before.push(HeaderTaskView { url: f.url, format: f.format })
            },
            None => before,
        }
    }
}

/// The first line of a text, without its line ending.
pub open spec fn first_line(text: Seq<char>) -> Option<Seq<char>> {
    let p = first_pos(text, '\n');
    if text.len() == 0 {
        None
    } else if p >= text.len() {
        Some(text)
    } else if p > 0 && text[p - 1] == '\r' {
        Some(text.take(p - 1))
    } else {
        Some(text.take(p))
    }
}

/// The column names in a header row.
pub open spec fn columns_of(line: Seq<char>, format: Seq<char>) -> Seq<Seq<char>> {
    let tabs = has_part(format, "tab"@) || has_part(format, "tsv"@) || line.contains('\t');
    let delimiter = if tabs {
        '\t'
    } else {
        ','
    };
    pieces(line, delimiter).map_values(|c: Seq<char>| trimmed(trimmed(c, Edge::Space), Edge::Quote))
}

/// The column names in what a server sent of a file.
pub open spec fn header_of(status: u16, body: Seq<u8>, format: Seq<char>) -> Option<Seq<Seq<char>>> {
    if 200 <= status < 300 && valid_utf8(body) {
        match first_line(decode_utf8(body)) {
            Some(line) => Some(columns_of(line, format)),
            None => None,
        }
    } else {
        None
    }
}

/// The header row of a file, where it could be read.
#[derive(Debug, PartialEq, Eq)]
pub struct FileHeader {
    pub url: String,
    pub columns: Option<Vec<String>>,
}

/// What a header row says.
pub struct FileHeaderView {
    pub url: Seq<char>,
    pub columns: Option<Seq<Seq<char>>>,
}

impl View for FileHeader {
    type V = FileHeaderView;

    open spec fn view(&self) -> FileHeaderView {
        FileHeaderView {
            url: self.url@,
            columns: match self.columns {
                Some(c) => Some(views(c@)),
                None => None,
            },
        }
    }
}

/// What a list of header rows says.
pub open spec fn header_views(s: Seq<FileHeader>) -> Seq<FileHeaderView> {
    s.map_values(|h: FileHeader| h@)
}

/// The column names of the file at an address; of several header rows the last one.
pub open spec fn columns_at(headers: Seq<FileHeaderView>, url: Seq<char>) -> Option<Seq<Seq<char>>> {
    let p = last_index(headers.map_values(|h: FileHeaderView| h.url), url);
    if 0 <= p < headers.len() {
        headers[p].columns
    } else {
        None
    }
}

/// Whether the field at `path` has one of the given values.
pub open spec fn is_among(links: Seq<KbLinkView>, path: Seq<char>, values: Seq<Seq<char>>) -> bool {
    value_at(links, path) matches Some(v) && values.contains(v)
}

/// The paths that header rows approve for a field: those of its source column and of its
/// name, where they are among the columns of the file that it comes from.
pub open spec fn field_paths_of(
    links: Seq<KbLinkView>,
    headers: Seq<FileHeaderView>,
    source: FieldSourceView,
) -> Seq<Seq<char>> {
    match file_of(links, source.id) {
        Some(file) => match columns_at(headers, file.url) {
            Some(columns) => {
                let column = source.field + ".source.extract.column"@;
                let name = source.field + ".name"@;
                only_if(is_among(links, column, columns), column) + only_if(
                    is_among(links, name, columns),
                    name,
                )
            },
            None => Seq::empty(),
        },
        None => Seq::empty(),
    }
}

/// The paths that header rows approve.
pub open spec fn field_paths(
    links: Seq<KbLinkView>,
    headers: Seq<FileHeaderView>,
    sources: Seq<FieldSourceView>,
) -> Seq<Seq<char>>
    decreases sources.len(),
{
    if sources.len() == 0 {
        Seq::empty()
    } else {
        field_paths(links, headers, sources.drop_last()) + field_paths_of(links, headers, sources.last())
    }
}

/// The paths that one of the checks approves.
pub open spec fn approved_paths(
    links: Seq<KbLinkView>,
    checked: Seq<CheckedUrlView>,
    headers: Seq<FileHeaderView>,
) -> Set<Seq<char>> {
    (vocabulary_paths(links, links.len() as int) + head_paths(links, checked) + field_paths(
        links,
        headers,
        field_sources(links),
    )).to_set()
}

/// Whether a file holds text in columns that can be read as it stands.
pub fn text_file(url: &str, format: &str) -> (r: bool)
    ensures
        r == is_text_file(url@, format@),
{
    let l = to_lowercase(url);
    (finishes_with(l.as_str(), ".csv") || finishes_with(l.as_str(), ".tsv") || holds_part(format, "csv")
        || holds_part(format, "tsv") || holds_part(format, "tab")) && !finishes_with(l.as_str(), ".gz")
        && !finishes_with(l.as_str(), ".zip") && begins_with(url, "http")
}

/// The text files among the distributions.
fn find_text_files(links: &Vec<KbLink>, by_path: &StringHashMap<usize>) -> (r: Vec<TextFile>)
    requires
        locates_last(by_path@, link_paths(link_views(links@))),
    ensures
        file_views(r@) == text_files(link_views(links@), links@.len() as int),
{
    let re = compile(DISTRIBUTION_ID);
    let ghost lv = link_views(links@);
    let mut r: Vec<TextFile> = Vec::new();
    assert(file_views(r@) =~= text_files(lv, 0));
    for i in 0..links.len()
        invariant
            lv == link_views(links@),
            pattern_of(re) == DISTRIBUTION_ID@,
            locates_last(by_path@, link_paths(lv)),
            file_views(r@) == text_files(lv, i as int),
    {
        let link = &links[i];
        assert(lv[i as int] == link@);
        if let Some(d) = first_group(&re, link.path.as_str()) {
            let url = match find_value(links, by_path, concat2(d.as_str(), ".contentUrl").as_str()) {
                Some(v) => v.to_string(),
                None => String::new(),
            };
            let format = match find_value(links, by_path, concat2(d.as_str(), ".encodingFormat").as_str()) {
                Some(v) => v.to_string(),
                None => String::new(),
            };
            if text_file(url.as_str(), format.as_str()) {
                let ghost before = file_views(r@);
                let f = TextFile { id: link.value.clone(), url, format };
                r.push(f);
                assert(f@ == file_for(lv, d@, link@.value));
                assert(file_views(r@) =~= before.push(f@));
            }
        }
    }
    r
}

/// Positions of the text files by id.
fn index_files(files: &Vec<TextFile>) -> (m: StringHashMap<usize>)
    ensures
        locates_last(m@, file_ids(file_views(files@))),
{
    let ghost all = file_ids(file_views(files@));
    let mut ids: Vec<String> = Vec::new();
    for i in 0..files.len()
        invariant
            all == file_ids(file_views(files@)),
            views(ids@) == all.take(i as int),
    {
        let ghost before = views(ids@);
        ids.push(files[i].id.clone());
        assert(all[i as int] == files@[i as int].id@);
        assert(views(ids@) =~= before.push(files@[i as int].id@));
    }
    assert(views(ids@) =~= all);
    index_last(&ids)
}

/// The text file with the given id.
fn find_file<'a>(
    files: &'a Vec<TextFile>,
    by_id: &StringHashMap<usize>,
    id: &str,
    Ghost(links): Ghost<Seq<KbLinkView>>,
) -> (r: Option<&'a TextFile>)
    requires
        file_views(files@) == text_files(links, links.len() as int),
        locates_last(by_id@, file_ids(file_views(files@))),
    ensures
        match r {
            Some(f) => file_of(links, id@) == Some(f@),
            None => file_of(links, id@) is None,
        },
{
    let ghost all = file_ids(file_views(files@));
    proof {
        lemma_last_index(all, id@);
        assert(by_id@.dom().contains(id@) == all.contains(id@));
    }
    match by_id.get(id) {
        Some(p) => {
            assert(*p == last_index(all, id@));
            assert(file_views(files@)[*p as int] == files@[*p as int]@);
            Some(&files[*p])
        },
        None => None,
    }
}

/// The fields that name a source file, each with the first one that it names.
fn find_sources(links: &Vec<KbLink>) -> (r: Vec<FieldSource>)
    ensures
        source_views(r@) == field_sources(link_views(links@)),
{
    let re = compile(FIELD_SOURCE);
    let ghost lv = link_views(links@);
    let mut r: Vec<FieldSource> = Vec::new();
    let mut seen = StringHashSet::new();
    assert(source_views(r@) =~= field_sources(lv.take(0)));
    for i in 0..links.len()
        invariant
            lv == link_views(links@),
            pattern_of(re) == FIELD_SOURCE@,
            source_views(r@) == field_sources(lv.take(i as int)),
            forall|k: Seq<char>| #[trigger] seen@.contains(k) == source_fields(source_views(r@)).contains(k),
    {
        let link = &links[i];
        assert(lv.take(i + 1).drop_last() =~= lv.take(i as int));
        assert(lv.take(i + 1).last() == link@);
        if let Some(field) = first_group(&re, link.path.as_str()) {
            let ghost before = source_views(r@);
            let ghost old_seen = seen@;
            assert(seen@.contains(field@) == source_fields(before).contains(field@));
            if !seen.contains(field.as_str()) {
                seen.insert(field.clone());
                let f = FieldSource { field, id: link.value.clone() };
                r.push(f);
                proof {
                    assert(source_views(r@) =~= before.push(f@));
                    let a = source_fields(before);
                    let b = source_fields(source_views(r@));
                    assert(b =~= a.push(f@.field));
                    assert(b[a.len() as int] == f@.field);
                    assert forall|k: Seq<char>| #[trigger] seen@.contains(k) == b.contains(k) by {
                        assert(old_seen.contains(k) == a.contains(k));
                        if a.contains(k) {
                            let j = choose|j: int| 0 <= j < a.len() && a[j] == k;
                            assert(b[j] == k);
                        }
                    }
                }
            }
        }
    }
    assert(lv.take(lv.len() as int) =~= lv);
    r
}

/// The files whose header rows are wanted.
pub fn header_tasks(links: &Vec<KbLink>) -> (r: Vec<HeaderTask>)
    ensures
        header_task_views(r@) == header_tasks_of(link_views(links@), field_sources(link_views(links@))),
{
    let by_path = index_links(links);
    let files = find_text_files(links, &by_path);
    let by_id = index_files(&files);
    let sources = find_sources(links);
    let ghost lv = link_views(links@);
    let ghost sv = source_views(sources@);
    let mut r: Vec<HeaderTask> = Vec::new();
    let mut seen = StringHashSet::new();
    assert(header_task_views(r@) =~= header_tasks_of(lv, sv.take(0)));
    for i in 0..sources.len()
        invariant
            lv == link_views(links@),
            sv == source_views(sources@),
            file_views(files@) == text_files(lv, lv.len() as int),
            locates_last(by_id@, file_ids(file_views(files@))),
            header_task_views(r@) == header_tasks_of(lv, sv.take(i as int)),
            forall|k: Seq<char>| #[trigger] seen@.contains(k) == header_urls(header_task_views(r@)).contains(k),
    {
        assert(sv.take(i + 1).drop_last() =~= sv.take(i as int));
        assert(sv.take(i + 1).last() == sources@[i as int]@);
        if let Some(file) = find_file(&files, &by_id, sources[i].id.as_str(), Ghost(lv)) {
            let ghost before = header_task_views(r@);
            let ghost old_seen = seen@;
            assert(seen@.contains(file.url@) == header_urls(before).contains(file.url@));
            if !seen.contains(file.url.as_str()) {
                seen.insert(file.url.clone());
                let t = HeaderTask { url: file.url.clone(), format: file.format.clone() };
                r.push(t);
                proof {
                    assert(header_task_views(r@) =~= before.push(t@));
                    let a = header_urls(before);
                    let b = header_urls(header_task_views(r@));
                    assert(b =~= a.push(t@.url));
                    assert(b[a.len() as int] == t@.url);
                    assert forall|k: Seq<char>| #[trigger] seen@.contains(k) == b.contains(k) by {
                        assert(old_seen.contains(k) == a.contains(k));
                        if a.contains(k) {
                            let j = choose|j: int| 0 <= j < a.len() && a[j] == k;
                            assert(b[j] == k);
                        }
                    }
                }
            }
        }
    }
    assert(sv.take(sv.len() as int) =~= sv);
    r
}

/// `std::str::from_utf8`: the text that bytes encode, where they are valid UTF-8.
#[verifier::external_body]
fn decode(bytes: &[u8]) -> (r: Option<String>)
    ensures
        r is Some <==> valid_utf8(bytes@),
        r matches Some(s) ==> s@ == decode_utf8(bytes@),
{
    std::str::from_utf8(bytes).ok().map(|s| s.to_string())
}

/// The first line of a text, without its line ending.
fn cut_first_line(text: &str) -> (r: Option<String>)
    ensures
        view_opt(r) == first_line(text@),
{
    let cs = chars_of(text);
    if cs.len() == 0 {
        return None;
    }
    let p = find_from(cs.as_slice(), 0, '\n');
    assert(cs@.skip(0) =~= cs@);
    if p == cs.len() {
        Some(text.to_string())
    } else if p > 0 && cs[p - 1] == '\r' {
        Some(string_between(cs.as_slice(), 0, p - 1))
    } else {
        Some(string_between(cs.as_slice(), 0, p))
    }
}

/// The column names in a header row.
fn split_columns(line: &str, format: &str) -> (r: Vec<String>)
    ensures
        views(r@) == columns_of(line@, format@),
{
    let cs = chars_of(line);
    let tab = find_from(cs.as_slice(), 0, '\t');
    proof {
        assert(cs@.skip(0) =~= cs@);
        lemma_first_pos(line@, '\t');
    }
    let tabs = holds_part(format, "tab") || holds_part(format, "tsv") || tab < cs.len();
    let delimiter = if tabs {
        '\t'
    } else {
        ','
    };
    let parts = split_at_each(line, delimiter);
    let ghost all = columns_of(line@, format@);
    let ghost pv = pieces(line@, delimiter);
    let mut r: Vec<String> = Vec::new();
    for i in 0..parts.len()
        invariant
            pv == views(parts@),
            all == pv.map_values(|c: Seq<char>| trimmed(trimmed(c, Edge::Space), Edge::Quote)),
            views(r@) == all.take(i as int),
    {
        let ghost before = views(r@);
        let c = trim(trim(parts[i].as_str(), Edge::Space).as_str(), Edge::Quote);
        assert(pv[i as int] == parts@[i as int]@);
        assert(all[i as int] == c@);
        r.push(c);
        assert(views(r@) =~= before.push(c@));
    }
    assert(all.take(all.len() as int) =~= all);
    r
}

/// The column names in what a server sent of a file.
pub fn read_header(status: u16, body: &[u8], format: &str) -> (r: Option<Vec<String>>)
    ensures
        match r {
            Some(columns) => header_of(status, body@, format@) == Some(views(columns@)),
            None => header_of(status, body@, format@) is None,
        },
{
    if !(200 <= status && status < 300) {
        return None;
    }
    match decode(body) {
        Some(text) => match cut_first_line(text.as_str()) {
            Some(line) => Some(split_columns(line.as_str(), format)),
            None => None,
        },
        None => None,
    }
}

/// The column names of the file at an address.
fn find_columns<'a>(
    headers: &'a Vec<FileHeader>,
    by_url: &StringHashMap<usize>,
    url: &str,
) -> (r: Option<&'a Vec<String>>)
    requires
        locates_last(by_url@, header_views(headers@).map_values(|h: FileHeaderView| h.url)),
    ensures
        match r {
            Some(c) => columns_at(header_views(headers@), url@) == Some(views(c@)),
            None => columns_at(header_views(headers@), url@) is None,
        },
{
    let ghost all = header_views(headers@).map_values(|h: FileHeaderView| h.url);
    proof {
        lemma_last_index(all, url@);
        assert(by_url@.dom().contains(url@) == all.contains(url@));
    }
    match by_url.get(url) {
        Some(p) => {
            assert(*p == last_index(all, url@));
            assert(header_views(headers@)[*p as int] == headers@[*p as int]@);
            match &headers[*p].columns {
                Some(c) => Some(c),
                None => None,
            }
        },
        None => None,
    }
}

/// Whether the field at `path` has one of the given values.
fn value_among(links: &Vec<KbLink>, by_path: &StringHashMap<usize>, path: &str, values: &Vec<String>) -> (r: bool)
    requires
        locates_last(by_path@, link_paths(link_views(links@))),
    ensures
        r == is_among(link_views(links@), path@, views(values@)),
{
    match find_value(links, by_path, path) {
        Some(v) => any_is(values, v),
        None => false,
    }
}

/// The paths that header rows approve.
pub fn field_approvals(links: &Vec<KbLink>, headers: &Vec<FileHeader>) -> (r: Vec<String>)
    ensures
        views(r@) == field_paths(
            link_views(links@),
            header_views(headers@),
            field_sources(link_views(links@)),
        ),
{
    let by_path = index_links(links);
    let files = find_text_files(links, &by_path);
    let by_id = index_files(&files);
    let sources = find_sources(links);
    let ghost lv = link_views(links@);
    let ghost hv = header_views(headers@);
    let ghost sv = source_views(sources@);
    let ghost hu = hv.map_values(|h: FileHeaderView| h.url);
    let mut urls: Vec<String> = Vec::new();
    for i in 0..headers.len()
        invariant
            hv == header_views(headers@),
            hu == hv.map_values(|h: FileHeaderView| h.url),
            views(urls@) == hu.take(i as int),
    {
        let ghost before = views(urls@);
        urls.push(headers[i].url.clone());
        assert(hv[i as int] == headers@[i as int]@);
        assert(views(urls@) =~= before.push(headers@[i as int].url@));
    }
    assert(views(urls@) =~= hu);
    let by_url = index_last(&urls);
    let mut r: Vec<String> = Vec::new();
    assert(views(r@) =~= field_paths(lv, hv, sv.take(0)));
    for i in 0..sources.len()
        invariant
            lv == link_views(links@),
            hv == header_views(headers@),
            sv == source_views(sources@),
            file_views(files@) == text_files(lv, lv.len() as int),
            locates_last(by_id@, file_ids(file_views(files@))),
            locates_last(by_path@, link_paths(lv)),
            locates_last(by_url@, hv.map_values(|h: FileHeaderView| h.url)),
            views(r@) == field_paths(lv, hv, sv.take(i as int)),
    {
        let ghost before = views(r@);
        let source = &sources[i];
        assert(sv.take(i + 1).drop_last() =~= sv.take(i as int));
        assert(sv.take(i + 1).last() == source@);
        let columns = match find_file(&files, &by_id, source.id.as_str(), Ghost(lv)) {
            Some(file) => find_columns(headers, &by_url, file.url.as_str()),
            None => None,
        };
        if let Some(columns) = columns {
            let column = concat2(source.field.as_str(), ".source.extract.column");
            let name = concat2(source.field.as_str(), ".name");
            let column_ok = value_among(links, &by_path, column.as_str(), columns);
            let name_ok = value_among(links, &by_path, name.as_str(), columns);
            push_if(&mut r, column_ok, column);
            push_if(&mut r, name_ok, name);
        }
        assert(views(r@) =~= before + field_paths_of(lv, hv, source@));
    }
    assert(sv.take(sv.len() as int) =~= sv);
    r
}

/// Which fields are approved and which addresses could not be reached.
#[derive(Debug, PartialEq, Eq)]
pub struct Approvals {
    /// In ascending order, each path once.
    pub paths: Vec<String>,
    pub failed_urls: Vec<String>,
}

/// The outcome of all checks, given the servers' answers and the header rows.
pub fn approve(links: &Vec<KbLink>, checked: &Vec<CheckedUrl>, headers: &Vec<FileHeader>) -> (r: Approvals)
    ensures
        views(r.paths@) == in_order(
            approved_paths(link_views(links@), checked_views(checked@), header_views(headers@)),
        ),
        ascending(views(r.paths@)),
        views(r.paths@).to_set() == approved_paths(
            link_views(links@),
            checked_views(checked@),
            header_views(headers@),
        ),
        views(r.failed_urls@) == missed_urls(checked_views(checked@)),
{
    let mut all = vocabulary_approvals(links);
    let ghost first = views(all@);
    let (mut heads, failed) = head_approvals(links, checked);
    let ghost second = views(heads@);
    let mut fields = field_approvals(links, headers);
    let ghost third = views(fields@);
    all.append(&mut heads);
    all.append(&mut fields);
    assert(views(all@) =~= first + second + third);
    Approvals { paths: sort_unique(&all), failed_urls: failed }
}

/// The list cut into pieces of `size`, the last one what is left.
pub open spec fn batches_of<T>(s: Seq<T>, size: int) -> Seq<Seq<T>>
    decreases s.len(),
{
    if s.len() == 0 || size <= 0 {
        Seq::empty()
    } else if s.len() <= size {
        seq![s]
    } else {
        seq![s.take(size)] + batches_of(s.skip(size), size)
    }
}

/// The paths in batches of `UPDATE_BATCH`.
pub fn update_batches(paths: &Vec<String>) -> (r: Vec<Vec<String>>)
    ensures
        r@.map_values(|b: Vec<String>| views(b@)) == batches_of(views(paths@), UPDATE_BATCH as int),
{
    let ghost all = views(paths@);
    let mut r: Vec<Vec<String>> = Vec::new();
    let mut from: usize = 0;
    assert(all.skip(0) =~= all);
    assert(r@.map_values(|b: Vec<String>| views(b@)) + batches_of(all.skip(0), 500) =~= batches_of(all, 500));
    while from < paths.len()
        invariant
            all == views(paths@),
            from <= paths@.len(),
            r@.map_values(|b: Vec<String>| views(b@)) + batches_of(all.skip(from as int), 500) == batches_of(
                all,
                500,
            ),
        decreases paths@.len() - from,
    {
        let to: usize = if paths.len() - from > UPDATE_BATCH {
            from + UPDATE_BATCH
        } else {
            paths.len()
        };
        let mut batch: Vec<String> = Vec::new();
        for i in from..to
            invariant
                from <= to <= paths@.len(),
                all == views(paths@),
                views(batch@) == all.subrange(from as int, i as int),
        {
            let ghost before = views(batch@);
            batch.push(paths[i].clone());
            assert(views(batch@) =~= before.push(all[i as int]));
            assert(all.subrange(from as int, i + 1) =~= before.push(all[i as int]));
        }
        let ghost before = r@.map_values(|b: Vec<String>| views(b@));
        let ghost rest = all.skip(from as int);
        r.push(batch);
        proof {
            let now = r@.map_values(|b: Vec<String>| views(b@));
            assert(now =~= before.push(views(batch@)));
            assert(rest.take(to - from) =~= views(batch@));
            assert(rest.skip(to - from) =~= all.skip(to as int));
            if rest.len() <= 500 {
                assert(rest.take(to - from) =~= rest);
                assert(all.skip(to as int) =~= Seq::empty());
            }
            assert(now + batches_of(all.skip(to as int), 500) =~= before + batches_of(rest, 500));
        }
        from = to;
    }
    assert(all.skip(from as int) =~= Seq::empty());
    assert(r@.map_values(|b: Vec<String>| views(b@)) =~= batches_of(all, 500));
    r
}

proof fn lemma_value_is_of_field(links: Seq<KbLinkView>, path: Seq<char>)
    ensures
        value_at(links, path) is Some ==> link_paths(links).contains(path),
{
    lemma_last_index(link_paths(links), path);
}

proof fn lemma_tasks_of_fields(links: Seq<KbLinkView>, t: UrlTaskView)
    requires
        url_tasks_of(links).contains(t),
    ensures
        link_paths(links).contains(t.path),
    decreases links.len(),
{
    let all = url_tasks_of(links);
    let i = choose|i: int| 0 <= i < all.len() && all[i] == t;
    if links.len() > 0 {
        let rest = links.drop_last();
        let before = url_tasks_of(rest);
        if i < before.len() {
            assert(before[i] == t);
            lemma_tasks_of_fields(rest, t);
            let j = choose|j: int| 0 <= j < rest.len() && link_paths(rest)[j] == t.path;
            assert(link_paths(links)[j] == t.path);
        } else {
            assert(link_paths(links)[links.len() - 1] == t.path);
        }
    }
}

proof fn lemma_vocabulary_paths(links: Seq<KbLinkView>, n: int, p: Seq<char>)
    requires
        0 <= n <= links.len(),
    ensures
        vocabulary_paths(links, n).contains(p) == exists|i: int|
            0 <= i < n && passes_vocabulary(links, #[trigger] links[i]) && links[i].path == p,
    decreases n,
{
    let all = vocabulary_paths(links, n);
    if n > 0 {
        let before = vocabulary_paths(links, n - 1);
        lemma_vocabulary_paths(links, n - 1, p);
        lemma_contains_concat(before, all.skip(before.len() as int), p);
        assert(all =~= before + all.skip(before.len() as int));
        let last = links[n - 1];
        if passes_vocabulary(links, last) {
            assert(all.skip(before.len() as int) =~= seq![last.path]);
            assert(seq![last.path][0] == last.path);
        } else {
            assert(all.skip(before.len() as int) =~= Seq::empty());
        }
    }
}

proof fn lemma_contains_concat(a: Seq<Seq<char>>, b: Seq<Seq<char>>, p: Seq<char>)
    ensures
        (a + b).contains(p) == (a.contains(p) || b.contains(p)),
{
    let all = a + b;
    if a.contains(p) {
        let i = choose|i: int| 0 <= i < a.len() && a[i] == p;
        assert(all[i] == p);
    }
    if b.contains(p) {
        let i = choose|i: int| 0 <= i < b.len() && b[i] == p;
        assert(all[a.len() + i] == p);
    }
    if all.contains(p) {
        let i = choose|i: int| 0 <= i < all.len() && all[i] == p;
        assert(i < a.len() ==> a[i] == p);
        assert(i >= a.len() ==> b[i - a.len()] == p);
    }
}

proof fn lemma_head_paths(links: Seq<KbLinkView>, checked: Seq<CheckedUrlView>, p: Seq<char>)
    ensures
        head_paths(links, checked).contains(p) == exists|i: int|
            0 <= i < checked.len() && head_paths_of(links, #[trigger] checked[i]).contains(p),
    decreases checked.len(),
{
    if checked.len() > 0 {
        let t = checked.drop_last();
        lemma_head_paths(links, t, p);
        lemma_contains_concat(head_paths(links, t), head_paths_of(links, checked.last()), p);
        if head_paths(links, t).contains(p) {
            let i = choose|i: int| 0 <= i < t.len() && head_paths_of(links, #[trigger] t[i]).contains(p);
            assert(checked[i] == t[i]);
        }
        if head_paths_of(links, checked.last()).contains(p) {
            assert(checked[checked.len() - 1] == checked.last());
        }
        if exists|i: int| 0 <= i < checked.len() && head_paths_of(links, #[trigger] checked[i]).contains(p) {
            let i = choose|i: int| 0 <= i < checked.len() && head_paths_of(links, #[trigger] checked[i]).contains(p);
            assert(i < t.len() ==> t[i] == checked[i]);
        }
    }
}

proof fn lemma_field_paths(
    links: Seq<KbLinkView>,
    headers: Seq<FileHeaderView>,
    sources: Seq<FieldSourceView>,
    p: Seq<char>,
)
    ensures
        field_paths(links, headers, sources).contains(p) == exists|i: int|
            0 <= i < sources.len() && field_paths_of(links, headers, #[trigger] sources[i]).contains(p),
    decreases sources.len(),
{
    if sources.len() > 0 {
        let t = sources.drop_last();
        lemma_field_paths(links, headers, t, p);
        lemma_contains_concat(field_paths(links, headers, t), field_paths_of(links, headers, sources.last()), p);
        if field_paths(links, headers, t).contains(p) {
            let i = choose|i: int|
                0 <= i < t.len() && field_paths_of(links, headers, #[trigger] t[i]).contains(p);
            assert(sources[i] == t[i]);
        }
        if field_paths_of(links, headers, sources.last()).contains(p) {
            assert(sources[sources.len() - 1] == sources.last());
        }
        if exists|i: int|
            0 <= i < sources.len() && field_paths_of(links, headers, #[trigger] sources[i]).contains(p) {
            let i = choose|i: int|
                0 <= i < sources.len() && field_paths_of(links, headers, #[trigger] sources[i]).contains(p);
            assert(i < t.len() ==> t[i] == sources[i]);
        }
    }
}

/// A path is approved if and only if a field at it passes the vocabulary checks, an
/// answer of a server approves it, or a header row does.
pub proof fn law_approved_iff_checked(
    links: Seq<KbLinkView>,
    checked: Seq<CheckedUrlView>,
    headers: Seq<FileHeaderView>,
    p: Seq<char>,
)
    ensures
        approved_paths(links, checked, headers).contains(p) == ({
            ||| exists|i: int|
                0 <= i < links.len() && passes_vocabulary(links, #[trigger] links[i]) && links[i].path == p
            ||| exists|i: int|
                0 <= i < checked.len() && head_paths_of(links, #[trigger] checked[i]).contains(p)
            ||| exists|i: int|
                0 <= i < field_sources(links).len() && field_paths_of(
                    links,
                    headers,
                    #[trigger] field_sources(links)[i],
                ).contains(p)
        }),
{
    let n = links.len() as int;
    let a = vocabulary_paths(links, n);
    let b = head_paths(links, checked);
    let c = field_paths(links, headers, field_sources(links));
    lemma_contains_concat(a + b, c, p);
    lemma_contains_concat(a, b, p);
    lemma_vocabulary_paths(links, n, p);
    lemma_head_paths(links, checked, p);
    lemma_field_paths(links, headers, field_sources(links), p);
}

/// Nothing but fields of the knowledge base is ever approved, whatever the servers
/// answer.
pub proof fn law_only_fields_approved(
    links: Seq<KbLinkView>,
    checked: Seq<CheckedUrlView>,
    headers: Seq<FileHeaderView>,
    p: Seq<char>,
)
    requires
        forall|i: int| 0 <= i < checked.len() ==> url_tasks_of(links).contains((#[trigger] checked[i]).task),
        approved_paths(links, checked, headers).contains(p),
    ensures
        link_paths(links).contains(p),
{
    law_approved_iff_checked(links, checked, headers, p);
    let sources = field_sources(links);
    if exists|i: int| 0 <= i < links.len() && passes_vocabulary(links, #[trigger] links[i]) && links[i].path == p {
        let i = choose|i: int|
            0 <= i < links.len() && passes_vocabulary(links, #[trigger] links[i]) && links[i].path == p;
        assert(link_paths(links)[i] == p);
    } else if exists|i: int| 0 <= i < checked.len() && head_paths_of(links, #[trigger] checked[i]).contains(p) {
        let i = choose|i: int| 0 <= i < checked.len() && head_paths_of(links, #[trigger] checked[i]).contains(p);
        let task = checked[i].task;
        lemma_tasks_of_fields(links, task);
        lemma_value_is_of_field(links, task.prefix + ".name"@);
        lemma_value_is_of_field(links, task.prefix + ".encodingFormat"@);
        lemma_value_is_of_field(links, task.prefix + ".contentSize"@);
    } else {
        let i = choose|i: int|
            0 <= i < sources.len() && field_paths_of(links, headers, #[trigger] sources[i]).contains(p);
        lemma_value_is_of_field(links, sources[i].field + ".source.extract.column"@);
        lemma_value_is_of_field(links, sources[i].field + ".name"@);
    }
}

/// The address of every distribution is asked for.
pub proof fn law_every_url_asked(links: Seq<KbLinkView>, i: int)
    requires
        0 <= i < links.len(),
        distribution_of(links[i].path, ".contentUrl"@) is Some,
    ensures
        url_tasks_of(links).contains(
            (UrlTaskView {
                path: links[i].path,
                prefix: distribution_of(links[i].path, ".contentUrl"@)->0,
                url: links[i].value,
            }),
        ),
    decreases links.len(),
{
    let t = links.drop_last();
    let before = url_tasks_of(t);
    let all = url_tasks_of(links);
    let task = UrlTaskView {
        path: links[i].path,
        prefix: distribution_of(links[i].path, ".contentUrl"@)->0,
        url: links[i].value,
    };
    if i < t.len() {
        assert(t[i] == links[i]);
        law_every_url_asked(t, i);
        let j = choose|j: int| 0 <= j < before.len() && before[j] == task;
        assert(all[j] == task);
    } else {
        assert(all[before.len() as int] == task);
    }
}

/// Every address that was asked for is either approved or reported as failed.
pub proof fn law_every_url_accounted_for(links: Seq<KbLinkView>, checked: Seq<CheckedUrlView>, i: int)
    requires
        0 <= i < checked.len(),
    ensures
        checked[i].reached ==> head_paths(links, checked).contains(checked[i].task.path),
        !checked[i].reached ==> missed_urls(checked).contains(checked[i].task.url),
    decreases checked.len(),
{
    let t = checked.drop_last();
    let c = checked[i];
    if c.reached {
        let own = head_paths_of(links, c);
        assert(own[0] == c.task.path);
        assert(own.contains(c.task.path));
        lemma_head_paths(links, checked, c.task.path);
    } else if i < t.len() {
        assert(t[i] == c);
        law_every_url_accounted_for(links, t, i);
        let before = missed_urls(t);
        let j = choose|j: int| 0 <= j < before.len() && before[j] == c.task.url;
        assert(missed_urls(checked)[j] == c.task.url);
    } else {
        assert(missed_urls(checked)[missed_urls(t).len() as int] == c.task.url);
    }
}

/// No file is asked for its header row twice.
pub proof fn law_header_urls_distinct(links: Seq<KbLinkView>, sources: Seq<FieldSourceView>)
    ensures
        header_urls(header_tasks_of(links, sources)).no_duplicates(),
    decreases sources.len(),
{
    if sources.len() > 0 {
        law_header_urls_distinct(links, sources.drop_last());
        let before = header_tasks_of(links, sources.drop_last());
        let all = header_urls(header_tasks_of(links, sources));
        let a = header_urls(before);
        assert forall|i: int, j: int| 0 <= i < all.len() && 0 <= j < all.len() && i != j implies all[i] != all[j] by {
            assert(i < a.len() ==> all[i] == a[i]);
            assert(j < a.len() ==> all[j] == a[j]);
            if i < a.len() {
                assert(a.contains(a[i]));
            }
            if j < a.len() {
                assert(a.contains(a[j]));
            }
        }
    }
}

/// The batches one after another are the list, and no batch is empty or larger than the
/// limit.
pub proof fn law_batches_cover<T>(s: Seq<T>, size: int)
    requires
        size > 0,
    ensures
        batches_of(s, size).flatten() == s,
        forall|i: int| 0 <= i < batches_of(s, size).len() ==> 0 < (#[trigger] batches_of(s, size)[i]).len() <= size,
    decreases s.len(),
{
    let b = batches_of(s, size);
    if s.len() == 0 {
        assert(b.flatten() =~= s);
    } else if s.len() <= size {
        assert(b.drop_first() =~= Seq::<Seq<T>>::empty());
        assert(b.drop_first().flatten() =~= Seq::empty());
        assert(b.flatten() =~= s);
    } else {
        let rest = batches_of(s.skip(size), size);
        law_batches_cover(s.skip(size), size);
        assert(b.drop_first() =~= rest);
        assert(b.flatten() == s.take(size) + rest.flatten());
        assert(s.take(size) + s.skip(size) =~= s);
        assert forall|i: int| 0 <= i < b.len() implies 0 < (#[trigger] b[i]).len() <= size by {
            if i > 0 {
                assert(b[i] == rest[i - 1]);
            }
        }
    }
}

/// A cell of a header row: a name, with quotation marks and white space around it.
pub struct HeaderCell {
    pub before: Seq<char>,
    pub opening: Seq<char>,
    pub name: Seq<char>,
    pub closing: Seq<char>,
    pub after: Seq<char>,
}

impl HeaderCell {
    /// The cell as it stands in the row.
    pub open spec fn text(self) -> Seq<char> {
        self.before + self.opening + self.name + self.closing + self.after
    }

    /// Whether there is nothing but white space and quotation marks around the name, and
    /// neither at its ends.
    pub open spec fn is_well_formed(self) -> bool {
        &&& all_edge(self.before, Edge::Space)
        &&& all_edge(self.after, Edge::Space)
        &&& all_edge(self.opening, Edge::Quote)
        &&& all_edge(self.closing, Edge::Quote)
        &&& is_bare(self.name, Edge::Space)
        &&& is_bare(self.name, Edge::Quote)
    }
}

proof fn lemma_cell_name(c: HeaderCell)
    requires
        c.is_well_formed(),
    ensures
        trimmed(trimmed(c.text(), Edge::Space), Edge::Quote) == c.name,
{
    let inner = c.opening + c.name + c.closing;
    assert(c.text() =~= c.before + inner + c.after);
    if inner.len() > 0 {
        if c.opening.len() > 0 {
            assert(inner[0] == c.opening[0]);
            assert(is_edge(Edge::Quote, c.opening[0]));
        } else if c.name.len() > 0 {
            assert(inner[0] == c.name[0]);
        } else {
            assert(inner[0] == c.closing[0]);
            assert(is_edge(Edge::Quote, c.closing[0]));
        }
        if c.closing.len() > 0 {
            assert(inner.last() == c.closing.last());
            assert(is_edge(Edge::Quote, c.closing[c.closing.len() - 1]));
        } else if c.name.len() > 0 {
            assert(inner.last() == c.name.last());
        } else {
            assert(inner.last() == c.opening.last());
            assert(is_edge(Edge::Quote, c.opening[c.opening.len() - 1]));
        }
    }
    law_trim_takes_the_surroundings(c.before, inner, c.after, Edge::Space);
    law_trim_takes_the_surroundings(c.opening, c.name, c.closing, Edge::Quote);
}

proof fn lemma_joined_contains(parts: Seq<Seq<char>>, d: char, x: char)
    requires
        parts.len() > 0,
    ensures
        joined(parts, seq![d]).contains(x) == ((parts.len() > 1 && x == d) || exists|i: int|
            0 <= i < parts.len() && (#[trigger] parts[i]).contains(x)),
    decreases parts.len(),
{
    let all = joined(parts, seq![d]);
    if parts.len() == 1 {
        if all.contains(x) {
            assert(parts[0].contains(x));
        }
    } else {
        let t = parts.drop_last();
        let front = joined(t, seq![d]);
        lemma_joined_contains(t, d, x);
        assert(all == front + seq![d] + parts.last());
        assert(all[front.len() as int] == d);
        if front.contains(x) {
            let j = choose|j: int| 0 <= j < front.len() && front[j] == x;
            assert(all[j] == x);
        }
        if parts.last().contains(x) {
            let j = choose|j: int| 0 <= j < parts.last().len() && parts.last()[j] == x;
            assert(all[front.len() + 1 + j] == x);
        }
        if all.contains(x) {
            let j = choose|j: int| 0 <= j < all.len() && all[j] == x;
            if j < front.len() {
                assert(front[j] == x);
            } else if j > front.len() {
                assert(parts.last()[j - front.len() - 1] == x);
                assert(parts[parts.len() - 1].contains(x));
            }
        }
        if exists|i: int| 0 <= i < t.len() && (#[trigger] t[i]).contains(x) {
            let i = choose|i: int| 0 <= i < t.len() && (#[trigger] t[i]).contains(x);
            assert(parts[i].contains(x));
        }
        if exists|i: int| 0 <= i < parts.len() && (#[trigger] parts[i]).contains(x) {
            let i = choose|i: int| 0 <= i < parts.len() && (#[trigger] parts[i]).contains(x);
            if i < t.len() {
                assert(t[i].contains(x));
            }
        }
    }
}

/// The column names of a header row are the names in its cells, character by character:
/// whatever stands between the delimiters is a column, without the white space and the
/// quotation marks around it.
pub proof fn law_columns_are_the_names(cells: Seq<HeaderCell>, delimiter: char, format: Seq<char>)
    requires
        cells.len() > 0,
        forall|i: int|
            0 <= i < cells.len() ==> (#[trigger] cells[i]).is_well_formed() && !cells[i].text().contains(delimiter),
        delimiter == '\t' && (cells.len() > 1 || has_part(format, "tab"@) || has_part(format, "tsv"@)) || (delimiter
            == ',' && !has_part(format, "tab"@) && !has_part(format, "tsv"@) && forall|i: int|
            0 <= i < cells.len() ==> !(#[trigger] cells[i]).text().contains('\t')),
    ensures
        columns_of(joined(cells.map_values(|c: HeaderCell| c.text()), seq![delimiter]), format) == cells.map_values(
            |c: HeaderCell| c.name,
        ),
{
    let texts = cells.map_values(|c: HeaderCell| c.text());
    let names = cells.map_values(|c: HeaderCell| c.name);
    let line = joined(texts, seq![delimiter]);
    lemma_joined_contains(texts, delimiter, '\t');
    assert forall|i: int| 0 <= i < texts.len() implies !(#[trigger] texts[i]).contains(delimiter) by {
        assert(cells[i].is_well_formed());
    }
    if delimiter == ',' && line.contains('\t') {
        let i = choose|i: int| 0 <= i < texts.len() && (#[trigger] texts[i]).contains('\t');
        assert(!cells[i].text().contains('\t'));
    }
    law_split_undoes_join(texts, delimiter);
    let all = columns_of(line, format);
    assert(all.len() == names.len());
    assert forall|i: int| 0 <= i < names.len() implies all[i] == names[i] by {
        assert(cells[i].is_well_formed());
        lemma_cell_name(cells[i]);
        assert(texts[i] == cells[i].text());
    }
    assert(all =~= names);
}

/// The columns of a file are those in its first line, whatever follows it, if the server
/// sent the file; they are not read from any other answer, nor from an empty file.
pub proof fn law_header_is_the_first_line(status: u16, line: Seq<char>, rest: Seq<char>, format: Seq<char>, body: Seq<u8>)
    requires
        !line.contains('\n'),
        line.len() > 0 ==> line.last() != '\r',
    ensures
        200 <= status < 300 ==> {
            let columns = Some(columns_of(line, format));
            &&& header_of(status, encode_utf8(line + seq!['\n'] + rest), format) == columns
            &&& header_of(status, encode_utf8(line + seq!['\r', '\n'] + rest), format) == columns
            &&& line.len() > 0 ==> header_of(status, encode_utf8(line), format) == columns
        },
        !(200 <= status < 300) ==> header_of(status, body, format) is None,
        !valid_utf8(body) ==> header_of(status, body, format) is None,
        header_of(status, encode_utf8(Seq::empty()), format) is None,
{
    let a = line + seq!['\n'] + rest;
    let b = line + seq!['\r', '\n'] + rest;
    let n = line.len() as int;
    encode_utf8_valid_utf8(a);
    encode_utf8_decode_utf8(a);
    encode_utf8_valid_utf8(b);
    encode_utf8_decode_utf8(b);
    encode_utf8_valid_utf8(line);
    encode_utf8_decode_utf8(line);
    encode_utf8_valid_utf8(Seq::empty());
    encode_utf8_decode_utf8(Seq::empty());
    assert forall|i: int| 0 <= i < n implies line[i] != '\n' && a[i] == line[i] && b[i] == line[i] by {
        assert(line.contains(line[i]));
    }
    assert(a[n] == '\n');
    assert(b[n] == '\r' && b[n + 1] == '\n');
    lemma_first_pos_is(a, '\n', n);
    lemma_first_pos_is(b, '\n', n + 1);
    lemma_first_pos_is(line, '\n', n);
    assert(a.take(n) =~= line);
    assert(b.take(n) =~= line);
}

/// Whether a server was reached depends on its status code alone, and an address without
/// an answer was not reached.
pub proof fn law_reached(c: CheckedUrl)
    ensures
        c@.reached == (c.reply matches Some(r) && 200 <= r.status && r.status <= 399),
        c@.task.path == c.task.path@ && c@.task.prefix == c.task.prefix@ && c@.task.url == c.task.url@,
        c.reply matches Some(r) ==> c@.content_type == view_opt(r.content_type) && c@.content_length == view_opt(
            r.content_length,
        ),
{
}

/// The addresses that are reported are exactly those that were not reached.
pub proof fn law_only_failures_reported(checked: Seq<CheckedUrlView>, url: Seq<char>)
    ensures
        missed_urls(checked).contains(url) == exists|i: int|
            0 <= i < checked.len() && !(#[trigger] checked[i]).reached && checked[i].task.url == url,
        missed_urls(checked).len() <= checked.len(),
    decreases checked.len(),
{
    if checked.len() > 0 {
        let t = checked.drop_last();
        let before = missed_urls(t);
        law_only_failures_reported(t, url);
        if before.contains(url) {
            let i = choose|i: int| 0 <= i < t.len() && !(#[trigger] t[i]).reached && t[i].task.url == url;
            assert(checked[i] == t[i]);
            let j = choose|j: int| 0 <= j < before.len() && before[j] == url;
            assert(missed_urls(checked)[j] == url);
        }
        if exists|i: int| 0 <= i < checked.len() && !(#[trigger] checked[i]).reached && checked[i].task.url == url {
            let i = choose|i: int|
                0 <= i < checked.len() && !(#[trigger] checked[i]).reached && checked[i].task.url == url;
            if i < t.len() {
                assert(t[i] == checked[i]);
            } else {
                assert(missed_urls(checked)[before.len() as int] == url);
            }
        }
        if missed_urls(checked).contains(url) {
            let j = choose|j: int| 0 <= j < missed_urls(checked).len() && missed_urls(checked)[j] == url;
            if j < before.len() {
                assert(before[j] == url);
                let i = choose|i: int| 0 <= i < t.len() && !(#[trigger] t[i]).reached && t[i].task.url == url;
                assert(checked[i] == t[i]);
            } else {
                assert(checked[checked.len() - 1].task.url == url);
            }
        }
    }
}

proof fn lemma_value_at(links: Seq<KbLinkView>, i: int)
    requires
        link_paths(links).no_duplicates(),
        0 <= i < links.len(),
    ensures
        value_at(links, links[i].path) == Some(links[i].value),
{
    let paths = link_paths(links);
    lemma_last_index(paths, links[i].path);
    assert(paths[i] == links[i].path);
    assert(paths.contains(paths[i]));
    let p = last_index(paths, links[i].path);
    assert(paths[p] == paths[i]);
}

proof fn lemma_only_if(ok: bool, p: Seq<char>, q: Seq<char>)
    ensures
        only_if(ok, p).contains(q) == (ok && p == q),
{
    if ok {
        assert(only_if(ok, p)[0] == p);
    }
}

/// What the answer for a distribution approves: its address, and its file name, media
/// type and size if and only if the field says what the address and the answer say. An
/// answer that is no success approves nothing.
pub proof fn law_answer_approves(
    links: Seq<KbLinkView>,
    c: CheckedUrlView,
    directory: Seq<char>,
    file: Seq<char>,
    query: Seq<char>,
    media: Seq<char>,
    space: Seq<char>,
    parameters: Seq<char>,
    i: int,
)
    requires
        link_paths(links).no_duplicates(),
        0 <= i < links.len(),
        c.task.path == c.task.prefix + ".contentUrl"@,
        !file.contains('/') && !file.contains('?') && !query.contains('/'),
        c.task.url == directory + seq!['/'] + file || c.task.url == directory + seq!['/'] + file + seq!['?'] + query,
        is_bare(media, Edge::Space) && !media.contains(';'),
        all_edge(space, Edge::Space),
        c.content_type matches Some(t) ==> t == space + media + space || t == space + media + space + seq![';']
            + parameters,
    ensures
        !c.reached ==> !head_paths_of(links, c).contains(links[i].path),
        c.reached ==> {
            let approved = head_paths_of(links, c).contains(links[i].path);
            let value = links[i].value;
            &&& links[i].path == c.task.path ==> approved
            &&& links[i].path == c.task.prefix + ".name"@ ==> approved == (file.len() > 0 && value == file)
            &&& links[i].path == c.task.prefix + ".encodingFormat"@ ==> approved == (c.content_type is Some
                && media.len() > 0 && value == media)
            &&& links[i].path == c.task.prefix + ".contentSize"@ ==> approved == (c.content_length == Some(value))
        },
{
    let d = c.task.prefix;
    let p = links[i].path;
    let name = d + ".name"@;
    let format = d + ".encodingFormat"@;
    let size = d + ".contentSize"@;
    reveal_strlit(".contentUrl");
    reveal_strlit(".name");
    reveal_strlit(".encodingFormat");
    reveal_strlit(".contentSize");
    assert(c.task.path.len() == d.len() + 11 && name.len() == d.len() + 5 && format.len() == d.len() + 15 && size.len()
        == d.len() + 12);
    lemma_value_at(links, i);
    let f = file_name_of(c.task.url);
    assert(f == file) by {
        law_cut_at(directory, '/', file);
        law_cut_at(file, '?', query);
        let tail = file + seq!['?'] + query;
        assert(!tail.contains('/')) by {
            if tail.contains('/') {
                let j = choose|j: int| 0 <= j < tail.len() && tail[j] == '/';
                if j < file.len() {
                    assert(file[j] == '/');
                } else if j > file.len() {
                    assert(query[j - file.len() - 1] == '/');
                }
            }
        }
        law_cut_at(directory, '/', tail);
        assert(directory + seq!['/'] + file + seq!['?'] + query =~= directory + seq!['/'] + tail);
    }
    let m = media_type_of(c.content_type);
    if c.content_type is Some {
        let whole = space + media + space;
        assert(!whole.contains(';')) by {
            if whole.contains(';') {
                let j = choose|j: int| 0 <= j < whole.len() && whole[j] == ';';
                if j < space.len() {
                    assert(is_edge(Edge::Space, space[j]));
                } else if j < space.len() + media.len() {
                    assert(media[j - space.len()] == ';');
                } else {
                    assert(is_edge(Edge::Space, space[j - space.len() - media.len()]));
                }
            }
        }
        law_cut_at(whole, ';', parameters);
        law_trim_takes_the_surroundings(space, media, space, Edge::Space);
        assert(m == media);
    }
    if c.reached {
        let name_ok = f.len() > 0 && value_at(links, name) == Some(f);
        let format_ok = m.len() > 0 && value_at(links, format) == Some(m);
        let size_ok = c.content_length is Some && value_at(links, size) == c.content_length;
        let first = seq![c.task.path];
        lemma_only_if(name_ok, name, p);
        lemma_only_if(format_ok, format, p);
        lemma_only_if(size_ok, size, p);
        lemma_contains_concat(first, only_if(name_ok, name), p);
        lemma_contains_concat(first + only_if(name_ok, name), only_if(format_ok, format), p);
        lemma_contains_concat(
            first + only_if(name_ok, name) + only_if(format_ok, format),
            only_if(size_ok, size),
            p,
        );
        assert(first[0] == c.task.path);
    }
}

proof fn lemma_text_files(links: Seq<KbLinkView>, n: int, f: TextFileView)
    requires
        0 <= n <= links.len(),
    ensures
        text_files(links, n).contains(f) == exists|k: int|
            0 <= k < n && #[trigger] gives_file(links, k, f),
    decreases n,
{
    if n > 0 {
        let before = text_files(links, n - 1);
        let all = text_files(links, n);
        lemma_text_files(links, n - 1, f);
        if before.contains(f) {
            let j = choose|j: int| 0 <= j < before.len() && before[j] == f;
            assert(all[j] == f);
        }
        if gives_file(links, n - 1, f) {
            assert(all[before.len() as int] == f);
        }
        if all.contains(f) {
            let j = choose|j: int| 0 <= j < all.len() && all[j] == f;
            if j < before.len() {
                assert(before[j] == f);
            } else {
                assert(gives_file(links, n - 1, f));
            }
        }
    }
}

/// Whether the field at position `k` is the `@id` of the text file `f`.
spec fn gives_file(links: Seq<KbLinkView>, k: int, f: TextFileView) -> bool {
    distribution_of(links[k].path, ".@id"@) matches Some(d) && f == file_for(links, d, links[k].value) && is_text_file(
        f.url,
        f.format,
    )
}

proof fn lemma_file_of(links: Seq<KbLinkView>, b: int, d: Seq<char>)
    requires
        0 <= b < links.len(),
        distribution_of(links[b].path, ".@id"@) == Some(d),
        forall|k: int|
            0 <= k < links.len() && distribution_of((#[trigger] links[k]).path, ".@id"@) is Some && links[k].value
                == links[b].value ==> k == b,
    ensures
        file_of(links, links[b].value) == ({
            let f = file_for(links, d, links[b].value);
            if is_text_file(f.url, f.format) {
                Some(f)
            } else {
                None
            }
        }),
{
    let n = links.len() as int;
    let id = links[b].value;
    let files = text_files(links, n);
    let ids = file_ids(files);
    let f = file_for(links, d, id);
    lemma_last_index(ids, id);
    lemma_text_files(links, n, f);
    if is_text_file(f.url, f.format) {
        assert(gives_file(links, b, f));
        let j = choose|j: int| 0 <= j < files.len() && files[j] == f;
        assert(ids[j] == id);
    }
    let p = last_index(ids, id);
    if 0 <= p < files.len() {
        let g = files[p];
        assert(ids[p] == g.id);
        assert(files.contains(g));
        lemma_text_files(links, n, g);
        let k = choose|k: int| 0 <= k < n && #[trigger] gives_file(links, k, g);
        assert(links[k].value == id);
        assert(k == b);
    }
}

proof fn lemma_sources(links: Seq<KbLinkView>, s: FieldSourceView)
    ensures
        field_sources(links).contains(s) ==> exists|k: int|
            0 <= k < links.len() && source_field_of((#[trigger] links[k]).path) == Some(s.field) && links[k].value
                == s.id,
        (exists|k: int| 0 <= k < links.len() && source_field_of((#[trigger] links[k]).path) == Some(s.field))
            ==> source_fields(field_sources(links)).contains(s.field),
    decreases links.len(),
{
    if links.len() > 0 {
        let t = links.drop_last();
        let before = field_sources(t);
        let all = field_sources(links);
        let a = source_fields(before);
        let b = source_fields(all);
        lemma_sources(t, s);
        assert forall|j: int| 0 <= j < a.len() implies b[j] == #[trigger] a[j] by {
            assert(all[j] == before[j]);
        }
        if before.contains(s) {
            let k = choose|k: int|
                0 <= k < t.len() && source_field_of((#[trigger] t[k]).path) == Some(s.field) && t[k].value == s.id;
            assert(links[k] == t[k]);
        }
        if all.contains(s) {
            let j = choose|j: int| 0 <= j < all.len() && all[j] == s;
            if j < before.len() {
                assert(before[j] == s);
            } else {
                assert(links[links.len() - 1] == links.last());
            }
        }
        if a.contains(s.field) {
            let j = choose|j: int| 0 <= j < a.len() && a[j] == s.field;
            assert(b[j] == s.field);
        }
        if exists|k: int| 0 <= k < links.len() && source_field_of((#[trigger] links[k]).path) == Some(s.field) {
            let k = choose|k: int|
                0 <= k < links.len() && source_field_of((#[trigger] links[k]).path) == Some(s.field);
            if k < t.len() {
                assert(t[k] == links[k]);
            } else if !a.contains(s.field) {
                assert(b[a.len() as int] == s.field);
            }
        }
    }
}

/// The source column and the name of a field are approved by the header row of the file
/// that the field comes from, if and only if they are among the columns of that file.
/// `a` to `e` are the positions of the field's source, of the `@id`, the address and the
/// format of the distribution, and of the column or the name; `h` is that of the header.
pub proof fn law_header_decides(
    links: Seq<KbLinkView>,
    headers: Seq<FileHeaderView>,
    field: Seq<char>,
    d: Seq<char>,
    a: int,
    b: int,
    c: int,
    f: int,
    format: Seq<char>,
    e: int,
    h: int,
)
    requires
        link_paths(links).no_duplicates(),
        0 <= a < links.len() && 0 <= b < links.len() && 0 <= c < links.len() && 0 <= e < links.len(),
        source_field_of(links[a].path) == Some(field),
        forall|k: int|
            0 <= k < links.len() && source_field_of((#[trigger] links[k]).path) == Some(field) ==> k == a,
        distribution_of(links[b].path, ".@id"@) == Some(d),
        links[b].value == links[a].value,
        forall|k: int|
            0 <= k < links.len() && distribution_of((#[trigger] links[k]).path, ".@id"@) is Some && links[k].value
                == links[b].value ==> k == b,
        links[c].path == d + ".contentUrl"@,
        if 0 <= f < links.len() {
            links[f].path == d + ".encodingFormat"@ && format == links[f].value
        } else {
            !link_paths(links).contains(d + ".encodingFormat"@) && format.len() == 0
        },
        links[e].path == field + ".source.extract.column"@ || links[e].path == field + ".name"@,
        headers.map_values(|x: FileHeaderView| x.url).no_duplicates(),
        0 <= h < headers.len(),
        headers[h].url == links[c].value,
    ensures
        field_paths(links, headers, field_sources(links)).contains(links[e].path) == (is_text_file(
            links[c].value,
            format,
        ) && headers[h].columns is Some && headers[h].columns->0.contains(links[e].value)),
        is_text_file(links[c].value, format) && headers[h].columns is Some
            && headers[h].columns->0.contains(links[e].value) ==> approved_paths(
            links,
            Seq::empty(),
            headers,
        ).contains(links[e].path),
{
    let sources = field_sources(links);
    let own = FieldSourceView { field, id: links[a].value };
    let p = links[e].path;
    let column = field + ".source.extract.column"@;
    let name = field + ".name"@;
    reveal_strlit(".source.extract.column");
    reveal_strlit(".name");
    lemma_value_at(links, c);
    if 0 <= f < links.len() {
        lemma_value_at(links, f);
    } else {
        lemma_last_index(link_paths(links), d + ".encodingFormat"@);
        assert(format =~= Seq::empty());
        assert(or_empty(value_at(links, d + ".encodingFormat"@)) =~= format);
    }
    lemma_value_at(links, e);
    lemma_file_of(links, b, d);
    lemma_sources(links, own);
    let fields = source_fields(sources);
    assert(fields.contains(field));
    let s = choose|s: int| 0 <= s < fields.len() && fields[s] == field;
    assert(sources.contains(sources[s]));
    lemma_sources(links, sources[s]);
    assert(sources[s] == own);
    let urls = headers.map_values(|x: FileHeaderView| x.url);
    lemma_last_index(urls, links[c].value);
    assert(urls[h] == links[c].value);
    assert(urls.contains(urls[h]));
    let at = last_index(urls, links[c].value);
    assert(urls[at] == urls[h]);
    assert(columns_at(headers, links[c].value) == headers[h].columns);
    let found = field_paths_of(links, headers, own);
    let ok = is_text_file(links[c].value, format) && headers[h].columns is Some
        && headers[h].columns->0.contains(links[e].value);
    assert(column.len() == field.len() + 22 && name.len() == field.len() + 5);
    if is_text_file(links[c].value, format) && headers[h].columns is Some {
        let cols = headers[h].columns->0;
        let x = is_among(links, column, cols);
        let y = is_among(links, name, cols);
        lemma_only_if(x, column, p);
        lemma_only_if(y, name, p);
        lemma_contains_concat(only_if(x, column), only_if(y, name), p);
    }
    assert(found.contains(p) == ok);
    lemma_field_paths(links, headers, sources, p);
    if ok {
        assert(field_paths_of(links, headers, sources[s]).contains(p));
        law_approved_iff_checked(links, Seq::empty(), headers, p);
    } else if field_paths(links, headers, sources).contains(p) {
        let i = choose|i: int|
            0 <= i < sources.len() && field_paths_of(links, headers, #[trigger] sources[i]).contains(p);
        let g = sources[i].field;
        lemma_paths_of_field(links, headers, sources[i], p);
        assert(g == field) by {
            if p == g + ".name"@ {
                assert(p.last() == 'e');
                assert(p == name) by {
                    if p == column {
                        assert(p.last() == 'n');
                    }
                }
                assert(g =~= p.take(p.len() - 5));
                assert(field =~= name.take(name.len() - 5));
            } else {
                assert(p.last() == 'n');
                assert(p == column) by {
                    if p == name {
                        assert(p.last() == 'e');
                    }
                }
                assert(g =~= p.take(p.len() - 22));
                assert(field =~= column.take(column.len() - 22));
            }
        }
        assert(sources.contains(sources[i]));
        lemma_sources(links, sources[i]);
        assert(sources[i] == own);
    }
}

proof fn lemma_paths_of_field(
    links: Seq<KbLinkView>,
    headers: Seq<FileHeaderView>,
    source: FieldSourceView,
    p: Seq<char>,
)
    requires
        field_paths_of(links, headers, source).contains(p),
    ensures
        p == source.field + ".source.extract.column"@ || p == source.field + ".name"@,
{
    let file = file_of(links, source.id)->0;
    let columns = columns_at(headers, file.url)->0;
    let column = source.field + ".source.extract.column"@;
    let name = source.field + ".name"@;
    lemma_only_if(is_among(links, column, columns), column, p);
    lemma_only_if(is_among(links, name, columns), name, p);
    lemma_contains_concat(
        only_if(is_among(links, column, columns), column),
        only_if(is_among(links, name, columns), name),
        p,
    );
}

/// Which fields pass without a request: a type or a data type that the format knows, a
/// reference to a distribution that is there, any other identifier that is not empty, and
/// a version of the format; and no other field.
pub proof fn law_vocabulary(links: Seq<KbLinkView>, link: KbLinkView, stem: Seq<char>)
    requires
        !has_part(link.path, "source.fileObject.@id"@),
    ensures
        ({
            let passes = passes_vocabulary(links, link);
            let types = seq![
                "sc:Dataset"@,
                "cr:FileObject"@,
                "cr:FileSet"@,
                "cr:RecordSet"@,
                "cr:Field"@,
                "sc:Organization"@,
                "sc:Person"@,
                "sc:CreativeWork"@,
            ];
            let data_types = seq![
                "sc:Text"@,
                "sc:Integer"@,
                "sc:Float"@,
                "sc:Boolean"@,
                "sc:Date"@,
                "sc:Time"@,
                "sc:DateTime"@,
                "sc:URL"@,
            ];
            &&& link.path == stem + seq!['.'] + "@type"@ ==> passes == types.contains(link.value)
            &&& link.path == stem + seq!['.'] + "dataType"@ ==> passes == data_types.contains(link.value)
            &&& link.path == stem + seq!['.'] + "@id"@ ==> passes == (link.value.len() > 0)
            &&& link.path == stem + seq!['.'] + "name"@ ==> !passes
            &&& link.path == "conformsTo"@ ==> passes == "http://mlcommons.org/croissant/1.0"@.is_prefix_of(link.value)
        }),
{
    lemma_leaves();
    law_cut_at(stem, '.', "@type"@);
    law_cut_at(stem, '.', "dataType"@);
    law_cut_at(stem, '.', "@id"@);
    law_cut_at(stem, '.', "name"@);
    law_cut_at("conformsTo"@, '.', Seq::empty());
    let types = seq![
        "sc:Dataset"@,
        "cr:FileObject"@,
        "cr:FileSet"@,
        "cr:RecordSet"@,
        "cr:Field"@,
        "sc:Organization"@,
        "sc:Person"@,
        "sc:CreativeWork"@,
    ];
    let data_types = seq![
        "sc:Text"@,
        "sc:Integer"@,
        "sc:Float"@,
        "sc:Boolean"@,
        "sc:Date"@,
        "sc:Time"@,
        "sc:DateTime"@,
        "sc:URL"@,
    ];
    assert(is_valid_type(link.value) == types.contains(link.value)) by {
        if is_valid_type(link.value) {
            assert(types[0] == link.value || types[1] == link.value || types[2] == link.value || types[3] == link.value
                || types[4] == link.value || types[5] == link.value || types[6] == link.value || types[7]
                == link.value);
        }
    }
    assert(is_valid_data_type(link.value) == data_types.contains(link.value)) by {
        if is_valid_data_type(link.value) {
            assert(data_types[0] == link.value || data_types[1] == link.value || data_types[2] == link.value
                || data_types[3] == link.value || data_types[4] == link.value || data_types[5] == link.value
                || data_types[6] == link.value || data_types[7] == link.value);
        }
    }
    if link.path == stem + seq!['.'] + "name"@ {
        assert(link.path[stem.len() as int] == '.');
        assert(link.path.contains('.'));
    }
}

proof fn lemma_leaves()
    ensures
        !"@type"@.contains('.') && "@type"@.len() == 5,
        !"dataType"@.contains('.') && "dataType"@.len() == 8,
        !"@id"@.contains('.') && "@id"@.len() == 3,
        !"name"@.contains('.') && "name"@.len() == 4,
        !"conformsTo"@.contains('.') && "conformsTo"@.len() == 10,
{
    reveal_strlit("@type");
    reveal_strlit("dataType");
    reveal_strlit("@id");
    reveal_strlit("name");
    reveal_strlit("conformsTo");
}

/// A reference of a field to its source file passes if and only if a distribution has
/// that `@id`.
pub proof fn law_references_are_checked(links: Seq<KbLinkView>, link: KbLinkView, field: Seq<char>)
    requires
        link.path == field + ".source.fileObject.@id"@,
    ensures
        passes_vocabulary(links, link) == exists|i: int|
            0 <= i < links.len() && distribution_of((#[trigger] links[i]).path, ".@id"@) is Some && links[i].value
                == link.value,
{
    let part = "source.fileObject.@id"@;
    let stem = field + ".source.fileObject"@;
    lemma_leaves();
    lemma_source_leaf();
    law_part_is_found(field + seq!['.'], part, Seq::empty());
    assert(link.path =~= field + seq!['.'] + part + Seq::<char>::empty());
    assert(link.path =~= stem + seq!['.'] + "@id"@);
    law_cut_at(stem, '.', "@id"@);
}

proof fn lemma_source_leaf()
    ensures
        ".source.fileObject.@id"@ == seq!['.'] + "source.fileObject.@id"@,
        ".source.fileObject.@id"@ == ".source.fileObject"@ + seq!['.'] + "@id"@,
        "@type"@ != "@id"@,
        "dataType"@ != "@id"@,
{
    reveal_strlit(".source.fileObject.@id");
    reveal_strlit("source.fileObject.@id");
    reveal_strlit(".source.fileObject");
    reveal_strlit("@id");
    reveal_strlit("@type");
    reveal_strlit("dataType");
    assert("@type"@.len() == 5 && "dataType"@.len() == 8 && "@id"@.len() == 3);
    assert(".source.fileObject.@id"@ =~= seq!['.'] + "source.fileObject.@id"@);
    assert(".source.fileObject.@id"@ =~= ".source.fileObject"@ + seq!['.'] + "@id"@);
}

/// A file is read for its header only where it is in plain text, by its ending or by its
/// format, and has an address; never where it is packed.
pub proof fn law_text_files(url: Seq<char>, format: Seq<char>, a: Seq<char>, b: Seq<char>)
    ensures
        ".gz"@.is_suffix_of(lowercase(url)) || ".zip"@.is_suffix_of(lowercase(url)) ==> !is_text_file(url, format),
        !"http"@.is_prefix_of(url) ==> !is_text_file(url, format),
        "http"@.is_prefix_of(url) && (".csv"@.is_suffix_of(lowercase(url)) || ".tsv"@.is_suffix_of(lowercase(url)))
            ==> is_text_file(url, format),
        "http"@.is_prefix_of(url) && !".gz"@.is_suffix_of(lowercase(url)) && !".zip"@.is_suffix_of(lowercase(url))
            ==> is_text_file(url, a + "csv"@ + b) && is_text_file(url, a + "tsv"@ + b) && is_text_file(
            url,
            a + "tab"@ + b,
        ),
        is_text_file(url, Seq::empty()) ==> is_text_file(url, format),
        is_text_file(url, Seq::empty()) ==> ".csv"@.is_suffix_of(lowercase(url)) || ".tsv"@.is_suffix_of(
            lowercase(url),
        ),
        is_text_file(url, format) && !is_text_file(url, Seq::empty()) ==> exists|i: int|
            0 <= i <= format.len() - 3 && (#[trigger] format.subrange(i, i + 3) == "csv"@ || format.subrange(i, i + 3)
                == "tsv"@ || format.subrange(i, i + 3) == "tab"@),
{
    law_part_is_found(a, "csv"@, b);
    law_part_is_found(a, "tsv"@, b);
    law_part_is_found(a, "tab"@, b);
    reveal_strlit(".csv");
    reveal_strlit(".tsv");
    reveal_strlit(".gz");
    reveal_strlit(".zip");
    reveal_strlit("csv");
    reveal_strlit("tsv");
    reveal_strlit("tab");
    let l = lowercase(url);
    if ".csv"@.is_suffix_of(l) || ".tsv"@.is_suffix_of(l) {
        let n = l.len() as int;
        assert(l[n - 1] == 'v') by {
            if ".csv"@.is_suffix_of(l) {
                assert(l.subrange(n - 4, n)[3] == 'v');
            } else {
                assert(l.subrange(n - 4, n)[3] == 'v');
            }
        }
        if ".gz"@.is_suffix_of(l) {
            assert(l.subrange(n - 3, n)[2] == 'z');
        }
        if ".zip"@.is_suffix_of(l) {
            assert(l.subrange(n - 4, n)[3] == 'p');
        }
    }
    let none = Seq::<char>::empty();
    assert forall|i: int| !part_at(none, "csv"@, i) && !part_at(none, "tsv"@, i) && !part_at(none, "tab"@, i) by {}
}

/// The addresses that are asked for are those of distributions, each with the
/// distribution that it belongs to, and no others.
pub proof fn law_only_distributions_asked(links: Seq<KbLinkView>, k: int)
    requires
        0 <= k < url_tasks_of(links).len(),
    ensures
        exists|i: int|
            0 <= i < links.len() && (#[trigger] links[i]).path == url_tasks_of(links)[k].path && links[i].value
                == url_tasks_of(links)[k].url,
        url_tasks_of(links)[k].path == url_tasks_of(links)[k].prefix + ".contentUrl"@,
        url_tasks_of(links).len() <= links.len(),
    decreases links.len(),
{
    let t = links.drop_last();
    let before = url_tasks_of(t);
    let task = url_tasks_of(links)[k];
    law_distribution_path(Seq::empty(), ".contentUrl"@, links.last().path);
    if before.len() > 0 {
        law_only_distributions_asked(t, 0);
    }
    if k < before.len() {
        law_only_distributions_asked(t, k);
        let i = choose|i: int| 0 <= i < t.len() && (#[trigger] t[i]).path == task.path && t[i].value == task.url;
        assert(links[i] == t[i]);
    } else {
        assert(links[links.len() - 1].path == task.path);
    }
}

/// The header row is asked for of every text file that a field comes from, and of no
/// other file.
pub proof fn law_header_rows_asked(links: Seq<KbLinkView>, sources: Seq<FieldSourceView>, s: int, t: int)
    requires
        0 <= s < sources.len(),
    ensures
        file_of(links, sources[s].id) matches Some(f) ==> header_urls(header_tasks_of(links, sources)).contains(f.url),
        0 <= t < header_tasks_of(links, sources).len() ==> exists|k: int|
            0 <= k < sources.len() && file_of(links, (#[trigger] sources[k]).id) is Some && file_of(
                links,
                sources[k].id,
            )->0.url == header_tasks_of(links, sources)[t].url && file_of(links, sources[k].id)->0.format
                == header_tasks_of(links, sources)[t].format,
    decreases sources.len(),
{
    let r = sources.drop_last();
    let before = header_tasks_of(links, r);
    let all = header_tasks_of(links, sources);
    let a = header_urls(before);
    let b = header_urls(all);
    assert forall|j: int| 0 <= j < a.len() implies b[j] == #[trigger] a[j] by {
        assert(all[j] == before[j]);
    }
    if let Some(f) = file_of(links, sources[s].id) {
        if s < r.len() {
            assert(r[s] == sources[s]);
            law_header_rows_asked(links, r, s, -1);
            let j = choose|j: int| 0 <= j < a.len() && a[j] == f.url;
            assert(b[j] == f.url);
        } else if a.contains(f.url) {
            let j = choose|j: int| 0 <= j < a.len() && a[j] == f.url;
            assert(b[j] == f.url);
        } else {
            assert(b[a.len() as int] == f.url);
        }
    }
    if 0 <= t < all.len() {
        if t < before.len() {
            law_header_rows_asked(links, r, 0, t);
            let k = choose|k: int|
                0 <= k < r.len() && file_of(links, (#[trigger] r[k]).id) is Some && file_of(links, r[k].id)->0.url
                    == before[t].url && file_of(links, r[k].id)->0.format == before[t].format;
            assert(sources[k] == r[k]);
        } else {
            assert(sources[sources.len() - 1] == sources.last());
        }
    }
}

/// Of several source files that a field names, the first one counts.
pub proof fn law_first_source_counts(links: Seq<KbLinkView>, field: Seq<char>, k: int)
    requires
        0 <= k < links.len(),
        source_field_of(links[k].path) == Some(field),
        forall|j: int| 0 <= j < k ==> source_field_of((#[trigger] links[j]).path) != Some(field),
    ensures
        field_sources(links).contains(FieldSourceView { field, id: links[k].value }),
        source_fields(field_sources(links)).no_duplicates(),
    decreases links.len(),
{
    let t = links.drop_last();
    let before = field_sources(t);
    let all = field_sources(links);
    let s = FieldSourceView { field, id: links[k].value };
    lemma_source_fields_distinct(links);
    if k < t.len() {
        assert(t[k] == links[k]);
        assert forall|j: int| 0 <= j < k implies source_field_of((#[trigger] t[j]).path) != Some(field) by {
            assert(t[j] == links[j]);
        }
        law_first_source_counts(t, field, k);
        let i = choose|i: int| 0 <= i < before.len() && before[i] == s;
        assert(all[i] == s);
    } else {
        let names = source_fields(before);
        if names.contains(field) {
            let i = choose|i: int| 0 <= i < names.len() && names[i] == field;
            assert(before.contains(before[i]));
            lemma_sources(t, before[i]);
            let j = choose|j: int|
                0 <= j < t.len() && source_field_of((#[trigger] t[j]).path) == Some(before[i].field) && t[j].value
                    == before[i].id;
            assert(links[j] == t[j]);
        }
        assert(all[before.len() as int] == s);
    }
}

proof fn lemma_source_fields_distinct(links: Seq<KbLinkView>)
    ensures
        source_fields(field_sources(links)).no_duplicates(),
    decreases links.len(),
{
    if links.len() > 0 {
        lemma_source_fields_distinct(links.drop_last());
        let before = field_sources(links.drop_last());
        let a = source_fields(before);
        let b = source_fields(field_sources(links));
        assert forall|i: int, j: int| 0 <= i < b.len() && 0 <= j < b.len() && i != j implies b[i] != b[j] by {
            assert(i < a.len() ==> b[i] == a[i]);
            assert(j < a.len() ==> b[j] == a[j]);
            if i < a.len() {
                assert(a.contains(a[i]));
            }
            if j < a.len() {
                assert(a.contains(a[j]));
            }
        }
    }
}

/// No check of the vocabulary approves a field that is no type, data type or identifier and
/// does not say what the document conforms to; at the top of the document the same names
/// are checked as below it.
pub proof fn law_nothing_else_passes(links: Seq<KbLinkView>, link: KbLinkView, stem: Seq<char>, leaf: Seq<char>)
    requires
        !leaf.contains('.'),
        link.path == leaf || link.path == stem + seq!['.'] + leaf,
    ensures
        leaf != "@type"@ && leaf != "dataType"@ && leaf != "@id"@ && link.path != "conformsTo"@ ==> !passes_vocabulary(
            links,
            link,
        ),
        ({
            let below = KbLinkView { path: stem + seq!['.'] + leaf, ..link };
            link.path == leaf && leaf != "conformsTo"@ && !has_part(below.path, "source.fileObject.@id"@)
                ==> passes_vocabulary(links, link) == passes_vocabulary(links, below)
        }),
{
    lemma_leaves();
    law_cut_at(stem, '.', leaf);
    law_cut_at(leaf, '.', leaf);
    reveal_strlit("source.fileObject.@id");
    assert("source.fileObject.@id"@.len() == 21);
    let below = stem + seq!['.'] + leaf;
    assert(below[stem.len() as int] == '.');
    assert(below.contains('.'));
    if leaf == "@id"@ {
        assert(!has_part(leaf, "source.fileObject.@id"@));
    }
}

} // verus!
