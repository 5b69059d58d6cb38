//! The review page: the fields of a knowledge base in natural order, page by page,
//! under the sections that they belong to.
use crate::document::{compact_text, parse_document, read_text, to_compact_text};
use crate::json::{items_view, lemma_items_view, Json, JsonView};
use crate::lookup::{
    distinct, first_index, grouped, index_first, law_grouped_keeps_items, law_groups_distinct,
    law_groups_hold_their_items, lemma_first_index, lemma_grouped_push, locates_first, set_of,
};
use crate::order::{
    goes_before, is_stable_order, law_less_asymmetric, law_shared_beginning_contiguous, law_stable_order_exists, less, positions,
    sort_by_key, stable_order,
};
use crate::paging::{current_page, law_every_item_on_a_page, page_count, page_of, shown_page, PAGE_SIZE};
use crate::paths::{group_of, group_with};
use crate::patterns::{compile, natural_key, pattern_of, replace_indices, INDEX, INDEX_DIGITS};
use crate::text::{join_with, joined, same, views};
use vstd::hash_map::StringHashMap;
use vstd::hash_set::StringHashSet;
use vstd::prelude::*;

verus! {

/// A reviewed field of a knowledge base.
#[derive(Debug, PartialEq, Eq)]
pub struct KbLink {
    pub kb_name: String,
    pub path: String,
    pub value: String,
    pub url: String,
    /// The confidence, as the bits of a single precision number.
    pub confidence: u32,
    pub reviewed: bool,
    pub auto_reviewed: bool,
}

/// What a reviewed field says.
pub struct KbLinkView {
    pub kb_name: Seq<char>,
    pub path: Seq<char>,
    pub value: Seq<char>,
    pub url: Seq<char>,
    pub confidence: u32,
    pub reviewed: bool,
    pub auto_reviewed: bool,
}

impl View for KbLink {
    type V = KbLinkView;

    open spec fn view(&self) -> KbLinkView {
        KbLinkView {
            kb_name: self.kb_name@,
            path: self.path@,
            value: self.value@,
            url: self.url@,
            confidence: self.confidence,
            reviewed: self.reviewed,
            auto_reviewed: self.auto_reviewed,
        }
    }
}

/// What a list of reviewed fields says.
pub open spec fn link_views(s: Seq<KbLink>) -> Seq<KbLinkView> {
    s.map_values(|l: KbLink| l@)
}

/// An issue found at a path.
#[derive(Debug, PartialEq, Eq)]
pub struct IssueNote {
    pub path: String,
    pub issue_type: String,
    pub detail: String,
}

/// What an issue says.
pub struct IssueNoteView {
    pub path: Seq<char>,
    pub issue_type: Seq<char>,
    pub detail: Seq<char>,
}

impl View for IssueNote {
    type V = IssueNoteView;

    open spec fn view(&self) -> IssueNoteView {
        IssueNoteView { path: self.path@, issue_type: self.issue_type@, detail: self.detail@ }
    }
}

/// What a list of issues says.
pub open spec fn note_views(s: Seq<IssueNote>) -> Seq<IssueNoteView> {
    s.map_values(|n: IssueNote| n@)
}

/// A field as the review page shows it.
#[derive(Debug, PartialEq, Eq)]
pub struct FieldEntry {
    pub path: String,
    pub value: String,
    pub url: String,
    pub confidence_display: String,
    pub confidence_label: String,
    pub pre_accepted: bool,
    pub pre_auto_reviewed: bool,
    pub issue_type: String,
    pub issue_detail: String,
    pub run_changed: bool,
}

/// What the review page shows of a field.
pub struct FieldEntryView {
    pub path: Seq<char>,
    pub value: Seq<char>,
    pub url: Seq<char>,
    pub confidence_display: Seq<char>,
    pub confidence_label: Seq<char>,
    pub pre_accepted: bool,
    pub pre_auto_reviewed: bool,
    pub issue_type: Seq<char>,
    pub issue_detail: Seq<char>,
    pub run_changed: bool,
}

impl View for FieldEntry {
    type V = FieldEntryView;

    open spec fn view(&self) -> FieldEntryView {
        FieldEntryView {
            path: self.path@,
            value: self.value@,
            url: self.url@,
            confidence_display: self.confidence_display@,
            confidence_label: self.confidence_label@,
            pre_accepted: self.pre_accepted,
            pre_auto_reviewed: self.pre_auto_reviewed,
            issue_type: self.issue_type@,
            issue_detail: self.issue_detail@,
            run_changed: self.run_changed,
        }
    }
}

/// What the review page shows of a list of fields.
pub open spec fn entry_views(s: Seq<FieldEntry>) -> Seq<FieldEntryView> {
    s.map_values(|e: FieldEntry| e@)
}

/// The fields of one section.
#[derive(Debug, PartialEq, Eq)]
pub struct FieldGroup {
    pub name: String,
    pub fields: Vec<FieldEntry>,
}

/// The sections with what they show.
pub open spec fn group_views(s: Seq<FieldGroup>) -> Seq<(Seq<char>, Seq<FieldEntryView>)> {
    s.map_values(|g: FieldGroup| (g.name@, entry_views(g.fields@)))
}

/// The section of each field.
pub open spec fn sections_of(s: Seq<FieldEntryView>) -> Seq<Seq<char>> {
    s.map_values(|e: FieldEntryView| group_of(e.path))
}

/// The fields under their sections, in the order in which the sections first appear.
pub open spec fn in_sections(s: Seq<FieldEntryView>) -> Seq<(Seq<char>, Seq<FieldEntryView>)> {
    grouped(sections_of(s), s)
}

/// The word for a confidence, given as the bits of a single precision number: from 0.9
/// `high`, from 0.7 `medium`, above zero `low`, else `unknown`.
pub open spec fn confidence_word(bits: u32) -> Seq<char> {
    if 0x3f666666 <= bits <= 0x7f800000 {
        "high"@
    } else if 0x3f333333 <= bits < 0x3f666666 {
        "medium"@
    } else if 0 < bits < 0x3f333333 {
        "low"@
    } else {
        "unknown"@
    }
}

/// The word for a confidence.
pub fn confidence_label(bits: u32) -> (r: String)
    ensures
        r@ == confidence_word(bits),
{
    if 0x3f666666 <= bits && bits <= 0x7f800000 {
        "high".to_string()
    } else if 0x3f333333 <= bits && bits < 0x3f666666 {
        "medium".to_string()
    } else if 0 < bits && bits < 0x3f333333 {
        "low".to_string()
    } else {
        "unknown".to_string()
    }
}

/// A field's value as it is shown: the items of an array one after another, any other
/// value as it stands.
pub open spec fn shown_value(raw: Seq<char>) -> Seq<char> {
    match read_text(raw) {
        Ok(JsonView::Array(items)) => joined(items.map_values(|j: JsonView| compact_text(j)), ", "@),
        _ => raw,
    }
}

/// The value to show, given the texts of its items where it is an array.
pub fn show_items(raw: &str, items: &Option<Vec<String>>) -> (r: String)
    ensures
        r@ == match *items {
            Some(texts) => joined(views(texts@), ", "@),
            None => raw@,
        },
{
    match items {
        Some(texts) => join_with(texts, ", "),
        None => raw.to_string(),
    }
}

/// A field's value as it is shown.
pub fn display_value(raw: &str) -> (r: String)
    ensures
        r@ == shown_value(raw@),
{
    let items: Option<Vec<String>> = match parse_document(raw) {
        Ok(Json::Array(items)) => {
            let mut texts: Vec<String> = Vec::new();
            let ghost all = items_view(items@);
            let ghost shown = all.map_values(|j: JsonView| compact_text(j));
            proof {
                lemma_items_view(items@);
            }
            for i in 0..items.len()
                invariant
                    all == items_view(items@),
                    all.len() == items@.len(),
                    forall|k: int| 0 <= k < all.len() ==> #[trigger] all[k] == items@[k]@,
                    shown == all.map_values(|j: JsonView| compact_text(j)),
                    views(texts@) == shown.take(i as int),
            {
                let ghost before = views(texts@);
                let t = to_compact_text(&items[i]);
                texts.push(t);
                assert(views(texts@) == before.push(t@));
                assert(shown[i as int] == t@);
            }
            assert(shown.take(shown.len() as int) == shown);
            Some(texts)
        },
        _ => None,
    };
    show_items(raw, &items)
}

/// The paths of the issues.
pub open spec fn note_paths(s: Seq<IssueNoteView>) -> Seq<Seq<char>> {
    s.map_values(|n: IssueNoteView| n.path)
}

/// The first issue at a path.
pub open spec fn first_note(notes: Seq<IssueNoteView>, path: Seq<char>) -> Option<IssueNoteView> {
    let p = first_index(note_paths(notes), path);
    if 0 <= p < notes.len() {
        Some(notes[p])
    } else {
        None
    }
}

/// What the review page shows of a field.
pub open spec fn entry_for(
    link: KbLinkView,
    display: Seq<char>,
    notes: Seq<IssueNoteView>,
    changed: Seq<Seq<char>>,
) -> FieldEntryView {
    let note = first_note(notes, link.path);
    FieldEntryView {
        path: link.path,
        value: shown_value(link.value),
        url: link.url,
        confidence_display: display,
        confidence_label: confidence_word(link.confidence),
        pre_accepted: link.reviewed,
        pre_auto_reviewed: link.auto_reviewed,
        issue_type: match note {
            Some(n) => n.issue_type,
            None => Seq::empty(),
        },
        issue_detail: match note {
            Some(n) => n.detail,
            None => Seq::empty(),
        },
        run_changed: changed.contains(link.path),
    }
}

/// The keys that the fields are sorted by.
pub open spec fn review_keys(links: Seq<KbLinkView>) -> Seq<Seq<char>> {
    links.map_values(|l: KbLinkView| natural_key(l.path))
}

/// All fields as the review shows them, in natural order of their paths.
pub open spec fn review_entries(
    links: Seq<KbLinkView>,
    displays: Seq<Seq<char>>,
    notes: Seq<IssueNoteView>,
    changed: Seq<Seq<char>>,
) -> Seq<FieldEntryView> {
    stable_order(review_keys(links)).map_values(
        |i: int| entry_for(links[i], displays[i], notes, changed),
    )
}

/// A page of the review.
#[derive(Debug, PartialEq, Eq)]
pub struct ReviewPage {
    pub current_page: i64,
    pub page_field_count: usize,
    pub groups: Vec<FieldGroup>,
}

/// Puts a field under its section.
fn add_field(groups: &mut Vec<FieldGroup>, name: String, field: FieldEntry, Ghost(before): Ghost<Seq<FieldEntryView>>)
    requires
        group_views(old(groups)@) == in_sections(before),
        name@ == group_of(field.path@),
    ensures
        group_views(final(groups)@) == in_sections(before.push(field@)),
{
    let ghost keys = sections_of(before);
    let ghost k = name@;
    let ghost start = groups@;
    let ghost d = distinct(keys);
    let ghost g = grouped(keys, before);
    proof {
        lemma_grouped_push(keys, before, k, field@);
        lemma_first_index(d, k);
        assert(sections_of(before.push(field@)) =~= keys.push(k));
        assert(group_views(start).len() == d.len());
        assert forall|i: int| 0 <= i < d.len() implies #[trigger] d[i] == start[i].name@ by {
            assert(group_views(start)[i].0 == d[i]);
        }
    }
    let count: usize = groups.len();
    for i in 0..count
        invariant
            count == start.len(),
            groups@ == start,
            k == name@,
            g == grouped(keys, before),
            d == distinct(keys),
            d.len() == start.len(),
            g.len() == d.len(),
            group_views(start) == g,
            in_sections(before.push(field@)) == (if d.contains(k) {
                let p = first_index(d, k);
                g.update(p, (g[p].0, g[p].1.push(field@)))
            } else {
                g.push((k, seq![field@]))
            }),
            forall|j: int| 0 <= j < d.len() ==> #[trigger] d[j] == start[j].name@,
            forall|j: int| 0 <= j < i ==> d[j] != k,
    {
        if same(groups[i].name.as_str(), name.as_str()) {
            proof {
                lemma_first_index(d, k);
                assert(d[i as int] == k);
                if first_index(d, k) < i {
                    assert(d[first_index(d, k)] == k);
                }
                assert(group_views(start)[i as int] == g[i as int]);
            }
            groups[i].fields.push(field);
            proof {
                let n = group_views(groups@);
                let e = g.update(i as int, (g[i as int].0, g[i as int].1.push(field@)));
                assert(entry_views(groups@[i as int].fields@) =~= entry_views(
                    start[i as int].fields@,
                ).push(field@));
                assert forall|j: int| 0 <= j < n.len() implies n[j] == e[j] by {
                    if j != i {
                        assert(groups@[j] == start[j]);
                        assert(group_views(start)[j] == g[j]);
                    }
                }
                assert(n =~= e);
            }
            return ;
        }
    }
    proof {
        lemma_first_index(d, k);
    }
    let mut fields: Vec<FieldEntry> = Vec::new();
    fields.push(field);
    assert(entry_views(fields@) =~= seq![field@]);
    groups.push(FieldGroup { name, fields });
    assert(group_views(groups@) =~= group_views(start).push((k, seq![field@])));
}

/// The fields under their sections, in the order in which the sections first appear.
pub fn group_fields(fields: Vec<FieldEntry>) -> (r: Vec<FieldGroup>)
    ensures
        group_views(r@) == in_sections(entry_views(fields@)),
{
    let re = compile(INDEX);
    let mut groups: Vec<FieldGroup> = Vec::new();
    let ghost all = entry_views(fields@);
    assert(group_views(groups@) =~= in_sections(all.take(0)));
    for field in it: fields
        invariant
            entry_views(it.seq()) == all,
            pattern_of(re) == INDEX@,
            group_views(groups@) == in_sections(all.take(it.index())),
    {
        let ghost n = it.index();
        assert(all[n] == field@);
        assert(all.take(n + 1) == all.take(n).push(field@));
        let name = group_with(&re, field.path.as_str());
        add_field(&mut groups, name, field, Ghost(all.take(n)));
    }
    assert(all.take(all.len() as int) == all);
    groups
}

/// The natural keys of the fields' paths.
fn sort_keys(links: &Vec<KbLink>) -> (r: Vec<String>)
    ensures
        views(r@) == review_keys(link_views(links@)),
{
    let re = compile(INDEX_DIGITS);
    let mut r: Vec<String> = Vec::new();
    for i in 0..links.len()
        invariant
            pattern_of(re) == INDEX_DIGITS@,
            views(r@) == review_keys(link_views(links@)).take(i as int),
    {
        let ghost before = views(r@);
        let k = replace_indices(&re, links[i].path.as_str());
        r.push(k);
        assert(views(r@) =~= before.push(k@));
        assert(review_keys(link_views(links@))[i as int] == k@);
    }
    assert(views(r@) =~= review_keys(link_views(links@)));
    r
}

/// The positions of the first issues by path.
fn index_notes(notes: &Vec<IssueNote>) -> (m: StringHashMap<usize>)
    ensures
        locates_first(m@, note_paths(note_views(notes@))),
{
    let mut paths: Vec<String> = Vec::new();
    for i in 0..notes.len()
        invariant
            views(paths@) == note_paths(note_views(notes@)).take(i as int),
    {
        let ghost before = views(paths@);
        paths.push(notes[i].path.clone());
        assert(views(paths@) =~= before.push(notes@[i as int].path@));
        assert(note_paths(note_views(notes@))[i as int] == notes@[i as int].path@);
    }
    assert(views(paths@) =~= note_paths(note_views(notes@)));
    index_first(&paths)
}

/// A field as the review page shows it.
fn make_entry(
    link: &KbLink,
    display: &String,
    notes: &Vec<IssueNote>,
    by_path: &StringHashMap<usize>,
    changed: &StringHashSet,
    Ghost(changed_list): Ghost<Seq<Seq<char>>>,
) -> (r: FieldEntry)
    requires
        locates_first(by_path@, note_paths(note_views(notes@))),
        forall|k: Seq<char>| #[trigger] changed@.contains(k) == changed_list.contains(k),
    ensures
        r@ == entry_for(link@, display@, note_views(notes@), changed_list),
{
    let ghost paths = note_paths(note_views(notes@));
    proof {
        lemma_first_index(paths, link.path@);
        assert(by_path@.dom().contains(link.path@) == paths.contains(link.path@));
        assert(changed@.contains(link.path@) == changed_list.contains(link.path@));
    }
    let (issue_type, issue_detail) = match by_path.get(link.path.as_str()) {
        Some(p) => {
            assert(*p == first_index(paths, link.path@));
            let note = &notes[*p];
            assert(note_views(notes@)[*p as int] == note@);
            (note.issue_type.clone(), note.detail.clone())
        },
        None => (String::new(), String::new()),
    };
    FieldEntry {
        path: link.path.clone(),
        value: display_value(link.value.as_str()),
        url: link.url.clone(),
        confidence_display: display.clone(),
        confidence_label: confidence_label(link.confidence),
        pre_accepted: link.reviewed,
        pre_auto_reviewed: link.auto_reviewed,
        issue_type,
        issue_detail,
        run_changed: changed.contains(link.path.as_str()),
    }
}

/// A page of the review: the fields of a knowledge base in natural order of their
/// paths, with the first issue found at each path and a sign where the value changed
/// between runs; `displays` gives the confidences as they are shown.
pub fn build_review_page(
    links: &Vec<KbLink>,
    displays: &Vec<String>,
    notes: &Vec<IssueNote>,
    changed_paths: &Vec<String>,
    page: Option<i64>,
) -> (r: ReviewPage)
    requires
        displays@.len() == links@.len(),
        shown_page(page) * PAGE_SIZE <= i64::MAX,
    ensures
        r.current_page == shown_page(page),
        ({
            let shown = page_of(
                review_entries(
                    link_views(links@),
                    views(displays@),
                    note_views(notes@),
                    views(changed_paths@),
                ),
                shown_page(page),
                PAGE_SIZE as int,
            );
            &&& r.page_field_count == shown.len()
            &&& group_views(r.groups@) == in_sections(shown)
        }),
{
    let current: i64 = current_page(page);
    let offset: u64 = (current * PAGE_SIZE) as u64;
    let keys = sort_keys(links);
    let order = sort_by_key(&keys);
    let by_path = index_notes(notes);
    let changed = set_of(changed_paths);
    let ghost lv = link_views(links@);
    let ghost dv = views(displays@);
    let ghost nv = note_views(notes@);
    let ghost cv = views(changed_paths@);
    let ghost all = review_entries(lv, dv, nv, cv);
    let ghost pos = stable_order(review_keys(lv));
    let mut shown: Vec<FieldEntry> = Vec::new();
    let n: usize = order.len();
    let from: usize = if offset >= n as u64 {
        n
    } else {
        offset as usize
    };
    let to: usize = if n - from > 500 {
        from + 500
    } else {
        n
    };
    let ghost expected = page_of(all, shown_page(page), PAGE_SIZE as int);
    assert(expected =~= all.subrange(from as int, to as int));
    for i in from..to
        invariant
            from <= to <= n,
            n == order@.len(),
            n == links@.len(),
            displays@.len() == links@.len(),
            lv == link_views(links@),
            dv == views(displays@),
            nv == note_views(notes@),
            cv == views(changed_paths@),
            pos == stable_order(review_keys(lv)),
            pos == positions(order@),
            is_stable_order(pos, review_keys(lv)),
            all == review_entries(lv, dv, nv, cv),
            locates_first(by_path@, note_paths(nv)),
            forall|k: Seq<char>| #[trigger] changed@.contains(k) == cv.contains(k),
            entry_views(shown@) == all.subrange(from as int, i as int),
    {
        let p: usize = order[i];
        assert(pos[i as int] == p);
        let ghost before = entry_views(shown@);
        let entry = make_entry(&links[p], &displays[p], notes, &by_path, &changed, Ghost(cv));
        assert(entry@ == all[i as int]);
        shown.push(entry);
        assert(entry_views(shown@) =~= before.push(entry@));
        assert(all.subrange(from as int, i + 1) =~= before.push(entry@));
    }
    let count: usize = shown.len();
    ReviewPage { current_page: current, page_field_count: count, groups: group_fields(shown) }
}

/// Every field of a knowledge base is shown on one of the counted pages, under the section
/// that it belongs to.
pub proof fn law_every_field_shown(
    links: Seq<KbLinkView>,
    displays: Seq<Seq<char>>,
    notes: Seq<IssueNoteView>,
    changed: Seq<Seq<char>>,
    i: int,
)
    requires
        displays.len() == links.len(),
        0 <= i < links.len(),
    ensures
        exists|page: int, g: int|
            0 <= page < page_count(links.len() as int, PAGE_SIZE as int) && 0 <= g < in_sections(
                page_of(review_entries(links, displays, notes, changed), page, PAGE_SIZE as int),
            ).len() && #[trigger] shown_in(
                in_sections(page_of(review_entries(links, displays, notes, changed), page, PAGE_SIZE as int)),
                g,
                entry_for(links[i], displays[i], notes, changed),
            ),
{
    let keys = review_keys(links);
    let order = stable_order(keys);
    law_stable_order_exists(keys);
    let all = review_entries(links, displays, notes, changed);
    let e = entry_for(links[i], displays[i], notes, changed);
    assert(order.contains(i));
    let p = choose|p: int| 0 <= p < order.len() && order[p] == i;
    assert(all[p] == e);
    law_every_item_on_a_page(all, p, PAGE_SIZE as int);
    let page = p / PAGE_SIZE as int;
    let shown = page_of(all, page, PAGE_SIZE as int);
    let at = p % PAGE_SIZE as int;
    assert(shown[at] == e);
    law_grouped_keeps_items(sections_of(shown), shown, at);
    let groups = in_sections(shown);
    let g = choose|g: int|
        0 <= g < groups.len() && (#[trigger] groups[g]).0 == sections_of(shown)[at] && groups[g].1.contains(
            shown[at],
        );
    assert(shown_in(groups, g, e));
}

/// Whether section `g` is the one of the field `e` and shows it.
pub open spec fn shown_in(groups: Seq<(Seq<char>, Seq<FieldEntryView>)>, g: int, e: FieldEntryView) -> bool {
    groups[g].0 == group_of(e.path) && groups[g].1.contains(e)
}

/// Fields whose keys share a beginning, such as those of one distribution, are neighbours
/// in the review.
pub proof fn law_shared_beginnings_are_neighbours(
    links: Seq<KbLinkView>,
    displays: Seq<Seq<char>>,
    notes: Seq<IssueNoteView>,
    changed: Seq<Seq<char>>,
    beginning: Seq<char>,
    a: int,
    b: int,
    c: int,
)
    requires
        displays.len() == links.len(),
        0 <= a <= b <= c < review_entries(links, displays, notes, changed).len(),
        beginning.is_prefix_of(natural_key(review_entries(links, displays, notes, changed)[a].path)),
        beginning.is_prefix_of(natural_key(review_entries(links, displays, notes, changed)[c].path)),
    ensures
        beginning.is_prefix_of(natural_key(review_entries(links, displays, notes, changed)[b].path)),
{
    let keys = review_keys(links);
    let order = stable_order(keys);
    law_stable_order_exists(keys);
    assert forall|p: int| 0 <= p < order.len() implies keys[#[trigger] order[p]] == natural_key(
        review_entries(links, displays, notes, changed)[p].path,
    ) by {
        assert(0 <= order[p] < links.len());
    }
    assert(keys[order[a]] == natural_key(review_entries(links, displays, notes, changed)[a].path));
    assert(keys[order[b]] == natural_key(review_entries(links, displays, notes, changed)[b].path));
    assert(keys[order[c]] == natural_key(review_entries(links, displays, notes, changed)[c].path));
    law_shared_beginning_contiguous(keys, order, beginning, a, b, c);
}

/// Whether a line of the review tells of a field as it is: its path, its source and its
/// value, a value that is an array item by item; shown as accepted if and only if the
/// field is reviewed, and as approved automatically if and only if it was; with the first
/// issue at its path beside it; and marked as changed if and only if its path is among
/// those that changed between runs.
pub open spec fn tells_of(
    e: FieldEntryView,
    link: KbLinkView,
    display: Seq<char>,
    notes: Seq<IssueNoteView>,
    changed: Seq<Seq<char>>,
) -> bool {
    &&& e.path == link.path
    &&& e.url == link.url
    &&& e.pre_accepted == link.reviewed
    &&& e.pre_auto_reviewed == link.auto_reviewed
    &&& e.confidence_display == display
    &&& e.confidence_label == confidence_word(link.confidence)
    &&& e.run_changed == exists|c: int| 0 <= c < changed.len() && (#[trigger] changed[c]) == link.path
    &&& !(read_text(link.value) matches Ok(JsonView::Array(_))) ==> e.value == link.value
    &&& read_text(link.value) matches Ok(JsonView::Array(items)) ==> {
        &&& e.value == joined(items.map_values(|j: JsonView| compact_text(j)), ", "@)
        &&& items.len() == 0 ==> e.value.len() == 0
        &&& items.len() == 1 ==> e.value == compact_text(items[0])
        &&& items.len() == 2 ==> e.value == compact_text(items[0]) + ", "@ + compact_text(items[1])
        &&& items.len() > 0 ==> compact_text(items[0]).is_prefix_of(e.value) && compact_text(
            items.last(),
        ).is_suffix_of(e.value)
    }
    &&& (forall|n: int| 0 <= n < notes.len() ==> (#[trigger] notes[n]).path != link.path) ==> e.issue_type.len() == 0
        && e.issue_detail.len() == 0
    &&& forall|n: int|
        0 <= n < notes.len() && (#[trigger] notes[n]).path == link.path && (forall|m: int|
            0 <= m < n ==> (#[trigger] notes[m]).path != link.path) ==> e.issue_type == notes[n].issue_type
            && e.issue_detail == notes[n].detail
}

/// Every line of the review tells of a field of the knowledge base, and every field has
/// its line: there are as many lines as fields.
pub proof fn law_lines_tell_of_fields(
    links: Seq<KbLinkView>,
    displays: Seq<Seq<char>>,
    notes: Seq<IssueNoteView>,
    changed: Seq<Seq<char>>,
    k: int,
)
    requires
        displays.len() == links.len(),
        0 <= k < links.len(),
    ensures
        review_entries(links, displays, notes, changed).len() == links.len(),
        exists|i: int|
            0 <= i < links.len() && #[trigger] tells_of(
                review_entries(links, displays, notes, changed)[k],
                links[i],
                displays[i],
                notes,
                changed,
            ),
        exists|p: int|
            0 <= p < links.len() && #[trigger] tells_of(
                review_entries(links, displays, notes, changed)[p],
                links[k],
                displays[k],
                notes,
                changed,
            ),
{
    let keys = review_keys(links);
    let order = stable_order(keys);
    let all = review_entries(links, displays, notes, changed);
    law_stable_order_exists(keys);
    let i = order[k];
    lemma_entry_tells(links[i], displays[i], notes, changed);
    assert(tells_of(all[k], links[i], displays[i], notes, changed));
    assert(order.contains(k));
    let p = choose|p: int| 0 <= p < order.len() && order[p] == k;
    lemma_entry_tells(links[k], displays[k], notes, changed);
    assert(tells_of(all[p], links[k], displays[k], notes, changed));
}

proof fn lemma_entry_tells(
    link: KbLinkView,
    display: Seq<char>,
    notes: Seq<IssueNoteView>,
    changed: Seq<Seq<char>>,
)
    ensures
        tells_of(entry_for(link, display, notes, changed), link, display, notes, changed),
{
    let e = entry_for(link, display, notes, changed);
    let paths = note_paths(notes);
    let path = link.path;
    lemma_first_index(paths, path);
    let first = first_index(paths, path);
    assert forall|n: int| 0 <= n < notes.len() implies paths[n] == #[trigger] notes[n].path by {}
    if forall|n: int| 0 <= n < notes.len() ==> (#[trigger] notes[n]).path != path {
        if 0 <= first < notes.len() {
            assert(paths[first] == path);
            assert(notes[first].path != path);
        }
    }
    assert forall|n: int|
        0 <= n < notes.len() && (#[trigger] notes[n]).path == path && (forall|m: int|
            0 <= m < n ==> (#[trigger] notes[m]).path != path) implies e.issue_type == notes[n].issue_type
        && e.issue_detail == notes[n].detail by {
        assert(paths[n] == path);
        assert(paths.contains(path));
        assert(paths[first] == path);
        if first < n {
            assert(notes[first].path != path);
        } else if n < first {
            assert(paths[n] != path);
        }
    }
    if let Ok(JsonView::Array(items)) = read_text(link.value) {
        let texts = items.map_values(|j: JsonView| compact_text(j));
        if items.len() > 0 {
            lemma_joined_ends(texts, ", "@);
            assert(texts.last() == compact_text(items.last()));
        }
        if items.len() == 2 {
            assert(texts.drop_last() =~= seq![texts[0]]);
            assert(joined(texts.drop_last(), ", "@) == texts[0]);
        }
    }
}

proof fn lemma_joined_ends(parts: Seq<Seq<char>>, sep: Seq<char>)
    requires
        parts.len() > 0,
    ensures
        parts[0].is_prefix_of(joined(parts, sep)),
        parts.last().is_suffix_of(joined(parts, sep)),
    decreases parts.len(),
{
    let all = joined(parts, sep);
    if parts.len() == 1 {
        assert(all =~= parts[0]);
    } else {
        let t = parts.drop_last();
        lemma_joined_ends(t, sep);
        let front = joined(t, sep);
        assert(t[0] == parts[0]);
        assert(all.take(parts[0].len() as int) =~= front.take(parts[0].len() as int));
        assert(front.take(parts[0].len() as int) =~= parts[0]);
        let l = parts.last();
        assert(all.subrange(all.len() - l.len(), all.len() as int) =~= l);
    }
}

/// The fields of the review are in natural order of their paths.
pub proof fn law_review_in_natural_order(
    links: Seq<KbLinkView>,
    displays: Seq<Seq<char>>,
    notes: Seq<IssueNoteView>,
    changed: Seq<Seq<char>>,
    p: int,
    q: int,
)
    requires
        displays.len() == links.len(),
        0 <= p < q < review_entries(links, displays, notes, changed).len(),
    ensures
        !less(
            natural_key(review_entries(links, displays, notes, changed)[q].path),
            natural_key(review_entries(links, displays, notes, changed)[p].path),
        ),
{
    let keys = review_keys(links);
    let order = stable_order(keys);
    law_stable_order_exists(keys);
    assert(goes_before(keys, order[p], order[q]));
    assert(keys[order[p]] == natural_key(review_entries(links, displays, notes, changed)[p].path));
    assert(keys[order[q]] == natural_key(review_entries(links, displays, notes, changed)[q].path));
    law_less_asymmetric(keys[order[p]], keys[order[q]]);
}

/// Each section of a page has a name of its own, and holds the fields of the page that
/// belong to it and no others.
pub proof fn law_sections_hold_their_fields(shown: Seq<FieldEntryView>, g: int, e: FieldEntryView)
    requires
        0 <= g < in_sections(shown).len(),
    ensures
        in_sections(shown)[g].1.contains(e) == (shown.contains(e) && group_of(e.path) == in_sections(shown)[g].0),
        forall|h: int| 0 <= h < in_sections(shown).len() && h != g ==> (#[trigger] in_sections(shown)[h]).0 != in_sections(
            shown,
        )[g].0,
{
    let keys = sections_of(shown);
    law_groups_hold_their_items(keys, shown, g, e);
    if shown.contains(e) && group_of(e.path) == in_sections(shown)[g].0 {
        let i = choose|i: int| 0 <= i < shown.len() && shown[i] == e;
        assert(keys[i] == group_of(e.path));
    }
    if in_sections(shown)[g].1.contains(e) {
        let i = choose|i: int| 0 <= i < keys.len() && (#[trigger] keys[i]) == in_sections(shown)[g].0 && shown[i] == e;
        assert(shown[i] == e);
    }
    assert forall|h: int| 0 <= h < in_sections(shown).len() && h != g implies (#[trigger] in_sections(shown)[h]).0
        != in_sections(shown)[g].0 by {
        if h < g {
            law_groups_distinct(keys, shown, h, g);
        } else {
            law_groups_distinct(keys, shown, g, h);
        }
    }
}

/// More confidence is never called less: of two confidences from zero up, the larger one
/// has the same word or a better one; no confidence, and what is no number, is unknown.
pub proof fn law_confidence_words_are_ordered(a: u32, b: u32)
    requires
        a <= b,
    ensures
        b <= 0x7f800000 && confidence_word(a) == "high"@ ==> confidence_word(b) == "high"@,
        b <= 0x7f800000 && confidence_word(a) == "medium"@ ==> confidence_word(b) == "medium"@ || confidence_word(b)
            == "high"@,
        b <= 0x7f800000 && confidence_word(a) == "low"@ ==> confidence_word(b) != "unknown"@,
        confidence_word(0) == "unknown"@,
        confidence_word(1) == "low"@,
        confidence_word(0x3f333333) == "medium"@ && confidence_word(0x3f333332) == "low"@,
        confidence_word(0x3f666666) == "high"@ && confidence_word(0x3f666665) == "medium"@,
        a > 0x7f800000 ==> confidence_word(a) == "unknown"@,
{
    reveal_strlit("high");
    reveal_strlit("medium");
    reveal_strlit("low");
    reveal_strlit("unknown");
    assert("high"@.len() == 4 && "medium"@.len() == 6 && "low"@.len() == 3 && "unknown"@.len() == 7);
}

} // verus!
