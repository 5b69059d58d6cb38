//! The record sets of a document, grouped by the fields that they define.
use crate::json::{items_at, items_view, lemma_items_view, text_at, Json, JsonView};
use crate::lookup::{
    distinct, first_index, grouped, law_grouped_count, law_grouped_keeps_items, law_groups_hold_their_items,
    law_groups_not_empty, lemma_first_index, lemma_grouped_push, total_len,
};
use crate::patterns::{compile, is_match, is_placeholder_name, pattern_of, PLACEHOLDER_NAME};
use crate::text::{join_with, joined, same, views};
use regex::Regex;
use vstd::prelude::*;

verus! {

/// Record sets that define the same fields.
#[derive(Debug, PartialEq, Eq)]
pub struct RecordSetGroup {
    pub schema_summary: String,
    pub field_count: usize,
    pub members: Vec<String>,
    pub is_duplicate: bool,
    pub has_placeholders: bool,
}

/// What a group of record sets says.
pub struct RecordSetGroupView {
    pub schema_summary: Seq<char>,
    pub field_count: nat,
    pub members: Seq<Seq<char>>,
    pub is_duplicate: bool,
    pub has_placeholders: bool,
}

impl View for RecordSetGroup {
    type V = RecordSetGroupView;

    open spec fn view(&self) -> RecordSetGroupView {
        RecordSetGroupView {
            schema_summary: self.schema_summary@,
            field_count: self.field_count as nat,
            members: views(self.members@),
            is_duplicate: self.is_duplicate,
            has_placeholders: self.has_placeholders,
        }
    }
}

/// The name of a record set: its `@id`, else its `name`.
pub open spec fn label_of(rs: JsonView) -> Seq<char> {
    let named = match rs.get("@id"@) {
        Some(v) => Some(v),
        None => rs.get("name"@),
    };
    match named {
        Some(JsonView::Text(t)) => t,
        _ => "(unnamed)"@,
    }
}

/// The names of the fields that have one.
pub open spec fn names_in(fields: Seq<JsonView>) -> Seq<Seq<char>>
    decreases fields.len(),
{
    if fields.len() == 0 {
        Seq::empty()
    } else {
        match text_at(fields.last(), "name"@) {
            Some(t) => names_in(fields.drop_last()).push(t),
            None => names_in(fields.drop_last()),
        }
    }
}

/// The names of the fields that a record set defines.
pub open spec fn field_names(rs: JsonView) -> Seq<Seq<char>> {
    match items_at(rs, "field"@) {
        Some(fields) => names_in(fields),
        None => Seq::empty(),
    }
}

/// The first four field names, with a sign that there are more.
pub open spec fn summary_of(names: Seq<Seq<char>>) -> Seq<char> {
    if names.len() == 0 {
        "(no fields defined)"@
    } else if names.len() > 4 {
        joined(names.take(4), ", "@) + ", …"@
    } else {
        joined(names, ", "@)
    }
}

/// What is said of the record sets `members` that define the fields `names`.
pub open spec fn group_view(names: Seq<Seq<char>>, members: Seq<Seq<char>>) -> RecordSetGroupView {
    RecordSetGroupView {
        schema_summary: summary_of(names),
        field_count: names.len(),
        members,
        is_duplicate: members.len() > 1,
        has_placeholders: exists|i: int| 0 <= i < names.len() && is_placeholder_name(#[trigger] names[i]),
    }
}

/// The record sets of a document.
pub open spec fn record_sets(metadata: JsonView) -> Seq<JsonView> {
    match items_at(metadata, "recordSet"@) {
        Some(s) => s,
        None => Seq::empty(),
    }
}

/// The record sets of a document, those that define the same fields in one group, the
/// groups in the order of their first members.
pub open spec fn schema_groups(metadata: JsonView) -> Seq<RecordSetGroupView> {
    let rs = record_sets(metadata);
    let names = rs.map_values(|r: JsonView| field_names(r));
    let labels = rs.map_values(|r: JsonView| label_of(r));
    grouped(names, labels).map_values(
        |g: (Seq<Seq<char>>, Seq<Seq<char>>)| group_view(g.0, g.1),
    )
}

/// The name of a record set.
fn record_set_label(rs: &Json) -> (r: String)
    ensures
        r@ == label_of(rs@),
{
    let named = match rs.get("@id") {
        Some(v) => Some(v),
        None => rs.get("name"),
    };
    match named {
        Some(v) => match v.as_str() {
            Some(t) => t.to_string(),
            None => "(unnamed)".to_string(),
        },
        None => "(unnamed)".to_string(),
    }
}

/// The names of the fields that a record set defines.
fn record_set_fields(rs: &Json) -> (r: Vec<String>)
    ensures
        views(r@) == field_names(rs@),
{
    let mut r: Vec<String> = Vec::new();
    match rs.items_at("field") {
        Some(fields) => {
            let ghost all = items_view(fields@);
            proof {
                lemma_items_view(fields@);
            }
            for i in 0..fields.len()
                invariant
                    all == items_view(fields@),
                    all.len() == fields@.len(),
                    forall|k: int| 0 <= k < all.len() ==> #[trigger] all[k] == fields@[k]@,
                    views(r@) == names_in(all.take(i as int)),
            {
                let ghost before = views(r@);
                assert(all.take(i + 1).drop_last() == all.take(i as int));
                assert(all.take(i + 1).last() == fields@[i as int]@);
                if let Some(t) = fields[i].text_at("name") {
                    r.push(t.to_string());
                    assert(views(r@) == before.push(t@));
                }
            }
            assert(all.take(all.len() as int) == all);
        },
        None => {
            assert(views(r@) == field_names(rs@));
        },
    }
    r
}

/// Whether one of the names is a generated one.
fn any_placeholder(re: &Regex, names: &Vec<String>) -> (r: bool)
    requires
        pattern_of(*re) == PLACEHOLDER_NAME@,
    ensures
        r == exists|i: int| 0 <= i < names@.len() && is_placeholder_name(#[trigger] views(names@)[i]),
{
    for i in 0..names.len()
        invariant
            pattern_of(*re) == PLACEHOLDER_NAME@,
            forall|k: int| 0 <= k < i ==> !is_placeholder_name(#[trigger] views(names@)[k]),
    {
        if is_match(re, names[i].as_str()) {
            assert(is_placeholder_name(views(names@)[i as int]));
            return true;
        }
    }
    false
}

/// The first four field names, with a sign that there are more.
fn summary(names: &Vec<String>) -> (r: String)
    ensures
        r@ == summary_of(views(names@)),
{
    if names.len() == 0 {
        "(no fields defined)".to_string()
    } else if names.len() > 4 {
        let mut first: Vec<String> = Vec::new();
        for i in 0..4
            invariant
                names@.len() > 4,
                views(first@) == views(names@).take(i as int),
        {
            let ghost before = views(first@);
            first.push(names[i].clone());
            assert(views(first@) == before.push(names@[i as int]@));
        }
        let mut r = join_with(&first, ", ");
        r.append(", …");
        r
    } else {
        join_with(names, ", ")
    }
}

/// Whether two lists of strings are the same.
pub fn same_list(a: &Vec<String>, b: &Vec<String>) -> (r: bool)
    ensures
        r == (views(a@) == views(b@)),
{
    if a.len() != b.len() {
        assert(views(a@).len() != views(b@).len());
        return false;
    }
    for i in 0..a.len()
        invariant
            a@.len() == b@.len(),
            forall|k: int| 0 <= k < i ==> views(a@)[k] == views(b@)[k],
    {
        if !same(a[i].as_str(), b[i].as_str()) {
            assert(views(a@)[i as int] != views(b@)[i as int]);
            return false;
        }
    }
    assert(views(a@) == views(b@));
    true
}

/// The groups found so far, with their field names and members.
spec fn raw_groups(s: Seq<(Vec<String>, Vec<String>)>) -> Seq<(Seq<Seq<char>>, Seq<Seq<char>>)> {
    s.map_values(|g: (Vec<String>, Vec<String>)| (views(g.0@), views(g.1@)))
}

/// Puts a record set into the group of its field names.
fn add_record_set(
    groups: &mut Vec<(Vec<String>, Vec<String>)>,
    names: Vec<String>,
    label: String,
    Ghost(keys): Ghost<Seq<Seq<Seq<char>>>>,
    Ghost(labels): Ghost<Seq<Seq<char>>>,
)
    requires
        keys.len() == labels.len(),
        raw_groups(old(groups)@) == grouped(keys, labels),
    ensures
        raw_groups(final(groups)@) == grouped(keys.push(views(names@)), labels.push(label@)),
{
    let ghost k = views(names@);
    let ghost start = groups@;
    let ghost d = distinct(keys);
    proof {
        lemma_grouped_push(keys, labels, k, label@);
        lemma_first_index(d, k);
        assert(raw_groups(start).len() == d.len());
        assert forall|i: int| 0 <= i < d.len() implies #[trigger] d[i] == views(start[i].0@) by {
            assert(raw_groups(start)[i].0 == d[i]);
        }
    }
    let count: usize = groups.len();
    for i in 0..count
        invariant
            count == start.len(),
            groups@ == start,
            k == views(names@),
            keys.len() == labels.len(),
            d == distinct(keys),
            d.len() == start.len(),
            raw_groups(start) == grouped(keys, labels),
            grouped(keys.push(k), labels.push(label@)) == (if d.contains(k) {
                let p = first_index(d, k);
                let g = grouped(keys, labels);
                g.update(p, (g[p].0, g[p].1.push(label@)))
            } else {
                grouped(keys, labels).push((k, seq![label@]))
            }),
            forall|j: int| 0 <= j < d.len() ==> #[trigger] d[j] == views(start[j].0@),
            forall|j: int| 0 <= j < i ==> d[j] != k,
    {
        if same_list(&groups[i].0, &names) {
            proof {
                lemma_first_index(d, k);
                assert(d[i as int] == k);
                if first_index(d, k) < i {
                    assert(d[first_index(d, k)] == k);
                }
            }
            let ghost g = grouped(keys, labels);
            assert(g[i as int] == (views(start[i as int].0@), views(start[i as int].1@)));
            groups[i].1.push(label);
            proof {
                let n = raw_groups(groups@);
                let e = g.update(i as int, (g[i as int].0, g[i as int].1.push(label@)));
                assert(views(groups@[i as int].1@) == views(start[i as int].1@).push(label@));
                assert forall|j: int| 0 <= j < n.len() implies n[j] == e[j] by {
                    if j != i {
                        assert(groups@[j] == start[j]);
                        assert(raw_groups(start)[j] == g[j]);
                    }
                }
                assert(n =~= e);
            }
            return ;
        }
    }
    proof {
        lemma_first_index(d, k);
    }
    let mut members: Vec<String> = Vec::new();
    members.push(label);
    assert(views(members@) == seq![label@]);
    groups.push((names, members));
    assert(raw_groups(groups@) =~= raw_groups(start).push((k, seq![label@])));
}

/// The record sets of a document, grouped by the fields that they define.
pub fn build_schema_groups(metadata: &Json) -> (r: Vec<RecordSetGroup>)
    ensures
        r@.map_values(|g: RecordSetGroup| g@) == schema_groups(metadata@),
{
    let mut r: Vec<RecordSetGroup> = Vec::new();
    let ghost rs = record_sets(metadata@);
    let ghost names = rs.map_values(|r: JsonView| field_names(r));
    let ghost labels = rs.map_values(|r: JsonView| label_of(r));
    let list = match metadata.items_at("recordSet") {
        Some(list) => list,
        None => {
            assert(names =~= Seq::empty());
            assert(r@.map_values(|g: RecordSetGroup| g@) =~= schema_groups(metadata@));
            return r;
        },
    };
    let re = compile(PLACEHOLDER_NAME);
    let mut groups: Vec<(Vec<String>, Vec<String>)> = Vec::new();
    proof {
        lemma_items_view(list@);
        assert(names.take(0) =~= Seq::empty());
        assert(raw_groups(groups@) =~= grouped(names.take(0), labels.take(0)));
    }
    for i in 0..list.len()
        invariant
            rs == items_view(list@),
            rs.len() == list@.len(),
            forall|k: int| 0 <= k < rs.len() ==> #[trigger] rs[k] == list@[k]@,
            names == rs.map_values(|r: JsonView| field_names(r)),
            labels == rs.map_values(|r: JsonView| label_of(r)),
            raw_groups(groups@) == grouped(names.take(i as int), labels.take(i as int)),
    {
        let label = record_set_label(&list[i]);
        let fields = record_set_fields(&list[i]);
        assert(rs[i as int] == list@[i as int]@);
        assert(names.take(i + 1) == names.take(i as int).push(views(fields@)));
        assert(labels.take(i + 1) == labels.take(i as int).push(label@));
        add_record_set(
            &mut groups,
            fields,
            label,
            Ghost(names.take(i as int)),
            Ghost(labels.take(i as int)),
        );
    }
    assert(names.take(names.len() as int) == names);
    assert(labels.take(labels.len() as int) == labels);
    let ghost all = raw_groups(groups@);
    for g in it: groups
        invariant
            raw_groups(it.seq()) == all,
            pattern_of(re) == PLACEHOLDER_NAME@,
            r@.map_values(|g: RecordSetGroup| g@) == all.take(it.index()).map_values(
                |g: (Seq<Seq<char>>, Seq<Seq<char>>)| group_view(g.0, g.1),
            ),
    {
        let ghost n = it.index();
        let ghost before = r@.map_values(|g: RecordSetGroup| g@);
        assert(all[n] == (views(g.0@), views(g.1@)));
        let made = RecordSetGroup {
            schema_summary: summary(&g.0),
            field_count: g.0.len(),
            is_duplicate: g.1.len() > 1,
            has_placeholders: any_placeholder(&re, &g.0),
            members: g.1,
        };
        assert(made@ == group_view(all[n].0, all[n].1));
        r.push(made);
        assert(r@.map_values(|g: RecordSetGroup| g@) =~= before.push(made@));
        assert(all.take(n + 1) == all.take(n).push(all[n]));
        assert(all.take(n + 1).map_values(|g: (Seq<Seq<char>>, Seq<Seq<char>>)| group_view(g.0, g.1))
            =~= before.push(made@));
    }
    assert(all.take(all.len() as int) == all);
    r
}

/// How many members the groups have in all.
pub open spec fn member_total(groups: Seq<RecordSetGroupView>) -> nat
    decreases groups.len(),
{
    if groups.len() == 0 {
        0
    } else {
        member_total(groups.drop_last()) + groups.last().members.len()
    }
}

proof fn lemma_member_total(groups: Seq<(Seq<Seq<char>>, Seq<Seq<char>>)>)
    ensures
        member_total(
            groups.map_values(|g: (Seq<Seq<char>>, Seq<Seq<char>>)| group_view(g.0, g.1)),
        ) == total_len(groups),
    decreases groups.len(),
{
    let v = groups.map_values(|g: (Seq<Seq<char>>, Seq<Seq<char>>)| group_view(g.0, g.1));
    if groups.len() > 0 {
        lemma_member_total(groups.drop_last());
        assert(v.drop_last() =~= groups.drop_last().map_values(
            |g: (Seq<Seq<char>>, Seq<Seq<char>>)| group_view(g.0, g.1),
        ));
    }
}

/// How many record sets the groups of a document hold in all.
pub fn count_record_sets(metadata: &Json) -> (r: usize)
    ensures
        r == member_total(schema_groups(metadata@)),
        r == record_sets(metadata@).len(),
{
    let ghost rs = record_sets(metadata@);
    proof {
        let names = rs.map_values(|r: JsonView| field_names(r));
        let labels = rs.map_values(|r: JsonView| label_of(r));
        law_grouped_count(names, labels);
        lemma_member_total(grouped(names, labels));
    }
    match metadata.items_at("recordSet") {
        Some(list) => {
            proof {
                lemma_items_view(list@);
            }
            list.len()
        },
        None => 0,
    }
}

/// Every record set is in one of the groups.
pub proof fn law_every_record_set_grouped(metadata: JsonView, i: int)
    requires
        0 <= i < record_sets(metadata).len(),
    ensures
        exists|g: int|
            0 <= g < schema_groups(metadata).len() && (#[trigger] schema_groups(metadata)[g]).members.contains(
                label_of(record_sets(metadata)[i]),
            ) && schema_groups(metadata)[g].schema_summary == summary_of(
                field_names(record_sets(metadata)[i]),
            ),
{
    let rs = record_sets(metadata);
    let names = rs.map_values(|r: JsonView| field_names(r));
    let labels = rs.map_values(|r: JsonView| label_of(r));
    law_grouped_keeps_items(names, labels, i);
    let gs = grouped(names, labels);
    let g = choose|g: int|
        0 <= g < gs.len() && (#[trigger] gs[g]).0 == names[i] && gs[g].1.contains(labels[i]);
    assert(schema_groups(metadata)[g] == group_view(gs[g].0, gs[g].1));
}

/// A record set is called by its `@id`, by its name where it has none, and is unnamed
/// where what it is called by is no text.
pub proof fn law_record_set_names(rs: JsonView, t: Seq<char>)
    ensures
        rs.get("@id"@) == Some(JsonView::Text(t)) ==> label_of(rs) == t,
        rs.get("@id"@) is None && rs.get("name"@) == Some(JsonView::Text(t)) ==> label_of(rs) == t,
        rs.get("@id"@) is None && rs.get("name"@) is None ==> label_of(rs) == "(unnamed)"@,
        rs.get("@id"@) matches Some(v) && !(v is Text) ==> label_of(rs) == "(unnamed)"@,
{
}

proof fn lemma_names_in(a: Seq<JsonView>, b: Seq<JsonView>)
    ensures
        names_in(a + b) == names_in(a) + names_in(b),
    decreases b.len(),
{
    if b.len() > 0 {
        lemma_names_in(a, b.drop_last());
        assert((a + b).drop_last() =~= a + b.drop_last());
        assert((a + b).last() == b.last());
        if let Some(t) = text_at(b.last(), "name"@) {
            assert((names_in(a) + names_in(b.drop_last())).push(t) =~= names_in(a) + names_in(b.drop_last()).push(t));
        }
    } else {
        assert(a + b =~= a);
        assert(names_in(a) + names_in(b) =~= names_in(a));
    }
}

/// The field names of a record set are the names of its fields in their order; a field
/// without a name is passed over.
pub proof fn law_field_names_in_order(rs: JsonView, a: Seq<JsonView>, field: JsonView, b: Seq<JsonView>)
    requires
        rs.get("field"@) == Some(JsonView::Array(a + seq![field] + b)),
    ensures
        field.get("name"@) matches Some(JsonView::Text(t)) ==> field_names(rs) == names_in(a) + seq![t] + names_in(b),
        !(field.get("name"@) matches Some(JsonView::Text(_))) ==> field_names(rs) == names_in(a) + names_in(b),
        names_in(Seq::empty()).len() == 0,
{
    let one = seq![field];
    lemma_names_in(a + one, b);
    lemma_names_in(a, one);
    assert(one.drop_last() =~= Seq::<JsonView>::empty());
    assert(names_in(one.drop_last()) =~= Seq::<Seq<char>>::empty());
    if let Some(JsonView::Text(t)) = field.get("name"@) {
        assert(names_in(one) =~= seq![t]);
    } else {
        assert(names_in(one) =~= Seq::<Seq<char>>::empty());
        assert(names_in(a) + names_in(one) =~= names_in(a));
    }
}

/// Whether a record set of this name defines these fields.
pub open spec fn is_defined(metadata: JsonView, names: Seq<Seq<char>>, label: Seq<char>) -> bool {
    exists|k: int|
        0 <= k < record_sets(metadata).len() && field_names(#[trigger] record_sets(metadata)[k]) == names && label_of(
            record_sets(metadata)[k],
        ) == label
}

/// A group holds the record sets that define the same fields in the same order, and no
/// others. It tells how many fields these are, names the first four of them, and says
/// whether there is more than one such record set and whether a name is a generated one.
pub proof fn law_groups_share_their_fields(metadata: JsonView, g: int, i: int) -> (names: Seq<Seq<char>>)
    requires
        0 <= g < schema_groups(metadata).len(),
        0 <= i < record_sets(metadata).len(),
    ensures
        field_names(record_sets(metadata)[i]) == names ==> schema_groups(metadata)[g].members.contains(
            label_of(record_sets(metadata)[i]),
        ),
        forall|m: int|
            0 <= m < schema_groups(metadata)[g].members.len() ==> is_defined(
                metadata,
                names,
                #[trigger] schema_groups(metadata)[g].members[m],
            ),
        ({
            let group = schema_groups(metadata)[g];
            &&& group.members.len() > 0
            &&& group.field_count == names.len()
            &&& group.is_duplicate == (group.members.len() >= 2)
            &&& group.has_placeholders == exists|n: int|
                0 <= n < names.len() && is_placeholder_name(#[trigger] names[n])
            &&& names.len() == 0 ==> group.schema_summary == "(no fields defined)"@
            &&& 0 < names.len() <= 4 ==> group.schema_summary == joined(names, ", "@)
            &&& names.len() > 4 ==> group.schema_summary == names[0] + ", "@ + names[1] + ", "@ + names[2] + ", "@
                + names[3] + ", …"@
        }),
{
    let rs = record_sets(metadata);
    let keys = rs.map_values(|r: JsonView| field_names(r));
    let labels = rs.map_values(|r: JsonView| label_of(r));
    let gs = grouped(keys, labels);
    let names = gs[g].0;
    let group = schema_groups(metadata)[g];
    assert(group == group_view(gs[g].0, gs[g].1));
    law_groups_hold_their_items(keys, labels, g, labels[i]);
    assert(keys[i] == field_names(rs[i]) && labels[i] == label_of(rs[i]));
    assert forall|m: int| 0 <= m < group.members.len() implies is_defined(metadata, names, #[trigger] group.members[m]) by {
        let l = group.members[m];
        assert(gs[g].1.contains(l));
        law_groups_hold_their_items(keys, labels, g, l);
        let k = choose|k: int| 0 <= k < keys.len() && (#[trigger] keys[k]) == gs[g].0 && labels[k] == l;
        assert(field_names(rs[k]) == names && label_of(rs[k]) == l);
    }
    law_groups_not_empty(keys, labels, g);
    if names.len() > 4 {
        lemma_four_joined(names.take(4), ", "@);
    }
    names
}

proof fn lemma_four_joined(parts: Seq<Seq<char>>, sep: Seq<char>)
    requires
        parts.len() == 4,
    ensures
        joined(parts, sep) == parts[0] + sep + parts[1] + sep + parts[2] + sep + parts[3],
{
    let c = parts.drop_last();
    let b = c.drop_last();
    let a = b.drop_last();
    assert(joined(a, sep) == parts[0]);
    assert(joined(b, sep) == parts[0] + sep + parts[1]);
    assert(joined(c, sep) == parts[0] + sep + parts[1] + sep + parts[2]);
}

/// What is not a list holds no fields, and no record sets.
pub proof fn law_only_lists_are_read(rs: JsonView, metadata: JsonView)
    ensures
        !(rs.get("field"@) matches Some(JsonView::Array(_))) ==> field_names(rs).len() == 0,
        !(metadata.get("recordSet"@) matches Some(JsonView::Array(_))) ==> schema_groups(metadata).len() == 0,
        metadata.get("recordSet"@) matches Some(JsonView::Array(sets)) ==> record_sets(metadata) == sets,
{
}

} // verus!
