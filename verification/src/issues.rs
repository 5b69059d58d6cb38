//! Validation issues: what each type means, and the page that lists them.
use crate::order::{in_order, law_in_order, law_less_asymmetric, less, sort_unique};
use crate::text::{same, views};
use vstd::prelude::*;

verus! {

/// The label of an issue type.
pub open spec fn label_of_type(t: Seq<char>) -> Seq<char> {
    if t == "repeated_content_url"@ {
        "Repeated contentUrl"@
    } else if t == "duplicate_distribution_id"@ {
        "Duplicate distribution @id"@
    } else if t == "broken_source_reference"@ {
        "Broken source reference"@
    } else if t == "missing_required_field"@ {
        "Missing required field"@
    } else if t == "missing_field_source"@ {
        "Field missing source"@
    } else if t == "relative_content_url"@ {
        "Relative contentUrl"@
    } else if t == "wrong_distribution_type"@ {
        "Wrong distribution @type"@
    } else if t == "format_extension_mismatch"@ {
        "Format/extension mismatch"@
    } else if t == "placeholder_value"@ {
        "Placeholder value"@
    } else if t == "url_error_response"@ {
        "URL error response"@
    } else if t == "placeholder_field_name"@ {
        "Placeholder field name"@
    } else if t == "inline_data_rows"@ {
        "Inline data rows (use examples)"@
    } else if t == "zip_without_inner_file"@ {
        "Archive missing inner file"@
    } else if t == "tabular_file_missing_recordset"@ {
        "Tabular file missing RecordSet"@
    } else if t == "provenance_noncompliant"@ {
        "Non-compliant dct:provenance"@
    } else if t == "license_is_terms_page"@ {
        "License URL is a terms page"@
    } else if t == "invalid_checksum_format"@ {
        "Invalid checksum format"@
    } else if t == "url_unreachable"@ {
        "URL unreachable"@
    } else {
        "Unknown issue"@
    }
}

/// Whether issues of a type are errors.
pub open spec fn is_error_type(t: Seq<char>) -> bool {
    ||| t == "repeated_content_url"@
    ||| t == "broken_source_reference"@
    ||| t == "missing_required_field"@
    ||| t == "missing_field_source"@
}

/// Whether issues of a type are warnings.
pub open spec fn is_warning_type(t: Seq<char>) -> bool {
    ||| t == "duplicate_distribution_id"@
    ||| t == "relative_content_url"@
    ||| t == "wrong_distribution_type"@
    ||| t == "format_extension_mismatch"@
    ||| t == "placeholder_value"@
    ||| t == "placeholder_field_name"@
    ||| t == "inline_data_rows"@
    ||| t == "zip_without_inner_file"@
    ||| t == "tabular_file_missing_recordset"@
    ||| t == "provenance_noncompliant"@
    ||| t == "license_is_terms_page"@
    ||| t == "invalid_checksum_format"@
}

/// The severity of an issue type; what is neither an error nor a warning is information.
pub open spec fn severity_of_type(t: Seq<char>) -> Seq<char> {
    if is_error_type(t) {
        "error"@
    } else if is_warning_type(t) {
        "warning"@
    } else {
        "info"@
    }
}

/// The label of an issue type.
fn issue_label(t: &str) -> (r: &'static str)
    ensures
        r@ == label_of_type(t@),
{
    if same(t, "repeated_content_url") {
        "Repeated contentUrl"
    } else if same(t, "duplicate_distribution_id") {
        "Duplicate distribution @id"
    } else if same(t, "broken_source_reference") {
        "Broken source reference"
    } else if same(t, "missing_required_field") {
        "Missing required field"
    } else if same(t, "missing_field_source") {
        "Field missing source"
    } else if same(t, "relative_content_url") {
        "Relative contentUrl"
    } else if same(t, "wrong_distribution_type") {
        "Wrong distribution @type"
    } else if same(t, "format_extension_mismatch") {
        "Format/extension mismatch"
    } else if same(t, "placeholder_value") {
        "Placeholder value"
    } else if same(t, "url_error_response") {
        "URL error response"
    } else if same(t, "placeholder_field_name") {
        "Placeholder field name"
    } else if same(t, "inline_data_rows") {
        "Inline data rows (use examples)"
    } else if same(t, "zip_without_inner_file") {
        "Archive missing inner file"
    } else if same(t, "tabular_file_missing_recordset") {
        "Tabular file missing RecordSet"
    } else if same(t, "provenance_noncompliant") {
        "Non-compliant dct:provenance"
    } else if same(t, "license_is_terms_page") {
        "License URL is a terms page"
    } else if same(t, "invalid_checksum_format") {
        "Invalid checksum format"
    } else if same(t, "url_unreachable") {
        "URL unreachable"
    } else {
        "Unknown issue"
    }
}

/// The severity of an issue type.
fn issue_severity(t: &str) -> (r: &'static str)
    ensures
        r@ == severity_of_type(t@),
{
    if same(t, "repeated_content_url") || same(t, "broken_source_reference") || same(
        t,
        "missing_required_field",
    ) || same(t, "missing_field_source") {
        "error"
    } else if same(t, "duplicate_distribution_id") || same(t, "relative_content_url") || same(
        t,
        "wrong_distribution_type",
    ) || same(t, "format_extension_mismatch") || same(t, "placeholder_value") || same(
        t,
        "placeholder_field_name",
    ) || same(t, "inline_data_rows") || same(t, "zip_without_inner_file") || same(
        t,
        "tabular_file_missing_recordset",
    ) || same(t, "provenance_noncompliant") || same(t, "license_is_terms_page") || same(
        t,
        "invalid_checksum_format",
    ) {
        "warning"
    } else {
        "info"
    }
}

/// The label and the severity of an issue type.
pub fn issue_type_meta(issue_type: &str) -> (r: (&'static str, &'static str))
    ensures
        r.0@ == label_of_type(issue_type@),
        r.1@ == severity_of_type(issue_type@),
{
    (issue_label(issue_type), issue_severity(issue_type))
}

/// The issue types that count as errors.
pub fn error_issue_types() -> (r: Vec<String>)
    ensures
        forall|t: Seq<char>| #[trigger] views(r@).contains(t) == (severity_of_type(t) == "error"@),
        views(r@).no_duplicates(),
{
    let mut r: Vec<String> = Vec::new();
    r.push("repeated_content_url".to_string());
    r.push("broken_source_reference".to_string());
    r.push("missing_required_field".to_string());
    r.push("missing_field_source".to_string());
    proof {
        let v = views(r@);
        assert(v =~= seq![
            "repeated_content_url"@,
            "broken_source_reference"@,
            "missing_required_field"@,
            "missing_field_source"@,
        ]);
        reveal_strlit("error");
        reveal_strlit("warning");
        reveal_strlit("info");
        assert("error"@.len() == 5 && "warning"@.len() == 7 && "info"@.len() == 4);
        reveal_strlit("repeated_content_url");
        reveal_strlit("broken_source_reference");
        reveal_strlit("missing_required_field");
        reveal_strlit("missing_field_source");
        assert(v[0].len() == 20 && v[1].len() == 23 && v[2].len() == 22 && v[3].len() == 20);
        assert(v[0][0] == 'r' && v[3][0] == 'm');
        assert forall|t: Seq<char>| #[trigger] v.contains(t) == (severity_of_type(t) == "error"@) by {
            if is_error_type(t) {
                assert(v[0] == t || v[1] == t || v[2] == t || v[3] == t);
            }
        }
    }
    r
}

/// An issue of a knowledge base.
#[derive(Debug, PartialEq, Eq)]
pub struct ValidationIssue {
    pub kb_name: String,
    pub issue_type: String,
    pub path: String,
    pub value: String,
    pub detail: String,
}

/// What an issue of a knowledge base says.
pub struct ValidationIssueView {
    pub kb_name: Seq<char>,
    pub issue_type: Seq<char>,
    pub path: Seq<char>,
    pub value: Seq<char>,
    pub detail: Seq<char>,
}

impl View for ValidationIssue {
    type V = ValidationIssueView;

    open spec fn view(&self) -> ValidationIssueView {
        ValidationIssueView {
            kb_name: self.kb_name@,
            issue_type: self.issue_type@,
            path: self.path@,
            value: self.value@,
            detail: self.detail@,
        }
    }
}

/// What a list of issues says.
pub open spec fn validation_views(s: Seq<ValidationIssue>) -> Seq<ValidationIssueView> {
    s.map_values(|i: ValidationIssue| i@)
}

/// An issue with its label and severity.
#[derive(Debug, PartialEq, Eq)]
pub struct IssueLine {
    pub issue_type: String,
    pub issue_label: String,
    pub severity: String,
    pub path: String,
    pub value: String,
    pub detail: String,
}

/// What a line about an issue says.
pub struct IssueLineView {
    pub issue_type: Seq<char>,
    pub issue_label: Seq<char>,
    pub severity: Seq<char>,
    pub path: Seq<char>,
    pub value: Seq<char>,
    pub detail: Seq<char>,
}

impl View for IssueLine {
    type V = IssueLineView;

    open spec fn view(&self) -> IssueLineView {
        IssueLineView {
            issue_type: self.issue_type@,
            issue_label: self.issue_label@,
            severity: self.severity@,
            path: self.path@,
            value: self.value@,
            detail: self.detail@,
        }
    }
}

/// What lines about issues say.
pub open spec fn line_views(s: Seq<IssueLine>) -> Seq<IssueLineView> {
    s.map_values(|l: IssueLine| l@)
}

/// The line about an issue.
pub open spec fn line_of(i: ValidationIssueView) -> IssueLineView {
    IssueLineView {
        issue_type: i.issue_type,
        issue_label: label_of_type(i.issue_type),
        severity: severity_of_type(i.issue_type),
        path: i.path,
        value: i.value,
        detail: i.detail,
    }
}

/// The lines about a list of issues.
pub open spec fn lines_of(s: Seq<ValidationIssueView>) -> Seq<IssueLineView> {
    s.map_values(|i: ValidationIssueView| line_of(i))
}

/// The line about an issue.
fn make_line(i: &ValidationIssue) -> (r: IssueLine)
    ensures
        r@ == line_of(i@),
{
    let (label, severity) = issue_type_meta(i.issue_type.as_str());
    IssueLine {
        issue_type: i.issue_type.clone(),
        issue_label: label.to_string(),
        severity: severity.to_string(),
        path: i.path.clone(),
        value: i.value.clone(),
        detail: i.detail.clone(),
    }
}

/// The issues, each with its label and severity.
pub fn label_issues(issues: &Vec<ValidationIssue>) -> (r: Vec<IssueLine>)
    ensures
        line_views(r@) == lines_of(validation_views(issues@)),
{
    let ghost all = lines_of(validation_views(issues@));
    let mut r: Vec<IssueLine> = Vec::new();
    for i in 0..issues.len()
        invariant
            all == lines_of(validation_views(issues@)),
            line_views(r@) == all.take(i as int),
    {
        let ghost before = line_views(r@);
        let line = make_line(&issues[i]);
        assert(all[i as int] == line@);
        r.push(line);
        assert(line_views(r@) =~= before.push(line@));
    }
    assert(all.take(all.len() as int) =~= all);
    r
}

/// How many issues of a type there are.
#[derive(Debug, PartialEq, Eq)]
pub struct TypeSummary {
    pub issue_type: String,
    pub count: usize,
    pub label: String,
    pub severity: String,
}

/// What the summary of a type says.
pub struct TypeSummaryView {
    pub issue_type: Seq<char>,
    pub count: nat,
    pub label: Seq<char>,
    pub severity: Seq<char>,
}

impl View for TypeSummary {
    type V = TypeSummaryView;

    open spec fn view(&self) -> TypeSummaryView {
        TypeSummaryView {
            issue_type: self.issue_type@,
            count: self.count as nat,
            label: self.label@,
            severity: self.severity@,
        }
    }
}

/// What the summaries say.
pub open spec fn summary_views(s: Seq<TypeSummary>) -> Seq<TypeSummaryView> {
    s.map_values(|t: TypeSummary| t@)
}

/// The types of a list of issues.
pub open spec fn types_of(s: Seq<ValidationIssueView>) -> Seq<Seq<char>> {
    s.map_values(|i: ValidationIssueView| i.issue_type)
}

/// How often `t` occurs.
pub open spec fn occurrences(s: Seq<Seq<char>>, t: Seq<char>) -> nat
    decreases s.len(),
{
    if s.len() == 0 {
        0
    } else if s.last() == t {
        occurrences(s.drop_last(), t) + 1
    } else {
        occurrences(s.drop_last(), t)
    }
}

/// The summary of a type.
pub open spec fn type_summary(types: Seq<Seq<char>>, t: Seq<char>) -> TypeSummaryView {
    TypeSummaryView {
        issue_type: t,
        count: occurrences(types, t),
        label: label_of_type(t),
        severity: severity_of_type(t),
    }
}

/// The summaries of all types that occur, in the order of the types.
pub open spec fn summaries_of(s: Seq<ValidationIssueView>) -> Seq<TypeSummaryView> {
    in_order(types_of(s).to_set()).map_values(|t: Seq<char>| type_summary(types_of(s), t))
}

/// How often `t` occurs.
fn count_of(list: &Vec<String>, t: &str) -> (r: usize)
    ensures
        r == occurrences(views(list@), t@),
{
    let ghost all = views(list@);
    let mut n: usize = 0;
    for i in 0..list.len()
        invariant
            all == views(list@),
            n <= i,
            n == occurrences(all.take(i as int), t@),
    {
        assert(all.take(i + 1).drop_last() =~= all.take(i as int));
        assert(all.take(i + 1).last() == list@[i as int]@);
        if same(list[i].as_str(), t) {
            n = n + 1;
        }
    }
    assert(all.take(all.len() as int) =~= all);
    n
}

/// The summaries of all types that occur, in the order of the types.
pub fn summarize_types(issues: &Vec<ValidationIssue>) -> (r: Vec<TypeSummary>)
    ensures
        summary_views(r@) == summaries_of(validation_views(issues@)),
{
    let ghost tv = types_of(validation_views(issues@));
    let mut types: Vec<String> = Vec::new();
    for i in 0..issues.len()
        invariant
            tv == types_of(validation_views(issues@)),
            views(types@) == tv.take(i as int),
    {
        let ghost before = views(types@);
        types.push(issues[i].issue_type.clone());
        assert(tv[i as int] == issues@[i as int].issue_type@);
        assert(views(types@) =~= before.push(issues@[i as int].issue_type@));
    }
    assert(views(types@) =~= tv);
    let keys = sort_unique(&types);
    let ghost kv = views(keys@);
    let ghost all = summaries_of(validation_views(issues@));
    let mut r: Vec<TypeSummary> = Vec::new();
    for i in 0..keys.len()
        invariant
            views(types@) == tv,
            kv == views(keys@),
            all == kv.map_values(|t: Seq<char>| type_summary(tv, t)),
            summary_views(r@) == all.take(i as int),
    {
        let key = keys[i].as_str();
        let (label, severity) = issue_type_meta(key);
        let s = TypeSummary {
            issue_type: keys[i].clone(),
            count: count_of(&types, key),
            label: label.to_string(),
            severity: severity.to_string(),
        };
        let ghost before = summary_views(r@);
        assert(kv[i as int] == key@);
        assert(all[i as int] == s@);
        r.push(s);
        assert(summary_views(r@) =~= before.push(s@));
    }
    assert(all.take(all.len() as int) =~= all);
    r
}

/// The issues of one knowledge base.
#[derive(Debug, PartialEq, Eq)]
pub struct KbIssues {
    pub kb_name: String,
    pub count: usize,
    pub issues: Vec<IssueLine>,
}

/// A knowledge base with the lines about its issues.
pub open spec fn kb_group_view(g: KbIssues) -> (Seq<char>, Seq<IssueLineView>) {
    (g.kb_name@, line_views(g.issues@))
}

/// Knowledge bases with the lines about their issues.
pub open spec fn kb_group_views(s: Seq<KbIssues>) -> Seq<(Seq<char>, Seq<IssueLineView>)> {
    s.map_values(|g: KbIssues| kb_group_view(g))
}

/// The issues in groups of neighbours that belong to the same knowledge base.
pub open spec fn neighbour_groups(s: Seq<ValidationIssueView>) -> Seq<(Seq<char>, Seq<IssueLineView>)>
    decreases s.len(),
{
    if s.len() == 0 {
        Seq::empty()
    } else {
        let before = neighbour_groups(s.drop_last());
        let i = s.last();
        if before.len() > 0 && before.last().0 == i.kb_name {
            before.update(before.len() - 1, (i.kb_name, before.last().1.push(line_of(i))))
        } else {
            before.push((i.kb_name, seq![line_of(i)]))
        }
    }
}

/// The issues in groups of neighbours that belong to the same knowledge base.
pub fn group_by_kb(issues: &Vec<ValidationIssue>) -> (r: Vec<KbIssues>)
    ensures
        kb_group_views(r@) == neighbour_groups(validation_views(issues@)),
        forall|i: int| 0 <= i < r@.len() ==> (#[trigger] r@[i]).count == r@[i].issues@.len(),
{
    let ghost iv = validation_views(issues@);
    let mut r: Vec<KbIssues> = Vec::new();
    assert(kb_group_views(r@) =~= neighbour_groups(iv.take(0)));
    for i in 0..issues.len()
        invariant
            iv == validation_views(issues@),
            kb_group_views(r@) == neighbour_groups(iv.take(i as int)),
            forall|j: int| 0 <= j < r@.len() ==> (#[trigger] r@[j]).count == r@[j].issues@.len(),
    {
        let issue = &issues[i];
        assert(iv.take(i + 1).drop_last() =~= iv.take(i as int));
        assert(iv.take(i + 1).last() == issue@);
        let ghost before = kb_group_views(r@);
        let line = make_line(issue);
        let n: usize = r.len();
        if n > 0 && same(r[n - 1].kb_name.as_str(), issue.kb_name.as_str()) {
            let ghost start = r@;
            assert(before[n - 1] == kb_group_view(start[n - 1]));
            r[n - 1].issues.push(line);
            r[n - 1].count = r[n - 1].issues.len();
            proof {
                assert(line_views(r@[n - 1].issues@) =~= line_views(start[n - 1].issues@).push(line@));
                assert(kb_group_views(r@) =~= before.update(
                    n - 1,
                    (issue.kb_name@, line_views(start[n - 1].issues@).push(line@)),
                ));
            }
        } else {
            let mut lines: Vec<IssueLine> = Vec::new();
            lines.push(line);
            assert(line_views(lines@) =~= seq![line@]);
            if n > 0 {
                assert(before[n - 1] == kb_group_view(r@[n - 1]));
            }
            r.push(KbIssues { kb_name: issue.kb_name.clone(), count: 1, issues: lines });
            assert(kb_group_views(r@) =~= before.push((issue.kb_name@, seq![line@])));
        }
    }
    assert(iv.take(iv.len() as int) =~= iv);
    r
}

/// The lines of all groups, one after another.
pub open spec fn lines_in(groups: Seq<(Seq<char>, Seq<IssueLineView>)>) -> Seq<IssueLineView>
    decreases groups.len(),
{
    if groups.len() == 0 {
        Seq::empty()
    } else {
        lines_in(groups.drop_last()) + groups.last().1
    }
}

/// The groups hold all issues, in their order, and nothing else.
pub proof fn law_groups_keep_issues(s: Seq<ValidationIssueView>)
    ensures
        lines_in(neighbour_groups(s)) == lines_of(s),
    decreases s.len(),
{
    let g = neighbour_groups(s);
    if s.len() == 0 {
        assert(lines_of(s) =~= Seq::empty());
    } else {
        let t = s.drop_last();
        let before = neighbour_groups(t);
        law_groups_keep_issues(t);
        let line = line_of(s.last());
        assert(lines_of(s) =~= lines_of(t).push(line));
        if before.len() > 0 && before.last().0 == s.last().kb_name {
            assert(g.drop_last() =~= before.drop_last());
            assert(lines_in(g) =~= lines_in(before).push(line));
        } else {
            assert(g.drop_last() =~= before);
            assert(lines_in(g) =~= lines_in(before).push(line));
        }
    }
}

/// Whether issues of the same knowledge base are neighbours.
pub open spec fn is_grouped(s: Seq<ValidationIssueView>) -> bool {
    forall|i: int, j: int, k: int|
        0 <= i < j < k < s.len() && (#[trigger] s[i]).kb_name == (#[trigger] s[k]).kb_name ==> (#[trigger] s[j]).kb_name
            == s[i].kb_name
}

proof fn lemma_group_names(s: Seq<ValidationIssueView>)
    ensures
        s.len() > 0 ==> neighbour_groups(s).len() > 0 && neighbour_groups(s).last().0 == s.last().kb_name,
        forall|g: int|
            0 <= g < neighbour_groups(s).len() ==> exists|i: int|
                0 <= i < s.len() && (#[trigger] s[i]).kb_name == (#[trigger] neighbour_groups(s)[g]).0,
    decreases s.len(),
{
    if s.len() > 0 {
        let t = s.drop_last();
        let before = neighbour_groups(t);
        lemma_group_names(t);
        assert forall|g: int| 0 <= g < neighbour_groups(s).len() implies exists|i: int|
            0 <= i < s.len() && (#[trigger] s[i]).kb_name == (#[trigger] neighbour_groups(s)[g]).0 by {
            if g < before.len() && neighbour_groups(s)[g].0 == before[g].0 {
                let i = choose|i: int| 0 <= i < t.len() && (#[trigger] t[i]).kb_name == before[g].0;
                assert(s[i] == t[i]);
            } else {
                assert(s[s.len() - 1].kb_name == neighbour_groups(s)[g].0);
            }
        }
    }
}

/// Where issues of the same knowledge base are neighbours, each knowledge base has one
/// group.
pub proof fn law_one_group_per_kb(s: Seq<ValidationIssueView>, a: int, b: int)
    requires
        is_grouped(s),
        0 <= a < b < neighbour_groups(s).len(),
    ensures
        neighbour_groups(s)[a].0 != neighbour_groups(s)[b].0,
    decreases s.len(),
{
    let t = s.drop_last();
    let before = neighbour_groups(t);
    let g = neighbour_groups(s);
    assert(is_grouped(t)) by {
        assert forall|i: int, j: int, k: int|
            0 <= i < j < k < t.len() && (#[trigger] t[i]).kb_name == (#[trigger] t[k]).kb_name implies (
        #[trigger] t[j]).kb_name == t[i].kb_name by {
            assert(s[i] == t[i] && s[j] == t[j] && s[k] == t[k]);
        }
    }
    lemma_group_names(t);
    if b < before.len() {
        law_one_group_per_kb(t, a, b);
    } else {
        // The last group is new, and its name is not that of its predecessor.
        let name = s.last().kb_name;
        assert(t.len() > 0);
        assert(before.last().0 == t.last().kb_name);
        assert(before.last().0 != name);
        let i = choose|i: int| 0 <= i < t.len() && (#[trigger] t[i]).kb_name == before[a].0;
        if before[a].0 == name {
            assert(s[i] == t[i]);
            assert(s[t.len() - 1] == t.last());
            assert(s[s.len() - 1] == s.last());
            if i < t.len() - 1 {
                assert(s[t.len() - 1].kb_name == s[i].kb_name);
            }
        }
        assert(g[a] == before[a]);
    }
}

/// The counts of the summaries, added up.
pub open spec fn counted(s: Seq<TypeSummaryView>) -> nat
    decreases s.len(),
{
    if s.len() == 0 {
        0
    } else {
        counted(s.drop_last()) + s.last().count
    }
}

spec fn count_all(keys: Seq<Seq<char>>, types: Seq<Seq<char>>) -> nat
    decreases keys.len(),
{
    if keys.len() == 0 {
        0
    } else {
        count_all(keys.drop_last(), types) + occurrences(types, keys.last())
    }
}

proof fn lemma_counted(keys: Seq<Seq<char>>, types: Seq<Seq<char>>)
    ensures
        counted(keys.map_values(|t: Seq<char>| type_summary(types, t))) == count_all(keys, types),
    decreases keys.len(),
{
    let all = keys.map_values(|t: Seq<char>| type_summary(types, t));
    if keys.len() > 0 {
        lemma_counted(keys.drop_last(), types);
        assert(all.drop_last() =~= keys.drop_last().map_values(|t: Seq<char>| type_summary(types, t)));
    }
}

proof fn lemma_count_push(keys: Seq<Seq<char>>, types: Seq<Seq<char>>)
    requires
        keys.no_duplicates(),
        types.len() > 0,
    ensures
        count_all(keys, types) == count_all(keys, types.drop_last()) + (if keys.contains(types.last()) {
            1nat
        } else {
            0nat
        }),
    decreases keys.len(),
{
    if keys.len() > 0 {
        let k = keys.drop_last();
        let t = types.last();
        lemma_count_push(k, types);
        assert(keys[keys.len() - 1] == keys.last());
        if k.contains(t) {
            let i = choose|i: int| 0 <= i < k.len() && k[i] == t;
            assert(keys[i] == t);
        } else if keys.contains(t) {
            let i = choose|i: int| 0 <= i < keys.len() && keys[i] == t;
            assert(i < k.len() ==> k[i] == t);
        }
    }
}

proof fn lemma_count_all(keys: Seq<Seq<char>>, types: Seq<Seq<char>>)
    requires
        keys.no_duplicates(),
        forall|i: int| 0 <= i < types.len() ==> keys.contains(#[trigger] types[i]),
    ensures
        count_all(keys, types) == types.len(),
    decreases types.len(),
{
    if types.len() == 0 {
        lemma_count_none(keys, types);
    } else {
        let t = types.drop_last();
        assert forall|i: int| 0 <= i < t.len() implies keys.contains(#[trigger] t[i]) by {
            assert(t[i] == types[i]);
        }
        lemma_count_all(keys, t);
        lemma_count_push(keys, types);
        assert(keys.contains(types[types.len() - 1]));
    }
}

proof fn lemma_count_none(keys: Seq<Seq<char>>, types: Seq<Seq<char>>)
    requires
        types.len() == 0,
    ensures
        count_all(keys, types) == 0,
    decreases keys.len(),
{
    if keys.len() > 0 {
        lemma_count_none(keys.drop_last(), types);
    }
}

/// Every issue is counted under one type: the counts add up to the number of issues.
pub proof fn law_counts_add_up(s: Seq<ValidationIssueView>)
    ensures
        counted(summaries_of(s)) == s.len(),
{
    let types = types_of(s);
    vstd::seq_lib::seq_to_set_is_finite(types);
    law_in_order(types.to_set());
    let keys = in_order(types.to_set());
    assert forall|i: int, j: int| 0 <= i < keys.len() && 0 <= j < keys.len() && i != j implies keys[i] != keys[j] by {
        law_less_asymmetric(keys[i], keys[i]);
        if i < j {
            assert(less(keys[i], keys[j]));
        } else {
            assert(less(keys[j], keys[i]));
        }
    }
    assert forall|i: int| 0 <= i < types.len() implies keys.contains(#[trigger] types[i]) by {
        assert(types.to_set().contains(types[i]));
        assert(keys.to_set().contains(types[i]));
    }
    lemma_counted(keys, types);
    lemma_count_all(keys, types);
}

/// A group holds issues of its knowledge base only, each with its type, path, value and
/// detail as they are.
pub proof fn law_groups_are_of_one_kb(s: Seq<ValidationIssueView>, g: int, l: int)
    requires
        0 <= g < neighbour_groups(s).len(),
        0 <= l < neighbour_groups(s)[g].1.len(),
    ensures
        exists|i: int|
            0 <= i < s.len() && (#[trigger] s[i]).kb_name == neighbour_groups(s)[g].0 && s[i].issue_type
                == neighbour_groups(s)[g].1[l].issue_type && s[i].path == neighbour_groups(s)[g].1[l].path && s[i].value
                == neighbour_groups(s)[g].1[l].value && s[i].detail == neighbour_groups(s)[g].1[l].detail,
        neighbour_groups(s)[g].1[l].severity == severity_of_type(neighbour_groups(s)[g].1[l].issue_type),
        neighbour_groups(s)[g].1[l].issue_label == label_of_type(neighbour_groups(s)[g].1[l].issue_type),
    decreases s.len(),
{
    let t = s.drop_last();
    let before = neighbour_groups(t);
    let all = neighbour_groups(s);
    if s.len() > 0 {
        if g < before.len() && l < before[g].1.len() {
            law_groups_are_of_one_kb(t, g, l);
            let i = choose|i: int|
                0 <= i < t.len() && (#[trigger] t[i]).kb_name == before[g].0 && t[i].issue_type == before[g].1[l].issue_type
                    && t[i].path == before[g].1[l].path && t[i].value == before[g].1[l].value && t[i].detail
                    == before[g].1[l].detail;
            assert(s[i] == t[i]);
            assert(all[g].1[l] == before[g].1[l] && all[g].0 == before[g].0);
        } else {
            assert(all[g].1[l] == line_of(s.last()));
            assert(s[s.len() - 1].kb_name == all[g].0);
        }
    }
}

proof fn lemma_occurrences(s: Seq<ValidationIssueView>, t: Seq<char>)
    ensures
        occurrences(types_of(s), t) == s.filter(|i: ValidationIssueView| i.issue_type == t).len(),
    decreases s.len(),
{
    reveal(Seq::filter);
    if s.len() > 0 {
        lemma_occurrences(s.drop_last(), t);
        assert(types_of(s).drop_last() =~= types_of(s.drop_last()));
    }
}

/// The summaries count the issues of each type: one summary for each type that occurs, in
/// ascending order, with the number of its issues.
pub proof fn law_summaries_count_types(s: Seq<ValidationIssueView>, k: int, i: int)
    requires
        0 <= k < summaries_of(s).len(),
        0 <= i < s.len(),
    ensures
        summaries_of(s)[k].count == s.filter(
            |x: ValidationIssueView| x.issue_type == summaries_of(s)[k].issue_type,
        ).len(),
        summaries_of(s)[k].severity == severity_of_type(summaries_of(s)[k].issue_type),
        summaries_of(s)[k].label == label_of_type(summaries_of(s)[k].issue_type),
        k > 0 ==> less(summaries_of(s)[k - 1].issue_type, summaries_of(s)[k].issue_type),
        exists|j: int| 0 <= j < summaries_of(s).len() && (#[trigger] summaries_of(s)[j]).issue_type == s[i].issue_type,
{
    let types = types_of(s);
    vstd::seq_lib::seq_to_set_is_finite(types);
    law_in_order(types.to_set());
    let keys = in_order(types.to_set());
    let t = summaries_of(s)[k].issue_type;
    lemma_occurrences(s, t);
    assert(s.filter(|x: ValidationIssueView| x.issue_type == t) =~= s.filter(
        |x: ValidationIssueView| x.issue_type == summaries_of(s)[k].issue_type,
    ));
    if k > 0 {
        assert(less(keys[k - 1], keys[k]));
    }
    assert(types[i] == s[i].issue_type);
    assert(types.to_set().contains(types[i]));
    assert(keys.to_set().contains(types[i]));
    let j = choose|j: int| 0 <= j < keys.len() && keys[j] == types[i];
    assert(summaries_of(s)[j].issue_type == s[i].issue_type);
}

/// A line says of its issue what the issue says, and nothing of another.
pub proof fn law_lines_keep_issues(s: Seq<ValidationIssueView>, i: int)
    requires
        0 <= i < s.len(),
    ensures
        lines_of(s).len() == s.len(),
        lines_of(s)[i].issue_type == s[i].issue_type,
        lines_of(s)[i].path == s[i].path,
        lines_of(s)[i].value == s[i].value,
        lines_of(s)[i].detail == s[i].detail,
        lines_of(s)[i].severity == severity_of_type(s[i].issue_type),
        lines_of(s)[i].issue_label == label_of_type(s[i].issue_type),
{
}

} // verus!
