//! The home page: every knowledge base with its progress, issues and latest run.
use crate::lookup::{index_last, last_index, lemma_last_index, locates_last, set_of};
use crate::order::{
    goes_before, is_stable_order, law_less_asymmetric, law_stable_order_exists, less, positions, sort_by_key,
    stable_order,
};
use crate::paging::{divide, quotient};
use crate::text::{copy_opt, lowercase, to_lowercase, view_opt, views};
use vstd::hash_map::StringHashMap;
use vstd::hash_set::StringHashSet;
use vstd::prelude::*;

verus! {

/// A knowledge base under review.
#[derive(Debug, PartialEq, Eq)]
pub struct WorkingKb {
    pub name: String,
    pub url: Option<String>,
}

/// An imported run with the knowledge bases that it covers.
#[derive(Debug, PartialEq, Eq)]
pub struct RunKbs {
    pub label: String,
    pub run_date: Option<String>,
    pub kb_names: Vec<String>,
}

/// The address that runs give for a knowledge base.
#[derive(Debug, PartialEq, Eq)]
pub struct KbUrl {
    pub kb_name: String,
    pub url: String,
}

/// How many fields of a knowledge base there are, and how many are reviewed.
#[derive(Debug, PartialEq, Eq)]
pub struct ReviewCount {
    pub kb_name: String,
    pub total: i64,
    pub reviewed: i64,
    pub auto_reviewed: i64,
}

/// How many issues a knowledge base has, and how many of them are errors.
#[derive(Debug, PartialEq, Eq)]
pub struct IssueCount {
    pub kb_name: String,
    pub total_issues: i64,
    pub error_count: i64,
}

/// What is known of a knowledge base under review.
#[derive(Debug, Clone, Copy, PartialEq, Eq, Structural)]
pub struct KbProgress {
    pub total_fields: i64,
    pub reviewed_fields: i64,
    pub pct_reviewed: i64,
    pub total_issues: i64,
    pub error_count: i64,
    pub has_been_validated: bool,
    pub has_staged_version: bool,
}

/// A line of the home page; one without progress is not under review.
#[derive(Debug, PartialEq, Eq)]
pub struct HomeItem {
    pub name: String,
    pub url: Option<String>,
    pub latest_run_label: Option<String>,
    pub latest_run_date: Option<String>,
    pub progress: Option<KbProgress>,
}

/// What a line of the home page says.
pub struct HomeItemView {
    pub name: Seq<char>,
    pub url: Option<Seq<char>>,
    pub latest_run_label: Option<Seq<char>>,
    pub latest_run_date: Option<Seq<char>>,
    pub progress: Option<KbProgress>,
}

impl View for HomeItem {
    type V = HomeItemView;

    open spec fn view(&self) -> HomeItemView {
        HomeItemView {
            name: self.name@,
            url: view_opt(self.url),
            latest_run_label: view_opt(self.latest_run_label),
            latest_run_date: view_opt(self.latest_run_date),
            progress: self.progress,
        }
    }
}

/// What the lines of the home page say.
pub open spec fn item_views(s: Seq<HomeItem>) -> Seq<HomeItemView> {
    s.map_values(|i: HomeItem| i@)
}

/// The names of the knowledge bases under review.
pub open spec fn working_names(s: Seq<WorkingKb>) -> Seq<Seq<char>> {
    s.map_values(|k: WorkingKb| k.name@)
}

/// The position of the first run that covers a knowledge base, or the number of runs.
pub open spec fn first_run(runs: Seq<RunKbs>, name: Seq<char>) -> int
    decreases runs.len(),
{
    if runs.len() == 0 {
        0
    } else {
        let p = first_run(runs.drop_last(), name);
        if p < runs.len() - 1 {
            p
        } else if views(runs.last().kb_names@).contains(name) {
            runs.len() - 1
        } else {
            runs.len() as int
        }
    }
}

/// The label and the date of the first run that covers a knowledge base; runs come
/// newest first.
pub open spec fn latest_run(runs: Seq<RunKbs>, name: Seq<char>) -> (Option<Seq<char>>, Option<Seq<char>>) {
    let p = first_run(runs, name);
    if 0 <= p < runs.len() {
        (Some(runs[p].label@), view_opt(runs[p].run_date))
    } else {
        (None, None)
    }
}

/// The address that runs give for a knowledge base; none without runs.
pub open spec fn run_url(runs: Seq<RunKbs>, urls: Seq<KbUrl>, name: Seq<char>) -> Option<Seq<char>> {
    let p = last_index(urls.map_values(|u: KbUrl| u.kb_name@), name);
    if runs.len() > 0 && 0 <= p < urls.len() {
        Some(urls[p].url@)
    } else {
        None
    }
}

/// The total, reviewed and automatically reviewed fields of a knowledge base.
pub open spec fn review_count(counts: Seq<ReviewCount>, name: Seq<char>) -> (i64, i64, i64) {
    let p = last_index(counts.map_values(|c: ReviewCount| c.kb_name@), name);
    if 0 <= p < counts.len() {
        (counts[p].total, counts[p].reviewed, counts[p].auto_reviewed)
    } else {
        (0, 0, 0)
    }
}

/// The issues and errors of a knowledge base.
pub open spec fn issue_count(counts: Seq<IssueCount>, name: Seq<char>) -> (i64, i64) {
    let p = last_index(counts.map_values(|c: IssueCount| c.kb_name@), name);
    if 0 <= p < counts.len() {
        (counts[p].total_issues, counts[p].error_count)
    } else {
        (0, 0)
    }
}

/// The share of reviewed fields in percent, rounded towards zero; zero without fields.
pub open spec fn percent(reviewed: i64, total: i64) -> int {
    if total > 0 {
        quotient(reviewed * 100, total as int)
    } else {
        0
    }
}

/// What is known of a knowledge base under review.
pub open spec fn progress_of(
    counts: Seq<ReviewCount>,
    issues: Seq<IssueCount>,
    validated: Seq<Seq<char>>,
    staged: Seq<Seq<char>>,
    name: Seq<char>,
) -> KbProgress {
    let c = review_count(counts, name);
    let i = issue_count(issues, name);
    KbProgress {
        total_fields: c.0,
        reviewed_fields: c.1,
        pct_reviewed: percent(c.1, c.0) as i64,
        total_issues: i.0,
        error_count: i.1,
        has_been_validated: validated.contains(name) || c.2 > 0 || i.0 > 0,
        has_staged_version: staged.contains(name),
    }
}

/// The line of a knowledge base under review.
pub open spec fn working_item(
    kb: WorkingKb,
    runs: Seq<RunKbs>,
    urls: Seq<KbUrl>,
    counts: Seq<ReviewCount>,
    issues: Seq<IssueCount>,
    validated: Seq<Seq<char>>,
    staged: Seq<Seq<char>>,
) -> HomeItemView {
    HomeItemView {
        name: kb.name@,
        url: match kb.url {
            Some(u) => Some(u@),
            None => run_url(runs, urls, kb.name@),
        },
        latest_run_label: latest_run(runs, kb.name@).0,
        latest_run_date: latest_run(runs, kb.name@).1,
        progress: Some(progress_of(counts, issues, validated, staged, kb.name@)),
    }
}

/// The line of a knowledge base that only runs know.
pub open spec fn run_item(name: Seq<char>, runs: Seq<RunKbs>, urls: Seq<KbUrl>) -> HomeItemView {
    HomeItemView {
        name,
        url: run_url(runs, urls, name),
        latest_run_label: latest_run(runs, name).0,
        latest_run_date: latest_run(runs, name).1,
        progress: None,
    }
}

/// The lines of the knowledge bases that only runs know.
pub open spec fn run_items(
    names: Seq<Seq<char>>,
    working: Seq<Seq<char>>,
    runs: Seq<RunKbs>,
    urls: Seq<KbUrl>,
) -> Seq<HomeItemView>
    decreases names.len(),
{
    if names.len() == 0 {
        Seq::empty()
    } else if working.contains(names.last()) {
        run_items(names.drop_last(), working, runs, urls)
    } else {
        run_items(names.drop_last(), working, runs, urls).push(run_item(names.last(), runs, urls))
    }
}

/// All lines, those under review first.
pub open spec fn unsorted_items(
    working: Seq<WorkingKb>,
    runs: Seq<RunKbs>,
    run_kb_names: Seq<Seq<char>>,
    urls: Seq<KbUrl>,
    counts: Seq<ReviewCount>,
    issues: Seq<IssueCount>,
    validated: Seq<Seq<char>>,
    staged: Seq<Seq<char>>,
) -> Seq<HomeItemView> {
    let named = if runs.len() > 0 {
        run_kb_names
    } else {
        Seq::empty()
    };
    working.map_values(|k: WorkingKb| working_item(k, runs, urls, counts, issues, validated, staged)) + run_items(
        named,
        working_names(working),
        runs,
        urls,
    )
}

/// The lines in the order of their names in lower case.
pub open spec fn sorted_items(items: Seq<HomeItemView>) -> Seq<HomeItemView> {
    stable_order(items.map_values(|i: HomeItemView| lowercase(i.name))).map_values(|p: int| items[p])
}

proof fn lemma_first_run(runs: Seq<RunKbs>, name: Seq<char>)
    ensures
        0 <= first_run(runs, name) <= runs.len(),
    decreases runs.len(),
{
    if runs.len() > 0 {
        lemma_first_run(runs.drop_last(), name);
    }
}

/// Whether `m` holds the position of the first run that covers each knowledge base.
pub open spec fn locates_runs(m: Map<Seq<char>, usize>, runs: Seq<RunKbs>) -> bool {
    &&& forall|k: Seq<char>| #[trigger] m.dom().contains(k) == (first_run(runs, k) < runs.len())
    &&& forall|k: Seq<char>| m.dom().contains(k) ==> #[trigger] m[k] == first_run(runs, k)
}

/// For each knowledge base the position of the first run that covers it.
fn index_runs(runs: &Vec<RunKbs>) -> (m: StringHashMap<usize>)
    ensures
        locates_runs(m@, runs@),
{
    let mut m: StringHashMap<usize> = StringHashMap::new();
    for i in 0..runs.len()
        invariant
            forall|k: Seq<char>| #[trigger]
                m@.dom().contains(k) == (first_run(runs@.take(i as int), k) < i),
            forall|k: Seq<char>|
                m@.dom().contains(k) ==> #[trigger] m@[k] == first_run(runs@.take(i as int), k),
    {
        let ghost start = m@;
        let ghost before = runs@.take(i as int);
        let ghost after = runs@.take(i + 1);
        assert(after.drop_last() == before);
        assert(after.last() == runs@[i as int]);
        let names = &runs[i].kb_names;
        let ghost nv = views(names@);
        for j in 0..names.len()
            invariant
                i < runs@.len(),
                nv == views(names@),
                forall|k: Seq<char>| #[trigger]
                    m@.dom().contains(k) == (start.dom().contains(k) || nv.take(j as int).contains(k)),
                forall|k: Seq<char>| start.dom().contains(k) ==> #[trigger] m@[k] == start[k],
                forall|k: Seq<char>|
                    m@.dom().contains(k) && !start.dom().contains(k) ==> #[trigger] m@[k] == i,
        {
            let ghost old_m = m@;
            let ghost a = nv.take(j as int);
            let ghost b = nv.take(j + 1);
            if !m.contains_key(names[j].as_str()) {
                m.insert(names[j].clone(), i);
            }
            proof {
                assert(b == a.push(nv[j as int]));
                assert(b[j as int] == nv[j as int]);
                assert forall|k: Seq<char>| #[trigger] m@.dom().contains(k) == (start.dom().contains(k) || b.contains(k)) by {
                    assert(old_m.dom().contains(k) == (start.dom().contains(k) || a.contains(k)));
                    if a.contains(k) {
                        let x = choose|x: int| 0 <= x < a.len() && a[x] == k;
                        assert(b[x] == k);
                    }
                }
                assert forall|k: Seq<char>| start.dom().contains(k) implies #[trigger] m@[k] == start[k] by {
                    assert(old_m.dom().contains(k));
                    assert(old_m[k] == start[k]);
                }
                assert forall|k: Seq<char>| m@.dom().contains(k) && !start.dom().contains(k) implies #[trigger] m@[k] == i by {
                    if old_m.dom().contains(k) {
                        assert(old_m[k] == i);
                    }
                }
            }
        }
        proof {
            assert(nv.take(nv.len() as int) == nv);
            assert forall|k: Seq<char>| #[trigger] m@.dom().contains(k) == (first_run(after, k) < i + 1) by {
                lemma_first_run(before, k);
                assert(start.dom().contains(k) == (first_run(before, k) < i));
            }
            assert forall|k: Seq<char>| m@.dom().contains(k) implies #[trigger] m@[k] == first_run(after, k) by {
                lemma_first_run(before, k);
                assert(start.dom().contains(k) == (first_run(before, k) < i));
                if start.dom().contains(k) {
                    assert(start[k] == first_run(before, k));
                }
            }
        }
    }
    assert(runs@.take(runs@.len() as int) == runs@);
    m
}

/// The label and the date of the latest run of a knowledge base.
fn find_latest(runs: &Vec<RunKbs>, by_kb: &StringHashMap<usize>, name: &str) -> (r: (Option<String>, Option<String>))
    requires
        locates_runs(by_kb@, runs@),
    ensures
        (view_opt(r.0), view_opt(r.1)) == latest_run(runs@, name@),
{
    proof {
        lemma_first_run(runs@, name@);
        assert(by_kb@.dom().contains(name@) == (first_run(runs@, name@) < runs@.len()));
    }
    match by_kb.get(name) {
        Some(p) => {
            assert(*p == first_run(runs@, name@));
            let run = &runs[*p];
            (Some(run.label.clone()), copy_opt(&run.run_date))
        },
        None => (None, None),
    }
}

/// The address that runs give for a knowledge base.
fn find_url(runs: &Vec<RunKbs>, urls: &Vec<KbUrl>, by_kb: &StringHashMap<usize>, name: &str) -> (r: Option<String>)
    requires
        locates_last(by_kb@, urls@.map_values(|u: KbUrl| u.kb_name@)),
    ensures
        view_opt(r) == run_url(runs@, urls@, name@),
{
    let ghost keys = urls@.map_values(|u: KbUrl| u.kb_name@);
    proof {
        lemma_last_index(keys, name@);
        assert(by_kb@.dom().contains(name@) == keys.contains(name@));
    }
    if runs.len() == 0 {
        return None;
    }
    match by_kb.get(name) {
        Some(p) => {
            assert(*p == last_index(keys, name@));
            Some(urls[*p].url.clone())
        },
        None => None,
    }
}

/// What is known of a knowledge base under review.
fn find_progress(
    counts: &Vec<ReviewCount>,
    counts_by_kb: &StringHashMap<usize>,
    issues: &Vec<IssueCount>,
    issues_by_kb: &StringHashMap<usize>,
    validated: &StringHashSet,
    staged: &StringHashSet,
    name: &str,
    Ghost(validated_list): Ghost<Seq<Seq<char>>>,
    Ghost(staged_list): Ghost<Seq<Seq<char>>>,
) -> (r: KbProgress)
    requires
        forall|i: int| 0 <= i < counts@.len() ==> i64::MIN <= (#[trigger] counts@[i]).reviewed * 100 <= i64::MAX,
        locates_last(counts_by_kb@, counts@.map_values(|c: ReviewCount| c.kb_name@)),
        locates_last(issues_by_kb@, issues@.map_values(|c: IssueCount| c.kb_name@)),
        forall|k: Seq<char>| #[trigger] validated@.contains(k) == validated_list.contains(k),
        forall|k: Seq<char>| #[trigger] staged@.contains(k) == staged_list.contains(k),
    ensures
        r == progress_of(counts@, issues@, validated_list, staged_list, name@),
{
    let ghost ck = counts@.map_values(|c: ReviewCount| c.kb_name@);
    let ghost ik = issues@.map_values(|c: IssueCount| c.kb_name@);
    proof {
        lemma_last_index(ck, name@);
        lemma_last_index(ik, name@);
        assert(counts_by_kb@.dom().contains(name@) == ck.contains(name@));
        assert(issues_by_kb@.dom().contains(name@) == ik.contains(name@));
    }
    let (total, reviewed, auto): (i64, i64, i64) = match counts_by_kb.get(name) {
        Some(p) => {
            assert(*p == last_index(ck, name@));
            let c = &counts[*p];
            (c.total, c.reviewed, c.auto_reviewed)
        },
        None => (0, 0, 0),
    };
    let (found, errors): (i64, i64) = match issues_by_kb.get(name) {
        Some(p) => {
            assert(*p == last_index(ik, name@));
            let c = &issues[*p];
            (c.total_issues, c.error_count)
        },
        None => (0, 0),
    };
    let pct: i64 = if total > 0 {
        divide(reviewed * 100, total)
    } else {
        0
    };
    assert(validated@.contains(name@) == validated_list.contains(name@));
    assert(staged@.contains(name@) == staged_list.contains(name@));
    KbProgress {
        total_fields: total,
        reviewed_fields: reviewed,
        pct_reviewed: pct,
        total_issues: found,
        error_count: errors,
        has_been_validated: validated.contains(name) || auto > 0 || found > 0,
        has_staged_version: staged.contains(name),
    }
}

/// The lines of the home page, in the order of their names in lower case: each
/// knowledge base under review, and each that only runs know. `runs` come newest
/// first; `validated` names the knowledge bases that the validator was run for.
pub fn build_home_items(
    working: &Vec<WorkingKb>,
    runs: &Vec<RunKbs>,
    run_kb_names: &Vec<String>,
    urls: &Vec<KbUrl>,
    counts: &Vec<ReviewCount>,
    issues: &Vec<IssueCount>,
    validated: &Vec<String>,
    staged: &Vec<String>,
) -> (r: Vec<HomeItem>)
    requires
        forall|i: int| 0 <= i < counts@.len() ==> i64::MIN <= (#[trigger] counts@[i]).reviewed * 100 <= i64::MAX,
    ensures
        item_views(r@) == sorted_items(
            unsorted_items(
                working@,
                runs@,
                views(run_kb_names@),
                urls@,
                counts@,
                issues@,
                views(validated@),
                views(staged@),
            ),
        ),
{
    let runs_by_kb = index_runs(runs);
    let mut url_keys: Vec<String> = Vec::new();
    for i in 0..urls.len()
        invariant
            views(url_keys@) == urls@.map_values(|u: KbUrl| u.kb_name@).take(i as int),
    {
        let ghost before = views(url_keys@);
        url_keys.push(urls[i].kb_name.clone());
        assert(views(url_keys@) =~= before.push(urls@[i as int].kb_name@));
    }
    assert(views(url_keys@) =~= urls@.map_values(|u: KbUrl| u.kb_name@));
    let urls_by_kb = index_last(&url_keys);
    let mut count_keys: Vec<String> = Vec::new();
    for i in 0..counts.len()
        invariant
            views(count_keys@) == counts@.map_values(|c: ReviewCount| c.kb_name@).take(i as int),
    {
        let ghost before = views(count_keys@);
        count_keys.push(counts[i].kb_name.clone());
        assert(views(count_keys@) =~= before.push(counts@[i as int].kb_name@));
    }
    assert(views(count_keys@) =~= counts@.map_values(|c: ReviewCount| c.kb_name@));
    let counts_by_kb = index_last(&count_keys);
    let mut issue_keys: Vec<String> = Vec::new();
    for i in 0..issues.len()
        invariant
            views(issue_keys@) == issues@.map_values(|c: IssueCount| c.kb_name@).take(i as int),
    {
        let ghost before = views(issue_keys@);
        issue_keys.push(issues[i].kb_name.clone());
        assert(views(issue_keys@) =~= before.push(issues@[i as int].kb_name@));
    }
    assert(views(issue_keys@) =~= issues@.map_values(|c: IssueCount| c.kb_name@));
    let issues_by_kb = index_last(&issue_keys);
    let validated_set = set_of(validated);
    let staged_set = set_of(staged);
    let mut names: Vec<String> = Vec::new();
    for i in 0..working.len()
        invariant
            views(names@) == working_names(working@).take(i as int),
    {
        let ghost before = views(names@);
        names.push(working[i].name.clone());
        assert(views(names@) =~= before.push(working@[i as int].name@));
    }
    assert(views(names@) =~= working_names(working@));
    let working_set = set_of(&names);
    let ghost dv = views(validated@);
    let ghost sv = views(staged@);
    let ghost first = working@.map_values(
        |k: WorkingKb| working_item(k, runs@, urls@, counts@, issues@, dv, sv),
    );
    let mut items: Vec<HomeItem> = Vec::new();
    for i in 0..working.len()
        invariant
            forall|j: int| 0 <= j < counts@.len() ==> i64::MIN <= (#[trigger] counts@[j]).reviewed * 100 <= i64::MAX,
            locates_runs(runs_by_kb@, runs@),
            locates_last(urls_by_kb@, urls@.map_values(|u: KbUrl| u.kb_name@)),
            locates_last(counts_by_kb@, counts@.map_values(|c: ReviewCount| c.kb_name@)),
            locates_last(issues_by_kb@, issues@.map_values(|c: IssueCount| c.kb_name@)),
            forall|k: Seq<char>| #[trigger] validated_set@.contains(k) == dv.contains(k),
            forall|k: Seq<char>| #[trigger] staged_set@.contains(k) == sv.contains(k),
            first == working@.map_values(
                |k: WorkingKb| working_item(k, runs@, urls@, counts@, issues@, dv, sv),
            ),
            item_views(items@) == first.take(i as int),
    {
        let kb = &working[i];
        let latest = find_latest(runs, &runs_by_kb, kb.name.as_str());
        let url = match &kb.url {
            Some(u) => Some(u.clone()),
            None => find_url(runs, urls, &urls_by_kb, kb.name.as_str()),
        };
        let progress = find_progress(
            counts,
            &counts_by_kb,
            issues,
            &issues_by_kb,
            &validated_set,
            &staged_set,
            kb.name.as_str(),
            Ghost(dv),
            Ghost(sv),
        );
        let item = HomeItem {
            name: kb.name.clone(),
            url,
            latest_run_label: latest.0,
            latest_run_date: latest.1,
            progress: Some(progress),
        };
        let ghost before = item_views(items@);
        assert(item@ == first[i as int]);
        items.push(item);
        assert(item_views(items@) =~= before.push(item@));
        assert(first.take(i + 1) =~= before.push(item@));
    }
    assert(first.take(first.len() as int) =~= first);
    let ghost rv = views(run_kb_names@);
    let ghost wn = working_names(working@);
    let n: usize = if runs.len() > 0 {
        run_kb_names.len()
    } else {
        0
    };
    assert(item_views(items@) =~= first + run_items(rv.take(0), wn, runs@, urls@));
    for i in 0..n
        invariant
            n <= run_kb_names@.len(),
            rv == views(run_kb_names@),
            wn == working_names(working@),
            forall|k: Seq<char>| #[trigger] working_set@.contains(k) == wn.contains(k),
            locates_runs(runs_by_kb@, runs@),
            locates_last(urls_by_kb@, urls@.map_values(|u: KbUrl| u.kb_name@)),
            item_views(items@) == first + run_items(rv.take(i as int), wn, runs@, urls@),
    {
        let name = &run_kb_names[i];
        assert(rv.take(i + 1).drop_last() =~= rv.take(i as int));
        assert(rv.take(i + 1).last() == name@);
        assert(working_set@.contains(name@) == wn.contains(name@));
        if !working_set.contains(name.as_str()) {
            let latest = find_latest(runs, &runs_by_kb, name.as_str());
            let item = HomeItem {
                name: name.clone(),
                url: find_url(runs, urls, &urls_by_kb, name.as_str()),
                latest_run_label: latest.0,
                latest_run_date: latest.1,
                progress: None,
            };
            let ghost before = item_views(items@);
            assert(item@ == run_item(name@, runs@, urls@));
            items.push(item);
            assert(item_views(items@) =~= before.push(item@));
            assert(item_views(items@) =~= first + run_items(rv.take(i + 1), wn, runs@, urls@));
        }
    }
    let ghost all = unsorted_items(working@, runs@, rv, urls@, counts@, issues@, dv, sv);
    proof {
        assert(rv.take(rv.len() as int) =~= rv);
        assert(rv.take(0) =~= Seq::empty());
        assert(item_views(items@) =~= all);
    }
    sort_items(items)
}

/// The lines in the order of their names in lower case.
fn sort_items(items: Vec<HomeItem>) -> (r: Vec<HomeItem>)
    ensures
        item_views(r@) == sorted_items(item_views(items@)),
{
    let ghost all = item_views(items@);
    let ghost names = all.map_values(|i: HomeItemView| lowercase(i.name));
    let mut keys: Vec<String> = Vec::new();
    for i in 0..items.len()
        invariant
            all == item_views(items@),
            names == all.map_values(|i: HomeItemView| lowercase(i.name)),
            views(keys@) == names.take(i as int),
    {
        let ghost before = views(keys@);
        let k = to_lowercase(items[i].name.as_str());
        keys.push(k);
        assert(all[i as int] == items@[i as int]@);
        assert(names[i as int] == k@);
        assert(views(keys@) =~= before.push(k@));
    }
    assert(views(keys@) =~= names);
    let order = sort_by_key(&keys);
    let ghost pos = stable_order(names);
    let mut r: Vec<HomeItem> = Vec::new();
    for i in 0..order.len()
        invariant
            all == item_views(items@),
            pos == stable_order(names),
            pos == positions(order@),
            is_stable_order(pos, names),
            names.len() == items@.len(),
            item_views(r@) == pos.map_values(|p: int| all[p]).take(i as int),
    {
        let p: usize = order[i];
        assert(pos[i as int] == p);
        let item = copy_item(&items[p]);
        let ghost before = item_views(r@);
        assert(all[p as int] == items@[p as int]@);
        r.push(item);
        assert(item_views(r@) =~= before.push(item@));
        assert(pos.map_values(|p: int| all[p]).take(i + 1) =~= before.push(item@));
    }
    assert(item_views(r@) =~= sorted_items(all));
    r
}

/// A copy of a line.
fn copy_item(item: &HomeItem) -> (r: HomeItem)
    ensures
        r@ == item@,
{
    HomeItem {
        name: item.name.clone(),
        url: copy_opt(&item.url),
        latest_run_label: copy_opt(&item.latest_run_label),
        latest_run_date: copy_opt(&item.latest_run_date),
        progress: item.progress,
    }
}

/// A knowledge base that the validator was run for counts as validated, whatever the
/// validator found; one without a run, without fields that were approved automatically
/// and without issues does not.
pub proof fn law_validated(
    counts: Seq<ReviewCount>,
    issues: Seq<IssueCount>,
    validated: Seq<Seq<char>>,
    staged: Seq<Seq<char>>,
    name: Seq<char>,
)
    ensures
        validated.contains(name) ==> progress_of(counts, issues, validated, staged, name).has_been_validated,
        !validated.contains(name) && review_count(counts, name).2 <= 0 && issue_count(issues, name).0 <= 0
            ==> !progress_of(counts, issues, validated, staged, name).has_been_validated,
{
}

/// The share of reviewed fields lies between nothing and everything.
pub proof fn law_percent_in_range(reviewed: i64, total: i64)
    requires
        0 <= reviewed <= total,
    ensures
        0 <= percent(reviewed, total) <= 100,
        reviewed == total && total > 0 ==> percent(reviewed, total) == 100,
{
    if total > 0 {
        assert(0 <= (reviewed * 100) / total as int <= 100) by (nonlinear_arith)
            requires
                0 <= reviewed <= total,
                total > 0,
        ;
        assert((total * 100) / total as int == 100) by (nonlinear_arith)
            requires
                total > 0,
        ;
    }
}

proof fn lemma_sorted_keeps(items: Seq<HomeItemView>, i: int)
    requires
        0 <= i < items.len(),
    ensures
        sorted_items(items).contains(items[i]),
{
    let keys = items.map_values(|i: HomeItemView| lowercase(i.name));
    let order = stable_order(keys);
    law_stable_order_exists(keys);
    assert(order.contains(i));
    let p = choose|p: int| 0 <= p < order.len() && order[p] == i;
    assert(sorted_items(items)[p] == items[i]);
}

/// The lines are in the order of their names in lower case.
pub proof fn law_home_is_sorted(items: Seq<HomeItemView>, a: int, b: int)
    requires
        0 <= a < b < sorted_items(items).len(),
    ensures
        sorted_items(items).len() == items.len(),
        !less(lowercase(sorted_items(items)[b].name), lowercase(sorted_items(items)[a].name)),
{
    let keys = items.map_values(|i: HomeItemView| lowercase(i.name));
    let order = stable_order(keys);
    law_stable_order_exists(keys);
    assert(goes_before(keys, order[a], order[b]));
    assert(keys[order[a]] == lowercase(sorted_items(items)[a].name));
    assert(keys[order[b]] == lowercase(sorted_items(items)[b].name));
    law_less_asymmetric(keys[order[a]], keys[order[b]]);
}

/// Every knowledge base under review has its line on the home page.
pub proof fn law_every_working_kb_listed(
    working: Seq<WorkingKb>,
    runs: Seq<RunKbs>,
    run_kb_names: Seq<Seq<char>>,
    urls: Seq<KbUrl>,
    counts: Seq<ReviewCount>,
    issues: Seq<IssueCount>,
    validated: Seq<Seq<char>>,
    staged: Seq<Seq<char>>,
    i: int,
)
    requires
        0 <= i < working.len(),
    ensures
        sorted_items(unsorted_items(working, runs, run_kb_names, urls, counts, issues, validated, staged)).contains(
            working_item(working[i], runs, urls, counts, issues, validated, staged),
        ),
{
    let items = unsorted_items(working, runs, run_kb_names, urls, counts, issues, validated, staged);
    assert(items[i] == working_item(working[i], runs, urls, counts, issues, validated, staged));
    lemma_sorted_keeps(items, i);
}

proof fn lemma_run_items(
    names: Seq<Seq<char>>,
    working: Seq<Seq<char>>,
    runs: Seq<RunKbs>,
    urls: Seq<KbUrl>,
    i: int,
)
    requires
        0 <= i < names.len(),
        !working.contains(names[i]),
    ensures
        run_items(names, working, runs, urls).contains(run_item(names[i], runs, urls)),
    decreases names.len(),
{
    let t = names.drop_last();
    let before = run_items(t, working, runs, urls);
    let all = run_items(names, working, runs, urls);
    let item = run_item(names[i], runs, urls);
    if i < t.len() {
        assert(t[i] == names[i]);
        lemma_run_items(t, working, runs, urls, i);
        let j = choose|j: int| 0 <= j < before.len() && before[j] == item;
        assert(all[j] == item);
    } else {
        assert(all[before.len() as int] == item);
    }
}

/// Every knowledge base that a run covers and that is not under review has a line too.
pub proof fn law_every_run_kb_listed(
    working: Seq<WorkingKb>,
    runs: Seq<RunKbs>,
    run_kb_names: Seq<Seq<char>>,
    urls: Seq<KbUrl>,
    counts: Seq<ReviewCount>,
    issues: Seq<IssueCount>,
    validated: Seq<Seq<char>>,
    staged: Seq<Seq<char>>,
    i: int,
)
    requires
        runs.len() > 0,
        0 <= i < run_kb_names.len(),
        !working_names(working).contains(run_kb_names[i]),
    ensures
        sorted_items(unsorted_items(working, runs, run_kb_names, urls, counts, issues, validated, staged)).contains(
            run_item(run_kb_names[i], runs, urls),
        ),
{
    let items = unsorted_items(working, runs, run_kb_names, urls, counts, issues, validated, staged);
    let tail = run_items(run_kb_names, working_names(working), runs, urls);
    let item = run_item(run_kb_names[i], runs, urls);
    lemma_run_items(run_kb_names, working_names(working), runs, urls, i);
    let j = choose|j: int| 0 <= j < tail.len() && tail[j] == item;
    assert(items[working.len() + j] == item);
    lemma_sorted_keeps(items, working.len() + j);
}

/// Whether a run covers a knowledge base.
pub open spec fn covers(run: RunKbs, name: Seq<char>) -> bool {
    exists|i: int| 0 <= i < run.kb_names@.len() && (#[trigger] run.kb_names@[i])@ == name
}

proof fn lemma_covers(run: RunKbs, name: Seq<char>)
    ensures
        covers(run, name) == views(run.kb_names@).contains(name),
{
    let v = views(run.kb_names@);
    if covers(run, name) {
        let i = choose|i: int| 0 <= i < run.kb_names@.len() && (#[trigger] run.kb_names@[i])@ == name;
        assert(v[i] == name);
    }
    if v.contains(name) {
        let i = choose|i: int| 0 <= i < v.len() && v[i] == name;
        assert(run.kb_names@[i]@ == name);
    }
}

proof fn lemma_first_run_is_first(runs: Seq<RunKbs>, name: Seq<char>)
    ensures
        0 <= first_run(runs, name) <= runs.len(),
        first_run(runs, name) < runs.len() ==> covers(runs[first_run(runs, name)], name),
        forall|q: int| 0 <= q < first_run(runs, name) ==> !covers(#[trigger] runs[q], name),
    decreases runs.len(),
{
    if runs.len() > 0 {
        let t = runs.drop_last();
        lemma_first_run_is_first(t, name);
        lemma_covers(runs.last(), name);
        assert forall|q: int| 0 <= q < first_run(runs, name) implies !covers(#[trigger] runs[q], name) by {
            if q < t.len() {
                assert(t[q] == runs[q]);
            }
        }
        let p = first_run(t, name);
        if p < t.len() {
            assert(t[p] == runs[p]);
        }
    }
}

/// The latest run of a knowledge base is the first one in the list that covers it: its
/// label and date are shown, and nothing where no run covers it.
pub proof fn law_latest_run(runs: Seq<RunKbs>, name: Seq<char>, p: int)
    requires
        0 <= p < runs.len(),
    ensures
        covers(runs[p], name) && (forall|q: int| 0 <= q < p ==> !covers(#[trigger] runs[q], name)) ==> latest_run(
            runs,
            name,
        ) == (Some(runs[p].label@), view_opt(runs[p].run_date)),
        (forall|q: int| 0 <= q < runs.len() ==> !covers(#[trigger] runs[q], name)) ==> latest_run(runs, name) == (
            None::<Seq<char>>,
            None::<Seq<char>>,
        ),
{
    lemma_first_run_is_first(runs, name);
    let f = first_run(runs, name);
    if covers(runs[p], name) && (forall|q: int| 0 <= q < p ==> !covers(#[trigger] runs[q], name)) {
        if f < p {
            assert(!covers(runs[f], name));
        } else if p < f {
            assert(!covers(runs[p], name));
        }
    }
    if forall|q: int| 0 <= q < runs.len() ==> !covers(#[trigger] runs[q], name) {
        if f < runs.len() {
            assert(!covers(runs[f], name));
        }
    }
}

/// Whether the place `k` is the only one in a list that is about the knowledge base; for a
/// negative place, whether none is.
pub open spec fn is_only_place(names: Seq<Seq<char>>, name: Seq<char>, k: int) -> bool {
    if k < 0 {
        !names.contains(name)
    } else {
        k < names.len() && names[k] == name && forall|j: int| 0 <= j < names.len() && names[j] == name ==> j == k
    }
}

/// The line of a knowledge base under review says what is known of it: its own address
/// before the one that runs give, its fields and reviewed fields, the share of these in
/// percent without the rest, its issues and errors, whether it was validated and whether a
/// version is staged. What is not known counts as nothing.
pub proof fn law_line_of_working_kb(
    kb: WorkingKb,
    runs: Seq<RunKbs>,
    urls: Seq<KbUrl>,
    counts: Seq<ReviewCount>,
    issues: Seq<IssueCount>,
    validated: Seq<Seq<char>>,
    staged: Seq<Seq<char>>,
    c: int,
    i: int,
    u: int,
)
    requires
        is_only_place(counts.map_values(|x: ReviewCount| x.kb_name@), kb.name@, c),
        is_only_place(issues.map_values(|x: IssueCount| x.kb_name@), kb.name@, i),
        is_only_place(urls.map_values(|x: KbUrl| x.kb_name@), kb.name@, u),
        c >= 0 ==> 0 <= counts[c].reviewed <= counts[c].total,
    ensures
        ({
            let (total, reviewed, auto) = if c < 0 {
                (0i64, 0i64, 0i64)
            } else {
                (counts[c].total, counts[c].reviewed, counts[c].auto_reviewed)
            };
            let (found, errors) = if i < 0 {
                (0i64, 0i64)
            } else {
                (issues[i].total_issues, issues[i].error_count)
            };
            let line = working_item(kb, runs, urls, counts, issues, validated, staged);
            &&& line.name == kb.name@
            &&& kb.url matches Some(own) ==> line.url == Some(own@)
            &&& kb.url is None ==> line.url == (if runs.len() > 0 && u >= 0 {
                Some(urls[u].url@)
            } else {
                None
            })
            &&& line.latest_run_label == latest_run(runs, kb.name@).0
            &&& line.latest_run_date == latest_run(runs, kb.name@).1
            &&& line.progress matches Some(p) && {
                &&& p.total_fields == total
                &&& p.reviewed_fields == reviewed
                &&& total > 0 ==> p.pct_reviewed * total <= reviewed * 100 < (p.pct_reviewed + 1) * total
                &&& total == 0 ==> p.pct_reviewed == 0
                &&& p.total_issues == found
                &&& p.error_count == errors
                &&& p.has_staged_version == staged.contains(kb.name@)
                &&& p.has_been_validated == (validated.contains(kb.name@) || auto > 0 || found > 0)
            }
        }),
{
    let name = kb.name@;
    let ck = counts.map_values(|x: ReviewCount| x.kb_name@);
    let ik = issues.map_values(|x: IssueCount| x.kb_name@);
    let uk = urls.map_values(|x: KbUrl| x.kb_name@);
    lemma_last_index(ck, name);
    lemma_last_index(ik, name);
    lemma_last_index(uk, name);
    assert(c >= 0 ==> ck.contains(name) && last_index(ck, name) == c);
    assert(i >= 0 ==> ik.contains(name) && last_index(ik, name) == i);
    assert(u >= 0 ==> uk.contains(name) && last_index(uk, name) == u);
    if c >= 0 && counts[c].total > 0 {
        let r = counts[c].reviewed as int;
        let t = counts[c].total as int;
        law_percent_in_range(counts[c].reviewed, counts[c].total);
        let q = (r * 100) / t;
        assert(q * t <= r * 100 < (q + 1) * t) by (nonlinear_arith)
            requires
                q == (r * 100) / t,
                t > 0,
                r >= 0,
        ;
    }
}

/// A knowledge base without counts, issues or runs is shown as one with nothing done.
pub proof fn law_line_of_unknown_kb(
    kb: WorkingKb,
    runs: Seq<RunKbs>,
    urls: Seq<KbUrl>,
    counts: Seq<ReviewCount>,
    issues: Seq<IssueCount>,
    validated: Seq<Seq<char>>,
    staged: Seq<Seq<char>>,
)
    requires
        forall|k: int| 0 <= k < counts.len() ==> (#[trigger] counts[k]).kb_name@ != kb.name@,
        forall|k: int| 0 <= k < issues.len() ==> (#[trigger] issues[k]).kb_name@ != kb.name@,
        forall|k: int| 0 <= k < urls.len() ==> (#[trigger] urls[k]).kb_name@ != kb.name@,
    ensures
        ({
            let line = working_item(kb, runs, urls, counts, issues, validated, staged);
            &&& kb.url is None ==> line.url is None
            &&& line.progress matches Some(p) && p.total_fields == 0 && p.reviewed_fields == 0 && p.pct_reviewed == 0
                && p.total_issues == 0 && p.error_count == 0
        }),
{
    let name = kb.name@;
    let ck = counts.map_values(|x: ReviewCount| x.kb_name@);
    let ik = issues.map_values(|x: IssueCount| x.kb_name@);
    let uk = urls.map_values(|x: KbUrl| x.kb_name@);
    lemma_last_index(ck, name);
    lemma_last_index(ik, name);
    lemma_last_index(uk, name);
    if ck.contains(name) {
        let a = last_index(ck, name);
        assert(counts[a].kb_name@ == ck[a]);
    }
    if ik.contains(name) {
        let a = last_index(ik, name);
        assert(issues[a].kb_name@ == ik[a]);
    }
    if uk.contains(name) {
        let a = last_index(uk, name);
        assert(urls[a].kb_name@ == uk[a]);
    }
}

proof fn lemma_run_items_only(
    names: Seq<Seq<char>>,
    working: Seq<Seq<char>>,
    runs: Seq<RunKbs>,
    urls: Seq<KbUrl>,
    k: int,
)
    requires
        0 <= k < run_items(names, working, runs, urls).len(),
    ensures
        ({
            let line = run_items(names, working, runs, urls)[k];
            names.contains(line.name) && !working.contains(line.name) && line == run_item(line.name, runs, urls)
        }),
        run_items(names, working, runs, urls).len() <= names.len(),
    decreases names.len(),
{
    let t = names.drop_last();
    let before = run_items(t, working, runs, urls);
    let line = run_items(names, working, runs, urls)[k];
    if before.len() > 0 {
        lemma_run_items_only(t, working, runs, urls, 0);
    }
    if k < before.len() {
        lemma_run_items_only(t, working, runs, urls, k);
        let i = choose|i: int| 0 <= i < t.len() && t[i] == line.name;
        assert(names[i] == line.name);
    } else {
        assert(names[names.len() - 1] == line.name);
    }
}

/// The home page lists nothing else: a line with progress is that of a knowledge base
/// under review, and one without is that of a knowledge base that a run covers and that is
/// not under review.
pub proof fn law_nothing_else_listed(
    working: Seq<WorkingKb>,
    runs: Seq<RunKbs>,
    run_kb_names: Seq<Seq<char>>,
    urls: Seq<KbUrl>,
    counts: Seq<ReviewCount>,
    issues: Seq<IssueCount>,
    validated: Seq<Seq<char>>,
    staged: Seq<Seq<char>>,
    k: int,
)
    requires
        0 <= k < sorted_items(
            unsorted_items(working, runs, run_kb_names, urls, counts, issues, validated, staged),
        ).len(),
    ensures
        ({
            let line = sorted_items(
                unsorted_items(working, runs, run_kb_names, urls, counts, issues, validated, staged),
            )[k];
            if line.progress is Some {
                exists|i: int|
                    0 <= i < working.len() && line == working_item(
                        #[trigger] working[i],
                        runs,
                        urls,
                        counts,
                        issues,
                        validated,
                        staged,
                    )
            } else {
                &&& runs.len() > 0
                &&& run_kb_names.contains(line.name)
                &&& forall|i: int| 0 <= i < working.len() ==> (#[trigger] working[i]).name@ != line.name
                &&& line.latest_run_label == latest_run(runs, line.name).0
                &&& line.latest_run_date == latest_run(runs, line.name).1
            }
        }),
{
    let items = unsorted_items(working, runs, run_kb_names, urls, counts, issues, validated, staged);
    let keys = items.map_values(|i: HomeItemView| lowercase(i.name));
    law_stable_order_exists(keys);
    let p = stable_order(keys)[k];
    let line = sorted_items(items)[k];
    assert(line == items[p]);
    let named = if runs.len() > 0 {
        run_kb_names
    } else {
        Seq::empty()
    };
    let wn = working_names(working);
    if p < working.len() {
        assert(line == working_item(working[p], runs, urls, counts, issues, validated, staged));
    } else {
        let q = p - working.len();
        assert(line == run_items(named, wn, runs, urls)[q]);
        lemma_run_items_only(named, wn, runs, urls, q);
        assert forall|i: int| 0 <= i < working.len() implies (#[trigger] working[i]).name@ != line.name by {
            assert(wn[i] == working[i].name@);
            assert(wn.contains(wn[i]));
        }
    }
}

/// The line of a knowledge base that only runs know has the address that they give for it
/// and no progress.
pub proof fn law_line_of_run_kb(name: Seq<char>, runs: Seq<RunKbs>, urls: Seq<KbUrl>, u: int)
    requires
        runs.len() > 0,
        0 <= u < urls.len() && urls[u].kb_name@ == name,
        forall|k: int| 0 <= k < urls.len() && (#[trigger] urls[k]).kb_name@ == name ==> k == u,
    ensures
        run_item(name, runs, urls).name == name,
        run_item(name, runs, urls).url == Some(urls[u].url@),
        run_item(name, runs, urls).latest_run_label == latest_run(runs, name).0,
        run_item(name, runs, urls).latest_run_date == latest_run(runs, name).1,
        run_item(name, runs, urls).progress is None,
{
    let uk = urls.map_values(|x: KbUrl| x.kb_name@);
    lemma_last_index(uk, name);
    assert(uk[u] == name);
    assert(uk.contains(name));
    let d = last_index(uk, name);
    assert(urls[d].kb_name@ == uk[d]);
}

} // verus!
