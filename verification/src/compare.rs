//! The comparison page: the values of a knowledge base's fields in all runs, side by
//! side, and the way to the page of a single field.
use crate::lookup::{
    first_index, having, index_last, last_index, lemma_first_index, lemma_last_index, locates_last, position_of,
};
use crate::number::{decimal, to_decimal};
use crate::paging::{
    current_page, law_every_item_on_a_page, page_count, page_of, shown_page, total_pages, COMPARE_PAGE_SIZE,
};
use crate::paths::{anchor_of, path_to_anchor};
use crate::text::{concat3, same, views};
use percent_encoding::{utf8_percent_encode, NON_ALPHANUMERIC};
use vstd::hash_map::StringHashMap;
use vstd::prelude::*;
use vstd::utf8::encode_utf8;

verus! {

/// A page of the comparison, with the paths that it shows.
#[derive(Debug, PartialEq, Eq)]
pub struct ComparePage {
    pub current_page: i64,
    pub total_changed: i64,
    pub total_pages: i64,
    pub paths: Vec<String>,
}

/// The page that shows a part of the changed paths.
pub fn compare_page(changed_paths: &Vec<String>, page: Option<i64>) -> (r: ComparePage)
    requires
        shown_page(page) * COMPARE_PAGE_SIZE <= i64::MAX,
        changed_paths@.len() + COMPARE_PAGE_SIZE - 1 <= i64::MAX,
    ensures
        r.current_page == shown_page(page),
        r.total_changed == changed_paths@.len(),
        r.total_pages == page_count(changed_paths@.len() as int, COMPARE_PAGE_SIZE as int),
        views(r.paths@) == page_of(views(changed_paths@), shown_page(page), COMPARE_PAGE_SIZE as int),
{
    let current: i64 = current_page(page);
    let offset: u64 = (current * COMPARE_PAGE_SIZE) as u64;
    let n: usize = changed_paths.len();
    let from: usize = if offset >= n as u64 {
        n
    } else {
        offset as usize
    };
    let to: usize = if n - from > 200 {
        from + 200
    } else {
        n
    };
    let ghost all = views(changed_paths@);
    let mut paths: Vec<String> = Vec::new();
    for i in from..to
        invariant
            from <= to <= n,
            n == changed_paths@.len(),
            all == views(changed_paths@),
            views(paths@) == all.subrange(from as int, i as int),
    {
        let ghost before = views(paths@);
        paths.push(changed_paths[i].clone());
        assert(views(paths@) =~= before.push(all[i as int]));
        assert(all.subrange(from as int, i + 1) =~= before.push(all[i as int]));
    }
    assert(page_of(all, shown_page(page), COMPARE_PAGE_SIZE as int) =~= all.subrange(from as int, to as int));
    ComparePage {
        current_page: current,
        total_changed: n as i64,
        total_pages: total_pages(n as i64, COMPARE_PAGE_SIZE),
        paths,
    }
}

/// The page to open for a path: the one that shows it, or the first where no page does.
pub open spec fn seek_page(changed_paths: Seq<Seq<char>>, path: Seq<char>) -> int {
    let p = first_index(changed_paths, path);
    if p < changed_paths.len() {
        p / COMPARE_PAGE_SIZE as int
    } else {
        0
    }
}

/// The page to open for a path.
pub fn find_page(changed_paths: &Vec<String>, path: &str) -> (r: u64)
    ensures
        r == seek_page(views(changed_paths@), path@),
{
    let p: usize = position_of(changed_paths, path);
    if p < changed_paths.len() {
        (p / 200) as u64
    } else {
        0
    }
}

/// A changed path is shown on the page that is opened for it.
pub proof fn law_seek_finds_path(changed_paths: Seq<Seq<char>>, path: Seq<char>)
    requires
        changed_paths.contains(path),
    ensures
        page_of(changed_paths, seek_page(changed_paths, path), COMPARE_PAGE_SIZE as int).contains(path),
        0 <= seek_page(changed_paths, path) < page_count(changed_paths.len() as int, COMPARE_PAGE_SIZE as int),
{
    let p = first_index(changed_paths, path);
    lemma_first_index(changed_paths, path);
    law_every_item_on_a_page(changed_paths, p, COMPARE_PAGE_SIZE as int);
    let shown = page_of(changed_paths, seek_page(changed_paths, path), COMPARE_PAGE_SIZE as int);
    assert(shown[p % COMPARE_PAGE_SIZE as int] == path);
}

/// The hexadecimal digit of a number below sixteen.
pub open spec fn hex_digit(n: int) -> char {
    if n < 10 {
        (48 + n) as char
    } else {
        (55 + n) as char
    }
}

/// Whether a byte is the code of an ASCII letter or digit.
pub open spec fn is_alphanumeric_byte(b: u8) -> bool {
    ||| 48 <= b <= 57
    ||| 65 <= b <= 90
    ||| 97 <= b <= 122
}

/// A byte as part of an address: letters and digits as they are, any other byte as a
/// percent sign and two hexadecimal digits.
pub open spec fn encoded_byte(b: u8) -> Seq<char> {
    if is_alphanumeric_byte(b) {
        seq![b as char]
    } else {
        seq!['%', hex_digit(b as int / 16), hex_digit(b as int % 16)]
    }
}

/// Bytes as part of an address.
pub open spec fn encoded(bytes: Seq<u8>) -> Seq<char>
    decreases bytes.len(),
{
    if bytes.len() == 0 {
        Seq::empty()
    } else {
        encoded(bytes.drop_last()) + encoded_byte(bytes.last())
    }
}

/// `utf8_percent_encode` with `NON_ALPHANUMERIC`: the UTF-8 bytes of the text, all but
/// ASCII letters and digits as a percent sign and two hexadecimal digits.
#[verifier::external_body]
pub(crate) fn percent_encode(text: &str) -> (r: String)
    ensures
        r@ == encoded(encode_utf8(text@)),
{
    utf8_percent_encode(text, NON_ALPHANUMERIC).to_string()
}

/// The address that leads to a path in the comparison of a knowledge base.
pub open spec fn seek_target_of(kb_name: Seq<char>, changed_paths: Seq<Seq<char>>, path: Seq<char>) -> Seq<char> {
    "/compare/"@ + encoded(encode_utf8(kb_name)) + "?page="@ + decimal(
        seek_page(changed_paths, path) as nat,
    ) + "#field-"@ + anchor_of(path)
}

/// The address that leads to a path in the comparison of a knowledge base.
pub fn seek_target(kb_name: &str, changed_paths: &Vec<String>, path: &str) -> (r: String)
    ensures
        r@ == seek_target_of(kb_name@, views(changed_paths@), path@),
{
    let name = percent_encode(kb_name);
    let page = to_decimal(find_page(changed_paths, path));
    let anchor = path_to_anchor(path);
    let mut r = concat3("/compare/", name.as_str(), "?page=");
    r.append(page.as_str());
    r.append("#field-");
    r.append(anchor.as_str());
    r
}

/// An encoded name holds nothing but letters, digits and percent signs, so that it is
/// one step of an address whatever the name is.
pub proof fn law_encoded_is_one_step(bytes: Seq<u8>, i: int)
    requires
        0 <= i < encoded(bytes).len(),
    ensures
        ({
            let c = encoded(bytes)[i];
            ||| 'a' <= c <= 'z'
            ||| 'A' <= c <= 'Z'
            ||| '0' <= c <= '9'
            ||| c == '%'
        }),
    decreases bytes.len(),
{
    let before = encoded(bytes.drop_last());
    if i < before.len() {
        law_encoded_is_one_step(bytes.drop_last(), i);
        assert(encoded(bytes)[i] == before[i]);
    } else {
        assert(encoded(bytes)[i] == encoded_byte(bytes.last())[i - before.len()]);
    }
}

/// The value of a path in a run.
#[derive(Debug, PartialEq, Eq)]
pub struct RunValue {
    pub run_id: i32,
    pub path: String,
    pub value: String,
}

/// What a value in a run says.
pub struct RunValueView {
    pub run_id: i32,
    pub path: Seq<char>,
    pub value: Seq<char>,
}

impl View for RunValue {
    type V = RunValueView;

    open spec fn view(&self) -> RunValueView {
        RunValueView { run_id: self.run_id, path: self.path@, value: self.value@ }
    }
}

/// What a list of values says.
pub open spec fn value_views(s: Seq<RunValue>) -> Seq<RunValueView> {
    s.map_values(|v: RunValue| v@)
}

/// The paths of a list of values.
pub open spec fn value_paths(s: Seq<RunValueView>) -> Seq<Seq<char>> {
    s.map_values(|v: RunValueView| v.path)
}

/// The value in a run; of several the last one.
pub open spec fn value_in_run(s: Seq<RunValueView>, run_id: i32) -> Option<Seq<char>>
    decreases s.len(),
{
    if s.len() == 0 {
        None
    } else if s.last().run_id == run_id {
        Some(s.last().value)
    } else {
        value_in_run(s.drop_last(), run_id)
    }
}

/// The values of a path in each of the runs, where there is one.
pub open spec fn cells_of(values: Seq<RunValueView>, path: Seq<char>, run_ids: Seq<i32>) -> Seq<Option<Seq<char>>> {
    run_ids.map_values(|id: i32| value_in_run(having(value_paths(values), values, path), id))
}

/// Whether all values that are there are the same.
pub open spec fn all_agree(cells: Seq<Option<Seq<char>>>) -> bool {
    forall|i: int, j: int|
        0 <= i < j < cells.len() && (#[trigger] cells[i]) is Some && (#[trigger] cells[j]) is Some ==> cells[i] == cells[j]
}

/// A run in which a path has no value does not count as a change.
pub proof fn law_absence_is_no_change(cells: Seq<Option<Seq<char>>>, i: int)
    requires
        0 <= i <= cells.len(),
    ensures
        all_agree(cells.insert(i, None)) == all_agree(cells),
{
    let more = cells.insert(i, None);
    if all_agree(more) {
        assert forall|a: int, b: int|
            0 <= a < b < cells.len() && (#[trigger] cells[a]) is Some && (#[trigger] cells[b]) is Some implies cells[a]
            == cells[b] by {
            let x = if a < i {
                a
            } else {
                a + 1
            };
            let y = if b < i {
                b
            } else {
                b + 1
            };
            assert(more[x] == cells[a] && more[y] == cells[b]);
        }
    }
    if all_agree(cells) {
        assert forall|a: int, b: int|
            0 <= a < b < more.len() && (#[trigger] more[a]) is Some && (#[trigger] more[b]) is Some implies more[a]
            == more[b] by {
            let x = if a < i {
                a
            } else {
                a - 1
            };
            let y = if b < i {
                b
            } else {
                b - 1
            };
            assert(more[a] == cells[x] && more[b] == cells[y]);
        }
    }
}

/// A value in the comparison; one that is not there is empty.
#[derive(Debug, PartialEq, Eq)]
pub struct CompareValue {
    pub present: bool,
    pub value: String,
}

/// The value that a cell of the comparison holds.
pub open spec fn cell_view(c: CompareValue) -> Option<Seq<char>> {
    if c.present {
        Some(c.value@)
    } else {
        None
    }
}

/// The values that cells of the comparison hold.
pub open spec fn cell_views(s: Seq<CompareValue>) -> Seq<Option<Seq<char>>> {
    s.map_values(|c: CompareValue| cell_view(c))
}

/// Whether a value that is not there is shown as empty.
pub open spec fn blank_if_absent(s: Seq<CompareValue>) -> bool {
    forall|i: int| 0 <= i < s.len() && !(#[trigger] s[i]).present ==> s[i].value@.len() == 0
}

/// A row of the comparison.
#[derive(Debug, PartialEq, Eq)]
pub struct CompareRow {
    pub path: String,
    pub anchor: String,
    pub values: Vec<CompareValue>,
    pub all_same: bool,
}

/// What a row of the comparison says.
pub struct CompareRowView {
    pub path: Seq<char>,
    pub anchor: Seq<char>,
    pub values: Seq<Option<Seq<char>>>,
    pub all_same: bool,
}

impl View for CompareRow {
    type V = CompareRowView;

    open spec fn view(&self) -> CompareRowView {
        CompareRowView {
            path: self.path@,
            anchor: self.anchor@,
            values: cell_views(self.values@),
            all_same: self.all_same,
        }
    }
}

/// What a list of rows says.
pub open spec fn row_views(s: Seq<CompareRow>) -> Seq<CompareRowView> {
    s.map_values(|r: CompareRow| r@)
}

/// The row of a path.
pub open spec fn row_for(values: Seq<RunValueView>, path: Seq<char>, run_ids: Seq<i32>) -> CompareRowView {
    let cells = cells_of(values, path, run_ids);
    CompareRowView { path, anchor: anchor_of(path), values: cells, all_same: all_agree(cells) }
}

/// The values gathered for a path so far.
spec fn bucket_view(b: Vec<(i32, String)>) -> Seq<(i32, Seq<char>)> {
    b@.map_values(|v: (i32, String)| (v.0, v.1@))
}

/// The runs and values of a list of values.
spec fn run_pairs(s: Seq<RunValueView>) -> Seq<(i32, Seq<char>)> {
    s.map_values(|v: RunValueView| (v.run_id, v.value))
}

/// The values of the paths, gathered by path: those of `paths[i]` are in place
/// `last_index(paths, paths[i])`.
fn gather(paths: &Vec<String>, by_path: &StringHashMap<usize>, values: &Vec<RunValue>) -> (r: Vec<Vec<(i32, String)>>)
    requires
        locates_last(by_path@, views(paths@)),
    ensures
        r@.len() == paths@.len(),
        forall|i: int|
            0 <= i < paths@.len() && last_index(views(paths@), views(paths@)[i]) == i ==> bucket_view(
                #[trigger] r@[i],
            ) == run_pairs(having(value_paths(value_views(values@)), value_views(values@), views(paths@)[i])),
{
    let ghost pv = views(paths@);
    let ghost vv = value_views(values@);
    let ghost vp = value_paths(vv);
    let mut r: Vec<Vec<(i32, String)>> = Vec::new();
    for i in 0..paths.len()
        invariant
            r@.len() == i,
            forall|j: int| 0 <= j < i ==> bucket_view(#[trigger] r@[j]) == Seq::<(i32, Seq<char>)>::empty(),
    {
        let b: Vec<(i32, String)> = Vec::new();
        assert(bucket_view(b) =~= Seq::empty());
        r.push(b);
    }
    proof {
        assert forall|i: int| 0 <= i < paths@.len() implies bucket_view(#[trigger] r@[i]) == run_pairs(
            having(vp.take(0), vv.take(0), pv[i]),
        ) by {
            assert(run_pairs(having(vp.take(0), vv.take(0), pv[i])) =~= Seq::empty());
        }
    }
    for n in 0..values.len()
        invariant
            pv == views(paths@),
            vv == value_views(values@),
            vp == value_paths(vv),
            r@.len() == paths@.len(),
            locates_last(by_path@, pv),
            forall|i: int|
                0 <= i < paths@.len() && last_index(pv, pv[i]) == i ==> bucket_view(#[trigger] r@[i]) == run_pairs(
                    having(vp.take(n as int), vv.take(n as int), pv[i]),
                ),
    {
        let v = &values[n];
        let ghost start = r@;
        proof {
            lemma_last_index(pv, v.path@);
            assert(by_path@.dom().contains(v.path@) == pv.contains(v.path@));
            assert(vv[n as int] == v@);
            assert(vp[n as int] == v.path@);
            assert(vp.take(n + 1).drop_last() =~= vp.take(n as int));
            assert(vv.take(n + 1).drop_last() =~= vv.take(n as int));
        }
        if let Some(p) = by_path.get(v.path.as_str()) {
            let slot: usize = *p;
            assert(slot == last_index(pv, v.path@));
            let ghost old_bucket = r@[slot as int];
            r[slot].push((v.run_id, v.value.clone()));
            proof {
                assert(bucket_view(r@[slot as int]) =~= bucket_view(old_bucket).push((v.run_id, v.value@)));
                let h = having(vp.take(n as int), vv.take(n as int), v.path@);
                assert(run_pairs(h.push(v@)) =~= run_pairs(h).push((v.run_id, v.value@)));
            }
        }
        proof {
            assert forall|i: int| 0 <= i < paths@.len() && last_index(pv, pv[i]) == i implies bucket_view(
                #[trigger] r@[i],
            ) == run_pairs(having(vp.take(n + 1), vv.take(n + 1), pv[i])) by {
                assert(bucket_view(start[i]) == run_pairs(having(vp.take(n as int), vv.take(n as int), pv[i])));
                if pv[i] == v.path@ {
                    assert(pv.contains(v.path@));
                } else {
                    assert(r@[i] == start[i]);
                }
            }
        }
    }
    assert(vp.take(vp.len() as int) =~= vp);
    assert(vv.take(vv.len() as int) =~= vv);
    r
}

/// The value in a run among those gathered for a path.
fn find_in_run(bucket: &Vec<(i32, String)>, run_id: i32, Ghost(s): Ghost<Seq<RunValueView>>) -> (r: CompareValue)
    requires
        bucket_view(*bucket) == run_pairs(s),
    ensures
        cell_view(r) == value_in_run(s, run_id),
        !r.present ==> r.value@.len() == 0,
{
    let mut i: usize = bucket.len();
    assert(run_pairs(s).len() == s.len());
    assert(bucket_view(*bucket).len() == bucket@.len());
    assert(s.take(s.len() as int) =~= s);
    while i > 0
        invariant
            i <= bucket@.len(),
            bucket@.len() == s.len(),
            bucket_view(*bucket) == run_pairs(s),
            value_in_run(s.take(i as int), run_id) == value_in_run(s, run_id),
        decreases i,
    {
        i = i - 1;
        assert(s.take(i + 1).drop_last() =~= s.take(i as int));
        assert(bucket_view(*bucket)[i as int] == run_pairs(s)[i as int]);
        if bucket[i].0 == run_id {
            return CompareValue { present: true, value: bucket[i].1.clone() };
        }
    }
    let value = String::new();
    CompareValue { present: false, value }
}

/// Whether all values that are there are the same.
fn check_agreement(cells: &Vec<CompareValue>) -> (r: bool)
    ensures
        r == all_agree(cell_views(cells@)),
{
    let ghost cv = cell_views(cells@);
    let mut first: usize = 0;
    while first < cells.len() && !cells[first].present
        invariant
            cv == cell_views(cells@),
            first <= cells@.len(),
            forall|i: int| 0 <= i < first ==> (#[trigger] cv[i]) is None,
        decreases cells@.len() - first,
    {
        first = first + 1;
    }
    if first == cells.len() {
        return true;
    }
    assert(cv[first as int] == Some(cells@[first as int].value@));
    for i in first..cells.len()
        invariant
            cv == cell_views(cells@),
            first < cells@.len(),
            cv[first as int] == Some(cells@[first as int].value@),
            forall|j: int| 0 <= j < first ==> (#[trigger] cv[j]) is None,
            forall|j: int| first <= j < i && (#[trigger] cv[j]) is Some ==> cv[j] == cv[first as int],
    {
        if cells[i].present && !same(cells[i].value.as_str(), cells[first].value.as_str()) {
            assert(cv[i as int] is Some && cv[i as int] != cv[first as int]);
            return false;
        }
    }
    true
}

/// The rows of the comparison: for each path its values in the given runs.
pub fn compare_rows(run_ids: &Vec<i32>, paths: &Vec<String>, values: &Vec<RunValue>) -> (r: Vec<CompareRow>)
    ensures
        row_views(r@) == views(paths@).map_values(
            |p: Seq<char>| row_for(value_views(values@), p, run_ids@),
        ),
        forall|i: int| 0 <= i < r@.len() ==> blank_if_absent((#[trigger] r@[i]).values@),
{
    let by_path = index_last(paths);
    let gathered = gather(paths, &by_path, values);
    let ghost pv = views(paths@);
    let ghost vv = value_views(values@);
    let ghost vp = value_paths(vv);
    let ghost all = pv.map_values(|p: Seq<char>| row_for(vv, p, run_ids@));
    let mut r: Vec<CompareRow> = Vec::new();
    for i in 0..paths.len()
        invariant
            pv == views(paths@),
            vv == value_views(values@),
            vp == value_paths(vv),
            all == pv.map_values(|p: Seq<char>| row_for(vv, p, run_ids@)),
            gathered@.len() == paths@.len(),
            locates_last(by_path@, pv),
            forall|j: int|
                0 <= j < paths@.len() && last_index(pv, pv[j]) == j ==> bucket_view(#[trigger] gathered@[j])
                    == run_pairs(having(vp, vv, pv[j])),
            row_views(r@) == all.take(i as int),
            forall|j: int| 0 <= j < r@.len() ==> blank_if_absent((#[trigger] r@[j]).values@),
    {
        let path = &paths[i];
        let ghost own = having(vp, vv, path@);
        let ghost expected = cells_of(vv, path@, run_ids@);
        proof {
            assert(pv[i as int] == path@);
            assert(pv.contains(path@));
            lemma_last_index(pv, path@);
            assert(by_path@.dom().contains(path@));
        }
        let mut cells: Vec<CompareValue> = Vec::new();
        if let Some(p) = by_path.get(path.as_str()) {
            let slot: usize = *p;
            assert(slot == last_index(pv, path@));
            assert(bucket_view(gathered@[slot as int]) == run_pairs(own));
            for k in 0..run_ids.len()
                invariant
                    slot < gathered@.len(),
                    bucket_view(gathered@[slot as int]) == run_pairs(own),
                    own == having(vp, vv, path@),
                    vp == value_paths(vv),
                    expected == cells_of(vv, path@, run_ids@),
                    cell_views(cells@) == expected.take(k as int),
                    blank_if_absent(cells@),
            {
                let ghost before = cell_views(cells@);
                let c = find_in_run(&gathered[slot], run_ids[k], Ghost(own));
                assert(expected[k as int] == cell_view(c));
                cells.push(c);
                assert(cell_views(cells@) =~= before.push(cell_view(c)));
            }
        }
        assert(cell_views(cells@) =~= expected);
        let ghost before = row_views(r@);
        let all_same = check_agreement(&cells);
        let row = CompareRow { path: path.clone(), anchor: path_to_anchor(path.as_str()), values: cells, all_same };
        assert(row@ == all[i as int]);
        r.push(row);
        assert(row_views(r@) =~= before.push(row@));
    }
    assert(all.take(all.len() as int) =~= all);
    r
}

/// Whether the value at position `i` is the one that counts for a path in a run: of
/// several the last one.
pub open spec fn counts_for(values: Seq<RunValueView>, path: Seq<char>, run_id: i32, i: int) -> bool {
    &&& 0 <= i < values.len()
    &&& values[i].path == path && values[i].run_id == run_id
    &&& forall|j: int| i < j < values.len() ==> !((#[trigger] values[j]).path == path && values[j].run_id == run_id)
}

proof fn lemma_value_of_path(values: Seq<RunValueView>, path: Seq<char>, run_id: i32)
    ensures
        ({
            let cell = value_in_run(having(value_paths(values), values, path), run_id);
            &&& forall|i: int| #[trigger] counts_for(values, path, run_id, i) ==> cell == Some(values[i].value)
            &&& cell is Some ==> exists|i: int| #[trigger] counts_for(values, path, run_id, i)
        }),
    decreases values.len(),
{
    let paths = value_paths(values);
    let own = having(paths, values, path);
    if values.len() > 0 {
        let t = values.drop_last();
        let before = having(value_paths(t), t, path);
        lemma_value_of_path(t, path, run_id);
        assert(paths.drop_last() =~= value_paths(t));
        let last = values.last();
        let cell = value_in_run(own, run_id);
        if last.path == path {
            assert(own.drop_last() =~= before);
        }
        if last.path == path && last.run_id == run_id {
            assert(counts_for(values, path, run_id, values.len() - 1));
            assert forall|i: int| #[trigger] counts_for(values, path, run_id, i) implies cell == Some(values[i].value) by {
                if i < values.len() - 1 {
                    assert(values[values.len() - 1].path == path);
                }
            }
        } else {
            assert(cell == value_in_run(before, run_id));
            assert forall|i: int| #[trigger] counts_for(values, path, run_id, i) implies cell == Some(values[i].value) by {
                assert(i < t.len());
                assert(t[i] == values[i]);
                assert forall|j: int| i < j < t.len() implies !((#[trigger] t[j]).path == path && t[j].run_id == run_id) by {
                    assert(t[j] == values[j]);
                }
                assert(counts_for(t, path, run_id, i));
            }
            if cell is Some {
                let i = choose|i: int| #[trigger] counts_for(t, path, run_id, i);
                assert(values[i] == t[i]);
                assert forall|j: int| i < j < values.len() implies !((#[trigger] values[j]).path == path
                    && values[j].run_id == run_id) by {
                    if j < t.len() {
                        assert(values[j] == t[j]);
                    }
                }
                assert(counts_for(values, path, run_id, i));
            }
        }
    }
}

/// A row of the comparison shows, run by run, the value that the path has there, and
/// nothing where it has none; it says that all are the same if and only if no two values
/// that are there differ.
pub proof fn law_row_shows_the_runs(values: Seq<RunValueView>, path: Seq<char>, run_ids: Seq<i32>, k: int)
    requires
        0 <= k < run_ids.len(),
    ensures
        ({
            let row = row_for(values, path, run_ids);
            &&& row.path == path
            &&& row.values.len() == run_ids.len()
            &&& forall|i: int| #[trigger]
                counts_for(values, path, run_ids[k], i) ==> row.values[k] == Some(values[i].value)
            &&& (forall|i: int|
                0 <= i < values.len() ==> !((#[trigger] values[i]).path == path && values[i].run_id == run_ids[k]))
                ==> row.values[k] is None
            &&& !row.all_same <==> exists|a: int, b: int|
                0 <= a < b < run_ids.len() && (#[trigger] row.values[a]) is Some && (#[trigger] row.values[b]) is Some
                    && row.values[a] != row.values[b]
        }),
{
    let row = row_for(values, path, run_ids);
    lemma_value_of_path(values, path, run_ids[k]);
    assert(row.values[k] == value_in_run(having(value_paths(values), values, path), run_ids[k]));
    if row.values[k] is Some {
        let i = choose|i: int| #[trigger] counts_for(values, path, run_ids[k], i);
        assert(values[i].path == path && values[i].run_id == run_ids[k]);
    }
}

/// The address for a path leads to the page that shows it and there to its row, in the
/// comparison of the named knowledge base.
pub proof fn law_seek_leads_to_the_row(
    kb_name: Seq<char>,
    changed_paths: Seq<Seq<char>>,
    path: Seq<char>,
    values: Seq<RunValueView>,
    run_ids: Seq<i32>,
)
    requires
        changed_paths.contains(path),
    ensures
        exists|p: nat|
            page_of(changed_paths, p as int, COMPARE_PAGE_SIZE as int).contains(path) && seek_target_of(
                kb_name,
                changed_paths,
                path,
            ) == "/compare/"@ + encoded(encode_utf8(kb_name)) + "?page="@ + #[trigger] decimal(p) + "#field-"@ + row_for(
                values,
                path,
                run_ids,
            ).anchor,
{
    law_seek_finds_path(changed_paths, path);
    let p = seek_page(changed_paths, path) as nat;
    assert(page_of(changed_paths, p as int, COMPARE_PAGE_SIZE as int).contains(path));
    assert(decimal(p) == decimal(seek_page(changed_paths, path) as nat));
}

/// A path that did not change leads to the first page.
pub proof fn law_seek_of_unchanged_path(changed_paths: Seq<Seq<char>>, path: Seq<char>)
    requires
        !changed_paths.contains(path),
    ensures
        seek_page(changed_paths, path) == 0,
{
    lemma_first_index(changed_paths, path);
}

/// Letters and digits are kept in an address; any other byte takes three characters, a
/// percent sign first; and what is encoded in parts is encoded as a whole.
pub proof fn law_encoding(a: Seq<u8>, b: Seq<u8>, byte: u8)
    ensures
        encoded(a + b) == encoded(a) + encoded(b),
        48 <= byte <= 57 || 65 <= byte <= 90 || 97 <= byte <= 122 ==> encoded(seq![byte]) == seq![byte as char],
        !(48 <= byte <= 57 || 65 <= byte <= 90 || 97 <= byte <= 122) ==> encoded(seq![byte]).len() == 3 && encoded(
            seq![byte],
        )[0] == '%',
    decreases b.len(),
{
    let one = seq![byte];
    assert(one.drop_last() =~= Seq::<u8>::empty());
    assert(encoded(one.drop_last()) =~= Seq::<char>::empty());
    assert(encoded(one) =~= encoded_byte(byte));
    if b.len() > 0 {
        law_encoding(a, b.drop_last(), byte);
        assert((a + b).drop_last() =~= a + b.drop_last());
        assert((a + b).last() == b.last());
        assert(encoded(a) + encoded(b.drop_last()) + encoded_byte(b.last()) =~= encoded(a) + encoded(b));
    } else {
        assert(a + b =~= a);
        assert(encoded(a) + encoded(b) =~= encoded(a));
    }
}

} // verus!
