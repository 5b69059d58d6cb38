//! The runs page: imported runs with what they cover, and edits of their descriptions.
use crate::text::{chars_of, copy_opt, string_between, trim, trimmed, view_opt, Edge};
use vstd::prelude::*;
use vstd::utf8::{encode_scalar, encode_utf8};

verus! {

/// How many bytes of a file's hash are shown.
pub const SHOWN_HASH_BYTES: usize = 12;

/// An imported run.
#[derive(Debug, PartialEq, Eq)]
pub struct Run {
    pub id: i32,
    pub label: String,
    pub run_date: Option<String>,
    pub model: Option<String>,
    pub file_hash: String,
    pub imported_at: String,
}

/// How much a run covers.
#[derive(Debug, Clone, Copy, PartialEq, Eq, Structural)]
pub struct RunStats {
    pub run_id: i32,
    pub kb_count: i32,
    pub field_count: i32,
}

/// A run as the page shows it.
#[derive(Debug, PartialEq, Eq)]
pub struct RunLine {
    pub id: i32,
    pub label: String,
    pub run_date: Option<String>,
    pub model: Option<String>,
    pub file_hash: String,
    pub imported_at: String,
    pub kb_count: i32,
    pub field_count: i32,
}

/// What the page shows of a run.
pub struct RunLineView {
    pub id: i32,
    pub label: Seq<char>,
    pub run_date: Option<Seq<char>>,
    pub model: Option<Seq<char>>,
    pub file_hash: Seq<char>,
    pub imported_at: Seq<char>,
    pub kb_count: i32,
    pub field_count: i32,
}

impl View for RunLine {
    type V = RunLineView;

    open spec fn view(&self) -> RunLineView {
        RunLineView {
            id: self.id,
            label: self.label@,
            run_date: view_opt(self.run_date),
            model: view_opt(self.model),
            file_hash: self.file_hash@,
            imported_at: self.imported_at@,
            kb_count: self.kb_count,
            field_count: self.field_count,
        }
    }
}

/// What the page shows of a list of runs.
pub open spec fn run_line_views(s: Seq<RunLine>) -> Seq<RunLineView> {
    s.map_values(|r: RunLine| r@)
}

/// How many bytes a character takes in UTF-8.
pub open spec fn byte_width(c: char) -> int {
    if (c as int) < 0x80 {
        1
    } else if (c as int) < 0x800 {
        2
    } else if (c as int) < 0x10000 {
        3
    } else {
        4
    }
}

/// How many characters at the beginning of `s` take exactly `bytes` bytes.
pub open spec fn chars_in(s: Seq<char>, bytes: int) -> Option<int>
    decreases s.len(),
{
    if bytes == 0 {
        Some(0)
    } else if bytes < 0 || s.len() == 0 {
        None
    } else {
        match chars_in(s.drop_first(), bytes - byte_width(s[0])) {
            Some(n) => Some(n + 1),
            None => None,
        }
    }
}

/// Whether a hash can be cut after the bytes that are shown.
pub open spec fn is_cuttable(hash: Seq<char>) -> bool {
    chars_in(hash, SHOWN_HASH_BYTES as int) is Some
}

/// The part of a hash that is shown.
pub open spec fn shown_hash(hash: Seq<char>) -> Seq<char> {
    hash.take(chars_in(hash, SHOWN_HASH_BYTES as int)->0)
}

/// What a run covers; nothing where that is not known. Of several entries the last one
/// counts.
pub open spec fn stats_of(stats: Seq<RunStats>, id: i32) -> (i32, i32)
    decreases stats.len(),
{
    if stats.len() == 0 {
        (0, 0)
    } else if stats.last().run_id == id {
        (stats.last().kb_count, stats.last().field_count)
    } else {
        stats_of(stats.drop_last(), id)
    }
}

/// What the page shows of a run.
pub open spec fn run_line(r: Run, stats: Seq<RunStats>) -> RunLineView {
    RunLineView {
        id: r.id,
        label: r.label@,
        run_date: view_opt(r.run_date),
        model: view_opt(r.model),
        file_hash: shown_hash(r.file_hash@),
        imported_at: r.imported_at@,
        kb_count: stats_of(stats, r.id).0,
        field_count: stats_of(stats, r.id).1,
    }
}

/// How many characters at the beginning of a hash take the bytes that are shown.
fn count_shown(cs: &Vec<char>) -> (r: Option<usize>)
    ensures
        match r {
            Some(n) => chars_in(cs@, SHOWN_HASH_BYTES as int) == Some(n as int) && n <= cs@.len(),
            None => chars_in(cs@, SHOWN_HASH_BYTES as int) is None,
        },
{
    let mut left: usize = SHOWN_HASH_BYTES;
    let mut n: usize = 0;
    assert(cs@.skip(0) =~= cs@);
    while left > 0
        invariant
            n <= cs@.len(),
            left <= SHOWN_HASH_BYTES,
            chars_in(cs@, SHOWN_HASH_BYTES as int) == (match chars_in(cs@.skip(n as int), left as int) {
                Some(k) => Some(k + n),
                None => None,
            }),
        decreases left,
    {
        if n == cs.len() {
            return None;
        }
        let c = cs[n];
        let width: usize = if c <= '\u{7f}' {
            1
        } else if c <= '\u{7ff}' {
            2
        } else if c <= '\u{ffff}' {
            3
        } else {
            4
        };
        assert(cs@.skip(n as int).drop_first() =~= cs@.skip(n + 1));
        assert(width == byte_width(cs@[n as int]));
        if width > left {
            assert(chars_in(cs@.skip(n + 1), left - width) is None);
            return None;
        }
        left = left - width;
        n = n + 1;
    }
    Some(n)
}

/// Whether a hash can be cut after the bytes that are shown.
pub fn hash_is_cuttable(hash: &str) -> (r: bool)
    ensures
        r == is_cuttable(hash@),
{
    count_shown(&chars_of(hash)).is_some()
}

/// The part of a hash that is shown.
pub fn shorten_hash(hash: &str) -> (r: String)
    requires
        is_cuttable(hash@),
    ensures
        r@ == shown_hash(hash@),
{
    let cs = chars_of(hash);
    match count_shown(&cs) {
        Some(n) => string_between(cs.as_slice(), 0, n),
        None => String::new(),
    }
}

/// What a run covers.
fn find_stats(stats: &Vec<RunStats>, id: i32) -> (r: (i32, i32))
    ensures
        r == stats_of(stats@, id),
{
    let mut i: usize = stats.len();
    assert(stats@.take(stats@.len() as int) =~= stats@);
    while i > 0
        invariant
            i <= stats@.len(),
            stats_of(stats@.take(i as int), id) == stats_of(stats@, id),
        decreases i,
    {
        i = i - 1;
        assert(stats@.take(i + 1).drop_last() =~= stats@.take(i as int));
        if stats[i].run_id == id {
            return (stats[i].kb_count, stats[i].field_count);
        }
    }
    (0, 0)
}

/// The runs as the page shows them.
pub fn build_run_lines(runs: &Vec<Run>, stats: &Vec<RunStats>) -> (r: Vec<RunLine>)
    requires
        forall|i: int| 0 <= i < runs@.len() ==> is_cuttable((#[trigger] runs@[i]).file_hash@),
    ensures
        run_line_views(r@) == runs@.map_values(|run: Run| run_line(run, stats@)),
{
    let ghost all = runs@.map_values(|run: Run| run_line(run, stats@));
    let mut r: Vec<RunLine> = Vec::new();
    for i in 0..runs.len()
        invariant
            all == runs@.map_values(|run: Run| run_line(run, stats@)),
            forall|j: int| 0 <= j < runs@.len() ==> is_cuttable((#[trigger] runs@[j]).file_hash@),
            run_line_views(r@) == all.take(i as int),
    {
        let run = &runs[i];
        let (kb_count, field_count) = find_stats(stats, run.id);
        let line = RunLine {
            id: run.id,
            label: run.label.clone(),
            run_date: copy_opt(&run.run_date),
            model: copy_opt(&run.model),
            file_hash: shorten_hash(run.file_hash.as_str()),
            imported_at: run.imported_at.clone(),
            kb_count,
            field_count,
        };
        let ghost before = run_line_views(r@);
        assert(all[i as int] == line@);
        r.push(line);
        assert(run_line_views(r@) =~= before.push(line@));
    }
    assert(all.take(all.len() as int) =~= all);
    r
}

/// A new description of a run.
#[derive(Debug, PartialEq, Eq)]
pub struct RunEdit {
    pub label: String,
    pub model: Option<String>,
}

/// The description of a run that a form gives: without white space around it, and without
/// a model where none is named.
pub fn read_run_edit(label: &str, model: &str) -> (r: RunEdit)
    ensures
        r.label@ == trimmed(label@, Edge::Space),
        view_opt(r.model) == (if trimmed(model@, Edge::Space).len() == 0 {
            None
        } else {
            Some(trimmed(model@, Edge::Space))
        }),
{
    let name = trim(model, Edge::Space);
    let named = name.as_str().unicode_len() > 0;
    RunEdit {
        label: trim(label, Edge::Space),
        model: if named {
            Some(name)
        } else {
            None
        },
    }
}

proof fn lemma_ascii_chars(hash: Seq<char>, bytes: int)
    requires
        0 <= bytes <= hash.len(),
        forall|i: int| 0 <= i < bytes ==> (#[trigger] hash[i] as int) < 0x80,
    ensures
        chars_in(hash, bytes) == Some(bytes),
    decreases bytes,
{
    if bytes > 0 {
        let t = hash.drop_first();
        assert((hash[0] as int) < 0x80);
        assert forall|i: int| 0 <= i < bytes - 1 implies (#[trigger] t[i] as int) < 0x80 by {
            assert(t[i] == hash[i + 1]);
        }
        lemma_ascii_chars(t, bytes - 1);
    }
}

proof fn lemma_stats(stats: Seq<RunStats>, id: i32, i: int)
    requires
        0 <= i < stats.len(),
        stats[i].run_id == id,
        forall|k: int| i < k < stats.len() ==> (#[trigger] stats[k]).run_id != id,
    ensures
        stats_of(stats, id) == (stats[i].kb_count, stats[i].field_count),
    decreases stats.len(),
{
    if i < stats.len() - 1 {
        assert(stats[stats.len() - 1].run_id != id);
        let t = stats.drop_last();
        assert forall|k: int| i < k < t.len() implies (#[trigger] t[k]).run_id != id by {
            assert(t[k] == stats[k]);
        }
        lemma_stats(t, id, i);
    }
}

proof fn lemma_no_stats(stats: Seq<RunStats>, id: i32)
    requires
        forall|k: int| 0 <= k < stats.len() ==> (#[trigger] stats[k]).run_id != id,
    ensures
        stats_of(stats, id) == (0i32, 0i32),
    decreases stats.len(),
{
    if stats.len() > 0 {
        assert(stats[stats.len() - 1].run_id != id);
        let t = stats.drop_last();
        assert forall|k: int| 0 <= k < t.len() implies (#[trigger] t[k]).run_id != id by {
            assert(t[k] == stats[k]);
        }
        lemma_no_stats(t, id);
    }
}

/// The line of a run shows the run as it is, the first twelve characters of its hash, and
/// what the statistics say of this run; nothing where they do not speak of it.
pub proof fn law_line_shows_the_run(run: Run, stats: Seq<RunStats>, i: int)
    requires
        run.file_hash@.len() >= 12,
        forall|k: int| 0 <= k < 12 ==> (#[trigger] run.file_hash@[k] as int) < 0x80,
    ensures
        ({
            let line = run_line(run, stats);
            &&& is_cuttable(run.file_hash@)
            &&& line.id == run.id
            &&& line.label == run.label@
            &&& line.run_date == view_opt(run.run_date)
            &&& line.model == view_opt(run.model)
            &&& line.imported_at == run.imported_at@
            &&& line.file_hash == run.file_hash@.take(12)
            &&& 0 <= i < stats.len() && stats[i].run_id == run.id && (forall|k: int|
                i < k < stats.len() ==> (#[trigger] stats[k]).run_id != run.id) ==> line.kb_count == stats[i].kb_count
                && line.field_count == stats[i].field_count
            &&& (forall|k: int| 0 <= k < stats.len() ==> (#[trigger] stats[k]).run_id != run.id) ==> line.kb_count == 0
                && line.field_count == 0
        }),
{
    lemma_ascii_chars(run.file_hash@, 12);
    if 0 <= i < stats.len() && stats[i].run_id == run.id && (forall|k: int|
        i < k < stats.len() ==> (#[trigger] stats[k]).run_id != run.id) {
        lemma_stats(stats, run.id, i);
    }
    if forall|k: int| 0 <= k < stats.len() ==> (#[trigger] stats[k]).run_id != run.id {
        lemma_no_stats(stats, run.id);
    }
}

proof fn lemma_byte_width(s: Seq<char>)
    requires
        s.len() > 0,
    ensures
        encode_utf8(s).len() == byte_width(s[0]) + encode_utf8(s.drop_first()).len(),
{
    lemma_scalar_width(s[0]);
}

proof fn lemma_scalar_width(c: char)
    ensures
        encode_scalar(c as u32).len() == byte_width(c),
{
    assert(c as u32 == c as int);
}

proof fn lemma_bytes_of_chars(s: Seq<char>, bytes: int)
    ensures
        chars_in(s, bytes) matches Some(n) ==> 0 <= n <= s.len() && encode_utf8(s.take(n)).len() == bytes,
    decreases s.len(),
{
    if bytes == 0 {
        assert(s.take(0).len() == 0);
    } else if bytes > 0 && s.len() > 0 {
        let t = s.drop_first();
        lemma_bytes_of_chars(t, bytes - byte_width(s[0]));
        if let Some(n) = chars_in(s, bytes) {
            assert(s.take(n).drop_first() =~= t.take(n - 1));
            assert(s.take(n)[0] == s[0]);
            lemma_byte_width(s.take(n));
        }
    }
}

proof fn lemma_chars_of_bytes(s: Seq<char>, n: int)
    requires
        0 <= n <= s.len(),
    ensures
        chars_in(s, encode_utf8(s.take(n)).len() as int) == Some(n),
    decreases n,
{
    if n > 0 {
        let t = s.drop_first();
        lemma_chars_of_bytes(t, n - 1);
        assert(s.take(n).drop_first() =~= t.take(n - 1));
        assert(s.take(n)[0] == s[0]);
        lemma_byte_width(s.take(n));
    } else {
        assert(s.take(n).len() == 0);
    }
}

/// What is shown of a hash is its beginning that takes twelve bytes, and a hash without
/// such a beginning cannot be cut.
pub proof fn law_shown_hash_takes_twelve_bytes(hash: Seq<char>, n: int)
    requires
        0 <= n <= hash.len(),
    ensures
        is_cuttable(hash) ==> shown_hash(hash).is_prefix_of(hash) && encode_utf8(shown_hash(hash)).len() == 12,
        encode_utf8(hash.take(n)).len() == 12 ==> is_cuttable(hash) && shown_hash(hash) == hash.take(n),
{
    lemma_bytes_of_chars(hash, 12);
    lemma_chars_of_bytes(hash, n);
}

} // verus!
