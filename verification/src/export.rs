//! Exported documents: where they are written, and what is said of the steps that follow
//! a change of a whole document.
use crate::number::{decimal, lemma_decimal_injective, to_decimal};
use crate::text::{any_is, concat2, concat3, views};
use vstd::prelude::*;

verus! {

/// The directory of the exported documents.
pub const FINAL_CROISSANTS_DIR: &'static str = "/Users/ekcarter/Desktop/robo-croissant-reviews/final_croissants";

/// The name of the file that a save at the time `stamp` is written to.
pub open spec fn snapshot_name(name: Seq<char>, stamp: Seq<char>) -> Seq<char> {
    name + "_"@ + stamp + ".jsonld"@
}

/// The name of the file that holds the current final document.
pub open spec fn final_name(name: Seq<char>) -> Seq<char> {
    name + ".jsonld"@
}

/// The name of the file that a save at the time `stamp` is written to.
pub fn snapshot_file_name(name: &str, stamp: &str) -> (r: String)
    ensures
        r@ == snapshot_name(name@, stamp@),
{
    let mut r = concat3(name, "_", stamp);
    r.append(".jsonld");
    r
}

/// The name of the file that holds the current final document.
pub fn final_file_name(name: &str) -> (r: String)
    ensures
        r@ == final_name(name@),
{
    concat2(name, ".jsonld")
}

/// The names that a save can be written to, in the order in which they are tried: the
/// plain name, then numbered ones.
pub open spec fn snapshot_candidate(name: Seq<char>, stamp: Seq<char>, k: nat) -> Seq<char> {
    if k == 0 {
        snapshot_name(name, stamp)
    } else {
        snapshot_name(name, stamp + "_"@ + decimal(k))
    }
}

/// Whether the candidate `k` is the first that is not in use.
pub open spec fn is_first_free(name: Seq<char>, stamp: Seq<char>, used: Seq<Seq<char>>, k: nat) -> bool {
    &&& !used.contains(snapshot_candidate(name, stamp, k))
    &&& forall|j: nat| j < k ==> used.contains(#[trigger] snapshot_candidate(name, stamp, j))
}

/// The name of the file that a save at the time `stamp` is written to, next to files
/// with the names in `used`.
pub open spec fn free_name(name: Seq<char>, stamp: Seq<char>, used: Seq<Seq<char>>) -> Seq<char> {
    snapshot_candidate(name, stamp, choose|k: nat| is_first_free(name, stamp, used, k))
}

/// The name of the file that a save at the time `stamp` is written to, next to files
/// with the names in `used`.
pub fn free_snapshot_name(name: &str, stamp: &str, used: &Vec<String>) -> (r: String)
    ensures
        r@ == free_name(name@, stamp@, views(used@)),
        !views(used@).contains(r@),
        r@ != final_name(name@),
{
    let n: usize = used.len();
    let mut k: usize = 0;
    let mut r = snapshot_file_name(name, stamp);
    while any_is(used, r.as_str())
        invariant
            r@ == snapshot_candidate(name@, stamp@, k as nat),
            forall|j: nat| j < k ==> views(used@).contains(#[trigger] snapshot_candidate(name@, stamp@, j)),
            k <= n,
            n == used@.len(),
        decreases n - k,
    {
        proof {
            lemma_used_candidates(name@, stamp@, views(used@), (k + 1) as nat);
        }
        k = k + 1;
        let numbered = concat3(stamp, "_", to_decimal(k as u64).as_str());
        r = snapshot_file_name(name, numbered.as_str());
    }
    proof {
        lemma_free_name(name@, stamp@, views(used@), k as nat);
        lemma_not_final(name@, stamp@, k as nat);
    }
    r
}

/// Different stamps give different names.
proof fn lemma_snapshot_name(name: Seq<char>, a: Seq<char>, b: Seq<char>)
    requires
        a != b,
    ensures
        snapshot_name(name, a) != snapshot_name(name, b),
{
    let x = snapshot_name(name, a);
    let y = snapshot_name(name, b);
    let from = name.len() + "_"@.len();
    let end = ".jsonld"@.len();
    if x == y {
        assert(x.subrange(from as int, x.len() - end) =~= a);
        assert(y.subrange(from as int, y.len() - end) =~= b);
    }
}

/// Different candidates have different names.
proof fn lemma_candidates_differ(name: Seq<char>, stamp: Seq<char>, i: nat, j: nat)
    requires
        i < j,
    ensures
        snapshot_candidate(name, stamp, i) != snapshot_candidate(name, stamp, j),
{
    reveal_strlit("_");
    assert("_"@.len() == 1);
    let a = if i == 0 {
        stamp
    } else {
        stamp + "_"@ + decimal(i)
    };
    let b = stamp + "_"@ + decimal(j);
    if a == b {
        if i == 0 {
            assert(a.len() < b.len());
        } else {
            assert(a.skip(stamp.len() as int + 1) =~= decimal(i));
            assert(b.skip(stamp.len() as int + 1) =~= decimal(j));
            lemma_decimal_injective(i, j);
        }
    }
    lemma_snapshot_name(name, a, b);
}

/// No candidate is the file of the current final document.
proof fn lemma_not_final(name: Seq<char>, stamp: Seq<char>, k: nat)
    ensures
        snapshot_candidate(name, stamp, k) != final_name(name),
{
    reveal_strlit("_");
    assert("_"@.len() == 1);
    assert(snapshot_candidate(name, stamp, k).len() > final_name(name).len());
}

/// No more candidates are in use than there are names in use.
proof fn lemma_used_candidates(name: Seq<char>, stamp: Seq<char>, used: Seq<Seq<char>>, k: nat)
    requires
        forall|j: nat| j < k ==> used.contains(#[trigger] snapshot_candidate(name, stamp, j)),
    ensures
        k <= used.len(),
    decreases k,
{
    if k > 0 {
        let l = (k - 1) as nat;
        let last = snapshot_candidate(name, stamp, l);
        assert(used.contains(last));
        let p = choose|p: int| 0 <= p < used.len() && used[p] == last;
        let rest = used.remove(p);
        assert forall|j: nat| j < l implies rest.contains(#[trigger] snapshot_candidate(name, stamp, j)) by {
            let c = snapshot_candidate(name, stamp, j);
            lemma_candidates_differ(name, stamp, j, l);
            let q = choose|q: int| 0 <= q < used.len() && used[q] == c;
            if q < p {
                assert(rest[q] == c);
            } else {
                assert(rest[q - 1] == c);
            }
        }
        lemma_used_candidates(name, stamp, rest, l);
    }
}

/// The first free candidate is the name that is taken.
proof fn lemma_free_name(name: Seq<char>, stamp: Seq<char>, used: Seq<Seq<char>>, k: nat)
    requires
        is_first_free(name, stamp, used, k),
    ensures
        free_name(name, stamp, used) == snapshot_candidate(name, stamp, k),
{
    let c = choose|c: nat| is_first_free(name, stamp, used, c);
    assert(is_first_free(name, stamp, used, c));
    if c < k {
        assert(used.contains(snapshot_candidate(name, stamp, c)));
    } else if k < c {
        assert(used.contains(snapshot_candidate(name, stamp, k)));
    }
}

/// There is a free candidate.
proof fn lemma_free_exists(name: Seq<char>, stamp: Seq<char>, used: Seq<Seq<char>>, k: nat) -> (r: nat)
    requires
        forall|j: nat| j < k ==> used.contains(#[trigger] snapshot_candidate(name, stamp, j)),
    ensures
        is_first_free(name, stamp, used, r),
    decreases used.len() - k,
{
    lemma_used_candidates(name, stamp, used, k);
    if used.contains(snapshot_candidate(name, stamp, k)) {
        lemma_used_candidates(name, stamp, used, k + 1);
        lemma_free_exists(name, stamp, used, k + 1)
    } else {
        k
    }
}

/// The names of the files that saves are written to one after the other, each given by
/// the knowledge base and the time, next to files with the names in `used`.
pub open spec fn saved_names(saves: Seq<(Seq<char>, Seq<char>)>, used: Seq<Seq<char>>) -> Seq<Seq<char>>
    decreases saves.len(),
{
    if saves.len() == 0 {
        Seq::empty()
    } else {
        let earlier = saved_names(saves.drop_last(), used);
        earlier.push(free_name(saves.last().0, saves.last().1, used + earlier))
    }
}

/// No save is ever overwritten: of any two saves, of whatever knowledge bases and times,
/// each goes to a file of its own, none of them to a file that was there before, and none
/// to the file of the current final document of its knowledge base.
pub proof fn law_no_save_overwritten(saves: Seq<(Seq<char>, Seq<char>)>, used: Seq<Seq<char>>)
    ensures
        saved_names(saves, used).len() == saves.len(),
        saved_names(saves, used).no_duplicates(),
        forall|i: int|
            0 <= i < saves.len() ==> !used.contains(#[trigger] saved_names(saves, used)[i]) && saved_names(
                saves,
                used,
            )[i] != final_name(saves[i].0),
    decreases saves.len(),
{
    if saves.len() > 0 {
        let earlier = saved_names(saves.drop_last(), used);
        let taken = used + earlier;
        let name = saves.last().0;
        let stamp = saves.last().1;
        law_no_save_overwritten(saves.drop_last(), used);
        let k = lemma_free_exists(name, stamp, taken, 0);
        lemma_free_name(name, stamp, taken, k);
        let f = snapshot_candidate(name, stamp, k);
        lemma_not_final(name, stamp, k);
        assert forall|i: int| 0 <= i < used.len() implies used[i] != f by {
            assert(taken[i] == used[i]);
        }
        assert forall|i: int| 0 <= i < earlier.len() implies earlier[i] != f by {
            assert(taken[used.len() + i] == earlier[i]);
        }
        assert forall|i: int| 0 <= i < earlier.len() implies saves.drop_last()[i] == #[trigger] saves[i] by {}
    }
}

/// The name of a file tells the knowledge base and the time as they are: a save at a time
/// that no file carries yet goes to the name, the time and nothing else, every other one
/// to these with a number behind them.
pub proof fn law_file_names_tell_kb_and_time(name: Seq<char>, stamp: Seq<char>, used: Seq<Seq<char>>) -> (k: nat)
    ensures
        final_name(name) == name + ".jsonld"@,
        free_name(name, stamp, used) == (if used.contains(name + "_"@ + stamp + ".jsonld"@) {
            name + "_"@ + stamp + "_"@ + decimal(k) + ".jsonld"@
        } else {
            name + "_"@ + stamp + ".jsonld"@
        }),
        used.contains(name + "_"@ + stamp + ".jsonld"@) ==> 0 < k <= used.len(),
{
    let k = lemma_free_exists(name, stamp, used, 0);
    lemma_free_name(name, stamp, used, k);
    lemma_used_candidates(name, stamp, used, k);
    assert(snapshot_candidate(name, stamp, 0) == name + "_"@ + stamp + ".jsonld"@);
    if k > 0 {
        assert(used.contains(snapshot_candidate(name, stamp, 0)));
        assert(name + "_"@ + (stamp + "_"@ + decimal(k)) + ".jsonld"@ =~= name + "_"@ + stamp + "_"@ + decimal(k)
            + ".jsonld"@);
    }
    k
}

/// Two knowledge bases never share the file of a final document.
pub proof fn law_final_names_differ(a: Seq<char>, b: Seq<char>)
    requires
        a != b,
    ensures
        final_name(a) != final_name(b),
{
    let end = ".jsonld"@.len();
    if final_name(a) == final_name(b) {
        assert(final_name(a).take(final_name(a).len() - end) =~= a);
        assert(final_name(b).take(final_name(b).len() - end) =~= b);
    }
}

/// How the synchronisation of the fields with a new document ended.
#[derive(Debug, Clone, Copy, PartialEq, Eq, Structural)]
pub enum ResyncOutcome {
    Synced,
    Failed,
    NotStarted,
}

/// What is said of the synchronisation.
pub open spec fn resync_note_of(outcome: ResyncOutcome) -> Seq<char> {
    match outcome {
        ResyncOutcome::Synced => "Synced review fields to the new document."@,
        ResyncOutcome::Failed => "Field resync step failed — check server logs."@,
        ResyncOutcome::NotStarted => "Could not run field resync step — check server logs."@,
    }
}

/// What is said of the synchronisation.
pub fn resync_note(outcome: ResyncOutcome) -> (r: String)
    ensures
        r@ == resync_note_of(outcome),
{
    match outcome {
        ResyncOutcome::Synced => "Synced review fields to the new document.".to_string(),
        ResyncOutcome::Failed => "Field resync step failed — check server logs.".to_string(),
        ResyncOutcome::NotStarted => "Could not run field resync step — check server logs.".to_string(),
    }
}

/// What is said after the choices of a reconciliation were carried out.
pub fn commit_message(outcome: ResyncOutcome) -> (r: String)
    ensures
        r@ == "Committed. "@ + resync_note_of(outcome)
            + " Validation is running in the background — reload in a few seconds to see updated issues."@,
{
    concat3(
        "Committed. ",
        resync_note(outcome).as_str(),
        " Validation is running in the background — reload in a few seconds to see updated issues.",
    )
}

} // verus!
