//! Text as sequences of characters: searching, cutting, trimming and joining.
use vstd::prelude::*;
use vstd::std_specs::iter::IteratorSpec;

verus! {

/// `String::push` appends one character at the end.
pub assume_specification[ String::push ](s: &mut String, c: char)
    ensures
        final(s)@ == old(s)@.push(c),
;

/// The texts of a sequence of strings.
pub open spec fn views(v: Seq<String>) -> Seq<Seq<char>> {
    v.map_values(|s: String| s@)
}

/// The text of an optional string.
pub open spec fn view_opt(s: Option<String>) -> Option<Seq<char>> {
    match s {
        Some(t) => Some(t@),
        None => None,
    }
}

/// The position of the first `c` in `s`, or the length of `s` if there is none.
pub open spec fn first_pos(s: Seq<char>, c: char) -> int
    decreases s.len(),
{
    if s.len() == 0 || s[0] == c {
        0
    } else {
        1 + first_pos(s.drop_first(), c)
    }
}

/// The position of the last `c` in `s`, or -1 if there is none.
pub open spec fn last_pos(s: Seq<char>, c: char) -> int
    decreases s.len(),
{
    if s.len() == 0 {
        -1
    } else if s.last() == c {
        s.len() - 1
    } else {
        last_pos(s.drop_last(), c)
    }
}

pub proof fn lemma_first_pos(s: Seq<char>, c: char)
    ensures
        0 <= first_pos(s, c) <= s.len(),
        first_pos(s, c) < s.len() ==> s[first_pos(s, c)] == c,
        forall|i: int| 0 <= i < first_pos(s, c) ==> s[i] != c,
        first_pos(s, c) == s.len() <==> !s.contains(c),
    decreases s.len(),
{
    if s.len() > 0 && s[0] != c {
        let t = s.drop_first();
        lemma_first_pos(t, c);
        let p = first_pos(t, c);
        assert forall|i: int| 0 <= i < 1 + p implies s[i] != c by {
            if i > 0 {
                assert(t[i - 1] == s[i]);
            }
        }
        if p < t.len() {
            assert(t[p] == s[p + 1]);
            assert(s.contains(c));
        } else if s.contains(c) {
            let i = choose|i: int| 0 <= i < s.len() && s[i] == c;
            assert(t[i - 1] == c);
        }
    } else if s.len() > 0 {
        assert(s.contains(s[0]));
    }
}

/// Only the first position has no earlier `c` before it.
pub proof fn lemma_first_pos_is(s: Seq<char>, c: char, p: int)
    requires
        0 <= p <= s.len(),
        p < s.len() ==> s[p] == c,
        forall|i: int| 0 <= i < p ==> s[i] != c,
    ensures
        first_pos(s, c) == p,
{
    lemma_first_pos(s, c);
    if first_pos(s, c) < p {
        assert(s[first_pos(s, c)] == c);
    }
}

proof fn lemma_last_pos(s: Seq<char>, c: char)
    ensures
        -1 <= last_pos(s, c) < s.len(),
        last_pos(s, c) >= 0 ==> s[last_pos(s, c)] == c,
        forall|i: int| last_pos(s, c) < i < s.len() ==> s[i] != c,
    decreases s.len(),
{
    if s.len() > 0 && s.last() != c {
        lemma_last_pos(s.drop_last(), c);
        assert forall|i: int| last_pos(s, c) < i < s.len() implies s[i] != c by {
            if i < s.len() - 1 {
                assert(s.drop_last()[i] == s[i]);
            }
        }
    }
}

proof fn lemma_last_pos_is(s: Seq<char>, c: char, p: int)
    requires
        -1 <= p < s.len(),
        p >= 0 ==> s[p] == c,
        forall|i: int| p < i < s.len() ==> s[i] != c,
    ensures
        last_pos(s, c) == p,
{
    lemma_last_pos(s, c);
    if last_pos(s, c) > p {
        assert(s[last_pos(s, c)] == c);
    }
    if last_pos(s, c) < p {
        assert(s[p] == c);
    }
}

/// The part of `s` before the first `c`, or all of `s`.
pub open spec fn before_first(s: Seq<char>, c: char) -> Seq<char> {
    s.take(first_pos(s, c))
}

/// The part of `s` after the last `c`, or all of `s`.
pub open spec fn after_last(s: Seq<char>, c: char) -> Seq<char> {
    s.skip(last_pos(s, c) + 1)
}

/// The pieces of `s` between the occurrences of `c`.
pub open spec fn pieces(s: Seq<char>, c: char) -> Seq<Seq<char>>
    decreases s.len(),
{
    let p = first_pos(s, c);
    if 0 <= p < s.len() {
        seq![s.take(p)] + pieces(s.skip(p + 1), c)
    } else {
        seq![s]
    }
}

/// Whether `p` occurs somewhere in `s`.
pub open spec fn has_part(s: Seq<char>, p: Seq<char>) -> bool {
    exists|i: int| part_at(s, p, i)
}

/// Whether `p` occurs in `s` at position `i`.
pub open spec fn part_at(s: Seq<char>, p: Seq<char>, i: int) -> bool {
    0 <= i <= s.len() - p.len() && s.subrange(i, i + p.len()) == p
}

/// The parts one after another, with `sep` between neighbours.
pub open spec fn joined(parts: Seq<Seq<char>>, sep: Seq<char>) -> Seq<char>
    decreases parts.len(),
{
    if parts.len() == 0 {
        Seq::empty()
    } else if parts.len() == 1 {
        parts[0]
    } else {
        joined(parts.drop_last(), sep) + sep + parts.last()
    }
}

/// The characters with the Unicode property White_Space.
pub open spec fn is_white(c: char) -> bool {
    ||| '\u{9}' <= c <= '\u{d}'
    ||| c == ' '
    ||| c == '\u{85}'
    ||| c == '\u{a0}'
    ||| c == '\u{1680}'
    ||| '\u{2000}' <= c <= '\u{200a}'
    ||| c == '\u{2028}'
    ||| c == '\u{2029}'
    ||| c == '\u{202f}'
    ||| c == '\u{205f}'
    ||| c == '\u{3000}'
}

/// What may be taken off the ends of a text.
#[derive(Clone, Copy, PartialEq, Eq, Structural)]
pub enum Edge {
    /// White space.
    Space,
    /// Quotation marks.
    Quote,
}

/// Whether `c` is among the characters that `edge` stands for.
pub open spec fn is_edge(edge: Edge, c: char) -> bool {
    match edge {
        Edge::Space => is_white(c),
        Edge::Quote => c == '"',
    }
}

/// `s` without the characters of `edge` at its start.
pub open spec fn trimmed_start(s: Seq<char>, edge: Edge) -> Seq<char>
    decreases s.len(),
{
    if s.len() > 0 && is_edge(edge, s[0]) {
        trimmed_start(s.drop_first(), edge)
    } else {
        s
    }
}

/// `s` without the characters of `edge` at its end.
pub open spec fn trimmed_end(s: Seq<char>, edge: Edge) -> Seq<char>
    decreases s.len(),
{
    if s.len() > 0 && is_edge(edge, s.last()) {
        trimmed_end(s.drop_last(), edge)
    } else {
        s
    }
}

/// `s` without the characters of `edge` at either end.
pub open spec fn trimmed(s: Seq<char>, edge: Edge) -> Seq<char> {
    trimmed_end(trimmed_start(s, edge), edge)
}

/// The characters of a string, in order.
pub fn chars_of(s: &str) -> (r: Vec<char>)
    ensures
        r@ == s@,
{
    let mut r: Vec<char> = Vec::new();
    for c in it: s.chars()
        invariant
            r@ == s@.take(it.index()),
            it.seq() == s@,
    {
        r.push(c);
    }
    r
}

/// The string made of the characters from `from` up to `to`.
pub fn string_between(cs: &[char], from: usize, to: usize) -> (r: String)
    requires
        from <= to <= cs@.len(),
    ensures
        r@ == cs@.subrange(from as int, to as int),
{
    let mut r = String::new();
    for i in from..to
        invariant
            from <= to <= cs@.len(),
            r@ == cs@.subrange(from as int, i as int),
    {
        r.push(cs[i]);
    }
    r
}

/// Whether two strings hold the same characters.
pub fn same(a: &str, b: &str) -> (r: bool)
    ensures
        r == (a@ == b@),
{
    let mut x = a.chars();
    let mut y = b.chars();
    loop
        invariant
            x.obeys_prophetic_iter_laws(),
            y.obeys_prophetic_iter_laws(),
            x.decrease() is Some,
            (a@ == b@) == (x.remaining() == y.remaining()),
        decreases x.decrease()->0,
    {
        let ghost rx = x.remaining();
        let ghost ry = y.remaining();
        match (x.next(), y.next()) {
            (Some(c), Some(d)) => {
                proof {
                    assert(rx == seq![c] + x.remaining());
                    assert(ry == seq![d] + y.remaining());
                    assert(rx.drop_first() == x.remaining());
                }
                if c != d {
                    assert(rx[0] != ry[0]);
                    return false;
                }
            },
            (None, None) => {
                assert(rx == ry);
                return true;
            },
            (_, _) => {
                return false;
            },
        }
    }
}

/// Whether one of the strings holds the given text.
pub fn any_is(list: &Vec<String>, s: &str) -> (r: bool)
    ensures
        r == views(list@).contains(s@),
{
    for i in 0..list.len()
        invariant
            forall|j: int| 0 <= j < i ==> views(list@)[j] != s@,
    {
        if same(list[i].as_str(), s) {
            assert(views(list@)[i as int] == s@);
            return true;
        }
    }
    false
}

/// The two texts one after the other.
pub fn concat2(a: &str, b: &str) -> (r: String)
    ensures
        r@ == a@ + b@,
{
    let mut r = a.to_string();
    r.append(b);
    r
}

/// The three texts one after the other.
pub fn concat3(a: &str, b: &str, c: &str) -> (r: String)
    ensures
        r@ == a@ + b@ + c@,
{
    let mut r = a.to_string();
    r.append(b);
    r.append(c);
    r
}

/// The position of the first `c` at or after `from`, or the length.
pub fn find_from(cs: &[char], from: usize, c: char) -> (p: usize)
    requires
        from <= cs@.len(),
    ensures
        p == from + first_pos(cs@.skip(from as int), c),
        from <= p <= cs@.len(),
{
    let mut p: usize = from;
    while p < cs.len() && cs[p] != c
        invariant
            from <= p <= cs@.len(),
            forall|i: int| from <= i < p ==> cs@[i] != c,
        decreases cs@.len() - p,
    {
        p = p + 1;
    }
    proof {
        let t = cs@.skip(from as int);
        assert forall|i: int| 0 <= i < p - from implies t[i] != c by {
            assert(t[i] == cs@[from + i]);
        }
        if p < cs@.len() {
            assert(t[p - from] == cs@[p as int]);
        }
        lemma_first_pos_is(t, c, p - from);
    }
    p
}

/// The part of a text before the first `c`, or all of it.
pub fn cut_before_first(s: &str, c: char) -> (r: String)
    ensures
        r@ == before_first(s@, c),
{
    let cs = chars_of(s);
    let p = find_from(cs.as_slice(), 0, c);
    assert(cs@.skip(0) == cs@);
    string_between(cs.as_slice(), 0, p)
}

/// The part of a text after the last `c`, or all of it.
pub fn cut_after_last(s: &str, c: char) -> (r: String)
    ensures
        r@ == after_last(s@, c),
{
    let cs = chars_of(s);
    let mut p: usize = cs.len();
    while p > 0 && cs[p - 1] != c
        invariant
            p <= cs@.len(),
            forall|i: int| p <= i < cs@.len() ==> cs@[i] != c,
        decreases p,
    {
        p = p - 1;
    }
    proof {
        lemma_last_pos_is(cs@, c, p - 1);
    }
    string_between(cs.as_slice(), p, cs.len())
}

/// Whether the characters at position `at` are those of `part`.
pub fn part_is_at(cs: &[char], part: &[char], at: usize) -> (r: bool)
    requires
        at + part@.len() <= cs@.len(),
    ensures
        r == (cs@.subrange(at as int, at + part@.len()) == part@),
{
    let ghost sub = cs@.subrange(at as int, at + part@.len());
    let n: usize = cs.len();
    for i in 0..part.len()
        invariant
            n == cs@.len(),
            at + part@.len() <= cs@.len(),
            sub == cs@.subrange(at as int, at + part@.len()),
            forall|j: int| 0 <= j < i ==> sub[j] == part@[j],
    {
        if cs[at + i] != part[i] {
            assert(sub[i as int] != part@[i as int]);
            return false;
        }
    }
    assert(sub == part@);
    true
}

/// Whether a text begins with another.
pub fn begins_with(s: &str, p: &str) -> (r: bool)
    ensures
        r == p@.is_prefix_of(s@),
{
    let cs = chars_of(s);
    let ps = chars_of(p);
    if ps.len() > cs.len() {
        false
    } else {
        part_is_at(cs.as_slice(), ps.as_slice(), 0)
    }
}

/// Whether a text ends with another.
pub fn finishes_with(s: &str, p: &str) -> (r: bool)
    ensures
        r == p@.is_suffix_of(s@),
{
    let cs = chars_of(s);
    let ps = chars_of(p);
    if ps.len() > cs.len() {
        false
    } else {
        part_is_at(cs.as_slice(), ps.as_slice(), cs.len() - ps.len())
    }
}

/// A text without the given ending, if it has that ending.
pub fn without_ending(s: &str, p: &str) -> (r: Option<String>)
    ensures
        r is Some <==> p@.is_suffix_of(s@),
        r matches Some(t) ==> t@ == s@.take(s@.len() - p@.len()) && t@ + p@ == s@,
{
    let cs = chars_of(s);
    let ps = chars_of(p);
    if ps.len() > cs.len() {
        None
    } else if part_is_at(cs.as_slice(), ps.as_slice(), cs.len() - ps.len()) {
        Some(string_between(cs.as_slice(), 0, cs.len() - ps.len()))
    } else {
        None
    }
}

/// Whether a text holds another somewhere.
pub fn holds_part(s: &str, p: &str) -> (r: bool)
    ensures
        r == has_part(s@, p@),
{
    let cs = chars_of(s);
    let ps = chars_of(p);
    if ps.len() > cs.len() {
        return false;
    }
    let last: usize = cs.len() - ps.len();
    let mut i: usize = 0;
    while i <= last
        invariant
            cs@ == s@,
            ps@ == p@,
            last == cs@.len() - ps@.len(),
            i <= last + 1,
            forall|j: int| 0 <= j < i ==> !part_at(s@, p@, j),
        decreases last + 1 - i,
    {
        if part_is_at(cs.as_slice(), ps.as_slice(), i) {
            assert(part_at(s@, p@, i as int));
            return true;
        }
        if i == last {
            assert forall|j: int| !part_at(s@, p@, j) by {
                assert(0 <= j < last + 1 ==> (j < i || j == i));
            }
            return false;
        }
        i = i + 1;
    }
    false
}

/// The pieces of a text between the occurrences of `c`.
pub fn split_at_each(s: &str, c: char) -> (r: Vec<String>)
    ensures
        views(r@) == pieces(s@, c),
{
    let cs = chars_of(s);
    let mut r: Vec<String> = Vec::new();
    let mut from: usize = 0;
    assert(cs@.skip(0) == cs@);
    assert(views(r@) + pieces(cs@.skip(0), c) == pieces(s@, c));
    loop
        invariant
            cs@ == s@,
            from <= cs@.len(),
            views(r@) + pieces(cs@.skip(from as int), c) == pieces(s@, c),
        decreases cs@.len() - from,
    {
        let p = find_from(cs.as_slice(), from, c);
        let ghost rest = cs@.skip(from as int);
        let ghost before = views(r@);
        let piece = string_between(cs.as_slice(), from, p);
        assert(rest.take(p - from) == piece@);
        r.push(piece);
        assert(views(r@) == before.push(piece@));
        if p == cs.len() {
            assert(rest.take(p - from) == rest);
            assert(views(r@) == before + seq![rest]);
            return r;
        }
        assert(rest.skip(p - from + 1) == cs@.skip(p + 1));
        assert(pieces(rest, c) == seq![piece@] + pieces(cs@.skip(p + 1), c));
        assert(views(r@) + pieces(cs@.skip(p + 1), c) == before + pieces(rest, c));
        from = p + 1;
    }
}

/// The strings one after another, with `sep` between neighbours.
pub fn join_with(parts: &Vec<String>, sep: &str) -> (r: String)
    ensures
        r@ == joined(views(parts@), sep@),
{
    let mut r = String::new();
    let ghost all = views(parts@);
    for i in 0..parts.len()
        invariant
            all == views(parts@),
            r@ == joined(all.take(i as int), sep@),
    {
        let ghost t = all.take(i as int + 1);
        assert(t.drop_last() == all.take(i as int));
        assert(t.last() == parts@[i as int]@);
        if i > 0 {
            r.append(sep);
        }
        r.append(parts[i].as_str());
        assert(i == 0 ==> r@ == t[0]);
    }
    assert(all.take(all.len() as int) == all);
    r
}

/// Whether a character is white space.
pub fn white(c: char) -> (r: bool)
    ensures
        r == is_white(c),
{
    ('\u{9}' <= c && c <= '\u{d}') || c == ' ' || c == '\u{85}' || c == '\u{a0}' || c == '\u{1680}'
        || ('\u{2000}' <= c && c <= '\u{200a}') || c == '\u{2028}' || c == '\u{2029}' || c
        == '\u{202f}' || c == '\u{205f}' || c == '\u{3000}'
}

/// Whether a character is among those that `edge` stands for.
fn on_edge(edge: Edge, c: char) -> (r: bool)
    ensures
        r == is_edge(edge, c),
{
    match edge {
        Edge::Space => white(c),
        Edge::Quote => c == '"',
    }
}

/// A text without the characters of `edge` at either end.
pub fn trim(s: &str, edge: Edge) -> (r: String)
    ensures
        r@ == trimmed(s@, edge),
{
    let cs = chars_of(s);
    let mut i: usize = 0;
    assert(cs@.skip(0) == cs@);
    while i < cs.len() && on_edge(edge, cs[i])
        invariant
            i <= cs@.len(),
            trimmed_start(cs@.skip(i as int), edge) == trimmed_start(cs@, edge),
        decreases cs@.len() - i,
    {
        assert(cs@.skip(i as int).drop_first() == cs@.skip(i + 1));
        i = i + 1;
    }
    assert(trimmed_start(cs@, edge) == cs@.skip(i as int));
    let mut j: usize = cs.len();
    assert(cs@.subrange(i as int, j as int) == cs@.skip(i as int));
    while j > i && on_edge(edge, cs[j - 1])
        invariant
            i <= j <= cs@.len(),
            trimmed_end(cs@.subrange(i as int, j as int), edge) == trimmed(cs@, edge),
        decreases j,
    {
        assert(cs@.subrange(i as int, j as int).drop_last() == cs@.subrange(i as int, j - 1));
        j = j - 1;
    }
    string_between(cs.as_slice(), i, j)
}

/// A text in lower case (`str::to_lowercase`).
pub uninterp spec fn lowercase(s: Seq<char>) -> Seq<char>;

/// The lower case of an ASCII character.
pub open spec fn ascii_lower(c: char) -> char {
    if 'A' <= c <= 'Z' {
        (c as int + 32) as char
    } else {
        c
    }
}

/// `str::to_lowercase`; of ASCII text only the capital letters change.
#[verifier::external_body]
pub(crate) fn to_lowercase(s: &str) -> (r: String)
    ensures
        r@ == lowercase(s@),
        (forall|i: int| 0 <= i < s@.len() ==> (#[trigger] s@[i] as int) < 128) ==> r@ == s@.map_values(
            |c: char| ascii_lower(c),
        ),
{
    s.to_lowercase()
}

/// A copy of an optional string.
pub fn copy_opt(s: &Option<String>) -> (r: Option<String>)
    ensures
        view_opt(r) == view_opt(*s),
{
    match s {
        Some(t) => Some(t.clone()),
        None => None,
    }
}

/// Whether every character of `s` is among those that `edge` stands for.
pub open spec fn all_edge(s: Seq<char>, edge: Edge) -> bool {
    forall|i: int| 0 <= i < s.len() ==> is_edge(edge, #[trigger] s[i])
}

/// Whether `s` is empty or has neither at its start nor at its end a character that
/// `edge` stands for.
pub open spec fn is_bare(s: Seq<char>, edge: Edge) -> bool {
    s.len() > 0 ==> !is_edge(edge, s[0]) && !is_edge(edge, s.last())
}

proof fn lemma_trimmed_start(before: Seq<char>, s: Seq<char>, edge: Edge)
    requires
        all_edge(before, edge),
        s.len() > 0 ==> !is_edge(edge, s[0]),
    ensures
        trimmed_start(before + s, edge) == s,
    decreases before.len(),
{
    if before.len() > 0 {
        assert(is_edge(edge, before[0]));
        assert((before + s).drop_first() =~= before.drop_first() + s);
        lemma_trimmed_start(before.drop_first(), s, edge);
    } else {
        assert(before + s =~= s);
    }
}

proof fn lemma_trimmed_end(s: Seq<char>, after: Seq<char>, edge: Edge)
    requires
        all_edge(after, edge),
        s.len() > 0 ==> !is_edge(edge, s.last()),
    ensures
        trimmed_end(s + after, edge) == s,
    decreases after.len(),
{
    if after.len() > 0 {
        assert(is_edge(edge, after.last()));
        assert((s + after).drop_last() =~= s + after.drop_last());
        lemma_trimmed_end(s, after.drop_last(), edge);
    } else {
        assert(s + after =~= s);
    }
}

/// Trimming takes off what surrounds a text, and leaves the text as it is.
pub proof fn law_trim_takes_the_surroundings(before: Seq<char>, s: Seq<char>, after: Seq<char>, edge: Edge)
    requires
        all_edge(before, edge),
        all_edge(after, edge),
        is_bare(s, edge),
    ensures
        trimmed(before + s + after, edge) == s,
{
    assert(before + s + after =~= before + (s + after));
    if s.len() > 0 {
        lemma_trimmed_start(before, s + after, edge);
        lemma_trimmed_end(s, after, edge);
    } else {
        let all = before + after;
        assert(before + (s + after) =~= all);
        assert forall|i: int| 0 <= i < all.len() implies is_edge(edge, #[trigger] all[i]) by {
            if i < before.len() {
                assert(all[i] == before[i]);
            } else {
                assert(all[i] == after[i - before.len()]);
            }
        }
        assert(all + s =~= all);
        lemma_trimmed_start(all, s, edge);
    }
}

/// The part before the first `c`, and the part after the last `c`, of a text that holds
/// one.
pub proof fn law_cut_at(before: Seq<char>, c: char, after: Seq<char>)
    ensures
        !before.contains(c) ==> before_first(before + seq![c] + after, c) == before,
        !after.contains(c) ==> after_last(before + seq![c] + after, c) == after,
        !before.contains(c) ==> before_first(before, c) == before && after_last(before, c) == before,
{
    let s = before + seq![c] + after;
    let p = before.len() as int;
    assert(s[p] == c);
    if !before.contains(c) {
        assert forall|i: int| 0 <= i < p implies s[i] != c by {
            assert(s[i] == before[i]);
            assert(before.contains(before[i]));
        }
        lemma_first_pos_is(s, c, p);
        assert(s.take(p) =~= before);
        lemma_first_pos(before, c);
        assert(before.take(p) =~= before);
        assert forall|i: int| -1 < i < before.len() implies before[i] != c by {
            assert(before.contains(before[i]));
        }
        lemma_last_pos_is(before, c, -1);
        assert(before.skip(0) =~= before);
    }
    if !after.contains(c) {
        assert forall|i: int| p < i < s.len() implies s[i] != c by {
            assert(s[i] == after[i - p - 1]);
            assert(after.contains(after[i - p - 1]));
        }
        lemma_last_pos_is(s, c, p);
        assert(s.skip(p + 1) =~= after);
    }
}

proof fn lemma_pieces_first(part: Seq<char>, c: char, rest: Seq<char>)
    requires
        !part.contains(c),
    ensures
        pieces(part, c) == seq![part],
        pieces(part + seq![c] + rest, c) == seq![part] + pieces(rest, c),
{
    let s = part + seq![c] + rest;
    let p = part.len() as int;
    lemma_first_pos(part, c);
    assert(s[p] == c);
    assert forall|i: int| 0 <= i < p implies s[i] != c by {
        assert(s[i] == part[i]);
        assert(part.contains(part[i]));
    }
    lemma_first_pos_is(s, c, p);
    assert(s.take(p) =~= part);
    assert(s.skip(p + 1) =~= rest);
}

proof fn lemma_joined_first(parts: Seq<Seq<char>>, sep: Seq<char>)
    requires
        parts.len() > 1,
    ensures
        joined(parts, sep) == parts[0] + sep + joined(parts.drop_first(), sep),
    decreases parts.len(),
{
    let front = parts.drop_last();
    if parts.len() == 2 {
        assert(front[0] == parts[0]);
        assert(parts.drop_first()[0] == parts[1]);
        assert(joined(front, sep) == parts[0]);
    } else {
        lemma_joined_first(front, sep);
        assert(front.drop_first() =~= parts.drop_first().drop_last());
        assert(front[0] == parts[0]);
        assert(parts.drop_first().last() == parts.last());
        let a = joined(front.drop_first(), sep);
        assert(parts[0] + sep + a + sep + parts.last() =~= parts[0] + sep + (a + sep + parts.last()));
    }
}

/// A text made of parts with a separator between them is split into these parts again.
pub proof fn law_split_undoes_join(parts: Seq<Seq<char>>, c: char)
    requires
        parts.len() > 0,
        forall|i: int| 0 <= i < parts.len() ==> !(#[trigger] parts[i]).contains(c),
    ensures
        pieces(joined(parts, seq![c]), c) == parts,
    decreases parts.len(),
{
    assert(!parts[0].contains(c));
    if parts.len() == 1 {
        lemma_pieces_first(parts[0], c, Seq::empty());
        assert(parts =~= seq![parts[0]]);
    } else {
        let rest = parts.drop_first();
        assert forall|i: int| 0 <= i < rest.len() implies !(#[trigger] rest[i]).contains(c) by {
            assert(rest[i] == parts[i + 1]);
        }
        lemma_joined_first(parts, seq![c]);
        lemma_pieces_first(parts[0], c, joined(rest, seq![c]));
        law_split_undoes_join(rest, c);
        assert(parts =~= seq![parts[0]] + rest);
    }
}

/// What stands in the middle of a text is a part of it.
pub proof fn law_part_is_found(before: Seq<char>, p: Seq<char>, after: Seq<char>)
    ensures
        has_part(before + p + after, p),
{
    let s = before + p + after;
    assert(s.subrange(before.len() as int, before.len() as int + p.len()) =~= p);
    assert(part_at(s, p, before.len() as int));
}

/// White space is what Unicode calls so.
pub proof fn law_white_space(c: char)
    ensures
        is_white(c) <==> 9 <= c as int <= 13 || c as int == 32 || c as int == 0x85 || c as int == 0xa0 || c as int
            == 0x1680 || 0x2000 <= c as int <= 0x200a || c as int == 0x2028 || c as int == 0x2029 || c as int == 0x202f
            || c as int == 0x205f || c as int == 0x3000,
        is_edge(Edge::Quote, c) <==> c as int == 34,
{
}

/// Parts that are joined stand one after another with the separator between neighbours:
/// two lists of parts joined are the first ones joined, the separator and the others
/// joined; a single part is left as it is.
pub proof fn law_joined_parts(a: Seq<Seq<char>>, b: Seq<Seq<char>>, sep: Seq<char>, part: Seq<char>)
    ensures
        a.len() > 0 && b.len() > 0 ==> joined(a + b, sep) == joined(a, sep) + sep + joined(b, sep),
        joined(seq![part], sep) == part,
        joined(Seq::empty(), sep).len() == 0,
    decreases b.len(),
{
    if a.len() > 0 && b.len() > 0 {
        let front = b.drop_last();
        assert((a + b).drop_last() =~= a + front);
        assert((a + b).last() == b.last());
        if b.len() == 1 {
            assert(a + front =~= a);
        } else {
            law_joined_parts(a, front, sep, part);
            assert(joined(a, sep) + sep + joined(front, sep) + sep + b.last() =~= joined(a, sep) + sep + (joined(
                front,
                sep,
            ) + sep + b.last()));
        }
    }
}

} // verus!
