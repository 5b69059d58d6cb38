//! Dotted field paths: the section a field belongs to, the order of fields, and the
//! names that paths give to page anchors and array indices.
use crate::number::{
    after_sign, all_ascii_digits, decimal, digits_value, is_ascii_digit, lemma_decimal, lemma_ordered_decimal,
    lemma_ordered_digits, lemma_without_zeros, ordered_digits, parse_number, parsed,
};
use crate::order::{lemma_less_after_prefix, less};
use crate::patterns::{
    all_digits, compile, digit_run, has_index, index_len, is_digit, is_match, natural_key,
    padded_index, replace_indices, INDEX, INDEX_DIGITS,
};
use crate::text::{
    before_first, chars_of, cut_before_first, find_from, first_pos, law_cut_at, lemma_first_pos,
    lemma_first_pos_is, string_between,
};
use capitalize::Capitalize;
use regex::Regex;
use vstd::prelude::*;

verus! {

/// What `char::to_uppercase` makes of a character outside ASCII.
pub uninterp spec fn wide_upper(c: char) -> Seq<char>;

/// The upper case of a character.
pub open spec fn upper(c: char) -> Seq<char> {
    if (c as int) >= 128 {
        wide_upper(c)
    } else if 'a' <= c <= 'z' {
        seq![(c as int - 32) as char]
    } else {
        seq![c]
    }
}

/// `s` with its first character in upper case.
pub open spec fn capitalized(s: Seq<char>) -> Seq<char> {
    if s.len() == 0 {
        s
    } else {
        upper(s[0]) + s.drop_first()
    }
}

/// `Capitalize::capitalize_first_only`: the first character in upper case, the rest
/// as it is. The upper case of a character outside ASCII is the one that
/// `char::to_uppercase` gives.
#[verifier::external_body]
pub(crate) fn capitalize_first(s: &str) -> (r: String)
    ensures
        r@ == capitalized(s@),
        s@.len() > 0 && s@[0] as int >= 128 ==> r@ == wide_upper(s@[0]) + s@.drop_first(),
{
    s.capitalize_first_only()
}

/// The first step of a dotted path.
pub open spec fn first_step(path: Seq<char>) -> Seq<char> {
    before_first(path, '.')
}

/// What follows the first step and its dot.
pub open spec fn after_first_step(path: Seq<char>) -> Seq<char> {
    path.skip(first_pos(path, '.') + 1)
}

/// The section that a field belongs to: `Dataset` for a field of the dataset itself,
/// else its first step, with its second step where that is indexed.
pub open spec fn group_of(path: Seq<char>) -> Seq<char> {
    if !path.contains('.') {
        "Dataset"@
    } else {
        let top = capitalized(first_step(path));
        let next = first_step(after_first_step(path));
        if has_index(next) {
            top + " - "@ + capitalized(next)
        } else {
            top
        }
    }
}

/// The section that a field belongs to.
pub fn get_group(path: &str) -> (r: String)
    ensures
        r@ == group_of(path@),
{
    let re = compile(INDEX);
    group_with(&re, path)
}

/// The section that a field belongs to, found with the compiled index pattern.
pub(crate) fn group_with(re: &Regex, path: &str) -> (r: String)
    requires
        crate::patterns::pattern_of(*re) == INDEX@,
    ensures
        r@ == group_of(path@),
{
    let cs = chars_of(path);
    let p = find_from(cs.as_slice(), 0, '.');
    proof {
        assert(cs@.skip(0) == cs@);
        lemma_first_pos(path@, '.');
    }
    if p == cs.len() {
        return "Dataset".to_string();
    }
    let top = string_between(cs.as_slice(), 0, p);
    let rest = string_between(cs.as_slice(), p + 1, cs.len());
    assert(rest@ == after_first_step(path@));
    let next = cut_before_first(rest.as_str(), '.');
    let mut r = capitalize_first(top.as_str());
    if is_match(re, next.as_str()) {
        r.append(" - ");
        r.append(capitalize_first(next.as_str()).as_str());
    }
    r
}

/// A key for a path such that keys compare as the paths' array indices do.
pub fn natural_sort_key(s: &str) -> (r: String)
    ensures
        r@ == natural_key(s@),
{
    let re = compile(INDEX_DIGITS);
    replace_indices(&re, s)
}

/// Whether a path begins with an index in brackets, after which a step ends.
pub open spec fn begins_with_index(path: Seq<char>) -> bool {
    let e = first_pos(path, ']');
    &&& path.len() > 0 && path[0] == '['
    &&& 0 < e < path.len()
    &&& all_ascii_digits(path.subrange(1, e))
    &&& e + 1 == path.len() || path[e + 1] == '.' || path[e + 1] == '['
}

/// What is left of a path, with each index in brackets as a step of its own; `inside`
/// tells whether a step has begun. A character after a backslash stays as it is.
pub open spec fn dotted_from(path: Seq<char>, inside: bool) -> Seq<char>
    decreases path.len(),
{
    if path.len() == 0 {
        path
    } else if path[0] == '\\' && path.len() > 1 {
        path.take(2) + dotted_from(path.skip(2), true)
    } else if begins_with_index(path) {
        let e = first_pos(path, ']');
        (if inside {
            seq!['.']
        } else {
            Seq::empty()
        }) + path.subrange(1, e) + dotted_from(path.skip(e + 1), true)
    } else {
        seq![path[0]] + dotted_from(path.skip(1), path[0] != '.')
    }
}

/// A field path with dots only: `name[n]` becomes `name.n`.
pub open spec fn dotted(path: Seq<char>) -> Seq<char> {
    dotted_from(path, false)
}

/// Whether the characters from position `i` on begin with an index in brackets, which
/// ends at position `e`.
fn has_index_at(cs: &Vec<char>, i: usize, e: usize) -> (r: bool)
    requires
        i <= e <= cs@.len(),
        e == i + first_pos(cs@.skip(i as int), ']'),
    ensures
        r == begins_with_index(cs@.skip(i as int)),
{
    let ghost path = cs@.skip(i as int);
    if i >= cs.len() || cs[i] != '[' || e >= cs.len() || e - i < 2 {
        return false;
    }
    for k in i + 1..e
        invariant
            i < e < cs@.len(),
            path == cs@.skip(i as int),
            e == i + first_pos(path, ']'),
            forall|j: int| i < j < k ==> is_ascii_digit(#[trigger] cs@[j]),
    {
        if !('0' <= cs[k] && cs[k] <= '9') {
            assert(!is_ascii_digit(path.subrange(1, e - i)[k - i - 1]));
            return false;
        }
    }
    assert(all_ascii_digits(path.subrange(1, e - i)));
    e + 1 == cs.len() || cs[e + 1] == '.' || cs[e + 1] == '['
}

/// A field path with dots only: `name[n]` becomes `name.n`.
pub fn dotted_path(path: &str) -> (r: String)
    ensures
        r@ == dotted(path@),
{
    let cs = chars_of(path);
    let mut r = String::new();
    let mut i: usize = 0;
    let mut inside = false;
    assert(cs@.skip(0) =~= path@);
    assert(r@ + dotted_from(cs@.skip(0), false) =~= dotted(path@));
    while i < cs.len()
        invariant
            cs@ == path@,
            i <= cs@.len(),
            r@ + dotted_from(cs@.skip(i as int), inside) == dotted(path@),
        decreases cs@.len() - i,
    {
        let ghost here = cs@.skip(i as int);
        let ghost before = r@;
        let ghost begun = inside;
        let e: usize = find_from(cs.as_slice(), i, ']');
        if cs[i] == '\\' && cs.len() - i > 1 {
            assert(here.skip(2) =~= cs@.skip(i + 2));
            r.push(cs[i]);
            r.push(cs[i + 1]);
            assert(r@ =~= before + here.take(2));
            i = i + 2;
            inside = true;
        } else if has_index_at(&cs, i, e) {
            assert(here.skip(e - i + 1) =~= cs@.skip(e + 1));
            if inside {
                r.push('.');
            }
            let digits = string_between(cs.as_slice(), i + 1, e);
            assert(digits@ =~= here.subrange(1, e - i));
            r.append(digits.as_str());
            i = e + 1;
            inside = true;
        } else {
            assert(here.skip(1) =~= cs@.skip(i + 1));
            r.push(cs[i]);
            inside = cs[i] != '.';
            i = i + 1;
        }
        assert(r@ + dotted_from(cs@.skip(i as int), inside) =~= before + dotted_from(here, begun));
    }
    assert(r@ =~= dotted(path@));
    r
}

/// Whether a page anchor may hold `c`.
pub open spec fn is_anchor_char(c: char) -> bool {
    ||| 'a' <= c <= 'z'
    ||| 'A' <= c <= 'Z'
    ||| '0' <= c <= '9'
    ||| c == '-'
    ||| c == '_'
}

/// The page anchor of a path: what an anchor may not hold becomes a hyphen.
pub open spec fn anchor_of(path: Seq<char>) -> Seq<char> {
    path.map_values(
        |c: char|
            if is_anchor_char(c) {
                c
            } else {
                '-'
            },
    )
}

/// The page anchor of a path.
pub fn path_to_anchor(path: &str) -> (r: String)
    ensures
        r@ == anchor_of(path@),
{
    let cs = chars_of(path);
    let mut r = String::new();
    for i in 0..cs.len()
        invariant
            r@ == anchor_of(cs@).take(i as int),
    {
        let c = cs[i];
        if ('a' <= c && c <= 'z') || ('A' <= c && c <= 'Z') || ('0' <= c && c <= '9') || c == '-' || c
            == '_' {
            r.push(c);
        } else {
            r.push('-');
        }
        assert(anchor_of(cs@).take(i + 1) == anchor_of(cs@).take(i as int).push(anchor_of(cs@)[i as int]));
    }
    r
}

/// An anchor is as long as its path and holds letters, digits, hyphens and underscores
/// only.
pub proof fn law_anchor_is_plain(path: Seq<char>, i: int)
    requires
        0 <= i < path.len(),
    ensures
        anchor_of(path).len() == path.len(),
        is_anchor_char(anchor_of(path)[i]),
        is_anchor_char(path[i]) ==> anchor_of(path)[i] == path[i],
{
}

/// Whether the first closing bracket of a path, if it has brackets of both kinds,
/// stands after the first opening one.
pub open spec fn brackets_in_order(path: Seq<char>) -> bool {
    path.contains('[') && path.contains(']') ==> first_pos(path, '[') < first_pos(path, ']')
}

/// The number between the first opening and the first closing bracket of a path.
pub open spec fn bracket_index(path: Seq<char>) -> Option<nat> {
    if path.contains('[') && path.contains(']') {
        parsed(path.subrange(first_pos(path, '[') + 1, first_pos(path, ']')), usize::MAX as nat)
    } else {
        None
    }
}

/// The number in the first brackets of a path.
pub fn parse_bracket_index(path: &str) -> (r: Option<usize>)
    requires
        brackets_in_order(path@),
    ensures
        match r {
            Some(n) => bracket_index(path@) == Some(n as nat),
            None => bracket_index(path@) is None,
        },
{
    let cs = chars_of(path);
    let s = find_from(cs.as_slice(), 0, '[');
    let e = find_from(cs.as_slice(), 0, ']');
    proof {
        assert(cs@.skip(0) == cs@);
        lemma_first_pos(path@, '[');
        lemma_first_pos(path@, ']');
    }
    if s == cs.len() || e == cs.len() {
        return None;
    }
    let digits = string_between(cs.as_slice(), s + 1, e);
    match parse_number(digits.as_str(), usize::MAX as u64) {
        Some(n) => Some(n as usize),
        None => None,
    }
}

/// Whether a path can be asked for its bracketed index.
pub fn has_brackets_in_order(path: &str) -> (r: bool)
    ensures
        r == brackets_in_order(path@),
{
    let cs = chars_of(path);
    let s = find_from(cs.as_slice(), 0, '[');
    let e = find_from(cs.as_slice(), 0, ']');
    proof {
        assert(cs@.skip(0) == cs@);
        lemma_first_pos(path@, '[');
        lemma_first_pos(path@, ']');
    }
    s == cs.len() || e == cs.len() || s < e
}

/// An index between a beginning and an end is padded on its own: the key of a path is
/// made of the keys of its parts.
pub proof fn law_key_of_parts(before: Seq<char>, digits: Seq<char>, after: Seq<char>)
    requires
        all_digits(digits),
    ensures
        natural_key(before + seq!['['] + digits + seq![']'] + after) == natural_key(before)
            + padded_index(digits) + natural_key(after),
    decreases before.len(),
{
    let rest = seq!['['] + digits + seq![']'] + after;
    let s = before + seq!['['] + digits + seq![']'] + after;
    assert(s == before + rest);
    if before.len() == 0 {
        assert(s == rest);
        assert(s.drop_first() == digits + (seq![']'] + after));
        lemma_run_of(digits, seq![']'] + after);
        assert(index_len(s) == digits.len() + 2);
        assert(s.subrange(1, digits.len() as int + 1) == digits);
        assert(s.skip(digits.len() as int + 2) == after);
        assert(natural_key(before) == before);
        assert(natural_key(s) == before + padded_index(digits) + natural_key(after));
    } else {
        lemma_index_len_kept(before, rest);
        let n = index_len(before);
        if n > 0 {
            let b = before.skip(n as int);
            assert(s.subrange(1, n - 1) == before.subrange(1, n - 1));
            assert(s.skip(n as int) == b + seq!['['] + digits + seq![']'] + after);
            law_key_of_parts(b, digits, after);
            assert(natural_key(s) == natural_key(before) + padded_index(digits) + natural_key(after));
        } else {
            let b = before.drop_first();
            assert(s.drop_first() == b + seq!['['] + digits + seq![']'] + after);
            law_key_of_parts(b, digits, after);
            assert(natural_key(s) == natural_key(before) + padded_index(digits) + natural_key(after));
        }
    }
}

proof fn lemma_run_of(digits: Seq<char>, rest: Seq<char>)
    requires
        forall|i: int| 0 <= i < digits.len() ==> is_digit(#[trigger] digits[i]),
        rest.len() > 0 ==> !is_digit(rest[0]),
    ensures
        digit_run(digits + rest) == digits.len(),
    decreases digits.len(),
{
    if digits.len() == 0 {
        assert(digits + rest == rest);
    } else {
        assert((digits + rest).drop_first() == digits.drop_first() + rest);
        assert(is_digit(digits[0]));
        lemma_run_of(digits.drop_first(), rest);
    }
}

proof fn lemma_run_kept(a: Seq<char>, rest: Seq<char>)
    requires
        rest.len() > 0,
        !is_digit(rest[0]),
    ensures
        digit_run(a + rest) == digit_run(a),
        digit_run(a) <= a.len(),
    decreases a.len(),
{
    if a.len() == 0 {
        assert(a + rest == rest);
    } else {
        assert((a + rest).drop_first() == a.drop_first() + rest);
        lemma_run_kept(a.drop_first(), rest);
    }
}

proof fn lemma_index_len_kept(a: Seq<char>, rest: Seq<char>)
    requires
        a.len() > 0,
        rest.len() > 0,
        rest[0] == '[',
    ensures
        index_len(a + rest) == index_len(a),
        index_len(a) <= a.len(),
{
    lemma_run_kept(a.drop_first(), rest);
    assert((a + rest).drop_first() == a.drop_first() + rest);
    let d = digit_run(a.drop_first());
    if d as int + 1 < a.len() {
        assert((a + rest)[d as int + 1] == a[d as int + 1]);
    } else {
        assert((a + rest)[d as int + 1] == rest[0]);
    }
}

/// Sorting by key sorts by number: of two paths that agree up to an index, the one
/// with the smaller index has the smaller key.
pub proof fn law_keys_sort_numerically(
    before: Seq<char>,
    i: nat,
    j: nat,
    after_i: Seq<char>,
    after_j: Seq<char>,
)
    requires
        i < j,
    ensures
        less(
            natural_key(before + seq!['['] + decimal(i) + seq![']'] + after_i),
            natural_key(before + seq!['['] + decimal(j) + seq![']'] + after_j),
        ),
{
    let u = seq![']'] + natural_key(after_i);
    let v = seq![']'] + natural_key(after_j);
    lemma_key_with_index(before, i, after_i);
    lemma_key_with_index(before, j, after_j);
    lemma_ordered_digits(i, j, u, v);
    lemma_less_after_prefix(
        natural_key(before) + seq!['['],
        ordered_digits(decimal(i)) + u,
        ordered_digits(decimal(j)) + v,
    );
}

/// Zeros in front of an index do not change the key.
pub proof fn law_leading_zeros_do_not_count(before: Seq<char>, digits: Seq<char>, after: Seq<char>)
    requires
        all_ascii_digits(digits),
    ensures
        natural_key(before + seq!['['] + digits + seq![']'] + after) == natural_key(
            before + seq!['['] + decimal(digits_value(digits)) + seq![']'] + after,
        ),
{
    let d = decimal(digits_value(digits));
    lemma_index_of_decimal(digits_value(digits));
    lemma_without_zeros(digits);
    assert forall|i: int| 0 <= i < digits.len() implies is_digit(#[trigger] digits[i]) by {
        assert(is_ascii_digit(digits[i]));
    }
    lemma_decimal(digits_value(digits));
    law_key_of_parts(before, digits, after);
    law_key_of_parts(before, d, after);
}

proof fn lemma_key_with_index(before: Seq<char>, n: nat, after: Seq<char>)
    ensures
        natural_key(before + seq!['['] + decimal(n) + seq![']'] + after) == (natural_key(before) + seq!['[']) + (
        ordered_digits(decimal(n)) + (seq![']'] + natural_key(after))),
{
    lemma_index_of_decimal(n);
    law_key_of_parts(before, decimal(n), after);
    let x = ordered_digits(decimal(n));
    assert(natural_key(before) + (seq!['['] + x + seq![']']) + natural_key(after) =~= (natural_key(before) + seq!['['])
        + (x + (seq![']'] + natural_key(after))));
}

proof fn lemma_index_of_decimal(n: nat)
    ensures
        all_digits(decimal(n)),
        padded_index(decimal(n)) == seq!['['] + ordered_digits(decimal(n)) + seq![']'],
{
    lemma_decimal(n);
    lemma_ordered_decimal(n);
    let d = decimal(n);
    assert forall|i: int| 0 <= i < d.len() implies is_digit(#[trigger] d[i]) by {
        assert(is_ascii_digit(d[i]));
    }
}

/// Whether a text can be the name of a step: it has no dot, bracket or backslash.
pub open spec fn is_step_name(s: Seq<char>) -> bool {
    &&& s.len() > 0
    &&& forall|i: int| 0 <= i < s.len() ==> (#[trigger] s[i]) != '.' && s[i] != '[' && s[i] != '\\'
}

proof fn lemma_dotted_name(name: Seq<char>, rest: Seq<char>, inside: bool)
    requires
        is_step_name(name),
    ensures
        dotted_from(name + rest, inside) == name + dotted_from(rest, true),
    decreases name.len(),
{
    let s = name + rest;
    let t = name.skip(1);
    assert(s[0] == name[0]);
    assert(s.skip(1) =~= t + rest);
    assert(name =~= seq![name[0]] + t);
    if t.len() > 0 {
        assert forall|i: int| 0 <= i < t.len() implies (#[trigger] t[i]) != '.' && t[i] != '[' && t[i] != '\\' by {
            assert(t[i] == name[i + 1]);
        }
        lemma_dotted_name(t, rest, true);
    } else {
        assert(t + rest =~= rest);
    }
    assert(name + dotted_from(rest, true) =~= seq![name[0]] + (t + dotted_from(rest, true)));
}

/// A name stays as it is, and an index in brackets after it is a step of its own.
pub proof fn law_index_is_a_step(name: Seq<char>, n: nat, rest: Seq<char>)
    requires
        is_step_name(name),
    ensures
        dotted(name) == name,
        dotted(name + seq!['.'] + rest) == name + seq!['.'] + dotted(rest),
        dotted(name + seq!['['] + decimal(n) + seq![']']) == name + seq!['.'] + decimal(n),
        dotted(name + seq!['['] + decimal(n) + seq![']'] + seq!['.'] + rest) == name + seq!['.'] + decimal(n)
            + seq!['.'] + dotted(rest),
{
    let d = decimal(n);
    let none = Seq::<char>::empty();
    let tail = seq!['.'] + rest;
    assert(name + none =~= name);
    lemma_dotted_name(name, none, false);
    assert(tail[0] == '.' && tail.skip(1) =~= rest);
    assert(dotted_from(tail, true) == seq!['.'] + dotted(rest));
    assert(name + seq!['.'] + rest =~= name + tail);
    lemma_dotted_name(name, tail, false);
    assert(name + (seq!['.'] + dotted(rest)) =~= name + seq!['.'] + dotted(rest));
    lemma_dotted_index(n, none);
    lemma_dotted_index(n, tail);
    let index = seq!['['] + d + seq![']'];
    lemma_dotted_name(name, index + none, false);
    assert(name + seq!['['] + d + seq![']'] =~= name + (index + none));
    assert(name + (seq!['.'] + d + none) =~= name + seq!['.'] + d);
    lemma_dotted_name(name, index + tail, false);
    assert(name + seq!['['] + d + seq![']'] + seq!['.'] + rest =~= name + (index + tail));
    assert(name + (seq!['.'] + d + (seq!['.'] + dotted(rest))) =~= name + seq!['.'] + d + seq!['.'] + dotted(rest));
}

proof fn lemma_dotted_index(n: nat, tail: Seq<char>)
    requires
        tail.len() == 0 || tail[0] == '.',
    ensures
        dotted_from(seq!['['] + decimal(n) + seq![']'] + tail, true) == seq!['.'] + decimal(n) + dotted_from(
            tail,
            true,
        ),
{
    let d = decimal(n);
    let s = seq!['['] + d + seq![']'] + tail;
    let e = (d.len() + 1) as int;
    lemma_decimal(n);
    assert forall|i: int| 0 <= i < e implies s[i] != ']' by {
        if i > 0 {
            assert(is_ascii_digit(d[i - 1]));
        }
    }
    assert(s[e] == ']');
    lemma_first_pos_is(s, ']', e);
    assert(s.subrange(1, e) =~= d);
    assert(s.skip(e + 1) =~= tail);
    assert(tail.len() > 0 ==> s[e + 1] == tail[0]);
    assert(begins_with_index(s));
}

/// The number in the first brackets of a path is read as it is written.
pub proof fn law_bracket_index_is_read(before: Seq<char>, n: nat, after: Seq<char>)
    requires
        !before.contains('[') && !before.contains(']'),
        n <= usize::MAX,
    ensures
        bracket_index(before + seq!['['] + decimal(n) + seq![']'] + after) == Some(n),
        brackets_in_order(before + seq!['['] + decimal(n) + seq![']'] + after),
        bracket_index(before) is None,
{
    let d = decimal(n);
    let s = before + seq!['['] + d + seq![']'] + after;
    let a = before.len() as int;
    let b = a + 1 + d.len();
    lemma_decimal(n);
    assert(s[a] == '[' && s[b] == ']');
    assert forall|i: int| 0 <= i < a implies s[i] != '[' && s[i] != ']' by {
        assert(s[i] == before[i]);
        assert(before.contains(before[i]));
    }
    assert forall|i: int| 0 <= i < b implies s[i] != ']' by {
        if i > a {
            assert(s[i] == d[i - a - 1]);
            assert(is_ascii_digit(d[i - a - 1]));
        }
    }
    lemma_first_pos_is(s, '[', a);
    lemma_first_pos_is(s, ']', b);
    assert(s.subrange(a + 1, b) =~= d);
    assert(is_ascii_digit(d[0]));
    assert(after_sign(d) == d);
}

/// The section of a field: that of the dataset itself for a path of one step, else the
/// first step, with the second one where that has an index; both begin with a capital.
pub proof fn law_section_of(first: Seq<char>, second: Seq<char>, rest: Seq<char>, n: nat)
    requires
        !first.contains('.') && !second.contains('.'),
        first.len() > 0 && 'a' <= first[0] <= 'z',
        second.len() > 0 && 'a' <= second[0] <= 'z',
        !second.contains('['),
    ensures
        group_of(first) == "Dataset"@,
        ({
            let top = seq![(first[0] as int - 32) as char] + first.skip(1);
            let sub = seq![(second[0] as int - 32) as char] + second.skip(1);
            let index = seq!['['] + decimal(n) + seq![']'];
            &&& group_of(first + seq!['.'] + second) == top
            &&& group_of(first + seq!['.'] + second + seq!['.'] + rest) == top
            &&& group_of(first + seq!['.'] + second + index) == top + " - "@ + (sub + index)
            &&& group_of(first + seq!['.'] + second + index + seq!['.'] + rest) == top + " - "@ + (sub + index)
        }),
{
    let index = seq!['['] + decimal(n) + seq![']'];
    let none = Seq::<char>::empty();
    let indexed = second + index;
    lemma_decimal(n);
    assert(!indexed.contains('.')) by {
        if indexed.contains('.') {
            let i = choose|i: int| 0 <= i < indexed.len() && indexed[i] == '.';
            if i < second.len() {
                assert(second[i] == '.');
            } else if second.len() < i < indexed.len() - 1 {
                assert(is_ascii_digit(decimal(n)[i - second.len() - 1]));
            }
        }
    }
    assert(has_index(indexed)) by {
        let a = second.len() as int;
        let b = indexed.len() - 1;
        assert(indexed.subrange(a + 1, b) =~= decimal(n));
        assert(crate::patterns::index_at(indexed, a, b));
    }
    assert(!has_index(second)) by {
        if has_index(second) {
            let (i, j) = choose|i: int, j: int| crate::patterns::index_at(second, i, j);
            assert(second[i] == '[');
        }
    }
    lemma_section(first, second, rest);
    lemma_section(first, indexed, rest);
    assert(first + seq!['.'] + second + index =~= first + seq!['.'] + indexed);
    assert(first + seq!['.'] + second + index + seq!['.'] + rest =~= first + seq!['.'] + indexed + seq!['.'] + rest);
    assert(first.drop_first() =~= first.skip(1));
    assert(second.drop_first() =~= second.skip(1));
    assert(indexed[0] == second[0]);
    let sub = seq![(second[0] as int - 32) as char] + second.skip(1);
    assert(capitalized(indexed) =~= sub + index);
    assert(capitalized(first) =~= seq![(first[0] as int - 32) as char] + first.skip(1));
}

proof fn lemma_section(first: Seq<char>, next: Seq<char>, rest: Seq<char>)
    requires
        !first.contains('.') && !next.contains('.'),
    ensures
        ({
            let section = if has_index(next) {
                capitalized(first) + " - "@ + capitalized(next)
            } else {
                capitalized(first)
            };
            &&& group_of(first + seq!['.'] + next) == section
            &&& group_of(first + seq!['.'] + next + seq!['.'] + rest) == section
        }),
{
    let a = first + seq!['.'] + next;
    let tail = next + seq!['.'] + rest;
    let b = first + seq!['.'] + tail;
    let p = first.len() as int;
    assert(first + seq!['.'] + next + seq!['.'] + rest =~= b);
    assert(a[p] == '.' && b[p] == '.');
    assert(a.contains('.') && b.contains('.'));
    assert forall|i: int| 0 <= i < p implies a[i] != '.' && b[i] != '.' by {
        assert(a[i] == first[i] && b[i] == first[i]);
        assert(first.contains(first[i]));
    }
    lemma_first_pos_is(a, '.', p);
    lemma_first_pos_is(b, '.', p);
    assert(a.take(p) =~= first && b.take(p) =~= first);
    assert(a.skip(p + 1) =~= next && b.skip(p + 1) =~= tail);
    law_cut_at(next, '.', rest);
}

/// Texts of letters, digits, hyphens and underscores are their own anchors, and two paths
/// with the same anchor differ at most in characters that an anchor may not hold.
pub proof fn law_anchor_keeps_plain_text(path: Seq<char>, other: Seq<char>)
    ensures
        (forall|i: int| 0 <= i < path.len() ==> is_anchor_char(#[trigger] path[i])) ==> anchor_of(path) == path,
        anchor_of(path) == anchor_of(other) ==> path.len() == other.len() && forall|i: int|
            0 <= i < path.len() && is_anchor_char(path[i]) && is_anchor_char(#[trigger] other[i]) ==> path[i] == other[i],
        forall|c: char|
            'a' <= c <= 'z' || 'A' <= c <= 'Z' || '0' <= c <= '9' || c == '-' || c == '_' <==> #[trigger] is_anchor_char(
                c,
            ),
        forall|i: int| 0 <= i < path.len() && !is_anchor_char(path[i]) ==> #[trigger] anchor_of(path)[i] == '-',
{
    if forall|i: int| 0 <= i < path.len() ==> is_anchor_char(#[trigger] path[i]) {
        assert(anchor_of(path) =~= path);
    }
    if anchor_of(path) == anchor_of(other) {
        assert(anchor_of(path).len() == path.len() && anchor_of(other).len() == other.len());
        assert forall|i: int|
            0 <= i < path.len() && is_anchor_char(path[i]) && is_anchor_char(#[trigger] other[i]) implies path[i]
            == other[i] by {
            assert(anchor_of(path)[i] == path[i]);
            assert(anchor_of(other)[i] == other[i]);
        }
    }
}

/// A path without an index is its own key.
pub proof fn law_plain_path_is_its_key(path: Seq<char>)
    requires
        !path.contains('['),
    ensures
        natural_key(path) == path,
    decreases path.len(),
{
    if path.len() > 0 {
        let t = path.drop_first();
        assert(path.contains(path[0]));
        assert(!t.contains('[')) by {
            if t.contains('[') {
                let i = choose|i: int| 0 <= i < t.len() && t[i] == '[';
                assert(path[i + 1] == '[');
            }
        }
        law_plain_path_is_its_key(t);
        assert(index_len(path) == 0);
        assert(natural_key(path) =~= path);
    }
}

/// A section named by a step that does not begin with a small letter keeps the name of the
/// step.
pub proof fn law_section_keeps_other_beginnings(first: Seq<char>, second: Seq<char>, rest: Seq<char>)
    requires
        !first.contains('.') && !second.contains('.'),
        first.len() > 0 ==> (first[0] as int) < 128 && !('a' <= first[0] <= 'z'),
        !second.contains('['),
    ensures
        group_of(first + seq!['.'] + second) == first,
        group_of(first + seq!['.'] + second + seq!['.'] + rest) == first,
{
    assert(!has_index(second)) by {
        if has_index(second) {
            let (i, j) = choose|i: int, j: int| crate::patterns::index_at(second, i, j);
            assert(second[i] == '[');
        }
    }
    lemma_section(first, second, rest);
    assert(capitalized(first) =~= first);
}

proof fn lemma_nothing_dotted(path: Seq<char>, inside: bool)
    requires
        forall|i: int| 0 <= i < path.len() ==> !begins_with_index(#[trigger] path.skip(i)),
    ensures
        dotted_from(path, inside) == path,
    decreases path.len(),
{
    if path.len() > 0 {
        assert(path.skip(0) =~= path);
        assert forall|k: int, i: int| 0 <= k <= path.len() && 0 <= i < path.skip(k).len() implies #[trigger] path.skip(
            k,
        ).skip(i) == path.skip(k + i) by {
            assert(path.skip(k).skip(i) =~= path.skip(k + i));
        }
        if path[0] == '\\' && path.len() > 1 {
            lemma_nothing_dotted(path.skip(2), true);
            assert(path.take(2) + path.skip(2) =~= path);
        } else {
            lemma_nothing_dotted(path.skip(1), path[0] != '.');
            assert(seq![path[0]] + path.skip(1) =~= path);
        }
    }
}

/// A path without an index is left as it is, and so are brackets that a step goes on
/// behind.
pub proof fn law_other_brackets_stay(before: Seq<char>, digits: Seq<char>, next: char, rest: Seq<char>)
    requires
        !before.contains('[') && !rest.contains('['),
        !digits.contains('[') && !digits.contains(']'),
        next != '.' && next != '[',
    ensures
        dotted(before) == before,
        dotted(before + seq!['['] + digits + seq![']', next] + rest) == before + seq!['['] + digits + seq![']', next]
            + rest,
{
    assert forall|i: int| 0 <= i < before.len() implies !begins_with_index(#[trigger] before.skip(i)) by {
        assert(before.contains(before[i]));
    }
    lemma_nothing_dotted(before, false);
    let path = before + seq!['['] + digits + seq![']', next] + rest;
    let b = before.len() as int;
    let d = digits.len() as int;
    assert forall|i: int| 0 <= i < path.len() implies !begins_with_index(#[trigger] path.skip(i)) by {
        if i < b {
            assert(before.contains(before[i]));
            assert(path[i] == before[i]);
        } else if i == b {
            let s = path.skip(i);
            assert(s[d + 1] == ']');
            assert forall|k: int| 0 <= k < d + 1 implies s[k] != ']' by {
                if k > 0 {
                    assert(s[k] == digits[k - 1]);
                    assert(digits.contains(digits[k - 1]));
                }
            }
            lemma_first_pos_is(s, ']', d + 1);
            assert(s[d + 2] == next);
        } else if i <= b + d {
            assert(path[i] == digits[i - b - 1]);
            assert(digits.contains(digits[i - b - 1]));
        } else if i >= b + d + 3 {
            assert(path[i] == rest[i - b - d - 3]);
            assert(rest.contains(rest[i - b - d - 3]));
        }
    }
    lemma_nothing_dotted(path, false);
}

/// A bracket behind a backslash is no index: with no other brackets the path is left as it
/// is.
pub proof fn law_escaped_bracket_stays(before: Seq<char>, rest: Seq<char>)
    requires
        !before.contains('[') && !before.contains('\\'),
        !rest.contains('['),
    ensures
        dotted(before + seq!['\\', '['] + rest) == before + seq!['\\', '['] + rest,
{
    lemma_escaped(before, rest, false);
}

proof fn lemma_escaped(before: Seq<char>, rest: Seq<char>, inside: bool)
    requires
        !before.contains('[') && !before.contains('\\'),
        !rest.contains('['),
    ensures
        dotted_from(before + seq!['\\', '['] + rest, inside) == before + seq!['\\', '['] + rest,
    decreases before.len(),
{
    let path = before + seq!['\\', '['] + rest;
    if before.len() == 0 {
        assert(path.skip(2) =~= rest);
        assert(path.take(2) + rest =~= path);
        assert forall|i: int| 0 <= i < rest.len() implies !begins_with_index(#[trigger] rest.skip(i)) by {
            assert(rest.contains(rest[i]));
        }
        lemma_nothing_dotted(rest, true);
    } else {
        let t = before.skip(1);
        assert(before.contains(before[0]));
        assert forall|c: char| t.contains(c) implies before.contains(c) by {
            let i = choose|i: int| 0 <= i < t.len() && t[i] == c;
            assert(before[i + 1] == c);
        }
        assert(path[0] == before[0]);
        assert(path.skip(1) =~= t + seq!['\\', '['] + rest);
        lemma_escaped(t, rest, before[0] != '.');
        assert(seq![before[0]] + path.skip(1) =~= path);
    }
}

} // verus!
